//! The expanded call-overhead workload: the same shape with a fan-out of 5,
//! whose nested-loop variant keeps its running total to 32 bits.
use vstd::prelude::*;
use vstd::arithmetic::power::pow;
use crate::overhead::{lemma_fan_out_step, opaque};

verus! {

/// Fan-out of every level of the workload.
pub const LAYER: usize = 5;

/// The value every variant of the workload computes: `LAYER^(levels)`.
pub open spec fn layer_count(levels: nat) -> int {
    pow(LAYER as int, levels)
}

/// `LAYER^9` as a number.
pub proof fn lemma_layer_count_9()
    ensures
        layer_count(9) == 1953125,
{
    reveal_with_fuel(pow, 10);
}

/// The nested-loop variant: nine nested loops of `LAYER` rounds each,
/// the innermost of which adds one; the total is kept to its low 32 bits.
#[verifier::loop_isolation(false)]
pub fn func() -> (sum: usize)
    ensures
        sum == layer_count(9),
{
    proof {
        lemma_layer_count_9();
    }
    let mut sum: usize = 0;
    let mut n1: usize = 0;
    let mut n2: usize = 0;
    let mut n3: usize = 0;
    let mut n4: usize = 0;
    let mut n5: usize = 0;
    let mut n6: usize = 0;
    let mut n7: usize = 0;
    let mut n8: usize = 0;
    for a1 in 0..LAYER
        invariant
            sum == a1 * 390625,
    {
        n1 = 0;
        for a2 in 0..LAYER
            invariant
                n1 == a2 * 78125,
        {
            n2 = 0;
            for a3 in 0..LAYER
                invariant
                    n2 == a3 * 15625,
            {
                n3 = 0;
                for a4 in 0..LAYER
                    invariant
                        n3 == a4 * 3125,
                {
                    n4 = 0;
                    for a5 in 0..LAYER
                        invariant
                            n4 == a5 * 625,
                    {
                        n5 = 0;
                        for a6 in 0..LAYER
                            invariant
                                n5 == a6 * 125,
                        {
                            n6 = 0;
                            for a7 in 0..LAYER
                                invariant
                                    n6 == a7 * 25,
                            {
                                n7 = 0;
                                for a8 in 0..LAYER
                                    invariant
                                        n7 == a8 * 5,
                                {
                                    n8 = 0;
                                    for a9 in 0..LAYER
                                        invariant
                                            n8 == a9,
                                    {
                                        n8 = opaque(n8 + 1);
                                    }
                                    n7 += n8;
                                }
                                n6 += n7;
                            }
                            n5 += n6;
                        }
                        n4 += n5;
                    }
                    n3 += n4;
                }
                n2 += n3;
            }
            n1 += n2;
        }
        let total: usize = sum + n1;
        assert(total & 0xFFFF_FFFF == total) by (bit_vector)
            requires
                total <= 1953125,
        ;
        sum = total & 0xFFFF_FFFF;
    }
    sum
}

/// The recursive variant: `func_inner(8)`.
pub fn func0() -> (r: usize)
    ensures
        r == layer_count(9),
{
    proof {
        lemma_layer_count_9();
    }
    func_inner(8)
}

/// `LAYER^(layer + 1)` unit increments, by a recursion `layer + 1` calls deep;
/// 1 when `layer` is negative.
#[inline(never)]
pub fn func_inner(layer: isize) -> (r: usize)
    requires
        layer < 0 || layer_count((layer + 1) as nat) <= usize::MAX,
    ensures
        r == (if layer < 0 { 1 } else { layer_count((layer + 1) as nat) }),
    decreases layer + 1,
{
    if layer >= 0 {
        proof {
            lemma_layer_count_step(layer as nat);
        }
        let mut n: usize = 0;
        let mut i: usize = 0;
        while i < LAYER
            invariant
                layer >= 0,
                i <= LAYER,
                layer_count((layer + 1) as nat) <= usize::MAX,
                layer_count((layer + 1) as nat) == LAYER * layer_count(layer as nat),
                layer_count(layer as nat) >= 1,
                n == i * layer_count(layer as nat),
            decreases LAYER - i,
        {
            proof {
                assert((i + 1) * layer_count(layer as nat) <= LAYER * layer_count(layer as nat))
                    by (nonlinear_arith)
                    requires
                        i + 1 <= LAYER,
                        layer_count(layer as nat) >= 1,
                ;
                assert((i + 1) * layer_count(layer as nat) == i * layer_count(layer as nat)
                    + layer_count(layer as nat)) by (nonlinear_arith);
            }
            let v = func_inner(layer - 1);
            assert(v == layer_count(layer as nat)) by {
                if layer == 0 {
                    reveal_with_fuel(pow, 1);
                }
            }
            n += v;
            i += 1;
        }
        n
    } else {
        opaque(1)
    }
}

/// `LAYER^(k + 1) == LAYER * LAYER^k` and `LAYER^k >= 1`.
pub proof fn lemma_layer_count_step(k: nat)
    ensures
        layer_count(k + 1) == LAYER * layer_count(k),
        layer_count(k) >= 1,
{
    lemma_fan_out_step(LAYER as int, k);
}

} // verus!
