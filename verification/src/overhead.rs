//! The call-overhead workload: `LAYER^9` unit increments, counted once by
//! nine nested loops and once by a recursion nine calls deep.
use vstd::prelude::*;
use vstd::arithmetic::power::pow;

verus! {

/// Fan-out of every level of the workload.
pub const LAYER: usize = 8;

/// The value every variant of the workload computes: `LAYER^(levels)`.
pub open spec fn layer_count(levels: nat) -> int {
    pow(LAYER as int, levels)
}

/// `LAYER^9` as a number.
pub proof fn lemma_layer_count_9()
    ensures
        layer_count(9) == 134217728,
{
    reveal_with_fuel(pow, 10);
}

/// `x`, which the optimiser must not see through, so that the counted
/// increments are really performed.
///
/// Trusted: calls `std::hint::black_box`, which std documents as returning
/// its argument. What the optimiser does with the hint is left unsaid.
#[verifier::external_body]
pub(crate) fn opaque(x: usize) -> (r: usize)
    ensures
        r == x,
{
    std::hint::black_box(x)
}

/// The nested-loop variant: nine nested loops of `LAYER` rounds each,
/// the innermost of which adds one.
#[verifier::loop_isolation(false)]
pub fn func() -> (sum: usize)
    ensures
        sum == layer_count(9),
{
    proof {
        lemma_layer_count_9();
    }
    let mut sum: usize = 0;
    let mut n1: usize = 0;
    let mut n2: usize = 0;
    let mut n3: usize = 0;
    let mut n4: usize = 0;
    let mut n5: usize = 0;
    let mut n6: usize = 0;
    let mut n7: usize = 0;
    let mut n8: usize = 0;
    for a1 in 0..LAYER
        invariant
            sum == a1 * 16777216,
    {
        n1 = 0;
        for a2 in 0..LAYER
            invariant
                n1 == a2 * 2097152,
        {
            n2 = 0;
            for a3 in 0..LAYER
                invariant
                    n2 == a3 * 262144,
            {
                n3 = 0;
                for a4 in 0..LAYER
                    invariant
                        n3 == a4 * 32768,
                {
                    n4 = 0;
                    for a5 in 0..LAYER
                        invariant
                            n4 == a5 * 4096,
                    {
                        n5 = 0;
                        for a6 in 0..LAYER
                            invariant
                                n5 == a6 * 512,
                        {
                            n6 = 0;
                            for a7 in 0..LAYER
                                invariant
                                    n6 == a7 * 64,
                            {
                                n7 = 0;
                                for a8 in 0..LAYER
                                    invariant
                                        n7 == a8 * 8,
                                {
                                    n8 = 0;
                                    for a9 in 0..LAYER
                                        invariant
                                            n8 == a9,
                                    {
                                        n8 = opaque(n8 + 1);
                                    }
                                    n7 += n8;
                                }
                                n6 += n7;
                            }
                            n5 += n6;
                        }
                        n4 += n5;
                    }
                    n3 += n4;
                }
                n2 += n3;
            }
            n1 += n2;
        }
        sum = sum + n1;
    }
    sum
}

/// The recursive variant: `func_inner(8)`.
pub fn func0() -> (r: usize)
    ensures
        r == layer_count(9),
{
    proof {
        lemma_layer_count_9();
    }
    func_inner(8)
}

/// `LAYER^(layer + 1)` unit increments, by a recursion `layer + 1` calls deep;
/// 1 when `layer` is negative.
#[inline(never)]
pub fn func_inner(layer: isize) -> (r: usize)
    requires
        layer < 0 || layer_count((layer + 1) as nat) <= usize::MAX,
    ensures
        r == (if layer < 0 { 1 } else { layer_count((layer + 1) as nat) }),
    decreases layer + 1,
{
    if layer >= 0 {
        proof {
            lemma_layer_count_step(layer as nat);
        }
        let mut n: usize = 0;
        let mut i: usize = 0;
        while i < LAYER
            invariant
                layer >= 0,
                i <= LAYER,
                layer_count((layer + 1) as nat) <= usize::MAX,
                layer_count((layer + 1) as nat) == LAYER * layer_count(layer as nat),
                layer_count(layer as nat) >= 1,
                n == i * layer_count(layer as nat),
            decreases LAYER - i,
        {
            proof {
                assert((i + 1) * layer_count(layer as nat) <= LAYER * layer_count(layer as nat))
                    by (nonlinear_arith)
                    requires
                        i + 1 <= LAYER,
                        layer_count(layer as nat) >= 1,
                ;
                assert((i + 1) * layer_count(layer as nat) == i * layer_count(layer as nat)
                    + layer_count(layer as nat)) by (nonlinear_arith);
            }
            let v = func_inner(layer - 1);
            assert(v == layer_count(layer as nat)) by {
                if layer == 0 {
                    reveal_with_fuel(pow, 1);
                }
            }
            n += v;
            i += 1;
        }
        n
    } else {
        opaque(1)
    }
}

/// `LAYER^(k + 1) == LAYER * LAYER^k` and `LAYER^k >= 1`.
pub proof fn lemma_layer_count_step(k: nat)
    ensures
        layer_count(k + 1) == LAYER * layer_count(k),
        layer_count(k) >= 1,
{
    lemma_fan_out_step(LAYER as int, k);
}

/// For a fan-out `b >= 1`: `b^(k + 1) == b * b^k` and `b^k >= 1`.
pub proof fn lemma_fan_out_step(b: int, k: nat)
    requires
        b >= 1,
    ensures
        pow(b, k + 1) == b * pow(b, k),
        pow(b, k) >= 1,
    decreases k,
{
    if k > 0 {
        lemma_fan_out_step(b, (k - 1) as nat);
        assert(pow(b, k) >= 1) by {
            reveal_with_fuel(pow, 2);
            assert(b * pow(b, (k - 1) as nat) >= 1) by (nonlinear_arith)
                requires
                    b >= 1,
                    pow(b, (k - 1) as nat) >= 1,
            ;
        }
    }
    reveal_with_fuel(pow, 2);
}

} // verus!
