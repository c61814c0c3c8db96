//! The truncated product split into one function per loop level, and a
//! "slow" variant that routes every arithmetic step through a function call.
use vstd::prelude::*;
use vstd::std_specs::ops::{AddSpec, MulSpec};
use vstd::std_specs::cmp::PartialEqSpec;
use crate::matrix::{
    Matrix, N, cell_ij, cell_ready, cell_inputs_ready, cell_sum, dot_cell, stack_cell, kernel_ready,
    row_ready, low16, lemma_cell_indices, lemma_cell_sum_bound, lemma_kernel_row, lemma_low16,
    lemma_row_cell, lemma_term_bound, max_term, product, range_update,
};

verus! {

/// Cell `(i, j)` of `m3` (index `i * nn + j`) becomes the low 16 bits of
/// its old value plus the low 16 bits of row `i` of `m1` times column `j`
/// of `m2`; nothing else changes.
#[inline(never)]
pub fn l3(nn: usize, i: usize, j: usize, m1: &Matrix, m2: &Matrix, m3: &mut Matrix)
    requires
        cell_ready(m1.data@, m2.data@, old(m3).data@, nn as int, i as int, j as int),
    ensures
        final(m3).n == old(m3).n,
        final(m3).data@ == old(m3).data@.update(
            i * nn + j,
            cell_ij(m1.data@, m2.data@, old(m3).data@, nn as int, i as int, j as int),
        ),
{
    // The length of the output buffer bounds the cell index.
    let _len = m3.data.len();
    let p = i * nn + j;
    let old_cell = m3.data[p];
    let v = dot_cell(nn, i, j, m1, m2, old_cell);
    m3.data.set(p, v);
}

/// `l3` with the row and column staged in two fixed `N`-word buffers.
#[inline(never)]
pub fn l3_stack(nn: usize, i: usize, j: usize, m1: &Matrix, m2: &Matrix, m3: &mut Matrix)
    requires
        nn <= N,
        cell_ready(m1.data@, m2.data@, old(m3).data@, nn as int, i as int, j as int),
    ensures
        final(m3).n == old(m3).n,
        final(m3).data@ == old(m3).data@.update(
            i * nn + j,
            cell_ij(m1.data@, m2.data@, old(m3).data@, nn as int, i as int, j as int),
        ),
{
    // The length of the output buffer bounds the cell index.
    let _len = m3.data.len();
    let p = i * nn + j;
    let old_cell = m3.data[p];
    let v = stack_cell(nn, i, j, m1, m2, old_cell);
    m3.data.set(p, v);
}

/// Row `i` of `m3` becomes its truncated product values; nothing else changes.
#[inline(never)]
pub fn l2(nn: usize, i: usize, m1: &Matrix, m2: &Matrix, m3: &mut Matrix)
    requires
        row_ready(m1.data@, m2.data@, old(m3).data@, nn as int, i as int),
    ensures
        final(m3).n == old(m3).n,
        final(m3).data@ == range_update(m1.data@, m2.data@, old(m3).data@, nn as int, i * nn, i * nn + nn),
{
    let ghost c0 = m3.data@;
    assert(m3.data@ =~= range_update(m1.data@, m2.data@, c0, nn as int, i * nn, i * nn));
    let mut j: usize = 0;
    while j < nn
        invariant
            j <= nn,
            m3.n == old(m3).n,
            c0 == old(m3).data@,
            c0.len() == m3.data@.len(),
            row_ready(m1.data@, m2.data@, c0, nn as int, i as int),
            m3.data@ == range_update(m1.data@, m2.data@, c0, nn as int, i * nn, i * nn + j),
        decreases nn - j,
    {
        proof {
            lemma_row_cell(m1.data@, m2.data@, c0, nn as int, i as int, j as int);
        }
        l3(nn, i, j, m1, m2, m3);
        assert(m3.data@ =~= range_update(m1.data@, m2.data@, c0, nn as int, i * nn, i * nn + j + 1));
        j += 1;
    }
}

/// `l2` through `l3_stack`.
#[inline(never)]
pub fn l2_stack(nn: usize, i: usize, m1: &Matrix, m2: &Matrix, m3: &mut Matrix)
    requires
        nn <= N,
        row_ready(m1.data@, m2.data@, old(m3).data@, nn as int, i as int),
    ensures
        final(m3).n == old(m3).n,
        final(m3).data@ == range_update(m1.data@, m2.data@, old(m3).data@, nn as int, i * nn, i * nn + nn),
{
    let ghost c0 = m3.data@;
    assert(m3.data@ =~= range_update(m1.data@, m2.data@, c0, nn as int, i * nn, i * nn));
    let mut j: usize = 0;
    while j < nn
        invariant
            j <= nn,
            nn <= N,
            m3.n == old(m3).n,
            c0 == old(m3).data@,
            c0.len() == m3.data@.len(),
            row_ready(m1.data@, m2.data@, c0, nn as int, i as int),
            m3.data@ == range_update(m1.data@, m2.data@, c0, nn as int, i * nn, i * nn + j),
        decreases nn - j,
    {
        proof {
            lemma_row_cell(m1.data@, m2.data@, c0, nn as int, i as int, j as int);
        }
        l3_stack(nn, i, j, m1, m2, m3);
        assert(m3.data@ =~= range_update(m1.data@, m2.data@, c0, nn as int, i * nn, i * nn + j + 1));
        j += 1;
    }
}

/// Splicing the next row onto a prefix of updated rows.
proof fn lemma_next_row(a: Seq<usize>, b: Seq<usize>, c0: Seq<usize>, n: int, i: int)
    requires
        0 <= i < n,
        n * n <= c0.len(),
    ensures
        range_update(a, b, range_update(a, b, c0, n, 0, i * n), n, i * n, i * n + n)
            =~= range_update(a, b, c0, n, 0, (i + 1) * n),
{
    assert((i + 1) * n == i * n + n) by (nonlinear_arith);
}

/// Every cell of `m3` becomes its truncated product value.
#[inline(never)]
pub fn l1(nn: usize, m1: &Matrix, m2: &Matrix, m3: &mut Matrix)
    requires
        kernel_ready(m1.data@, m2.data@, old(m3).data@, nn as int),
    ensures
        final(m3).n == old(m3).n,
        final(m3).data@ == product(m1.data@, m2.data@, old(m3).data@, nn as int),
{
    let ghost c0 = m3.data@;
    assert(m3.data@ =~= range_update(m1.data@, m2.data@, c0, nn as int, 0, 0));
    let mut i: usize = 0;
    while i < nn
        invariant
            i <= nn,
            m3.n == old(m3).n,
            c0 == old(m3).data@,
            c0.len() == m3.data@.len(),
            kernel_ready(m1.data@, m2.data@, c0, nn as int),
            m3.data@ == range_update(m1.data@, m2.data@, c0, nn as int, 0, i * nn),
        decreases nn - i,
    {
        proof {
            lemma_kernel_row(m1.data@, m2.data@, c0, nn as int, i as int);
        }
        l2(nn, i, m1, m2, m3);
        proof {
            lemma_next_row(m1.data@, m2.data@, c0, nn as int, i as int);
        }
        i += 1;
    }
}

/// `l1` through `l2_stack`.
#[inline(never)]
pub fn l1_stack(nn: usize, m1: &Matrix, m2: &Matrix, m3: &mut Matrix)
    requires
        nn <= N,
        kernel_ready(m1.data@, m2.data@, old(m3).data@, nn as int),
    ensures
        final(m3).n == old(m3).n,
        final(m3).data@ == product(m1.data@, m2.data@, old(m3).data@, nn as int),
{
    let ghost c0 = m3.data@;
    assert(m3.data@ =~= range_update(m1.data@, m2.data@, c0, nn as int, 0, 0));
    let mut i: usize = 0;
    while i < nn
        invariant
            i <= nn,
            nn <= N,
            m3.n == old(m3).n,
            c0 == old(m3).data@,
            c0.len() == m3.data@.len(),
            kernel_ready(m1.data@, m2.data@, c0, nn as int),
            m3.data@ == range_update(m1.data@, m2.data@, c0, nn as int, 0, i * nn),
        decreases nn - i,
    {
        proof {
            lemma_kernel_row(m1.data@, m2.data@, c0, nn as int, i as int);
        }
        l2_stack(nn, i, m1, m2, m3);
        proof {
            lemma_next_row(m1.data@, m2.data@, c0, nn as int, i as int);
        }
        i += 1;
    }
}

/// Checks that the three matrices have the same dimension.
#[inline(never)]
pub fn size_check(m1: &Matrix, m2: &Matrix, m3: &Matrix) -> (r: Result<(), &'static str>)
    ensures
        r is Ok <==> (m1.n == m2.n && m1.n == m3.n),
        r is Err ==> r == Err::<(), &'static str>("matrix not aligned"),
        r is Ok ==> r == Ok::<(), &'static str>(()),
{
    if !equal(m1.n, m2.n) || !equal(m1.n, m3.n) {
        return Err("matrix not aligned");
    }
    Ok(())
}

/// `dot` through `size_check` and `l1`.
#[inline(never)]
pub fn fdot(m1: &Matrix, m2: &Matrix, m3: &mut Matrix) -> (r: Result<(), &'static str>)
    requires
        m1.n == m2.n && m1.n == old(m3).n ==> kernel_ready(
            m1.data@,
            m2.data@,
            old(m3).data@,
            m1.n as int,
        ),
    ensures
        final(m3).n == old(m3).n,
        r is Err <==> !(m1.n == m2.n && m1.n == old(m3).n),
        r is Err ==> r == Err::<(), &'static str>("matrix not aligned"),
        r is Ok ==> r == Ok::<(), &'static str>(()),
        r is Err ==> final(m3).data@ == old(m3).data@,
        r is Ok ==> final(m3).data@ == product(m1.data@, m2.data@, old(m3).data@, m1.n as int),
{
    match size_check(m1, m2, m3) {
        Err(e) => {
            return Err(e);
        },
        Ok(()) => {},
    }
    let nn = m1.n;
    l1(nn, m1, m2, m3);
    Ok(())
}

/// `dot_stack` through `size_check` and `l1_stack`.
#[inline(never)]
pub fn fdot_stack(m1: &Matrix, m2: &Matrix, m3: &mut Matrix) -> (r: Result<(), &'static str>)
    requires
        m1.n == m2.n && m1.n == old(m3).n ==> kernel_ready(
            m1.data@,
            m2.data@,
            old(m3).data@,
            m1.n as int,
        ) && m1.n <= N,
    ensures
        final(m3).n == old(m3).n,
        r is Err <==> !(m1.n == m2.n && m1.n == old(m3).n),
        r is Err ==> r == Err::<(), &'static str>("matrix not aligned"),
        r is Ok ==> r == Ok::<(), &'static str>(()),
        r is Err ==> final(m3).data@ == old(m3).data@,
        r is Ok ==> final(m3).data@ == product(m1.data@, m2.data@, old(m3).data@, m1.n as int),
{
    match size_check(m1, m2, m3) {
        Err(e) => {
            return Err(e);
        },
        Ok(()) => {},
    }
    let nn = m1.n;
    l1_stack(nn, m1, m2, m3);
    Ok(())
}

/// `dot` through `size_check` and `l1_slow`.
#[inline(never)]
pub fn fdot_slow(m1: &Matrix, m2: &Matrix, m3: &mut Matrix) -> (r: Result<(), &'static str>)
    requires
        m1.n == m2.n && m1.n == old(m3).n ==> kernel_ready(
            m1.data@,
            m2.data@,
            old(m3).data@,
            m1.n as int,
        ),
    ensures
        final(m3).n == old(m3).n,
        r is Err <==> !(m1.n == m2.n && m1.n == old(m3).n),
        r is Err ==> r == Err::<(), &'static str>("matrix not aligned"),
        r is Ok ==> r == Ok::<(), &'static str>(()),
        r is Err ==> final(m3).data@ == old(m3).data@,
        r is Ok ==> final(m3).data@ == product(m1.data@, m2.data@, old(m3).data@, m1.n as int),
{
    match size_check(m1, m2, m3) {
        Err(e) => {
            return Err(e);
        },
        Ok(()) => {},
    }
    let nn = m1.n;
    l1_slow(nn, m1, m2, m3);
    Ok(())
}

/// `l3` with every addition, product and truncation made by a function call.
#[inline(never)]
pub fn l3_slow(nn: usize, i: usize, j: usize, m1: &Matrix, m2: &Matrix, m3: &mut Matrix)
    requires
        cell_ready(m1.data@, m2.data@, old(m3).data@, nn as int, i as int, j as int),
    ensures
        final(m3).n == old(m3).n,
        final(m3).data@ == old(m3).data@.update(
            i * nn + j,
            cell_ij(m1.data@, m2.data@, old(m3).data@, nn as int, i as int, j as int),
        ),
{
    let alen = m1.data.len();
    let blen = m2.data.len();
    // The length of the output buffer bounds the cell index.
    let _len = m3.data.len();
    let mut sum: usize = 0;
    let mut k: usize = 0;
    while k < nn
        invariant
            k <= nn,
            alen == m1.data@.len(),
            blen == m2.data@.len(),
            cell_inputs_ready(m1.data@, m2.data@, nn as int, i as int, j as int),
            sum == cell_sum(m1.data@, m2.data@, nn as int, i as int, j as int, k as int),
        decreases nn - k,
    {
        proof {
            lemma_cell_indices(m1.data@, m2.data@, nn as int, i as int, j as int, k as int);
            lemma_cell_sum_bound(m1.data@, m2.data@, nn as int, i as int, j as int, k as int + 1);
            assert((k + 1) * max_term() <= nn * max_term()) by (nonlinear_arith)
                requires
                    k + 1 <= nn,
            ;
        }
        let x = overflow(m1.data[i * nn + k]);
        let y = overflow(m2.data[k * nn + j]);
        proof {
            lemma_term_bound(x as int, y as int);
        }
        let t = times(x, y);
        sum = self::add(sum, t);
        k += 1;
    }
    let p = i * nn + j;
    let a = overflow(m3.data[p]);
    let b = overflow(sum);
    let v = self::add(a, b);
    m3.data.set(p, v);
}

/// Row `i` through `l3_slow`.
#[inline(never)]
pub fn l2_slow(nn: usize, i: usize, m1: &Matrix, m2: &Matrix, m3: &mut Matrix)
    requires
        row_ready(m1.data@, m2.data@, old(m3).data@, nn as int, i as int),
    ensures
        final(m3).n == old(m3).n,
        final(m3).data@ == range_update(m1.data@, m2.data@, old(m3).data@, nn as int, i * nn, i * nn + nn),
{
    let ghost c0 = m3.data@;
    assert(m3.data@ =~= range_update(m1.data@, m2.data@, c0, nn as int, i * nn, i * nn));
    let mut j: usize = 0;
    while j < nn
        invariant
            j <= nn,
            m3.n == old(m3).n,
            c0 == old(m3).data@,
            c0.len() == m3.data@.len(),
            row_ready(m1.data@, m2.data@, c0, nn as int, i as int),
            m3.data@ == range_update(m1.data@, m2.data@, c0, nn as int, i * nn, i * nn + j),
        decreases nn - j,
    {
        proof {
            lemma_row_cell(m1.data@, m2.data@, c0, nn as int, i as int, j as int);
        }
        l3_slow(nn, i, j, m1, m2, m3);
        assert(m3.data@ =~= range_update(m1.data@, m2.data@, c0, nn as int, i * nn, i * nn + j + 1));
        j += 1;
    }
}

/// Every cell through `l2_slow`.
#[inline(never)]
pub fn l1_slow(nn: usize, m1: &Matrix, m2: &Matrix, m3: &mut Matrix)
    requires
        kernel_ready(m1.data@, m2.data@, old(m3).data@, nn as int),
    ensures
        final(m3).n == old(m3).n,
        final(m3).data@ == product(m1.data@, m2.data@, old(m3).data@, nn as int),
{
    let ghost c0 = m3.data@;
    assert(m3.data@ =~= range_update(m1.data@, m2.data@, c0, nn as int, 0, 0));
    let mut i: usize = 0;
    while i < nn
        invariant
            i <= nn,
            m3.n == old(m3).n,
            c0 == old(m3).data@,
            c0.len() == m3.data@.len(),
            kernel_ready(m1.data@, m2.data@, c0, nn as int),
            m3.data@ == range_update(m1.data@, m2.data@, c0, nn as int, 0, i * nn),
        decreases nn - i,
    {
        proof {
            lemma_kernel_row(m1.data@, m2.data@, c0, nn as int, i as int);
        }
        l2_slow(nn, i, m1, m2, m3);
        proof {
            lemma_next_row(m1.data@, m2.data@, c0, nn as int, i as int);
        }
        i += 1;
    }
}

/// `a + b`.
#[inline(never)]
pub fn add<T: core::ops::Add<Output = T>>(a: T, b: T) -> (r: T)
    requires
        a.add_req(b),
    ensures
        T::obeys_add_spec() ==> r == a.add_spec(b),
{
    a + b
}

/// `a == b`.
#[inline(never)]
pub fn equal<T: PartialEq>(a: T, b: T) -> (r: bool)
    ensures
        T::obeys_eq_spec() ==> r == a.eq_spec(&b),
{
    a == b
}

/// `a * b`.
#[inline(never)]
pub fn times<T: core::ops::Mul<Output = T>>(a: T, b: T) -> (r: T)
    requires
        a.mul_req(b),
    ensures
        T::obeys_mul_spec() ==> r == a.mul_spec(b),
{
    a * b
}

/// The low 16 bits of `n`.
#[inline(never)]
pub fn overflow(n: usize) -> (r: usize)
    ensures
        r == low16(n),
{
    proof {
        lemma_low16(n);
    }
    n & 0xFFFF
}

} // verus!
