//! Square matrices of machine words and the reference product kernels.
//!
//! Every kernel of this crate computes the same "truncated product": for each
//! cell `p = i * n + j` of the output it keeps the low 16 bits of the old
//! value and adds the low 16 bits of `sum_k low16(a[i][k]) * low16(b[k][j])`.
use vstd::prelude::*;
use vstd::arithmetic::div_mod::lemma_fundamental_div_mod_converse;

pub mod function;

verus! {

/// Dimension of the matrices used by the benchmarks.
pub const N: usize = 1000;

/// Seed of the pseudo-random generator that fills the benchmark matrices.
pub const RANDOM_SEED: usize = 123456;

/// A square matrix of dimension `n`, stored row-major in `data`.
pub struct Matrix {
    pub data: Vec<usize>,
    pub n: usize,
}

/// The low 16 bits of a word.
pub open spec fn low16(x: usize) -> int {
    (x % 0x10000) as int
}

/// `sum_{t < k} low16(a[i * n + t]) * low16(b[t * n + j])`.
pub open spec fn cell_sum(a: Seq<usize>, b: Seq<usize>, n: int, i: int, j: int, k: int) -> int
    decreases k,
{
    if k <= 0 {
        0
    } else {
        cell_sum(a, b, n, i, j, k - 1) + low16(a[i * n + (k - 1)]) * low16(b[(k - 1) * n + j])
    }
}

/// The new value of output cell `p` (row `p / n`, column `p % n`), given
/// the inputs `a`, `b` and the old output `c`.
pub open spec fn cell_at(a: Seq<usize>, b: Seq<usize>, c: Seq<usize>, n: int, p: int) -> usize {
    (low16(c[p]) + cell_sum(a, b, n, p / n, p % n, n) % 0x10000) as usize
}

/// `c` with every cell `p` in `lo <= p < hi` replaced by its truncated product value.
pub open spec fn range_update(
    a: Seq<usize>,
    b: Seq<usize>,
    c: Seq<usize>,
    n: int,
    lo: int,
    hi: int,
) -> Seq<usize> {
    Seq::new(c.len(), |p: int| if lo <= p < hi { cell_at(a, b, c, n, p) } else { c[p] })
}

/// The truncated product of `a` and `b` accumulated into `c`, all of dimension `n`.
pub open spec fn product(a: Seq<usize>, b: Seq<usize>, c: Seq<usize>, n: int) -> Seq<usize> {
    range_update(a, b, c, n, 0, n * n)
}

/// Largest product of two 16-bit values.
pub open spec fn max_term() -> int {
    4294836225
}

/// Both operand buffers hold at least `n * n` cells and a row-times-column
/// sum of dimension `n` fits in a word.
pub open spec fn operands_ready(a: Seq<usize>, b: Seq<usize>, n: int) -> bool {
    &&& n * n <= a.len()
    &&& n * n <= b.len()
    &&& n * n <= usize::MAX
    &&& n * max_term() <= usize::MAX
}

/// The operands are ready and the output buffer holds at least `n * n` cells.
pub open spec fn kernel_ready(a: Seq<usize>, b: Seq<usize>, c: Seq<usize>, n: int) -> bool {
    &&& operands_ready(a, b, n)
    &&& n * n <= c.len()
}

/// Row `i` of `a` and column `j` of `b`, each `n` cells long, lie inside
/// the buffers, and their row-times-column sum fits in a word.
pub open spec fn cell_inputs_ready(a: Seq<usize>, b: Seq<usize>, n: int, i: int, j: int) -> bool {
    &&& 0 <= i
    &&& 0 <= j
    &&& n > 0 ==> i * n + n <= a.len() && (n - 1) * n + j < b.len()
    &&& n * max_term() <= usize::MAX
}

/// The inputs of cell `(i, j)` are ready and the cell lies inside `c`.
pub open spec fn cell_ready(a: Seq<usize>, b: Seq<usize>, c: Seq<usize>, n: int, i: int, j: int) -> bool {
    &&& cell_inputs_ready(a, b, n, i, j)
    &&& i * n + j < c.len()
}

/// The new value of cell `(i, j)`: the low 16 bits of the old cell plus the
/// low 16 bits of row `i` of `a` times column `j` of `b`.
pub open spec fn cell_ij(a: Seq<usize>, b: Seq<usize>, c: Seq<usize>, n: int, i: int, j: int) -> usize {
    (low16(c[i * n + j]) + cell_sum(a, b, n, i, j, n) % 0x10000) as usize
}

/// Row `i` of `a` and of `c`, and all of `b`, lie inside the buffers, and a
/// row-times-column sum fits in a word.
pub open spec fn row_ready(a: Seq<usize>, b: Seq<usize>, c: Seq<usize>, n: int, i: int) -> bool {
    &&& 0 <= i
    &&& n > 0 ==> i * n + n <= a.len() && n * n <= b.len() && i * n + n <= c.len()
    &&& n * max_term() <= usize::MAX
}

/// In a ready row, every cell `(i, j)` with `j < n` is ready and is cell `i * n + j`.
pub proof fn lemma_row_cell(a: Seq<usize>, b: Seq<usize>, c: Seq<usize>, n: int, i: int, j: int)
    requires
        row_ready(a, b, c, n, i),
        0 <= j < n,
    ensures
        cell_ready(a, b, c, n, i, j),
        cell_ij(a, b, c, n, i, j) == cell_at(a, b, c, n, i * n + j),
        i * n <= i * n + j < i * n + n,
{
    lemma_row_col(n, i, j);
    assert((n - 1) * n + j < n * n) by (nonlinear_arith)
        requires
            0 <= j < n,
    ;
}

/// Inside an `n * n` product, every row `i < n` is ready.
pub proof fn lemma_kernel_row(a: Seq<usize>, b: Seq<usize>, c: Seq<usize>, n: int, i: int)
    requires
        kernel_ready(a, b, c, n),
        0 <= i < n,
    ensures
        row_ready(a, b, c, n, i),
        0 <= i * n,
        i * n + n <= n * n,
{
    assert(0 <= i * n && i * n + n <= n * n) by (nonlinear_arith)
        requires
            0 <= i < n,
    ;
}

/// Inside an `n * n` product, cell `(i, j)` is ready and is cell `i * n + j`.
pub proof fn lemma_kernel_cell(a: Seq<usize>, b: Seq<usize>, c: Seq<usize>, n: int, i: int, j: int)
    requires
        kernel_ready(a, b, c, n),
        0 <= i < n,
        0 <= j < n,
    ensures
        cell_ready(a, b, c, n, i, j),
        cell_ij(a, b, c, n, i, j) == cell_at(a, b, c, n, i * n + j),
        0 <= i * n + j < n * n,
{
    lemma_index_bound(n, i, j);
    lemma_row_col(n, i, j);
    assert(i * n + n <= n * n && (n - 1) * n + j < n * n) by (nonlinear_arith)
        requires
            0 <= i < n,
            0 <= j < n,
    ;
}

/// The cells a row-times-column sum reads lie inside the buffers.
pub proof fn lemma_cell_indices(a: Seq<usize>, b: Seq<usize>, n: int, i: int, j: int, k: int)
    requires
        cell_inputs_ready(a, b, n, i, j),
        0 <= k < n,
    ensures
        0 <= i * n + k < a.len(),
        0 <= k * n + j < b.len(),
{
    assert(0 <= i * n + k < a.len() && 0 <= k * n + j < b.len()) by (nonlinear_arith)
        requires
            0 <= i,
            0 <= j,
            0 <= k < n,
            i * n + n <= a.len(),
            (n - 1) * n + j < b.len(),
    ;
}

/// `x & 0xFFFF` is the low 16 bits of `x`.
pub proof fn lemma_low16(x: usize)
    ensures
        x & 0xFFFF == x % 0x10000,
        x & 0xFFFF <= 0xFFFF,
{
    assert(x & 0xFFFF == x % 0x10000) by (bit_vector);
    assert(x & 0xFFFF <= 0xFFFF) by (bit_vector);
}

/// Cell `(i, k)` of an `n * n` matrix lies inside it.
pub proof fn lemma_index_bound(n: int, i: int, k: int)
    requires
        0 <= i < n,
        0 <= k < n,
    ensures
        0 <= i * n + k < n * n,
{
    assert(0 <= i * n + k < n * n) by (nonlinear_arith)
        requires
            0 <= i < n,
            0 <= k < n,
    ;
}

/// Row and column of cell `i * n + j`.
pub proof fn lemma_row_col(n: int, i: int, j: int)
    requires
        0 <= i,
        0 <= j < n,
    ensures
        (i * n + j) / n == i,
        (i * n + j) % n == j,
{
    lemma_fundamental_div_mod_converse(i * n + j, n, i, j);
}

/// A product of two 16-bit values is at most `max_term()`.
pub proof fn lemma_term_bound(x: int, y: int)
    requires
        0 <= x <= 0xFFFF,
        0 <= y <= 0xFFFF,
    ensures
        0 <= x * y <= max_term(),
{
    assert(0 <= x * y <= 0xFFFF * 0xFFFF) by (nonlinear_arith)
        requires
            0 <= x <= 0xFFFF,
            0 <= y <= 0xFFFF,
    ;
}

/// A partial row-times-column sum of `k` terms is at most `k * max_term()`.
pub proof fn lemma_cell_sum_bound(a: Seq<usize>, b: Seq<usize>, n: int, i: int, j: int, k: int)
    requires
        0 <= k,
    ensures
        0 <= cell_sum(a, b, n, i, j, k) <= k * max_term(),
    decreases k,
{
    if k > 0 {
        lemma_cell_sum_bound(a, b, n, i, j, k - 1);
        lemma_term_bound(low16(a[i * n + (k - 1)]), low16(b[(k - 1) * n + j]));
    }
}

/// Every cell of a truncated product is below `2 * 0x10000`.
pub proof fn lemma_cell_at_bound(a: Seq<usize>, b: Seq<usize>, c: Seq<usize>, n: int, p: int)
    ensures
        cell_at(a, b, c, n, p) < 0x20000,
{
}

impl Matrix {
    /// A zero matrix of dimension `n`.
    pub fn new(n: usize) -> (m: Self)
        requires
            n * n <= usize::MAX,
        ensures
            m.n == n,
            m.data@.len() == n * n,
            forall|p: int| 0 <= p < n * n ==> m.data@[p] == 0,
    {
        Matrix { data: vec![0usize; n * n], n }
    }
}

/// The state of the benchmarks' linear congruential generator.
pub struct RandomState {
    seed: usize,
}

/// One step of the generator: `(s * 10007 + 3) mod 2^32`.
pub open spec fn lcg_next(s: int) -> int {
    (s * 10007 + 3) % 0x1_0000_0000
}

/// The generator state after `k` steps from `s`.
pub open spec fn lcg_iter(s: int, k: nat) -> int
    decreases k,
{
    if k == 0 {
        s
    } else {
        lcg_next(lcg_iter(s, (k - 1) as nat))
    }
}

impl RandomState {
    #[verifier::type_invariant]
    spec fn inv(self) -> bool {
        self.seed <= 0xFFFF_FFFF
    }

    /// The current seed.
    pub closed spec fn view(&self) -> nat {
        self.seed as nat
    }

    /// A generator at the benchmarks' seed.
    pub fn new() -> (r: Self)
        ensures
            r@ == RANDOM_SEED,
    {
        RandomState { seed: RANDOM_SEED }
    }
}

/// Advances the generator one step and returns the new seed.
pub fn random(state: &mut RandomState) -> (r: usize)
    ensures
        r == lcg_next(old(state)@ as int),
        r == (old(state)@ * 10007 + 3) % 0x1_0000_0000,
        final(state)@ == r,
        r <= 0xFFFF_FFFF,
{
    proof {
        use_type_invariant(&*state);
    }
    let s: u64 = state.seed as u64;
    let t: u64 = s * 10007 + 3;
    let low: u64 = t & 0xFFFF_FFFF;
    assert(t & 0xFFFF_FFFF == t % 0x1_0000_0000) by (bit_vector);
    let r: usize = low as usize;
    state.seed = r;
    r
}

/// `m` with cells `0 <= p < q` filled by successive generator values from `s`.
pub open spec fn random_fill(d: Seq<usize>, s: int, q: int) -> Seq<usize> {
    Seq::new(d.len(), |p: int| if 0 <= p < q { lcg_iter(s, (p + 1) as nat) as usize } else { d[p] })
}

/// Filling one more cell extends a partial fill.
proof fn lemma_random_fill_step(d: Seq<usize>, s: int, p: int, v: usize)
    requires
        0 <= p < d.len(),
        v == lcg_iter(s, (p + 1) as nat),
    ensures
        random_fill(d, s, p).update(p, v) =~= random_fill(d, s, p + 1),
{
}

/// Fills the `n * n` cells of `m` row by row with successive generator values.
///
/// Fails, leaving `m` and the generator unchanged, when `m.data` holds fewer
/// than `n * n` cells.
pub fn matrix_random(m: &mut Matrix, state: &mut RandomState) -> (r: Result<(), &'static str>)
    requires
        old(m).n * old(m).n <= usize::MAX,
    ensures
        final(m).n == old(m).n,
        r is Err <==> old(m).data@.len() < old(m).n * old(m).n,
        r is Err ==> r == Err::<(), &'static str>("matrix data size invalid"),
        r is Ok ==> r == Ok::<(), &'static str>(()),
        r is Err ==> final(m).data@ == old(m).data@ && final(state)@ == old(state)@,
        r is Ok ==> final(m).data@ == random_fill(old(m).data@, old(state)@ as int, old(m).n * old(m).n)
            && final(state)@ == lcg_iter(old(state)@ as int, (old(m).n * old(m).n) as nat),
{
    if m.data.len() < m.n * m.n {
        return Err("matrix data size invalid");
    }
    let nn = m.n;
    let ghost d0 = m.data@;
    let ghost s0 = state@ as int;
    assert(m.data@ =~= random_fill(d0, s0, 0));
    let mut i: usize = 0;
    while i < nn
        invariant
            m.n == nn,
            i <= nn,
            nn * nn <= m.data@.len(),
            nn * nn <= usize::MAX,
            m.data@ == random_fill(d0, s0, i * nn),
            state@ == lcg_iter(s0, (i * nn) as nat),
        decreases nn - i,
    {
        let mut j: usize = 0;
        while j < nn
            invariant
                m.n == nn,
                i < nn,
                j <= nn,
                nn * nn <= m.data@.len(),
                nn * nn <= usize::MAX,
                m.data@ == random_fill(d0, s0, i * nn + j),
                state@ == lcg_iter(s0, (i * nn + j) as nat),
            decreases nn - j,
        {
            proof {
                lemma_index_bound(nn as int, i as int, j as int);
            }
            let p = i * nn + j;
            let v = random(state);
            assert(v == lcg_iter(s0, (p + 1) as nat));
            proof {
                lemma_random_fill_step(d0, s0, p as int, v);
            }
            m.data.set(p, v);
            j += 1;
        }
        assert((i + 1) * nn == i * nn + nn) by (nonlinear_arith);
        i += 1;
    }
    Ok(())
}

/// One output cell: truncated row `i` of `m1` times column `j` of `m2`,
/// added to the low 16 bits of the old cell.
pub(crate) fn dot_cell(nn: usize, i: usize, j: usize, m1: &Matrix, m2: &Matrix, old_cell: usize) -> (r: usize)
    requires
        cell_inputs_ready(m1.data@, m2.data@, nn as int, i as int, j as int),
    ensures
        r == (low16(old_cell) + cell_sum(m1.data@, m2.data@, nn as int, i as int, j as int, nn as int)
            % 0x10000),
{
    let alen = m1.data.len();
    let blen = m2.data.len();
    let mut sum: usize = 0;
    for k in 0..nn
        invariant
            alen == m1.data@.len(),
            blen == m2.data@.len(),
            cell_inputs_ready(m1.data@, m2.data@, nn as int, i as int, j as int),
            sum == cell_sum(m1.data@, m2.data@, nn as int, i as int, j as int, k as int),
    {
        proof {
            lemma_cell_indices(m1.data@, m2.data@, nn as int, i as int, j as int, k as int);
            lemma_cell_sum_bound(m1.data@, m2.data@, nn as int, i as int, j as int, k as int + 1);
            assert((k + 1) * max_term() <= nn * max_term()) by (nonlinear_arith)
                requires
                    k + 1 <= nn,
            ;
        }
        let x = m1.data[i * nn + k] & 0xFFFF;
        let y = m2.data[k * nn + j] & 0xFFFF;
        proof {
            lemma_low16(m1.data@[i * nn + k]);
            lemma_low16(m2.data@[k * nn + j]);
            lemma_term_bound(x as int, y as int);
        }
        sum += x * y;
    }
    proof {
        lemma_low16(old_cell);
        lemma_low16(sum);
    }
    (old_cell & 0xFFFF) + (sum & 0xFFFF)
}

/// One output cell, staging row `i` of `m1` and column `j` of `m2` in two
/// fixed `N`-word buffers (zero past `nn`) and folding their products.
pub(crate) fn stack_cell(nn: usize, i: usize, j: usize, m1: &Matrix, m2: &Matrix, old_cell: usize) -> (r: usize)
    requires
        nn <= N,
        cell_inputs_ready(m1.data@, m2.data@, nn as int, i as int, j as int),
    ensures
        r == (low16(old_cell) + cell_sum(m1.data@, m2.data@, nn as int, i as int, j as int, nn as int)
            % 0x10000),
{
    let alen = m1.data.len();
    let blen = m2.data.len();
    let mut row: [usize; N] = [0usize; 1000];
    let mut col: [usize; N] = [0usize; 1000];
    for k in 0..nn
        invariant
            alen == m1.data@.len(),
            blen == m2.data@.len(),
            nn <= N,
            cell_inputs_ready(m1.data@, m2.data@, nn as int, i as int, j as int),
            forall|q: int| 0 <= q < k ==> row[q] == low16(m1.data@[i * nn + q]),
            forall|q: int| 0 <= q < k ==> col[q] == low16(m2.data@[q * nn + j]),
            forall|q: int| k <= q < N ==> row[q] == 0 && col[q] == 0,
    {
        proof {
            lemma_cell_indices(m1.data@, m2.data@, nn as int, i as int, j as int, k as int);
            lemma_low16(m1.data@[i * nn + k]);
            lemma_low16(m2.data@[k * nn + j]);
        }
        row[k] = m1.data[i * nn + k] & 0xFFFF;
        col[k] = m2.data[k * nn + j] & 0xFFFF;
    }
    let mut sum: usize = 0;
    for k in 0..N
        invariant
            nn <= N,
            cell_inputs_ready(m1.data@, m2.data@, nn as int, i as int, j as int),
            forall|q: int| 0 <= q < nn ==> row[q] == low16(m1.data@[i * nn + q]),
            forall|q: int| 0 <= q < nn ==> col[q] == low16(m2.data@[q * nn + j]),
            forall|q: int| nn <= q < N ==> row[q] == 0 && col[q] == 0,
            sum == cell_sum(m1.data@, m2.data@, nn as int, i as int, j as int, if k < nn { k as int } else { nn as int }),
    {
        let x = row[k];
        let y = col[k];
        proof {
            if k < nn {
                lemma_cell_sum_bound(m1.data@, m2.data@, nn as int, i as int, j as int, k as int + 1);
                assert((k + 1) * max_term() <= nn * max_term()) by (nonlinear_arith)
                    requires
                        k + 1 <= nn,
                ;
                lemma_low16(m1.data@[i * nn + k]);
                lemma_low16(m2.data@[k * nn + j]);
                lemma_term_bound(x as int, y as int);
            } else {
                assert(row[k as int] == 0);
                assert(x * y == 0);
            }
        }
        sum = sum + x * y;
    }
    proof {
        lemma_low16(old_cell);
        lemma_low16(sum);
    }
    (old_cell & 0xFFFF) + (sum & 0xFFFF)
}

/// `dot` with each cell computed through two fixed `N`-word staging buffers.
///
/// Fails with `m3` unchanged when the three dimensions differ.
pub fn dot_stack(m1: &Matrix, m2: &Matrix, m3: &mut Matrix) -> (r: Result<(), &'static str>)
    requires
        m1.n == m2.n && m1.n == old(m3).n ==> kernel_ready(
            m1.data@,
            m2.data@,
            old(m3).data@,
            m1.n as int,
        ) && m1.n <= N,
    ensures
        final(m3).n == old(m3).n,
        r is Err <==> !(m1.n == m2.n && m1.n == old(m3).n),
        r is Err ==> r == Err::<(), &'static str>("matrix not aligned"),
        r is Ok ==> r == Ok::<(), &'static str>(()),
        r is Err ==> final(m3).data@ == old(m3).data@,
        r is Ok ==> final(m3).data@ == product(m1.data@, m2.data@, old(m3).data@, m1.n as int),
{
    if m1.n != m2.n || m1.n != m3.n {
        return Err("matrix not aligned");
    }
    let nn = m1.n;
    let ghost c0 = m3.data@;
    assert(m3.data@ =~= range_update(m1.data@, m2.data@, c0, nn as int, 0, 0));
    let mut i: usize = 0;
    while i < nn
        invariant
            m3.n == nn,
            nn == m1.n,
            nn <= N,
            i <= nn,
            c0.len() == m3.data@.len(),
            kernel_ready(m1.data@, m2.data@, c0, nn as int),
            m3.data@ == range_update(m1.data@, m2.data@, c0, nn as int, 0, i * nn),
        decreases nn - i,
    {
        let mut j: usize = 0;
        while j < nn
            invariant
                m3.n == nn,
                nn == m1.n,
                nn <= N,
                i < nn,
                j <= nn,
                c0.len() == m3.data@.len(),
                kernel_ready(m1.data@, m2.data@, c0, nn as int),
                m3.data@ == range_update(m1.data@, m2.data@, c0, nn as int, 0, i * nn + j),
            decreases nn - j,
        {
            proof {
                lemma_kernel_cell(m1.data@, m2.data@, c0, nn as int, i as int, j as int);
                lemma_row_col(nn as int, i as int, j as int);
            }
            let p = i * nn + j;
            let old_cell = m3.data[p];
            let v = stack_cell(nn, i, j, m1, m2, old_cell);
            m3.data.set(p, v);
            assert(m3.data@ =~= range_update(m1.data@, m2.data@, c0, nn as int, 0, p + 1));
            j += 1;
        }
        assert((i + 1) * nn == i * nn + nn) by (nonlinear_arith);
        i += 1;
    }
    Ok(())
}

/// The truncated product `m3 := (m3 & 0xFFFF) + ((m1 * m2) & 0xFFFF)`, cell by cell.
///
/// Fails with `m3` unchanged when the three dimensions differ.
pub fn dot(m1: &Matrix, m2: &Matrix, m3: &mut Matrix) -> (r: Result<(), &'static str>)
    requires
        m1.n == m2.n && m1.n == old(m3).n ==> kernel_ready(
            m1.data@,
            m2.data@,
            old(m3).data@,
            m1.n as int,
        ),
    ensures
        final(m3).n == old(m3).n,
        r is Err <==> !(m1.n == m2.n && m1.n == old(m3).n),
        r is Err ==> r == Err::<(), &'static str>("matrix not aligned"),
        r is Ok ==> r == Ok::<(), &'static str>(()),
        r is Err ==> final(m3).data@ == old(m3).data@,
        r is Ok ==> final(m3).data@ == product(m1.data@, m2.data@, old(m3).data@, m1.n as int),
{
    if m1.n != m2.n || m1.n != m3.n {
        return Err("matrix not aligned");
    }
    let nn = m1.n;
    let ghost c0 = m3.data@;
    assert(m3.data@ =~= range_update(m1.data@, m2.data@, c0, nn as int, 0, 0));
    let mut i: usize = 0;
    while i < nn
        invariant
            m3.n == nn,
            nn == m1.n,
            i <= nn,
            c0.len() == m3.data@.len(),
            kernel_ready(m1.data@, m2.data@, c0, nn as int),
            m3.data@ == range_update(m1.data@, m2.data@, c0, nn as int, 0, i * nn),
        decreases nn - i,
    {
        let mut j: usize = 0;
        while j < nn
            invariant
                m3.n == nn,
                nn == m1.n,
                i < nn,
                j <= nn,
                c0.len() == m3.data@.len(),
                kernel_ready(m1.data@, m2.data@, c0, nn as int),
                m3.data@ == range_update(m1.data@, m2.data@, c0, nn as int, 0, i * nn + j),
            decreases nn - j,
        {
            proof {
                lemma_kernel_cell(m1.data@, m2.data@, c0, nn as int, i as int, j as int);
                lemma_row_col(nn as int, i as int, j as int);
            }
            let p = i * nn + j;
            let old_cell = m3.data[p];
            let v = dot_cell(nn, i, j, m1, m2, old_cell);
            m3.data.set(p, v);
            assert(m3.data@ =~= range_update(m1.data@, m2.data@, c0, nn as int, 0, p + 1));
            j += 1;
        }
        assert((i + 1) * nn == i * nn + nn) by (nonlinear_arith);
        i += 1;
    }
    Ok(())
}

} // verus!
