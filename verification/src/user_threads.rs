//! The matrix product spread over user-level threads: one thread per row,
//! or one thread per cell whose argument packs the row into the high 32 bits
//! and the column into the low 32 bits.
use vstd::prelude::*;
use crate::matrix::{Matrix, N, cell_ij, cell_ready, kernel_ready, product, range_update};
use crate::matrix::function::{l3, l3_stack};
use crate::runtime::{Runtime, RuntimeModel, lemma_spawn_n};

verus! {

/// The thread argument of cell `(i, j)`.
pub open spec fn pack(i: int, j: int) -> int {
    i * 0x1_0000_0000 + j
}

/// The row a cell thread's argument names.
pub open spec fn row_of(idx: usize) -> int {
    idx as int / 0x1_0000_0000
}

/// The column a cell thread's argument names.
pub open spec fn col_of(idx: usize) -> int {
    idx as int % 0x1_0000_0000
}

/// Law: a cell thread reads back the row and column it was spawned for.
pub proof fn lemma_pack_roundtrip(i: int, j: int)
    requires
        0 <= i,
        0 <= j < 0x1_0000_0000,
        pack(i, j) <= usize::MAX,
    ensures
        row_of(pack(i, j) as usize) == i,
        col_of(pack(i, j) as usize) == j,
{
    vstd::arithmetic::div_mod::lemma_fundamental_div_mod_converse(
        pack(i, j),
        0x1_0000_0000,
        i,
        j,
    );
}

/// `c` after the cell threads of cells `0 .. k` (row-major, the order in
/// which `spawn_l2` spawns them and the runtime dispatches them) each ran
/// `l3_thread` once: thread `p` updates cell `(p / N, p % N)` as `l3` does.
pub open spec fn run_cell_threads(a: Seq<usize>, b: Seq<usize>, c: Seq<usize>, k: nat) -> Seq<usize>
    decreases k,
{
    if k == 0 {
        c
    } else {
        let prev = run_cell_threads(a, b, c, (k - 1) as nat);
        let i = (k - 1) / (N as int);
        let j = (k - 1) % (N as int);
        prev.update(i * N + j, cell_ij(a, b, prev, N as int, i, j))
    }
}

/// Law: the `N * N` cell threads, each run once, leave the output equal to
/// the truncated product, as `dot` computes it.
pub proof fn lemma_cell_threads_compute_product(a: Seq<usize>, b: Seq<usize>, c: Seq<usize>)
    requires
        kernel_ready(a, b, c, N as int),
    ensures
        run_cell_threads(a, b, c, (N * N) as nat) == product(a, b, c, N as int),
{
    lemma_cell_threads_prefix(a, b, c, (N * N) as nat);
}

/// The first `k` cell threads update exactly the first `k` cells.
proof fn lemma_cell_threads_prefix(a: Seq<usize>, b: Seq<usize>, c: Seq<usize>, k: nat)
    requires
        kernel_ready(a, b, c, N as int),
        k <= N * N,
    ensures
        run_cell_threads(a, b, c, k) == range_update(a, b, c, N as int, 0, k as int),
    decreases k,
{
    if k == 0 {
        assert(c =~= range_update(a, b, c, N as int, 0, 0));
    } else {
        lemma_cell_threads_prefix(a, b, c, (k - 1) as nat);
        let i = (k - 1) / (N as int);
        let j = (k - 1) % (N as int);
        vstd::arithmetic::div_mod::lemma_fundamental_div_mod(k - 1, N as int);
        assert(i * N + j == k - 1);
        assert(run_cell_threads(a, b, c, k) =~= range_update(a, b, c, N as int, 0, k as int));
    }
}

/// One spawn keeps the slots already spawned and adds the next one.
proof fn lemma_spawn_step(m0: RuntimeModel, k: nat)
    requires
        m0.wf(),
        k < m0.unused.len(),
    ensures
        m0.spawn_n(k).wf(),
        m0.spawn_n(k).unused.len() > 0,
        m0.spawn_n(k).unused[0] == m0.unused[k as int],
        m0.spawn_n(k).len() == m0.len(),
        m0.spawn_n((k + 1) as nat).len() == m0.len(),
        m0.unused[k as int] < m0.len(),
        forall|t: int| 0 <= t < k ==> m0.unused[t] != m0.unused[k as int] && m0.unused[t] < m0.len(),
{
    lemma_spawn_n(m0, k);
    assert(m0.spawn_n(k).unused[0] == m0.unused.skip(k as int)[0]);
}

/// Spawns one thread per row: thread `i` runs `l2_thread(i)`.
pub fn spawn_l1(rt: &mut Runtime, l2_thread: usize, entry: usize)
    requires
        old(rt).wf(),
        old(rt)@.unused.len() >= N,
    ensures
        final(rt).wf(),
        final(rt)@ == old(rt)@.spawn_n(N as nat),
        final(rt).stack_words() == old(rt).stack_words(),
        forall|k: int|
            0 <= k < N ==> #[trigger] final(rt).task(old(rt)@.unused[k] as int).starts(
                l2_thread,
                k as usize,
                entry,
                old(rt).stack_words() as int,
            ),
{
    let ghost m0 = rt@;
    let ghost w = rt.stack_words() as int;
    for i in 0..N
        invariant
            m0 == old(rt)@,
            w == old(rt).stack_words(),
            m0.wf(),
            m0.unused.len() >= N,
            rt.wf(),
            rt@ == m0.spawn_n(i as nat),
            rt.stack_words() == w,
            forall|k: int|
                0 <= k < i ==> #[trigger] rt.task(m0.unused[k] as int).starts(
                    l2_thread,
                    k as usize,
                    entry,
                    w,
                ),
    {
        proof {
            lemma_spawn_step(m0, i as nat);
        }
        let ghost prev = *rt;
        rt.spawn(l2_thread, i, entry);
        assert(rt@ == m0.spawn_n((i + 1) as nat));
        assert forall|k: int| 0 <= k < i + 1 implies #[trigger] rt.task(m0.unused[k] as int).starts(
            l2_thread,
            k as usize,
            entry,
            w,
        ) by {
            if k < i {
                assert(rt.task(m0.unused[k] as int) == prev.task(m0.unused[k] as int));
            }
        }
    }
}

/// Spawns one thread per cell, row by row: the thread of cell `(i, j)` runs
/// `l3_thread(pack(i, j))`.
pub fn spawn_l2(rt: &mut Runtime, l3_thread: usize, entry: usize)
    requires
        old(rt).wf(),
        old(rt)@.unused.len() >= N * N,
        pack(N - 1, N - 1) <= usize::MAX,
    ensures
        final(rt).wf(),
        final(rt)@ == old(rt)@.spawn_n((N * N) as nat),
        final(rt).stack_words() == old(rt).stack_words(),
        forall|i: int, j: int|
            0 <= i < N && 0 <= j < N ==> #[trigger] final(rt).task(
                old(rt)@.unused[i * N + j] as int,
            ).starts(l3_thread, pack(i, j) as usize, entry, old(rt).stack_words() as int),
{
    let ghost m0 = rt@;
    let ghost w = rt.stack_words() as int;
    for i in 0..N
        invariant
            m0 == old(rt)@,
            w == old(rt).stack_words(),
            m0.wf(),
            m0.unused.len() >= N * N,
            pack(N - 1, N - 1) <= usize::MAX,
            rt.wf(),
            rt@ == m0.spawn_n((i * N) as nat),
            rt.stack_words() == w,
            forall|a: int, b: int|
                0 <= a < i && 0 <= b < N ==> #[trigger] rt.task(m0.unused[a * N + b] as int).starts(
                    l3_thread,
                    pack(a, b) as usize,
                    entry,
                    w,
                ),
    {
        for j in 0..N
            invariant
                m0 == old(rt)@,
                w == old(rt).stack_words(),
                m0.wf(),
                m0.unused.len() >= N * N,
                pack(N - 1, N - 1) <= usize::MAX,
                i < N,
                rt.wf(),
                rt@ == m0.spawn_n((i * N + j) as nat),
                rt.stack_words() == w,
                forall|a: int, b: int|
                    (0 <= a < i && 0 <= b < N) || (a == i && 0 <= b < j) ==> #[trigger] rt.task(
                        m0.unused[a * N + b] as int,
                    ).starts(l3_thread, pack(a, b) as usize, entry, w),
        {
            let ghost k = i * N + j;
            proof {
                assert(k < N * N) by (nonlinear_arith)
                    requires
                        k == i * N + j,
                        i < N,
                        j < N,
                ;
                lemma_spawn_step(m0, k as nat);
                assert(pack(i as int, j as int) <= pack(N - 1, N - 1));
            }
            let arg: u64 = (i as u64) << 32 | (j as u64);
            assert(arg == pack(i as int, j as int)) by {
                let x = i as u64;
                let y = j as u64;
                assert((x << 32u64) | y == x * 0x1_0000_0000 + y) by (bit_vector)
                    requires
                        x < 1000,
                        y < 1000,
                ;
            }
            let ghost prev = *rt;
            rt.spawn(l3_thread, arg as usize, entry);
            assert(rt@ == m0.spawn_n((i * N + j + 1) as nat));
            assert forall|a: int, b: int|
                (0 <= a < i && 0 <= b < N) || (a == i && 0 <= b < j + 1) implies #[trigger] rt.task(
                m0.unused[a * N + b] as int,
            ).starts(l3_thread, pack(a, b) as usize, entry, w) by {
                if !(a == i && b == j) {
                    assert(a * N + b < k) by (nonlinear_arith)
                        requires
                            k == i * N + j,
                            (0 <= a < i && 0 <= b < N) || (a == i && 0 <= b < j),
                    ;
                    assert(0 <= a * N + b) by (nonlinear_arith)
                        requires
                            0 <= a,
                            0 <= b,
                    ;
                    assert(m0.unused[a * N + b] != m0.unused[k]);
                    assert(rt.task(m0.unused[a * N + b] as int) == prev.task(
                        m0.unused[a * N + b] as int,
                    ));
                }
            }
        }
        assert((i + 1) * N == i * N + N) by (nonlinear_arith);
    }
}

/// The cell thread's work: `l3` on cell `(row_of(idx), col_of(idx))`.
pub fn l3_thread(idx: usize, m1: &Matrix, m2: &Matrix, m3: &mut Matrix)
    requires
        cell_ready(m1.data@, m2.data@, old(m3).data@, N as int, row_of(idx), col_of(idx)),
    ensures
        final(m3).n == old(m3).n,
        final(m3).data@ == old(m3).data@.update(
            row_of(idx) * N + col_of(idx),
            cell_ij(m1.data@, m2.data@, old(m3).data@, N as int, row_of(idx), col_of(idx)),
        ),
{
    let (i, j) = unpack(idx);
    l3(N, i, j, m1, m2, m3);
}

/// `l3_thread` through `l3_stack`.
pub fn l3_thread_stack(idx: usize, m1: &Matrix, m2: &Matrix, m3: &mut Matrix)
    requires
        cell_ready(m1.data@, m2.data@, old(m3).data@, N as int, row_of(idx), col_of(idx)),
    ensures
        final(m3).n == old(m3).n,
        final(m3).data@ == old(m3).data@.update(
            row_of(idx) * N + col_of(idx),
            cell_ij(m1.data@, m2.data@, old(m3).data@, N as int, row_of(idx), col_of(idx)),
        ),
{
    let (i, j) = unpack(idx);
    l3_stack(N, i, j, m1, m2, m3);
}

/// The row (`idx >> 32`) and column (`idx & 0xFFFF_FFFF`) of a cell thread's argument.
fn unpack(idx: usize) -> (r: (usize, usize))
    ensures
        r.0 == row_of(idx),
        r.1 == col_of(idx),
{
    let x: u64 = idx as u64;
    let hi: u64 = x >> 32;
    let lo: u64 = x & 0xFFFF_FFFF;
    assert(hi == x / 0x1_0000_0000 && lo == x % 0x1_0000_0000) by (bit_vector)
        requires
            hi == x >> 32,
            lo == x & 0xFFFF_FFFF,
    ;
    (hi as usize, lo as usize)
}

} // verus!
