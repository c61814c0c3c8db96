//! The token-ring workload of the switch benchmarks.
//!
//! `NUM` workers share a signal counter. The worker whose id equals the
//! signal modulo `NUM` holds the token: on its turn it passes the token on by
//! incrementing the signal, counts one round and runs a small cache workload.
//! A worker stops after `TIMES` rounds; every other turn it yields.
use vstd::prelude::*;
use vstd::arithmetic::div_mod::{lemma_add_mod_noop, lemma_mod_twice, lemma_fundamental_div_mod_converse};

verus! {

/// Number of workers on the ring.
pub const NUM: usize = 384;

/// Rounds each worker runs.
pub const TIMES: usize = 100;

/// Size of the cache the workload is sized against, in bytes.
pub const CACHE_SIZE: usize = 384 * 1024;

/// Words of the per-turn workload buffer.
pub const BUF_SIZE: usize = 10240;

/// `sum_{i < n} (i mod 16)`.
pub open spec fn nibble_sum(n: nat) -> int
    decreases n,
{
    if n == 0 {
        0
    } else {
        nibble_sum((n - 1) as nat) + ((n - 1) % 16)
    }
}

/// `0 + 1 + ... + (r - 1)`.
pub open spec fn tri(r: nat) -> int
    decreases r,
{
    if r == 0 {
        0
    } else {
        tri((r - 1) as nat) + (r - 1)
    }
}

/// Within a block of 16 starting at a multiple of 16 the nibbles are `0, 1, ...`.
proof fn lemma_nibble_block(q: nat, r: nat)
    requires
        r <= 16,
    ensures
        nibble_sum(16 * q + r) == nibble_sum(16 * q) + tri(r),
    decreases r,
{
    if r > 0 {
        lemma_nibble_block(q, (r - 1) as nat);
        lemma_fundamental_div_mod_converse(16 * q + r - 1, 16, q as int, r - 1);
    }
}

/// Law: every full block of 16 nibbles `0, 1, ..., 15` adds 120.
pub proof fn lemma_nibble_sum(q: nat)
    ensures
        nibble_sum(16 * q) == 120 * q,
    decreases q,
{
    if q > 0 {
        lemma_nibble_sum((q - 1) as nat);
        lemma_nibble_block((q - 1) as nat, 16);
        assert(tri(16) == 120) by {
            reveal_with_fuel(tri, 17);
        }
    }
}

/// The per-turn workload: fills a `BUF_SIZE`-word buffer with `idx & 0xF`
/// and folds it into a 16-bit running sum.
pub fn work() -> (total: usize)
    ensures
        total == nibble_sum(BUF_SIZE as nat) % 0x10000,
        total == 76800int % 0x10000,
{
    proof {
        lemma_nibble_sum(640);
    }
    let mut buf = [0usize; 10240];
    let mut idx: usize = 0;
    while idx < BUF_SIZE
        invariant
            idx <= BUF_SIZE,
            forall|k: int| 0 <= k < idx ==> buf[k] == k % 16,
        decreases BUF_SIZE - idx,
    {
        assert(idx & 0xF == idx % 16) by (bit_vector);
        buf[idx] = idx & 0xF;
        idx += 1;
    }
    let mut acc: usize = 0;
    let mut k: usize = 0;
    while k < BUF_SIZE
        invariant
            k <= BUF_SIZE,
            forall|q: int| 0 <= q < BUF_SIZE ==> buf[q] == q % 16,
            acc == nibble_sum(k as nat) % 0x10000,
        decreases BUF_SIZE - k,
    {
        let x = buf[k];
        let s: usize = acc + x;
        assert(s & 0xFFFF == s % 0x10000) by (bit_vector);
        proof {
            lemma_add_mod_noop(nibble_sum(k as nat), x as int, 0x10000);
            lemma_mod_twice(nibble_sum(k as nat), 0x10000);
        }
        acc = s & 0xFFFF;
        k += 1;
    }
    acc
}

/// A ring worker: its id and the rounds it has run.
pub struct Counter {
    pub id: usize,
    pub count: usize,
}

impl Counter {
    /// A worker with id `id` that has run no round.
    pub fn new(id: usize) -> (c: Counter)
        ensures
            c.id == id,
            c.count == 0,
    {
        Counter { id, count: 0 }
    }
}

/// The worker holds the token at signal `sig`.
pub open spec fn holds_token(sig: usize, id: usize) -> bool {
    sig % NUM == id
}

/// One turn of a worker: when it holds the token it increments the signal
/// and its round count and runs the workload. Returns whether the worker has
/// now run its `TIMES` rounds.
pub fn step(worker: &mut Counter, sig: &mut usize) -> (finished: bool)
    requires
        holds_token(*old(sig), old(worker).id) ==> *old(sig) < usize::MAX && old(worker).count
            < usize::MAX,
    ensures
        final(worker).id == old(worker).id,
        holds_token(*old(sig), old(worker).id) ==> *final(sig) == *old(sig) + 1
            && final(worker).count == old(worker).count + 1,
        !holds_token(*old(sig), old(worker).id) ==> *final(sig) == *old(sig) && final(worker).count
            == old(worker).count,
        finished == (final(worker).count >= TIMES),
{
    if *sig % NUM == worker.id {
        *sig += 1;
        worker.count += 1;
        let _total = work();
    }
    worker.count >= TIMES
}

/// Law: the token moves one place around the ring per turn of its holder.
pub proof fn lemma_token_passes(sig: usize)
    requires
        sig < usize::MAX,
    ensures
        holds_token((sig + 1) as usize, ((sig % NUM + 1) % (NUM as int)) as usize),
{
    lemma_add_mod_noop(sig as int, 1, NUM as int);
    lemma_mod_twice(1, NUM as int);
}

/// Law: exactly one worker of the ring holds the token.
pub proof fn lemma_single_holder(sig: usize, a: usize, b: usize)
    requires
        holds_token(sig, a),
        holds_token(sig, b),
    ensures
        a == b,
        a < NUM,
{
}

/// One turn of worker `id` on the ring as a whole: the signal and every
/// worker's round count. Only the token holder moves, as in `step`.
pub open spec fn turn(sig: int, counts: Seq<int>, id: int) -> (int, Seq<int>) {
    if sig % (NUM as int) == id {
        (sig + 1, counts.update(id, counts[id] + 1))
    } else {
        (sig, counts)
    }
}

/// Workers `0 .. k` take one turn each, in id order.
pub open spec fn round_prefix(sig: int, counts: Seq<int>, k: nat) -> (int, Seq<int>)
    decreases k,
{
    if k == 0 {
        (sig, counts)
    } else {
        let p = round_prefix(sig, counts, (k - 1) as nat);
        turn(p.0, p.1, k - 1)
    }
}

/// The ring after `r` rounds from a zero signal and zero counts, each round
/// being one turn of every worker in id order. `ring_schedule` follows the
/// runtime's own dispatch order instead and reaches the same total.
pub open spec fn rounds(r: nat) -> (int, Seq<int>)
    decreases r,
{
    if r == 0 {
        (0, Seq::new(NUM as nat, |i: int| 0))
    } else {
        let p = rounds((r - 1) as nat);
        round_prefix(p.0, p.1, NUM as nat)
    }
}

/// Within a round that starts with worker 0 holding the token and every
/// count equal to `c`, the first `k` workers each count one more round.
proof fn lemma_round_prefix(q: int, c: int, counts: Seq<int>, k: nat)
    requires
        q >= 0,
        k <= NUM,
        counts == Seq::new(NUM as nat, |i: int| c),
    ensures
        round_prefix(q * NUM, counts, k) == (
            q * NUM + k,
            Seq::new(NUM as nat, |i: int| if i < k { c + 1 } else { c }),
        ),
    decreases k,
{
    if k > 0 {
        lemma_round_prefix(q, c, counts, (k - 1) as nat);
        let p = round_prefix(q * NUM, counts, (k - 1) as nat);
        lemma_fundamental_div_mod_converse(q * NUM + k - 1, NUM as int, q, k - 1);
        assert(p.1.update(k - 1, p.1[k - 1] + 1) =~= Seq::new(
            NUM as nat,
            |i: int| if i < k { c + 1 } else { c },
        ));
    } else {
        assert(counts =~= Seq::new(NUM as nat, |i: int| if i < 0 { c + 1 } else { c }));
    }
}

/// After `r` rounds the signal is `r * NUM` and every worker has counted `r` rounds.
pub proof fn lemma_rounds(r: nat)
    ensures
        rounds(r) == (r * NUM, Seq::new(NUM as nat, |i: int| r as int)),
    decreases r,
{
    if r > 0 {
        lemma_rounds((r - 1) as nat);
        lemma_round_prefix(r - 1, r - 1, Seq::new(NUM as nat, |i: int| (r - 1) as int), NUM as nat);
        assert(Seq::new(NUM as nat, |i: int| if i < NUM { (r - 1) + 1 } else { (r - 1) as int })
            =~= Seq::new(NUM as nat, |i: int| r as int));
    } else {
        assert(rounds(0).1 =~= Seq::new(NUM as nat, |i: int| 0int));
    }
}

/// Law: on a ring started at signal 0, every worker counts one round per
/// round, so none finishes before round `TIMES`, all finish in round
/// `TIMES`, and the signal then stands at `NUM * TIMES`.
pub proof fn lemma_ring_total(r: nat, id: int)
    requires
        0 <= id < NUM,
    ensures
        r < TIMES ==> rounds(r).1[id] < TIMES,
        rounds(TIMES as nat).1[id] == TIMES,
        rounds(TIMES as nat).0 == NUM * TIMES,
        rounds(TIMES as nat).0 == 38400,
{
    lemma_rounds(r);
    lemma_rounds(TIMES as nat);
}

/// The turn of one worker in `step` is the worker's turn on the ring.
pub proof fn lemma_step_is_turn(sig: usize, worker: Counter, counts: Seq<int>)
    requires
        worker.id < counts.len(),
        counts[worker.id as int] == worker.count,
    ensures
        turn(sig as int, counts, worker.id as int).0 == if holds_token(sig, worker.id) {
            sig + 1
        } else {
            sig as int
        },
        turn(sig as int, counts, worker.id as int).1[worker.id as int] == if holds_token(
            sig,
            worker.id,
        ) {
            worker.count + 1
        } else {
            worker.count as int
        },
{
}

} // verus!
