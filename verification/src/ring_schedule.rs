//! The token ring run on the user-thread runtime.
//!
//! `NUM` workers are spawned in id order on a runtime of `NUM` slots. Each
//! dispatch by `Runtime::run_task` lets the dispatched worker take one turn
//! (`ring::step`, modelled by `ring::turn`); a worker that has now counted
//! `TIMES` rounds exits (`Runtime::exit`), any other yields back. This module
//! composes the runtime's transitions with the ring's turns and proves where
//! the whole run ends.
use vstd::prelude::*;
use vstd::arithmetic::div_mod::lemma_fundamental_div_mod_converse;
use crate::ring::{NUM, TIMES, turn};
use crate::runtime::{RuntimeModel, State, lemma_spawn_n};

verus! {

/// The runtime's scheduling state, the signal, and every worker's round count.
pub struct RingSystem {
    pub rt: RuntimeModel,
    pub sig: int,
    pub counts: Seq<int>,
}

/// One dispatch: the runtime runs its next task, which takes its turn on the
/// ring and exits when it has counted `TIMES` rounds. Nothing changes once
/// the runtime is idle.
pub open spec fn ring_step(s: RingSystem) -> RingSystem {
    let (m1, next) = s.rt.run_task();
    match next {
        None => RingSystem { rt: m1, ..s },
        Some(id) => {
            let t = turn(s.sig, s.counts, id as int);
            RingSystem {
                rt: if t.1[id as int] >= TIMES {
                    m1.exit()
                } else {
                    m1
                },
                sig: t.0,
                counts: t.1,
            }
        },
    }
}

/// `n` successive dispatches.
pub open spec fn ring_steps(s: RingSystem, n: nat) -> RingSystem
    decreases n,
{
    if n == 0 {
        s
    } else {
        ring_step(ring_steps(s, (n - 1) as nat))
    }
}

/// The slots `k, k + 1, ...` taken `len` at a time around the ring.
pub open spec fn rot(k: int, len: int) -> Seq<usize> {
    Seq::new(len as nat, |i: int| (if k + i < NUM { k + i } else { k + i - NUM }) as usize)
}

/// Every worker has taken `q` full rounds and workers `0 .. k` one more;
/// worker `k - 1` is running and the others wait in ring order after it.
pub open spec fn busy(s: RingSystem, q: int, k: int) -> bool {
    &&& s.rt.states == Seq::new(
        NUM as nat,
        |i: int| if i == k - 1 { State::Running } else { State::Ready },
    )
    &&& s.rt.current == (k - 1) as usize
    &&& s.rt.ready == rot(k, NUM - 1)
    &&& s.sig == q * NUM + k
    &&& s.counts == Seq::new(NUM as nat, |i: int| q + if i < k { 1int } else { 0int })
}

/// In the last round, workers `0 .. k` have counted `TIMES` rounds and
/// exited; the others wait in id order.
pub open spec fn closing(s: RingSystem, k: int) -> bool {
    &&& s.rt.states == Seq::new(
        NUM as nat,
        |i: int| if i < k { State::Available } else { State::Ready },
    )
    &&& s.rt.current == (k - 1) as usize
    &&& s.rt.ready == Seq::new((NUM - k) as nat, |i: int| (k + i) as usize)
    &&& s.sig == (TIMES - 1) * NUM + k
    &&& s.counts == Seq::new(NUM as nat, |i: int| TIMES - 1 + if i < k { 1int } else { 0int })
}

/// The runtime right after the `NUM` workers were spawned in id order.
pub open spec fn spawned(m: RuntimeModel) -> bool {
    &&& m.states == Seq::new(NUM as nat, |i: int| State::Ready)
    &&& m.ready == Seq::new(NUM as nat, |i: int| i as usize)
    &&& m.current >= NUM
}

/// The ring before any turn.
pub open spec fn ring_start(m: RuntimeModel) -> RingSystem {
    RingSystem { rt: m, sig: 0, counts: Seq::new(NUM as nat, |i: int| 0int) }
}

/// Spawning the `NUM` workers on a fresh runtime of `NUM` slots.
proof fn lemma_spawn_all(m: RuntimeModel, k: nat)
    requires
        m.wf(),
        m.len() == NUM,
        m.states == Seq::new(NUM as nat, |i: int| State::Available),
        m.unused == Seq::new(NUM as nat, |i: int| i as usize),
        m.ready == Seq::<usize>::empty(),
        m.current >= NUM,
        k <= NUM,
    ensures
        m.spawn_n(k).states == Seq::new(
            NUM as nat,
            |i: int| if i < k { State::Ready } else { State::Available },
        ),
        m.spawn_n(k).ready == Seq::new(k, |i: int| i as usize),
        m.spawn_n(k).current == m.current,
    decreases k,
{
    lemma_spawn_n(m, k);
    if k > 0 {
        lemma_spawn_all(m, (k - 1) as nat);
        let p = m.spawn_n((k - 1) as nat);
        lemma_spawn_n(m, (k - 1) as nat);
        assert(p.unused[0] == k - 1);
        assert(m.spawn_n(k).states =~= Seq::new(
            NUM as nat,
            |i: int| if i < k { State::Ready } else { State::Available },
        ));
        assert(m.spawn_n(k).ready =~= Seq::new(k, |i: int| i as usize));
    } else {
        assert(m.states =~= Seq::new(
            NUM as nat,
            |i: int| if i < 0 { State::Ready } else { State::Available },
        ));
        assert(m.ready =~= Seq::new(0, |i: int| i as usize));
    }
}

/// The first dispatch runs worker 0.
proof fn lemma_first_step(m: RuntimeModel)
    requires
        spawned(m),
    ensures
        busy(ring_step(ring_start(m)), 0, 1),
{
    let s = ring_start(m);
    assert(!m.running());
    assert(m.preempt() == m);
    lemma_fundamental_div_mod_converse(0, NUM as int, 0, 0);
    let r = ring_step(s);
    assert(r.rt.states =~= Seq::new(
        NUM as nat,
        |i: int| if i == 0 { State::Running } else { State::Ready },
    ));
    assert(r.rt.ready =~= rot(1, NUM - 1));
    assert(r.counts =~= Seq::new(NUM as nat, |i: int| 0 + if i < 1 { 1int } else { 0int }));
}

/// A dispatch in a round that is not the last moves the token on one place.
proof fn lemma_busy_step(s: RingSystem, q: int, k: int)
    requires
        busy(s, q, k),
        0 <= q,
        1 <= k <= NUM,
        k < NUM ==> q + 1 < TIMES,
        k == NUM ==> q + 2 < TIMES,
    ensures
        k < NUM ==> busy(ring_step(s), q, k + 1),
        k == NUM ==> busy(ring_step(s), q + 1, 1),
{
    let m = s.rt;
    assert(m.running());
    let p = m.preempt();
    assert(p.ready =~= rot(k, NUM as int));
    let r = ring_step(s);
    if k < NUM {
        lemma_fundamental_div_mod_converse(q * NUM + k, NUM as int, q, k);
        assert(p.ready[0] == k);
        assert(r.rt.states =~= Seq::new(
            NUM as nat,
            |i: int| if i == k { State::Running } else { State::Ready },
        ));
        assert(r.rt.ready =~= rot(k + 1, NUM - 1));
        assert(r.counts =~= Seq::new(NUM as nat, |i: int| q + if i < k + 1 { 1int } else { 0int }));
    } else {
        lemma_fundamental_div_mod_converse(q * NUM + k, NUM as int, q + 1, 0);
        assert(p.ready[0] == 0);
        assert(r.rt.states =~= Seq::new(
            NUM as nat,
            |i: int| if i == 0 { State::Running } else { State::Ready },
        ));
        assert(r.rt.ready =~= rot(1, NUM - 1));
        assert(r.counts =~= Seq::new(
            NUM as nat,
            |i: int| (q + 1) + if i < 1 { 1int } else { 0int },
        ));
    }
}

/// The first dispatch of the last round: worker 0 counts its last round and exits.
proof fn lemma_last_round_starts(s: RingSystem)
    requires
        busy(s, TIMES - 2, NUM as int),
    ensures
        closing(ring_step(s), 1),
{
    let m = s.rt;
    assert(m.running());
    let p = m.preempt();
    assert(p.ready =~= rot(NUM as int, NUM as int));
    lemma_fundamental_div_mod_converse((TIMES - 2) * NUM + NUM, NUM as int, TIMES - 1, 0);
    assert(p.ready[0] == 0);
    let r = ring_step(s);
    assert(r.counts[0] == TIMES);
    assert(r.rt.states =~= Seq::new(
        NUM as nat,
        |i: int| if i < 1 { State::Available } else { State::Ready },
    ));
    assert(r.rt.ready =~= Seq::new((NUM - 1) as nat, |i: int| (1 + i) as usize));
    assert(r.counts =~= Seq::new(NUM as nat, |i: int| TIMES - 1 + if i < 1 { 1int } else { 0int }));
}

/// In the last round each dispatch runs the next worker, which exits.
proof fn lemma_closing_step(s: RingSystem, k: int)
    requires
        closing(s, k),
        1 <= k < NUM,
    ensures
        closing(ring_step(s), k + 1),
{
    let m = s.rt;
    assert(!m.running());
    assert(m.preempt() == m);
    lemma_fundamental_div_mod_converse((TIMES - 1) * NUM + k, NUM as int, TIMES - 1, k);
    assert(m.ready[0] == k);
    let r = ring_step(s);
    assert(r.counts[k] == TIMES);
    assert(r.rt.states =~= Seq::new(
        NUM as nat,
        |i: int| if i < k + 1 { State::Available } else { State::Ready },
    ));
    assert(r.rt.ready =~= Seq::new((NUM - (k + 1)) as nat, |i: int| (k + 1 + i) as usize));
    assert(r.counts =~= Seq::new(
        NUM as nat,
        |i: int| TIMES - 1 + if i < k + 1 { 1int } else { 0int },
    ));
}

/// Before the last round, dispatch `t` leaves the ring `busy`.
proof fn lemma_busy_at(m: RuntimeModel, t: nat)
    requires
        spawned(m),
        1 <= t <= (TIMES - 1) * NUM,
    ensures
        busy(ring_steps(ring_start(m), t), (t - 1) / (NUM as int), (t - 1) % (NUM as int) + 1),
    decreases t,
{
    if t == 1 {
        lemma_fundamental_div_mod_converse(0, NUM as int, 0, 0);
        lemma_first_step(m);
        assert(ring_steps(ring_start(m), 0) == ring_start(m));
        assert(ring_steps(ring_start(m), 1) == ring_step(ring_steps(ring_start(m), 0)));
    } else {
        lemma_busy_at(m, (t - 1) as nat);
        let q = (t - 2) / (NUM as int);
        let k = (t - 2) % (NUM as int) + 1;
        lemma_fundamental_div_mod_converse(t - 2, NUM as int, q, k - 1);
        let s = ring_steps(ring_start(m), (t - 1) as nat);
        lemma_busy_step(s, q, k);
        if k < NUM {
            lemma_fundamental_div_mod_converse(t - 1, NUM as int, q, k);
        } else {
            lemma_fundamental_div_mod_converse(t - 1, NUM as int, q + 1, 0);
        }
    }
}

/// In the last round, after its `k`-th dispatch the ring is `closing(k)`.
proof fn lemma_closing_at(m: RuntimeModel, k: nat)
    requires
        spawned(m),
        1 <= k <= NUM,
    ensures
        closing(ring_steps(ring_start(m), ((TIMES - 1) * NUM + k) as nat), k as int),
    decreases k,
{
    if k == 1 {
        lemma_busy_at(m, ((TIMES - 1) * NUM) as nat);
        lemma_fundamental_div_mod_converse((TIMES - 1) * NUM - 1, NUM as int, TIMES - 2, NUM - 1);
        lemma_last_round_starts(ring_steps(ring_start(m), ((TIMES - 1) * NUM) as nat));
    } else {
        lemma_closing_at(m, (k - 1) as nat);
        lemma_closing_step(ring_steps(ring_start(m), ((TIMES - 1) * NUM + k - 1) as nat), k - 1);
    }
}

/// Law: `NUM` workers spawned in id order on a fresh runtime of `NUM`
/// slots, each taking one turn per dispatch and exiting after its `TIMES`-th
/// round, run exactly `NUM * TIMES` dispatches: then every worker has
/// counted `TIMES` rounds, every slot is free again, the signal stands at
/// `NUM * TIMES`, and the runtime is idle.
pub proof fn lemma_ring_on_runtime(m: RuntimeModel)
    requires
        m.wf(),
        m.len() == NUM,
        m.states == Seq::new(NUM as nat, |i: int| State::Available),
        m.unused == Seq::new(NUM as nat, |i: int| i as usize),
        m.ready == Seq::<usize>::empty(),
        m.current >= NUM,
    ensures
        ({
            let end = ring_steps(ring_start(m.spawn_n(NUM as nat)), (NUM * TIMES) as nat);
            &&& end.sig == NUM * TIMES
            &&& end.sig == 38400
            &&& end.counts == Seq::new(NUM as nat, |i: int| TIMES as int)
            &&& end.rt.states == Seq::new(NUM as nat, |i: int| State::Available)
            &&& end.rt.run_task().1 is None
        }),
{
    lemma_spawn_all(m, NUM as nat);
    let sp = m.spawn_n(NUM as nat);
    assert(sp.states =~= Seq::new(NUM as nat, |i: int| State::Ready));
    assert(spawned(sp));
    lemma_closing_at(sp, NUM as nat);
    let end = ring_steps(ring_start(sp), (NUM * TIMES) as nat);
    assert(end.counts =~= Seq::new(NUM as nat, |i: int| TIMES as int));
    assert(end.rt.states =~= Seq::new(NUM as nat, |i: int| State::Available));
    assert(!end.rt.running());
    assert(end.rt.preempt() == end.rt);
}

} // verus!
