//! The scheduler of the coroutine executor.
//!
//! The executor owns a fixed table of slots. A slot is free (its index sits
//! in the unused queue) or holds a future (its index sits in the ready
//! queue). Adding a future takes the first unused slot and appends it to the
//! ready queue; a round polls the front of the ready queue and then frees its
//! slot to the front of the unused queue when the future finished, or moves
//! it to the back of the ready queue when it is pending and has been woken.
//! The futures themselves, and their polling, are kept by the caller in the
//! slots this scheduler hands out.
use vstd::prelude::*;
use std::collections::VecDeque;
use vstd::set_lib::{lemma_set_disjoint_lens};
use crate::runtime::{slot_set, lemma_slot_set_len};

verus! {

/// Number of slots of an executor.
pub const MAX_TASKS: usize = 1000 * 1000;

/// The scheduling state of an executor, as plain values.
#[verifier::ext_equal]
pub struct ExecutorModel {
    /// Whether each slot holds a future.
    pub occupied: Seq<bool>,
    /// Free slots, in the order they will be taken.
    pub unused: Seq<usize>,
    /// Slots holding a future, in the order they will be polled.
    pub ready: Seq<usize>,
    /// The slot polled last; no slot when out of range.
    pub current: usize,
}

impl ExecutorModel {
    /// Number of slots.
    pub open spec fn len(self) -> nat {
        self.occupied.len()
    }

    /// Every slot is in exactly one queue: the unused queue when free, the
    /// ready queue when it holds a future.
    pub open spec fn wf(self) -> bool {
        &&& self.len() <= usize::MAX
        &&& self.unused.no_duplicates()
        &&& self.ready.no_duplicates()
        &&& forall|k: int| 0 <= k < self.unused.len() ==> #[trigger] self.unused[k] < self.len()
        &&& forall|k: int| 0 <= k < self.ready.len() ==> #[trigger] self.ready[k] < self.len()
        &&& forall|i: int|
            0 <= i < self.len() ==> (!#[trigger] self.occupied[i] <==> self.unused.contains(
                i as usize,
            ))
        &&& forall|i: int|
            0 <= i < self.len() ==> (#[trigger] self.occupied[i] <==> self.ready.contains(
                i as usize,
            ))
    }

    /// Adding a future: the first unused slot becomes occupied at the back of the ready queue.
    pub open spec fn add_task(self) -> ExecutorModel {
        let loc = self.unused[0];
        ExecutorModel {
            occupied: self.occupied.update(loc as int, true),
            unused: self.unused.drop_first(),
            ready: self.ready.push(loc),
            current: self.current,
        }
    }

    /// One round, given what polling the front slot gave: nothing when no slot
    /// is ready; otherwise the front slot becomes current and is freed to the
    /// front of the unused queue when `finished`, or else goes to the back of
    /// the ready queue.
    pub open spec fn run_task(self, finished: bool) -> ExecutorModel {
        if self.ready.len() == 0 {
            self
        } else {
            let cur = self.ready[0];
            if finished {
                ExecutorModel {
                    occupied: self.occupied.update(cur as int, false),
                    unused: seq![cur] + self.unused,
                    ready: self.ready.drop_first(),
                    current: cur,
                }
            } else {
                ExecutorModel {
                    ready: self.ready.drop_first().push(cur),
                    current: cur,
                    ..self
                }
            }
        }
    }
}

/// Law: adding a future to a consistent executor with a free slot keeps it consistent.
pub proof fn lemma_add_task_wf(m: ExecutorModel)
    requires
        m.wf(),
        m.unused.len() > 0,
    ensures
        m.add_task().wf(),
{
    let loc = m.unused[0];
    let s = m.add_task();
    assert(m.unused.contains(loc));
    assert(!m.occupied[loc as int]);
    assert(!m.ready.contains(loc));
    assert forall|k: int| 0 <= k < s.unused.len() implies #[trigger] s.unused[k] < s.len() by {
        assert(s.unused[k] == m.unused[k + 1]);
    }
    assert forall|i: int| 0 <= i < s.len() implies (!#[trigger] s.occupied[i]
        <==> s.unused.contains(i as usize)) by {
        if i == loc {
            if s.unused.contains(i as usize) {
                let k = choose|k: int| 0 <= k < s.unused.len() && s.unused[k] == i as usize;
                assert(m.unused[k + 1] == m.unused[0]);
            }
        } else {
            if m.unused.contains(i as usize) {
                let k = choose|k: int| 0 <= k < m.unused.len() && m.unused[k] == i as usize;
                assert(k != 0);
                assert(s.unused[k - 1] == i as usize);
            }
        }
    }
    assert forall|i: int| 0 <= i < s.len() implies (#[trigger] s.occupied[i]
        <==> s.ready.contains(i as usize)) by {
        if i == loc {
            assert(s.ready[s.ready.len() - 1] == loc);
        } else {
            if s.ready.contains(i as usize) {
                let k = choose|k: int| 0 <= k < s.ready.len() && s.ready[k] == i as usize;
                assert(k < m.ready.len());
                assert(m.ready[k] == i as usize);
            }
            if m.ready.contains(i as usize) {
                let k = choose|k: int| 0 <= k < m.ready.len() && m.ready[k] == i as usize;
                assert(s.ready[k] == i as usize);
            }
        }
    }
}

/// Law: adding a future appends its slot at the back of the ready queue,
/// behind every future already waiting, whatever slot was polled last; the
/// slot is the first free one and leaves the unused queue.
pub proof fn lemma_add_task_appends(m: ExecutorModel)
    requires
        m.wf(),
        m.unused.len() > 0,
    ensures
        m.add_task().ready == m.ready.push(m.unused[0]),
        m.add_task().ready.len() == m.ready.len() + 1,
        forall|k: int| 0 <= k < m.ready.len() ==> m.add_task().ready[k] == m.ready[k],
        m.add_task().unused == m.unused.drop_first(),
        m.add_task().occupied[m.unused[0] as int],
{
}

/// Law: a round on a consistent executor keeps it consistent, whatever the poll gave.
pub proof fn lemma_run_task_wf(m: ExecutorModel, finished: bool)
    requires
        m.wf(),
    ensures
        m.run_task(finished).wf(),
{
    if m.ready.len() > 0 {
        let cur = m.ready[0];
        let s = m.run_task(finished);
        assert(m.ready.contains(cur));
        assert(m.occupied[cur as int]);
        assert(!m.unused.contains(cur));
        let r = m.ready.drop_first();
        assert(!r.contains(cur)) by {
            if r.contains(cur) {
                let k = choose|k: int| 0 <= k < r.len() && r[k] == cur;
                assert(m.ready[k + 1] == m.ready[0]);
            }
        }
        assert forall|i: int| 0 <= i < m.len() && i != cur implies (#[trigger] m.ready.contains(i as usize)
            <==> r.contains(i as usize)) by {
            if m.ready.contains(i as usize) {
                let k = choose|k: int| 0 <= k < m.ready.len() && m.ready[k] == i as usize;
                assert(k != 0);
                assert(r[k - 1] == i as usize);
            }
            if r.contains(i as usize) {
                let k = choose|k: int| 0 <= k < r.len() && r[k] == i as usize;
                assert(m.ready[k + 1] == i as usize);
            }
        }
        assert forall|k: int| 0 <= k < r.len() implies #[trigger] r[k] < m.len() by {
            assert(r[k] == m.ready[k + 1]);
        }
        if finished {
            assert forall|k: int| 0 <= k < s.unused.len() implies #[trigger] s.unused[k]
                < s.len() by {
                if k > 0 {
                    assert(s.unused[k] == m.unused[k - 1]);
                }
            }
            assert forall|i: int| 0 <= i < s.len() implies (!#[trigger] s.occupied[i]
                <==> s.unused.contains(i as usize)) by {
                if i == cur {
                    assert(s.unused[0] == cur);
                } else {
                    if s.unused.contains(i as usize) {
                        let k = choose|k: int| 0 <= k < s.unused.len() && s.unused[k] == i as usize;
                        assert(k != 0);
                        assert(m.unused[k - 1] == i as usize);
                    }
                    if m.unused.contains(i as usize) {
                        let k = choose|k: int| 0 <= k < m.unused.len() && m.unused[k] == i as usize;
                        assert(s.unused[k + 1] == i as usize);
                    }
                }
            }
            assert forall|i: int, j: int|
                0 <= i < s.unused.len() && 0 <= j < s.unused.len() && i != j implies s.unused[i]
                != s.unused[j] by {
                if i > 0 && j > 0 {
                    assert(s.unused[i] == m.unused[i - 1]);
                    assert(s.unused[j] == m.unused[j - 1]);
                } else if i == 0 {
                    assert(s.unused[j] == m.unused[j - 1]);
                } else {
                    assert(s.unused[i] == m.unused[i - 1]);
                }
            }
            assert forall|i: int| 0 <= i < s.len() implies (#[trigger] s.occupied[i]
                <==> s.ready.contains(i as usize)) by {
                if i != cur {
                    assert(m.ready.contains(i as usize) <==> r.contains(i as usize));
                }
            }
        } else {
            assert forall|k: int| 0 <= k < s.ready.len() implies #[trigger] s.ready[k]
                < s.len() by {
                if k < r.len() {
                    assert(s.ready[k] == r[k]);
                }
            }
            assert forall|i: int| 0 <= i < s.len() implies (#[trigger] s.occupied[i]
                <==> s.ready.contains(i as usize)) by {
                if i == cur {
                    assert(s.ready[s.ready.len() - 1] == cur);
                } else {
                    assert(m.ready.contains(i as usize) <==> r.contains(i as usize));
                    if s.ready.contains(i as usize) {
                        let k = choose|k: int| 0 <= k < s.ready.len() && s.ready[k] == i as usize;
                        assert(k < r.len());
                        assert(r[k] == i as usize);
                    }
                    if r.contains(i as usize) {
                        let k = choose|k: int| 0 <= k < r.len() && r[k] == i as usize;
                        assert(s.ready[k] == i as usize);
                    }
                }
            }
        }
    }
}

/// Law: no slot is lost or counted twice: free slots and slots holding a
/// future number exactly the slots of the executor.
pub proof fn lemma_slots_conserved(m: ExecutorModel)
    requires
        m.wf(),
    ensures
        m.unused.len() + m.ready.len() == m.len(),
{
    let u = m.unused.to_set();
    let r = m.ready.to_set();
    m.unused.unique_seq_to_set();
    m.ready.unique_seq_to_set();
    lemma_slot_set_len(m.len());
    assert(u.disjoint(r)) by {
        assert forall|x: usize| u.contains(x) implies !r.contains(x) by {
            let k = choose|k: int| 0 <= k < m.unused.len() && m.unused[k] == x;
            assert(m.unused[k] < m.len());
            assert(m.unused.contains(x));
            assert(!m.occupied[x as int]);
        }
    }
    lemma_set_disjoint_lens(u, r);
    assert(u + r =~= slot_set(m.len())) by {
        assert forall|x: usize| (u + r).contains(x) implies slot_set(m.len()).contains(x) by {
            if u.contains(x) {
                let k = choose|k: int| 0 <= k < m.unused.len() && m.unused[k] == x;
                assert(m.unused[k] < m.len());
            }
            if r.contains(x) {
                let k = choose|k: int| 0 <= k < m.ready.len() && m.ready[k] == x;
                assert(m.ready[k] < m.len());
            }
        }
        assert forall|x: usize| slot_set(m.len()).contains(x) implies (u + r).contains(x) by {
            if m.occupied[x as int] {
                assert(m.ready.contains(x));
            } else {
                assert(m.unused.contains(x));
            }
        }
    }
}

/// Law: the slot of a future that just finished is the one the next added future takes.
pub proof fn lemma_finish_then_add_reuses(m: ExecutorModel)
    requires
        m.wf(),
        m.ready.len() > 0,
    ensures
        m.run_task(true).unused[0] == m.ready[0],
        m.run_task(true).add_task().ready == m.ready.drop_first().push(m.ready[0]),
        m.run_task(true).add_task().unused == m.unused,
{
    assert(m.run_task(true).unused.drop_first() =~= m.unused);
}

/// Law: each round moves every other waiting future one place closer to the
/// front of the ready queue; a pending future goes to the back.
pub proof fn lemma_ready_advances(m: ExecutorModel, finished: bool, k: int)
    requires
        m.wf(),
        1 <= k < m.ready.len(),
    ensures
        m.run_task(finished).ready[k - 1] == m.ready[k],
        !finished ==> m.run_task(finished).ready.last() == m.ready[0],
{
}

/// The scheduling part of a coroutine executor: which slots hold a future,
/// the unused and ready queues of slot indices, and the slot polled last.
pub struct Executor {
    occupied: Vec<bool>,
    unused: VecDeque<usize>,
    ready: VecDeque<usize>,
    current: usize,
}

impl Executor {
    /// The scheduling state.
    pub closed spec fn view(&self) -> ExecutorModel {
        ExecutorModel {
            occupied: self.occupied@,
            unused: self.unused@,
            ready: self.ready@,
            current: self.current,
        }
    }

    /// An executor of `MAX_TASKS` free slots, all in the unused queue in index order.
    pub fn new() -> (e: Executor)
        ensures
            e@.wf(),
            e@.len() == MAX_TASKS,
            forall|i: int| 0 <= i < MAX_TASKS ==> !(#[trigger] e@.occupied[i]),
            e@.unused == Seq::new(MAX_TASKS as nat, |i: int| i as usize),
            e@.ready == Seq::<usize>::empty(),
            e@.current == usize::MAX,
    {
        let mut occupied: Vec<bool> = Vec::new();
        let mut unused: VecDeque<usize> = VecDeque::new();
        let mut i: usize = 0;
        while i < MAX_TASKS
            invariant
                i <= MAX_TASKS,
                occupied@.len() == i,
                forall|k: int| 0 <= k < i ==> !(#[trigger] occupied@[k]),
                unused@ == Seq::new(i as nat, |k: int| k as usize),
            decreases MAX_TASKS - i,
        {
            occupied.push(false);
            unused.push_back(i);
            i += 1;
        }
        let e = Executor {
            occupied,
            unused,
            ready: VecDeque::with_capacity(MAX_TASKS),
            current: usize::MAX,
        };
        assert forall|k: int| 0 <= k < e@.len() implies (!#[trigger] e@.occupied[k]
            <==> e@.unused.contains(k as usize)) by {
            assert(e@.unused[k] == k as usize);
        }
        e
    }

    /// Number of free slots.
    pub fn available(&self) -> (n: usize)
        ensures
            n == self@.unused.len(),
    {
        self.unused.len()
    }

    /// The slot the next round will poll, if any.
    pub fn next_ready(&self) -> (next: Option<usize>)
        ensures
            next is None <==> self@.ready.len() == 0,
            next matches Some(i) ==> i == self@.ready[0],
    {
        if self.ready.len() == 0 {
            None
        } else {
            Some(self.ready[0])
        }
    }

    /// Takes the first free slot for a new future and appends it to the ready
    /// queue; returns the slot, where the caller keeps the future.
    pub fn add_task(&mut self) -> (loc: usize)
        requires
            old(self)@.wf(),
            old(self)@.unused.len() > 0,
        ensures
            final(self)@.wf(),
            final(self)@ == old(self)@.add_task(),
            loc == old(self)@.unused[0],
            final(self)@.ready == old(self)@.ready.push(loc),
            final(self)@.unused == old(self)@.unused.drop_first(),
            final(self)@.occupied == old(self)@.occupied.update(loc as int, true),
    {
        proof {
            lemma_add_task_wf(self@);
        }
        let loc = match self.unused.pop_front() {
            Some(l) => l,
            None => {
                proof {
                    assert(false);
                }
                return 0;
            },
        };
        assert(old(self)@.unused.contains(loc));
        self.occupied.set(loc, true);
        self.ready.push_back(loc);
        assert(self@ =~= old(self)@.add_task());
        loc
    }

    /// One round, after the caller polled the future in the front slot:
    /// `finished` when the poll completed, `awake` when the future has been
    /// woken. Returns `false`, changing nothing, when no slot is ready.
    pub fn run_task(&mut self, finished: bool, awake: bool) -> (ran: bool)
        requires
            old(self)@.wf(),
            old(self)@.ready.len() > 0 ==> finished || awake,
        ensures
            final(self)@.wf(),
            final(self)@ == old(self)@.run_task(finished),
            ran <==> old(self)@.ready.len() > 0,
    {
        proof {
            lemma_run_task_wf(self@, finished);
        }
        let next = self.ready.pop_front();
        match next {
            None => false,
            Some(cur) => {
                assert(old(self)@.ready.contains(cur));
                self.current = cur;
                if finished {
                    self.occupied.set(cur, false);
                    self.unused.push_front(cur);
                } else {
                    self.ready.push_back(cur);
                }
                assert(self@ =~= old(self)@.run_task(finished));
                true
            },
        }
    }
}

} // verus!
