//! The scheduler of the user-level thread runtime.
//!
//! A runtime owns a fixed table of tasks, each with its own stack. A task is
//! `Available` (its slot sits in the unused queue), `Ready` (its slot sits in
//! the ready queue) or `Running` (it is the current task). Spawning takes the
//! first unused slot, lays out the task's first register frame on its stack
//! and appends it to the ready queue; dispatching preempts the running task to
//! the back of the ready queue and runs the front one; exiting returns the
//! current slot to the front of the unused queue. The register switch itself
//! is performed by the caller with the saved stack pointers kept here.
use vstd::prelude::*;
use std::collections::VecDeque;
use vstd::set_lib::{lemma_int_range, lemma_map_size, lemma_set_disjoint_lens, set_int_range};
use vstd::relations::injective_on;

verus! {

/// Stack size of a task, in bytes.
pub const DEFAULT_STACK_SIZE: usize = 1024 * 8 * 4;

/// Number of task slots of a runtime.
pub const MAX_TASKS: usize = 1000 * 1000;

/// Bytes in one stack word.
pub const WORD_BYTES: usize = 8;

/// Words of the first frame of a task: six callee-saved registers, the
/// entry trampoline, the argument and the task function.
pub const FRAME_WORDS: usize = 9;

/// The scheduling state of a task slot.
#[derive(PartialEq, Eq, Structural, Debug, Clone, Copy)]
pub enum State {
    Available,
    Running,
    Ready,
}

/// The callee-saved registers restored when a task is switched to, with the
/// address it resumes at.
pub struct TaskContext {
    pub r15: u64,
    pub r14: u64,
    pub r13: u64,
    pub r12: u64,
    pub rbp: u64,
    pub rbx: u64,
    pub rip: u64,
}

impl TaskContext {
    /// The registers, lowest stack address first.
    pub open spec fn words(&self) -> Seq<u64> {
        seq![self.r15, self.r14, self.r13, self.r12, self.rbp, self.rbx, self.rip]
    }

    /// A context with cleared registers that resumes at `rip`.
    pub fn starting_at(rip: u64) -> (c: TaskContext)
        ensures
            c.words() == seq![0u64, 0, 0, 0, 0, 0, rip],
    {
        TaskContext { r15: 0, r14: 0, r13: 0, r12: 0, rbp: 0, rbx: 0, rip }
    }
}

/// Pushes one word onto a stack whose top is word index `sp`; returns the new top.
pub fn push_stack(stack: &mut Vec<u64>, sp: usize, val: u64) -> (new_sp: usize)
    requires
        0 < sp <= old(stack)@.len(),
    ensures
        new_sp == sp - 1,
        final(stack)@ == old(stack)@.update(sp - 1, val),
{
    stack.set(sp - 1, val);
    sp - 1
}

/// Pushes a register context so that `r15` ends at the lowest address; returns the new top.
pub fn push_context(stack: &mut Vec<u64>, sp: usize, ctx: &TaskContext) -> (new_sp: usize)
    requires
        7 <= sp <= old(stack)@.len(),
    ensures
        new_sp == sp - 7,
        final(stack)@ == old(stack)@.subrange(0, sp - 7) + ctx.words() + old(stack)@.subrange(
            sp as int,
            old(stack)@.len() as int,
        ),
{
    let ghost s0 = stack@;
    let mut sp = push_stack(stack, sp, ctx.rip);
    sp = push_stack(stack, sp, ctx.rbx);
    sp = push_stack(stack, sp, ctx.rbp);
    sp = push_stack(stack, sp, ctx.r12);
    sp = push_stack(stack, sp, ctx.r13);
    sp = push_stack(stack, sp, ctx.r14);
    sp = push_stack(stack, sp, ctx.r15);
    assert(stack@ =~= s0.subrange(0, sp as int) + ctx.words() + s0.subrange(
        sp + 7,
        s0.len() as int,
    ));
    sp
}

/// The address of the first word of a stack buffer.
///
/// Trusted: calls `Vec::as_ptr` and casts the pointer to an integer. It
/// claims only what std documents of every allocation: the buffer's bytes do
/// not wrap around the end of the address space. Which address the allocator
/// chose is left unsaid.
#[verifier::external_body]
fn stack_address(stack: &Vec<u64>) -> (addr: usize)
    ensures
        addr + stack@.len() * 8 <= usize::MAX,
{
    stack.as_ptr() as usize
}

/// What a task slot holds, as plain values.
pub struct TaskView {
    pub id: usize,
    pub stack: Seq<u64>,
    pub stack_base: usize,
    pub ctx: usize,
    pub state: State,
}

/// The first frame of a task running `f(arg)` through the trampoline
/// `entry`, lowest address first: six cleared callee-saved registers, the
/// trampoline, the argument and the function.
pub open spec fn first_frame(f: usize, arg: usize, entry: usize) -> Seq<u64> {
    seq![0u64, 0, 0, 0, 0, 0, entry as u64, arg as u64, f as u64]
}

impl TaskView {
    /// A slot as created: index `i`, `Available`, saved context 0 and a
    /// zeroed stack of `w` words.
    pub open spec fn fresh(self, i: int, w: nat) -> bool {
        &&& self.id == i
        &&& self.state == State::Available
        &&& self.ctx == 0
        &&& self.stack.len() == w
        &&& forall|k: int| 0 <= k < w ==> self.stack[k] == 0
    }

    /// The top `FRAME_WORDS` words of a `w`-word stack hold the first frame of
    /// `f(arg)` and the saved stack pointer is that frame's address.
    pub open spec fn starts(self, f: usize, arg: usize, entry: usize, w: int) -> bool {
        &&& self.stack.len() == w
        &&& self.stack.subrange(w - 9, w) == first_frame(f, arg, entry)
        &&& self.ctx == self.stack_base + (w - 9) * 8
    }
}

/// Law: the first frame of `f(arg)`, read from the top of the stack down, is
/// the function, then the argument, then the entry trampoline, then six
/// cleared registers; so the trampoline (`pop rdi; ret`) loads the argument
/// and returns into the function.
pub proof fn lemma_first_frame_layout(f: usize, arg: usize, entry: usize)
    ensures
        first_frame(f, arg, entry).len() == 9,
        first_frame(f, arg, entry)[8] == f as u64,
        first_frame(f, arg, entry)[7] == arg as u64,
        first_frame(f, arg, entry)[6] == entry as u64,
        forall|k: int| 0 <= k < 6 ==> first_frame(f, arg, entry)[k] == 0,
{
}

/// Law: a task that starts `f(arg)` on a `w`-word stack holds the function
/// in the top word, the argument below it, the trampoline below that and six
/// cleared registers below, and its saved context is the byte address of the
/// lowest of those words, whose contents are the first cleared register.
pub proof fn lemma_starts_layout(t: TaskView, f: usize, arg: usize, entry: usize, w: int)
    requires
        t.starts(f, arg, entry, w),
        w >= 9,
    ensures
        t.stack.len() == w,
        t.stack[w - 1] == f as u64,
        t.stack[w - 2] == arg as u64,
        t.stack[w - 3] == entry as u64,
        forall|k: int| w - 9 <= k < w - 3 ==> t.stack[k] == 0,
        t.ctx == t.stack_base + 8 * (w - 9),
        (t.ctx - t.stack_base) % 8 == 0,
        t.stack[(t.ctx - t.stack_base) / 8] == 0,
{
    lemma_first_frame_layout(f, arg, entry);
    let fr = t.stack.subrange(w - 9, w);
    assert(fr[8] == t.stack[w - 1]);
    assert(fr[7] == t.stack[w - 2]);
    assert(fr[6] == t.stack[w - 3]);
    assert forall|k: int| w - 9 <= k < w - 3 implies t.stack[k] == 0 by {
        assert(fr[k - (w - 9)] == t.stack[k]);
    }
    vstd::arithmetic::div_mod::lemma_fundamental_div_mod_converse(8 * (w - 9), 8, w - 9, 0);
    assert(t.stack[w - 9] == 0);
}

/// A task slot: its index, its stack, the address of that stack, the stack
/// pointer saved when it last stopped running, and its state.
pub struct Task {
    id: usize,
    stack: Vec<u64>,
    stack_base: usize,
    ctx: usize,
    state: State,
}

impl Task {
    pub closed spec fn view(&self) -> TaskView {
        TaskView {
            id: self.id,
            stack: self.stack@,
            stack_base: self.stack_base,
            ctx: self.ctx,
            state: self.state,
        }
    }

    /// The stack buffer does not wrap around the address space.
    pub open spec fn stack_fits(&self) -> bool {
        self@.stack_base + self@.stack.len() * 8 <= usize::MAX
    }

    /// An available slot with a zeroed stack of `DEFAULT_STACK_SIZE` bytes.
    pub fn new(id: usize) -> (t: Task)
        ensures
            t@.id == id,
            t@.state == State::Available,
            t@.ctx == 0,
            t@.stack.len() == DEFAULT_STACK_SIZE / WORD_BYTES,
            forall|k: int| 0 <= k < t@.stack.len() ==> t@.stack[k] == 0,
            t.stack_fits(),
    {
        Task::with_stack_size(id, DEFAULT_STACK_SIZE)
    }

    /// An available slot with a zeroed stack of `stack_size` bytes (whole words).
    pub fn with_stack_size(id: usize, stack_size: usize) -> (t: Task)
        ensures
            t@.id == id,
            t@.state == State::Available,
            t@.ctx == 0,
            t@.stack.len() == stack_size / WORD_BYTES,
            forall|k: int| 0 <= k < t@.stack.len() ==> t@.stack[k] == 0,
            t.stack_fits(),
    {
        let stack = vec![0u64; stack_size / WORD_BYTES];
        let stack_base = stack_address(&stack);
        Task { id, stack, stack_base, ctx: 0, state: State::Available }
    }

    /// The stack pointer saved for the task.
    pub fn get_context(&self) -> (ctx: usize)
        ensures
            ctx == self@.ctx,
    {
        self.ctx
    }

    /// Records the stack pointer the task stopped at.
    pub fn set_context(&mut self, ctx: usize)
        ensures
            final(self)@ == (TaskView { ctx, ..old(self)@ }),
    {
        self.ctx = ctx;
    }

    /// The slot index of the task.
    pub fn id(&self) -> (id: usize)
        ensures
            id == self@.id,
    {
        self.id
    }

    /// The scheduling state of the task.
    pub fn state(&self) -> (s: State)
        ensures
            s == self@.state,
    {
        self.state
    }
}

/// The scheduling state of a runtime, as plain values.
#[verifier::ext_equal]
pub struct RuntimeModel {
    /// State of each slot.
    pub states: Seq<State>,
    /// Slots free for spawning, in the order they will be taken.
    pub unused: Seq<usize>,
    /// Slots waiting to run, in the order they will run.
    pub ready: Seq<usize>,
    /// The slot last dispatched; no slot when out of range.
    pub current: usize,
}

impl RuntimeModel {
    /// Number of slots.
    pub open spec fn len(self) -> nat {
        self.states.len()
    }

    /// A task is running: the current slot exists and is `Running`.
    pub open spec fn running(self) -> bool {
        self.current < self.len() && self.states[self.current as int] == State::Running
    }

    /// Every slot is in exactly one place: the unused queue when `Available`,
    /// the ready queue when `Ready`, and the current slot when `Running`.
    pub open spec fn wf(self) -> bool {
        &&& self.len() <= usize::MAX
        &&& self.unused.no_duplicates()
        &&& self.ready.no_duplicates()
        &&& forall|k: int| 0 <= k < self.unused.len() ==> #[trigger] self.unused[k] < self.len()
        &&& forall|k: int| 0 <= k < self.ready.len() ==> #[trigger] self.ready[k] < self.len()
        &&& forall|i: int|
            0 <= i < self.len() ==> (#[trigger] self.states[i] == State::Available
                <==> self.unused.contains(i as usize))
        &&& forall|i: int|
            0 <= i < self.len() ==> (#[trigger] self.states[i] == State::Ready
                <==> self.ready.contains(i as usize))
        &&& forall|i: int|
            0 <= i < self.len() ==> (#[trigger] self.states[i] == State::Running ==> i
                == self.current)
    }

    /// Spawning: the first unused slot becomes `Ready` at the back of the ready queue.
    pub open spec fn spawn(self) -> RuntimeModel {
        let loc = self.unused[0];
        RuntimeModel {
            states: self.states.update(loc as int, State::Ready),
            unused: self.unused.drop_first(),
            ready: self.ready.push(loc),
            current: self.current,
        }
    }

    /// `k` successive spawns.
    pub open spec fn spawn_n(self, k: nat) -> RuntimeModel
        decreases k,
    {
        if k == 0 {
            self
        } else {
            self.spawn_n((k - 1) as nat).spawn()
        }
    }

    /// Preemption: a running current task goes back to the end of the ready queue.
    pub open spec fn preempt(self) -> RuntimeModel {
        if self.running() {
            RuntimeModel {
                states: self.states.update(self.current as int, State::Ready),
                ready: self.ready.push(self.current),
                ..self
            }
        } else {
            self
        }
    }

    /// Dispatch: the front of the ready queue becomes the running current task.
    pub open spec fn dispatch(self) -> RuntimeModel {
        let next = self.ready[0];
        RuntimeModel {
            states: self.states.update(next as int, State::Running),
            ready: self.ready.drop_first(),
            current: next,
            ..self
        }
    }

    /// One scheduling round: preempt, then dispatch the front of the ready
    /// queue if there is one; the slot dispatched, if any.
    pub open spec fn run_task(self) -> (RuntimeModel, Option<usize>) {
        let p = self.preempt();
        if p.ready.len() == 0 {
            (p, None)
        } else {
            (p.dispatch(), Some(p.ready[0]))
        }
    }

    /// `k` successive scheduling rounds.
    pub open spec fn run_rounds(self, k: nat) -> RuntimeModel
        decreases k,
    {
        if k == 0 {
            self
        } else {
            self.run_rounds((k - 1) as nat).run_task().0
        }
    }

    /// Exit: the current slot becomes `Available` at the front of the unused queue.
    pub open spec fn exit(self) -> RuntimeModel {
        RuntimeModel {
            states: self.states.update(self.current as int, State::Available),
            unused: seq![self.current] + self.unused,
            ..self
        }
    }
}

/// Law: spawning from a consistent state with a free slot keeps it consistent.
pub proof fn lemma_spawn_wf(m: RuntimeModel)
    requires
        m.wf(),
        m.unused.len() > 0,
    ensures
        m.spawn().wf(),
{
    let loc = m.unused[0];
    let s = m.spawn();
    assert(m.unused.contains(loc));
    assert(m.states[loc as int] == State::Available);
    assert(!m.ready.contains(loc));
    assert forall|k: int| 0 <= k < s.unused.len() implies #[trigger] s.unused[k] < s.len() by {
        assert(s.unused[k] == m.unused[k + 1]);
    }
    assert forall|i: int| 0 <= i < s.len() implies (#[trigger] s.states[i] == State::Available
        <==> s.unused.contains(i as usize)) by {
        if i == loc {
            if s.unused.contains(i as usize) {
                let k = choose|k: int| 0 <= k < s.unused.len() && s.unused[k] == i as usize;
                assert(m.unused[k + 1] == m.unused[0]);
            }
        } else {
            if m.unused.contains(i as usize) {
                let k = choose|k: int| 0 <= k < m.unused.len() && m.unused[k] == i as usize;
                assert(k != 0);
                assert(s.unused[k - 1] == i as usize);
            }
        }
    }
    assert forall|i: int| 0 <= i < s.len() implies (#[trigger] s.states[i] == State::Ready
        <==> s.ready.contains(i as usize)) by {
        if i == loc {
            assert(s.ready[s.ready.len() - 1] == loc);
        } else {
            if s.ready.contains(i as usize) {
                let k = choose|k: int| 0 <= k < s.ready.len() && s.ready[k] == i as usize;
                assert(k < m.ready.len());
                assert(m.ready[k] == i as usize);
            }
            if m.ready.contains(i as usize) {
                let k = choose|k: int| 0 <= k < m.ready.len() && m.ready[k] == i as usize;
                assert(s.ready[k] == i as usize);
            }
        }
    }
}

/// Law: a scheduling round from a consistent state keeps it consistent.
pub proof fn lemma_run_task_wf(m: RuntimeModel)
    requires
        m.wf(),
    ensures
        m.run_task().0.wf(),
{
    let p = m.preempt();
    if m.running() {
        let c = m.current;
        assert(!m.ready.contains(c));
        assert(!m.unused.contains(c));
        assert forall|i: int| 0 <= i < p.len() implies (#[trigger] p.states[i] == State::Ready
            <==> p.ready.contains(i as usize)) by {
            if i == c {
                assert(p.ready[p.ready.len() - 1] == c);
            } else {
                if p.ready.contains(i as usize) {
                    let k = choose|k: int| 0 <= k < p.ready.len() && p.ready[k] == i as usize;
                    assert(k < m.ready.len());
                    assert(m.ready[k] == i as usize);
                }
                if m.ready.contains(i as usize) {
                    let k = choose|k: int| 0 <= k < m.ready.len() && m.ready[k] == i as usize;
                    assert(p.ready[k] == i as usize);
                }
            }
        }
        assert forall|k: int| 0 <= k < p.ready.len() implies #[trigger] p.ready[k] < p.len() by {
            if k < m.ready.len() {
                assert(p.ready[k] == m.ready[k]);
            }
        }
        assert(p.wf());
    }
    assert(p.wf());
    if p.ready.len() > 0 {
        let next = p.ready[0];
        let d = p.dispatch();
        assert(p.ready.contains(next));
        assert(p.states[next as int] == State::Ready);
        assert(!p.unused.contains(next));
        assert forall|k: int| 0 <= k < d.ready.len() implies #[trigger] d.ready[k] < d.len() by {
            assert(d.ready[k] == p.ready[k + 1]);
        }
        assert forall|i: int| 0 <= i < d.len() implies (#[trigger] d.states[i] == State::Ready
            <==> d.ready.contains(i as usize)) by {
            if i == next {
                if d.ready.contains(i as usize) {
                    let k = choose|k: int| 0 <= k < d.ready.len() && d.ready[k] == i as usize;
                    assert(p.ready[k + 1] == p.ready[0]);
                }
            } else {
                if p.ready.contains(i as usize) {
                    let k = choose|k: int| 0 <= k < p.ready.len() && p.ready[k] == i as usize;
                    assert(k != 0);
                    assert(d.ready[k - 1] == i as usize);
                }
            }
        }
        assert forall|i: int| 0 <= i < d.len() && #[trigger] d.states[i] == State::Running implies i
            == d.current by {
            if i != next {
                assert(p.states[i] == State::Running);
                assert(i == p.current);
                assert(!p.running());
            }
        }
        assert(d.wf());
    }
}

/// Law: the running task exiting from a consistent state keeps it consistent.
pub proof fn lemma_exit_wf(m: RuntimeModel)
    requires
        m.wf(),
        m.running(),
    ensures
        m.exit().wf(),
{
    let c = m.current;
    let e = m.exit();
    assert(!m.unused.contains(c));
    assert(!m.ready.contains(c));
    assert forall|k: int| 0 <= k < e.unused.len() implies #[trigger] e.unused[k] < e.len() by {
        if k > 0 {
            assert(e.unused[k] == m.unused[k - 1]);
        }
    }
    assert forall|i: int| 0 <= i < e.len() implies (#[trigger] e.states[i] == State::Available
        <==> e.unused.contains(i as usize)) by {
        if i == c {
            assert(e.unused[0] == c);
        } else {
            if e.unused.contains(i as usize) {
                let k = choose|k: int| 0 <= k < e.unused.len() && e.unused[k] == i as usize;
                assert(k != 0);
                assert(m.unused[k - 1] == i as usize);
            }
            if m.unused.contains(i as usize) {
                let k = choose|k: int| 0 <= k < m.unused.len() && m.unused[k] == i as usize;
                assert(e.unused[k + 1] == i as usize);
            }
        }
    }
    assert forall|i: int, j: int|
        0 <= i < e.unused.len() && 0 <= j < e.unused.len() && i != j implies e.unused[i]
        != e.unused[j] by {
        if i > 0 && j > 0 {
            assert(e.unused[i] == m.unused[i - 1]);
            assert(e.unused[j] == m.unused[j - 1]);
        } else if i == 0 {
            assert(e.unused[j] == m.unused[j - 1]);
        } else {
            assert(e.unused[i] == m.unused[i - 1]);
        }
    }
}

/// Law: `k` spawns from a consistent state with `k` free slots keep it
/// consistent and take the first `k` unused slots, in order, to the back of
/// the ready queue.
pub proof fn lemma_spawn_n(m: RuntimeModel, k: nat)
    requires
        m.wf(),
        k <= m.unused.len(),
    ensures
        m.spawn_n(k).wf(),
        m.spawn_n(k).len() == m.len(),
        m.spawn_n(k).current == m.current,
        m.spawn_n(k).unused == m.unused.skip(k as int),
        m.spawn_n(k).ready == m.ready + m.unused.take(k as int),
    decreases k,
{
    if k > 0 {
        let p = m.spawn_n((k - 1) as nat);
        lemma_spawn_n(m, (k - 1) as nat);
        lemma_spawn_wf(p);
        assert(p.spawn().unused =~= m.unused.skip(k as int));
        assert(p.spawn().ready =~= m.ready + m.unused.take(k as int));
    }
}

/// Law: each round moves every waiting task one place closer to the front
/// of the ready queue, so a ready task runs after exactly the tasks ahead of it.
pub proof fn lemma_ready_advances(m: RuntimeModel, k: int)
    requires
        m.wf(),
        1 <= k < m.ready.len(),
    ensures
        m.run_task().0.ready[k - 1] == m.ready[k],
        m.run_task().1 == Some(m.ready[0]),
{
}

/// Law: with a task running and none spawned or exiting, successive rounds
/// run the waiting tasks in queue order, each preempted task rejoining the
/// back of the queue: after `k` rounds the `k`-th waiting task runs and the
/// queue has rotated by `k`.
pub proof fn lemma_rounds_rotate(m: RuntimeModel, k: nat)
    requires
        m.wf(),
        m.running(),
        1 <= k <= m.ready.len(),
    ensures
        m.run_rounds(k).wf(),
        m.run_rounds(k).running(),
        m.run_rounds(k).current == m.ready[k - 1],
        m.run_rounds(k).ready == m.ready.skip(k as int) + seq![m.current] + m.ready.take(k - 1),
    decreases k,
{
    if k == 1 {
        assert(m.run_rounds(0) == m);
        lemma_run_task_wf(m);
        lemma_run_task_idle(m);
        assert(m.run_rounds(1).ready =~= m.ready.skip(1) + seq![m.current] + m.ready.take(0));
    } else {
        lemma_rounds_rotate(m, (k - 1) as nat);
        let p = m.run_rounds((k - 1) as nat);
        lemma_run_task_wf(p);
        lemma_run_task_idle(p);
        assert(p.ready[0] == m.ready[k - 1]);
        assert(p.run_task().0.ready =~= m.ready.skip(k as int) + seq![m.current] + m.ready.take(
            k - 1,
        ));
    }
}

/// The slot indices `0 <= i < n`, as a set.
pub open spec fn slot_set(n: nat) -> Set<usize> {
    Set::new(|x: usize| x < n)
}

/// `slot_set(n)` has `n` elements.
pub proof fn lemma_slot_set_len(n: nat)
    requires
        n <= usize::MAX,
    ensures
        slot_set(n).finite(),
        slot_set(n).len() == n,
{
    let r = set_int_range(0, n as int);
    let f = |i: int| i as usize;
    lemma_int_range(0, n as int);
    assert(r.map(f) =~= slot_set(n)) by {
        assert forall|x: usize| slot_set(n).contains(x) implies r.map(f).contains(x) by {
            assert(r.contains(x as int) && f(x as int) == x);
        }
    }
    assert(injective_on(f, r));
    lemma_map_size(r, slot_set(n), f);
}

/// Law: no slot is lost or counted twice: the unused slots, the ready slots
/// and the running slot, if any, number exactly the slots of the runtime.
pub proof fn lemma_slots_conserved(m: RuntimeModel)
    requires
        m.wf(),
    ensures
        m.unused.len() + m.ready.len() + (if m.running() { 1int } else { 0int }) == m.len(),
{
    let u = m.unused.to_set();
    let r = m.ready.to_set();
    let c = if m.running() { Set::<usize>::empty().insert(m.current) } else { Set::<usize>::empty() };
    m.unused.unique_seq_to_set();
    m.ready.unique_seq_to_set();
    lemma_slot_set_len(m.len());
    assert(c.len() == (if m.running() { 1int } else { 0int }));
    assert(u.disjoint(r)) by {
        assert forall|x: usize| u.contains(x) implies !r.contains(x) by {
            let k = choose|k: int| 0 <= k < m.unused.len() && m.unused[k] == x;
            assert(m.unused[k] < m.len());
            assert(m.unused.contains(x));
            assert(m.states[x as int] == State::Available);
        }
    }
    lemma_set_disjoint_lens(u, r);
    assert((u + r).disjoint(c)) by {
        if m.running() {
            assert(!m.unused.contains(m.current));
            assert(!m.ready.contains(m.current));
        }
    }
    lemma_set_disjoint_lens(u + r, c);
    assert(u + r + c =~= slot_set(m.len())) by {
        assert forall|x: usize| (u + r + c).contains(x) implies slot_set(m.len()).contains(x) by {
            if u.contains(x) {
                let k = choose|k: int| 0 <= k < m.unused.len() && m.unused[k] == x;
                assert(m.unused[k] < m.len());
            }
            if r.contains(x) {
                let k = choose|k: int| 0 <= k < m.ready.len() && m.ready[k] == x;
                assert(m.ready[k] < m.len());
            }
        }
        assert forall|x: usize| slot_set(m.len()).contains(x) implies (u + r + c).contains(x) by {
            let s = m.states[x as int];
            if s == State::Available {
                assert(m.unused.contains(x));
            } else if s == State::Ready {
                assert(m.ready.contains(x));
            } else {
                assert(x == m.current);
            }
        }
    }
}

/// Law: the slot given back by the exiting task is the one the next spawn takes.
pub proof fn lemma_exit_then_spawn_reuses(m: RuntimeModel)
    requires
        m.wf(),
        m.running(),
    ensures
        m.exit().unused[0] == m.current,
        m.exit().spawn().states[m.current as int] == State::Ready,
        m.exit().spawn().ready == m.ready.push(m.current),
        m.exit().spawn().unused == m.unused,
{
    assert(m.exit().unused.drop_first() =~= m.unused);
}

/// Law: a scheduling round dispatches nothing exactly when no task is ready
/// and none is running; otherwise it dispatches the front of the ready queue,
/// or the running task itself when it is alone.
pub proof fn lemma_run_task_idle(m: RuntimeModel)
    requires
        m.wf(),
    ensures
        m.run_task().1 is None <==> (m.ready.len() == 0 && !m.running()),
        m.ready.len() > 0 ==> m.run_task().1 == Some(m.ready[0]),
        m.ready.len() == 0 && m.running() ==> m.run_task().1 == Some(m.current),
        m.run_task().1 matches Some(next) ==> m.run_task().0.running() && m.run_task().0.current
            == next,
{
    lemma_run_task_wf(m);
}

/// A user-level thread runtime: a table of task slots, the unused and ready
/// queues of slot indices, and the current slot (`usize::MAX` before the
/// first dispatch).
pub struct Runtime {
    tasks: Vec<Task>,
    unused: VecDeque<usize>,
    ready: VecDeque<usize>,
    current: usize,
    stack_words: usize,
}

impl Runtime {
    /// The scheduling state.
    pub closed spec fn view(&self) -> RuntimeModel {
        RuntimeModel {
            states: Seq::new(self.tasks@.len(), |i: int| self.tasks@[i]@.state),
            unused: self.unused@,
            ready: self.ready@,
            current: self.current,
        }
    }

    /// Task slot `i`.
    pub closed spec fn task(&self, i: int) -> TaskView {
        self.tasks@[i]@
    }

    /// Words in every task's stack.
    pub closed spec fn stack_words(&self) -> nat {
        self.stack_words as nat
    }

    /// Slot `i` is the `i`-th task, and its stack has the runtime's size and fits in memory.
    pub closed spec fn slots_wf(&self) -> bool {
        &&& self.stack_words >= FRAME_WORDS
        &&& forall|i: int|
            0 <= i < self.tasks@.len() ==> {
                &&& (#[trigger] self.tasks@[i])@.id == i
                &&& self.tasks@[i]@.stack.len() == self.stack_words
                &&& self.tasks@[i].stack_fits()
            }
    }

    /// The runtime is consistent: its scheduling state is well formed and its slots are.
    pub open spec fn wf(&self) -> bool {
        self@.wf() && self.slots_wf()
    }

    /// A runtime of `MAX_TASKS` slots with stacks of `DEFAULT_STACK_SIZE` bytes.
    pub fn new() -> (rt: Runtime)
        ensures
            rt.wf(),
            rt@.len() == MAX_TASKS,
            forall|i: int| 0 <= i < MAX_TASKS ==> (#[trigger] rt@.states[i]) == State::Available,
            rt@.unused == Seq::new(MAX_TASKS as nat, |i: int| i as usize),
            rt@.ready == Seq::<usize>::empty(),
            rt@.current == usize::MAX,
            rt.stack_words() == DEFAULT_STACK_SIZE / WORD_BYTES,
            forall|i: int| 0 <= i < MAX_TASKS ==> (#[trigger] rt.task(i)).fresh(i, rt.stack_words()),
    {
        Runtime::with_config(MAX_TASKS, DEFAULT_STACK_SIZE)
    }

    /// A runtime of `max_tasks` available slots, all in the unused queue in
    /// index order, with stacks of `stack_size` bytes (whole words).
    pub fn with_config(max_tasks: usize, stack_size: usize) -> (rt: Runtime)
        requires
            stack_size / WORD_BYTES >= FRAME_WORDS,
        ensures
            rt.wf(),
            rt@.len() == max_tasks,
            forall|i: int| 0 <= i < max_tasks ==> (#[trigger] rt@.states[i]) == State::Available,
            rt@.unused == Seq::new(max_tasks as nat, |i: int| i as usize),
            rt@.ready == Seq::<usize>::empty(),
            rt@.current == usize::MAX,
            rt.stack_words() == stack_size / WORD_BYTES,
            forall|i: int| 0 <= i < max_tasks ==> (#[trigger] rt.task(i)).fresh(i, rt.stack_words()),
    {
        let mut tasks: Vec<Task> = Vec::new();
        let mut unused: VecDeque<usize> = VecDeque::new();
        let mut i: usize = 0;
        while i < max_tasks
            invariant
                i <= max_tasks,
                tasks@.len() == i,
                unused@ == Seq::new(i as nat, |k: int| k as usize),
                forall|k: int|
                    0 <= k < i ==> {
                        &&& (#[trigger] tasks@[k])@.id == k
                        &&& tasks@[k]@.state == State::Available
                        &&& tasks@[k]@.ctx == 0
                        &&& tasks@[k]@.stack.len() == stack_size / WORD_BYTES
                        &&& tasks@[k].stack_fits()
                        &&& tasks@[k]@.fresh(k, (stack_size / WORD_BYTES) as nat)
                    },
            decreases max_tasks - i,
        {
            tasks.push(Task::with_stack_size(i, stack_size));
            unused.push_back(i);
            i += 1;
        }
        let rt = Runtime {
            tasks,
            unused,
            ready: VecDeque::with_capacity(max_tasks),
            current: usize::MAX,
            stack_words: stack_size / WORD_BYTES,
        };
        assert forall|k: int| 0 <= k < rt@.len() implies (#[trigger] rt@.states[k]
            == State::Available <==> rt@.unused.contains(k as usize)) by {
            assert(rt@.unused[k] == k as usize);
        }
        rt
    }

    /// Number of slots free for spawning.
    pub fn available(&self) -> (n: usize)
        ensures
            n == self@.unused.len(),
    {
        self.unused.len()
    }

    /// The current task, when the current slot exists.
    pub fn get_current_task(&self) -> (t: Option<&Task>)
        ensures
            t matches Some(task) ==> self@.current < self@.len() && task@ == self.task(
                self@.current as int,
            ),
            t is None ==> self@.current >= self@.len(),
    {
        if self.current < self.tasks.len() {
            Some(&self.tasks[self.current])
        } else {
            None
        }
    }

    /// The stack pointer saved for slot `id`.
    pub fn task_context(&self, id: usize) -> (ctx: usize)
        requires
            id < self@.len(),
        ensures
            ctx == self.task(id as int).ctx,
    {
        self.tasks[id].get_context()
    }

    /// Records the stack pointer the current task stopped at.
    pub fn set_current_context(&mut self, ctx: usize)
        requires
            old(self).wf(),
            old(self)@.current < old(self)@.len(),
        ensures
            final(self).wf(),
            final(self)@ == old(self)@,
            final(self).stack_words() == old(self).stack_words(),
            forall|i: int|
                0 <= i < final(self)@.len() ==> #[trigger] final(self).task(i) == (if i
                    == old(self)@.current {
                    TaskView { ctx, ..old(self).task(i) }
                } else {
                    old(self).task(i)
                }),
    {
        let cur = self.current;
        self.tasks[cur].set_context(ctx);
        assert(self@ =~= old(self)@);
    }

    /// Takes the first unused slot for a task that will run `f(arg)`, entered
    /// through the trampoline `entry`.
    ///
    /// The slot's stack ends with the frame the switch pops on first entry:
    /// six cleared registers, `entry`, `arg` and `f`, and the slot's saved
    /// stack pointer is the address of that frame. The slot becomes `Ready`
    /// at the back of the ready queue.
    pub fn spawn(&mut self, f: usize, arg: usize, entry: usize)
        requires
            old(self).wf(),
            old(self)@.unused.len() > 0,
        ensures
            final(self).wf(),
            final(self)@ == old(self)@.spawn(),
            final(self).stack_words() == old(self).stack_words(),
            ({
                let loc = old(self)@.unused[0] as int;
                let w = old(self).stack_words() as int;
                let t = final(self).task(loc);
                &&& t.id == loc
                &&& t.stack_base == old(self).task(loc).stack_base
                &&& t.stack == old(self).task(loc).stack.subrange(0, w - 9) + first_frame(
                    f,
                    arg,
                    entry,
                )
                &&& t.starts(f, arg, entry, w)
                &&& t.stack.len() == w
                &&& t.stack[w - 1] == f as u64
                &&& t.stack[w - 2] == arg as u64
                &&& t.stack[w - 3] == entry as u64
                &&& forall|k: int| w - 9 <= k < w - 3 ==> t.stack[k] == 0
                &&& t.ctx == t.stack_base + 8 * (w - 9)
                &&& t.ctx - t.stack_base == 8 * (w - 9)
            }),
            forall|i: int|
                0 <= i < final(self)@.len() && i != old(self)@.unused[0] ==> #[trigger] final(self).task(i) == old(self).task(i),
    {
        proof {
            lemma_spawn_wf(self@);
        }
        let loc = match self.unused.pop_front() {
            Some(l) => l,
            None => {
                proof {
                    assert(false);
                }
                return ;
            },
        };
        assert(loc == old(self)@.unused[0]);
        assert(old(self)@.unused.contains(loc));
        let words = self.stack_words;
        let ghost t0 = self.tasks@[loc as int]@;
        let proc = &mut self.tasks[loc];
        let mut sp: usize = words;
        sp = push_stack(&mut proc.stack, sp, f as u64);
        sp = push_stack(&mut proc.stack, sp, arg as u64);
        let context_data = TaskContext::starting_at(entry as u64);
        sp = push_context(&mut proc.stack, sp, &context_data);
        assert(sp * 8 <= words * 8);
        proc.ctx = proc.stack_base + sp * WORD_BYTES;
        proc.state = State::Ready;
        let id = proc.id;
        self.ready.push_back(id);
        proof {
            assert(self.tasks@[loc as int]@.stack =~= t0.stack.subrange(0, words - 9) + first_frame(
                f,
                arg,
                entry,
            ));
            assert(self.tasks@[loc as int]@.stack.subrange(words - 9, words as int) =~= first_frame(
                f,
                arg,
                entry,
            ));
            assert(self@ =~= old(self)@.spawn());
        }
    }

    /// One scheduling round: a running current task is moved to the back of
    /// the ready queue, then the front of the ready queue, if any, becomes the
    /// running current task and is returned for the caller to switch to.
    pub fn run_task(&mut self) -> (next: Option<usize>)
        requires
            old(self).wf(),
        ensures
            final(self).wf(),
            (final(self)@, next) == old(self)@.run_task(),
            final(self).stack_words() == old(self).stack_words(),
            forall|i: int|
                0 <= i < final(self)@.len() ==> (#[trigger] final(self).task(i)).ctx == old(self).task(i).ctx && final(self).task(i).stack == old(self).task(i).stack
                    && final(self).task(i).stack_base == old(self).task(i).stack_base,
    {
        proof {
            lemma_run_task_wf(self@);
        }
        let ghost m0 = self@;
        if self.current < self.tasks.len() {
            let id = self.current;
            if self.tasks[id].state == State::Running {
                self.tasks[id].state = State::Ready;
                self.ready.push_back(id);
            }
        }
        assert(self@ =~= m0.preempt());
        let ghost m1 = self@;
        let pos = self.ready.pop_front();
        match pos {
            None => {
                assert(self@ =~= m0.run_task().0);
                None
            },
            Some(current) => {
                assert(m1.ready.contains(current));
                self.current = current;
                self.tasks[current].state = State::Running;
                assert(self@ =~= m1.dispatch());
                Some(current)
            },
        }
    }

    /// The current task gives its slot back: the slot becomes `Available` at
    /// the front of the unused queue, so the next spawn reuses it. Returns the slot.
    pub fn exit(&mut self) -> (id: usize)
        requires
            old(self).wf(),
            old(self)@.current < old(self)@.len(),
        ensures
            id == old(self)@.current,
            final(self)@ == old(self)@.exit(),
            final(self).slots_wf(),
            old(self)@.running() ==> final(self).wf(),
            final(self).stack_words() == old(self).stack_words(),
            forall|i: int|
                0 <= i < final(self)@.len() ==> (#[trigger] final(self).task(i)).ctx == old(self).task(i).ctx && final(self).task(i).stack == old(self).task(i).stack
                    && final(self).task(i).stack_base == old(self).task(i).stack_base,
    {
        proof {
            if self@.running() {
                lemma_exit_wf(self@);
            }
        }
        let cur = self.current;
        self.tasks[cur].state = State::Available;
        let id = self.tasks[cur].id;
        self.unused.push_front(id);
        assert(self@ =~= old(self)@.exit());
        id
    }
}

} // verus!
