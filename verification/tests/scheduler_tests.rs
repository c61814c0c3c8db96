use switch_bench::executor::{Executor, MAX_TASKS as EXEC_MAX_TASKS};
use switch_bench::runtime::{push_stack, Runtime, State, Task, TaskContext, DEFAULT_STACK_SIZE, WORD_BYTES};

fn state_of(rt: &Runtime, id: usize) -> Option<State> {
    rt.get_current_task().filter(|t| t.id() == id).map(|t| t.state())
}

#[test]
fn runtime_starts_idle() {
    let mut rt = Runtime::with_config(3, 128);
    assert_eq!(rt.available(), 3);
    assert!(rt.get_current_task().is_none());
    assert_eq!(rt.run_task(), None);
    assert!(rt.get_current_task().is_none());
}

#[test]
fn spawn_takes_slots_in_order_and_runs_fifo() {
    let mut rt = Runtime::with_config(3, 128);
    rt.spawn(0x1000, 11, 0x2000);
    rt.spawn(0x1000, 22, 0x2000);
    assert_eq!(rt.available(), 1);
    assert_eq!(rt.run_task(), Some(0));
    assert_eq!(state_of(&rt, 0), Some(State::Running));
    // the running task is preempted to the back of the queue
    assert_eq!(rt.run_task(), Some(1));
    assert_eq!(rt.run_task(), Some(0));
    assert_eq!(rt.run_task(), Some(1));
}

#[test]
fn lone_running_task_is_dispatched_again() {
    let mut rt = Runtime::with_config(2, 128);
    rt.spawn(1, 2, 3);
    assert_eq!(rt.run_task(), Some(0));
    assert_eq!(rt.run_task(), Some(0));
}

#[test]
fn exit_frees_slot_for_next_spawn() {
    let mut rt = Runtime::with_config(3, 128);
    rt.spawn(1, 0, 3);
    rt.spawn(1, 1, 3);
    assert_eq!(rt.run_task(), Some(0));
    assert_eq!(rt.exit(), 0);
    assert_eq!(rt.available(), 2);
    assert_eq!(state_of(&rt, 0), Some(State::Available));
    // next round: nothing to preempt, task 1 runs
    assert_eq!(rt.run_task(), Some(1));
    assert_eq!(rt.exit(), 1);
    assert_eq!(rt.run_task(), None);
    // slot 1 was freed last, so it is reused first
    rt.spawn(1, 5, 3);
    assert_eq!(rt.run_task(), Some(1));
    assert_eq!(rt.available(), 2);
}

#[test]
fn spawn_records_frame_address() {
    let mut rt = Runtime::with_config(2, 128);
    let words = 128 / WORD_BYTES;
    rt.spawn(0xAAAA, 0xBBBB, 0xCCCC);
    let ctx = rt.task_context(0);
    // the frame starts nine words below the top of a real allocation
    assert!(ctx > (words - 9) * 8);
    assert_eq!(rt.task_context(1), 0);
    assert_eq!(rt.run_task(), Some(0));
    rt.set_current_context(ctx - 16);
    assert_eq!(rt.task_context(0), ctx - 16);
    assert_eq!(rt.get_current_task().unwrap().get_context(), ctx - 16);
}

#[test]
fn task_and_stack_helpers() {
    let mut t = Task::new(7);
    assert_eq!(t.id(), 7);
    assert_eq!(t.state(), State::Available);
    assert_eq!(t.get_context(), 0);
    t.set_context(99);
    assert_eq!(t.get_context(), 99);
    let t2 = Task::with_stack_size(3, 80);
    assert_eq!(t2.id(), 3);
    let mut stack = vec![0u64; 4];
    assert_eq!(push_stack(&mut stack, 4, 9), 3);
    assert_eq!(stack, vec![0, 0, 0, 9]);
    let ctx = TaskContext::starting_at(42);
    assert_eq!((ctx.r15, ctx.rbx, ctx.rip), (0, 0, 42));
    let _ = DEFAULT_STACK_SIZE;
}

#[test]
fn executor_round_robin_and_reuse() {
    let mut ex = Executor::new();
    assert_eq!(ex.available(), EXEC_MAX_TASKS);
    assert_eq!(ex.next_ready(), None);
    assert!(!ex.run_task(false, false));
    assert_eq!(ex.add_task(), 0);
    assert_eq!(ex.add_task(), 1);
    assert_eq!(ex.next_ready(), Some(0));
    // slot 0 pending and woken: to the back
    assert!(ex.run_task(false, true));
    assert_eq!(ex.next_ready(), Some(1));
    // slot 1 finished: freed to the front of the unused queue
    assert!(ex.run_task(true, false));
    assert_eq!(ex.available(), EXEC_MAX_TASKS - 1);
    assert_eq!(ex.next_ready(), Some(0));
    assert_eq!(ex.add_task(), 1);
    assert!(ex.run_task(true, true));
    assert_eq!(ex.next_ready(), Some(1));
    assert!(ex.run_task(true, false));
    assert_eq!(ex.next_ready(), None);
    assert_eq!(ex.available(), EXEC_MAX_TASKS);
    assert_eq!(ex.add_task(), 1);
}
