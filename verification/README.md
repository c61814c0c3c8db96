# switch_bench

Benchmarks of the cost of switching between units of work (processes,
kernel threads, user-level threads and coroutines), with their logic
verified in Verus.

- `src/` is the verified library:
  - `matrix`, `matrix::function`: the truncated matrix product the
    benchmarks run, in its loop, per-level, staged-buffer and call-heavy forms,
    all proved to compute `matrix::product`; the benchmarks' random generator.
  - `overhead`, `overhead_unfold`: the nested-loop and recursive call-overhead
    workloads, proved to count `LAYER^9`.
  - `runtime`: the scheduler of the user-level thread runtime (slot table,
    unused and ready queues, first stack frame of a task) with its invariant
    and laws.
  - `executor`: the scheduler of the coroutine executor, with its invariant
    and laws.
  - `ring`: the token-ring workload of the switch benchmarks.
  - `user_threads`: the matrix product spread over user-level threads.
  - `gettime`: the memory workload of the process and thread switch benchmarks.
- `app/` holds the programs: timing, scheduling priority, logging, the
  register switch in assembly, the futures and the global state.
- `tests/` exercises the library on concrete values.
