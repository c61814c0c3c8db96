use switch_bench::matrix::{Matrix, N};
use switch_bench::runtime::Runtime;
use switch_bench::user_threads::{l3_thread, l3_thread_stack, spawn_l1, spawn_l2};

#[test]
fn spawn_l1_spawns_one_thread_per_row() {
    let mut rt = Runtime::with_config(N + 2, 72);
    spawn_l1(&mut rt, 0x10, 0x20);
    assert_eq!(rt.available(), 2);
    for k in 0..N {
        assert_eq!(rt.run_task(), Some(k));
    }
    assert_eq!(rt.run_task(), Some(0));
}

#[test]
fn spawn_l2_spawns_one_thread_per_cell() {
    let mut rt = Runtime::with_config(N * N, 72);
    spawn_l2(&mut rt, 0x10, 0x20);
    assert_eq!(rt.available(), 0);
    assert_eq!(rt.run_task(), Some(0));
    assert_eq!(rt.run_task(), Some(1));
}

#[test]
fn cell_thread_unpacks_its_argument() {
    let mut a = Matrix::new(N);
    let mut b = Matrix::new(N);
    a.data[2 * N + 5] = 3;
    b.data[5 * N + 7] = 4;
    let mut c = Matrix::new(N);
    l3_thread(2 << 32 | 7, &a, &b, &mut c);
    assert_eq!(c.data[2 * N + 7], 12);
    assert_eq!(c.data.iter().filter(|&&x| x != 0).count(), 1);
    let mut c = Matrix::new(N);
    l3_thread_stack(2 << 32 | 7, &a, &b, &mut c);
    assert_eq!(c.data[2 * N + 7], 12);
}
