use switch_bench::runtime::Runtime;
use switch_bench::gettime::{work_load, BUF_SIZE};
use switch_bench::ring::{step, work, Counter, NUM, TIMES};

#[test]
fn work_total() {
    // 640 blocks of 0..16 sum to 76800, kept to 16 bits
    assert_eq!(work(), 76800 % 65536);
}

#[test]
fn token_holder_advances() {
    let mut sig = 5usize;
    let mut w = Counter::new(5);
    let mut other = Counter::new(6);
    assert!(!step(&mut other, &mut sig));
    assert_eq!((sig, other.count), (5, 0));
    assert!(!step(&mut w, &mut sig));
    assert_eq!((sig, w.count), (6, 1));
    assert!(!step(&mut other, &mut sig));
    assert_eq!((sig, other.count), (7, 1));
    // wrap-around of the ring
    let mut sig = NUM - 1;
    let mut last = Counter::new(NUM - 1);
    let mut first = Counter::new(0);
    step(&mut last, &mut sig);
    step(&mut first, &mut sig);
    assert_eq!((sig, last.count, first.count), (NUM + 1, 1, 1));
}

#[test]
fn worker_finishes_after_times_rounds() {
    let mut sig = 0usize;
    let mut w = Counter { id: 0, count: TIMES - 1 };
    assert!(step(&mut w, &mut sig));
    assert_eq!(w.count, TIMES);
    // a finished worker not holding the token still reports finished
    assert!(step(&mut w, &mut sig));
    assert_eq!(sig, 1);
}

#[test]
fn work_load_touches_one_block() {
    let mut buf = [0u8; BUF_SIZE];
    work_load(&mut buf, 65);
    work_load(&mut buf, 1);
    for p in 0..BUF_SIZE {
        let expect = if (0x100..0x200).contains(&p) { 2 } else { 0 };
        assert_eq!(buf[p], expect);
    }
}

#[test]
fn work_load_wraps_bytes() {
    let mut buf = [255u8; BUF_SIZE];
    work_load(&mut buf, 3);
    assert_eq!(buf[3 * 0x100], 0);
    assert_eq!(buf[3 * 0x100 + 0xFF], 0);
    assert_eq!(buf[2 * 0x100 + 0xFF], 255);
    assert_eq!(buf[4 * 0x100], 255);
}

#[test]
fn ring_runs_times_rounds_and_ends_at_num_times() {
    let mut sig = 0usize;
    let mut workers: Vec<Counter> = (0..NUM).map(Counter::new).collect();
    let mut done = vec![false; NUM];
    for round in 1..=TIMES {
        for w in workers.iter_mut() {
            let finished = step(w, &mut sig);
            assert_eq!(finished, round == TIMES);
            if finished {
                done[w.id] = true;
            }
        }
    }
    assert!(done.iter().all(|&d| d));
    assert!(workers.iter().all(|w| w.count == TIMES));
    assert_eq!(sig, NUM * TIMES);
    assert_eq!(sig, 38400);
}

#[test]
fn ring_on_the_runtime_ends_at_num_times() {
    let mut rt = Runtime::with_config(NUM, 72);
    for i in 0..NUM {
        rt.spawn(0x10, i, 0x20);
    }
    let mut workers: Vec<Counter> = (0..NUM).map(Counter::new).collect();
    let mut sig = 0usize;
    let mut dispatches = 0usize;
    while let Some(id) = rt.run_task() {
        dispatches += 1;
        if step(&mut workers[id], &mut sig) {
            rt.exit();
        }
    }
    assert_eq!(dispatches, NUM * TIMES);
    assert_eq!(sig, 38400);
    assert!(workers.iter().all(|w| w.count == TIMES));
    assert_eq!(rt.available(), NUM);
}
