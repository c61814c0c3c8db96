use switch_bench::matrix::function::{
    add, equal, fdot, fdot_slow, fdot_stack, l1, l1_slow, l1_stack, l2, l3, l3_slow, l3_stack,
    overflow, size_check, times,
};
use switch_bench::matrix::{dot, dot_stack, matrix_random, random, Matrix, RandomState, N, RANDOM_SEED};

fn mat(n: usize, data: Vec<usize>) -> Matrix {
    Matrix { data, n }
}

/// Reference truncated product, written independently of the library.
fn reference(a: &[usize], b: &[usize], c: &[usize], n: usize) -> Vec<usize> {
    let mut out = c.to_vec();
    for i in 0..n {
        for j in 0..n {
            let mut s: u128 = 0;
            for k in 0..n {
                s += ((a[i * n + k] % 65536) as u128) * ((b[k * n + j] % 65536) as u128);
            }
            out[i * n + j] = c[i * n + j] % 65536 + (s % 65536) as usize;
        }
    }
    out
}

#[test]
fn new_matrix_is_zero() {
    let m = Matrix::new(3);
    assert_eq!(m.n, 3);
    assert_eq!(m.data, vec![0usize; 9]);
}

#[test]
fn random_sequence_from_seed() {
    let mut st = RandomState::new();
    let mut s: u64 = RANDOM_SEED as u64;
    for _ in 0..5 {
        s = (s * 10007 + 3) & 0xFFFF_FFFF;
        assert_eq!(random(&mut st), s as usize);
    }
    let mut st2 = RandomState::new();
    assert_eq!(random(&mut st2), 1235424195);
}

#[test]
fn matrix_random_fills_row_major() {
    let mut m = mat(2, vec![7; 5]);
    let mut st = RandomState::new();
    assert_eq!(matrix_random(&mut m, &mut st), Ok(()));
    let mut st2 = RandomState::new();
    let expect: Vec<usize> = (0..4).map(|_| random(&mut st2)).collect();
    assert_eq!(&m.data[0..4], &expect[..]);
    assert_eq!(m.data[4], 7);
    // the generator has advanced by four steps
    assert_eq!(random(&mut st), random(&mut st2));
}

#[test]
fn matrix_random_rejects_short_data() {
    let mut m = mat(3, vec![1; 8]);
    let mut st = RandomState::new();
    assert_eq!(matrix_random(&mut m, &mut st), Err("matrix data size invalid"));
    assert_eq!(m.data, vec![1; 8]);
    assert_eq!(random(&mut st), 1235424195);
}

#[test]
fn dot_two_by_two() {
    let m1 = mat(2, vec![1, 2, 3, 4]);
    let m2 = mat(2, vec![5, 6, 7, 8]);
    let mut m3 = mat(2, vec![100, 0x1_0001, 0, 0x2_FFFF]);
    assert_eq!(dot(&m1, &m2, &mut m3), Ok(()));
    assert_eq!(m3.data, vec![100 + 19, 1 + 22, 43, 0xFFFF + 50]);
}

#[test]
fn dot_truncates_inputs_and_sum() {
    let m1 = mat(1, vec![0x1_FFFF]);
    let m2 = mat(1, vec![0x3_FFFF]);
    let mut m3 = mat(1, vec![0x5_1234]);
    assert_eq!(dot(&m1, &m2, &mut m3), Ok(()));
    // 0xFFFF * 0xFFFF = 0xFFFE0001, low 16 bits 1
    assert_eq!(m3.data, vec![0x1234 + 1]);
}

#[test]
fn dot_rejects_misaligned() {
    let m1 = mat(2, vec![1, 2, 3, 4]);
    let m2 = mat(3, vec![0; 9]);
    let mut m3 = mat(2, vec![9, 9, 9, 9]);
    assert_eq!(dot(&m1, &m2, &mut m3), Err("matrix not aligned"));
    assert_eq!(m3.data, vec![9, 9, 9, 9]);
    let m2 = mat(2, vec![0; 4]);
    let mut m3 = mat(1, vec![9]);
    assert_eq!(dot_stack(&m1, &m2, &mut m3), Err("matrix not aligned"));
    assert_eq!(fdot(&m1, &m2, &mut m3), Err("matrix not aligned"));
    assert_eq!(fdot_slow(&m1, &m2, &mut m3), Err("matrix not aligned"));
    assert_eq!(fdot_stack(&m1, &m2, &mut m3), Err("matrix not aligned"));
    assert_eq!(m3.data, vec![9]);
}

#[test]
fn all_product_variants_agree() {
    let n = 5;
    let mut st = RandomState::new();
    let mut a = Matrix::new(n);
    let mut b = Matrix::new(n);
    matrix_random(&mut a, &mut st).unwrap();
    matrix_random(&mut b, &mut st).unwrap();
    let c0: Vec<usize> = (0..n * n).map(|x| x * 0x1_0003).collect();
    let expect = reference(&a.data, &b.data, &c0, n);
    let mut outs = Vec::new();
    for variant in 0..5 {
        let mut c = mat(n, c0.clone());
        let r = match variant {
            0 => dot(&a, &b, &mut c),
            1 => dot_stack(&a, &b, &mut c),
            2 => fdot(&a, &b, &mut c),
            3 => fdot_slow(&a, &b, &mut c),
            _ => fdot_stack(&a, &b, &mut c),
        };
        assert_eq!(r, Ok(()));
        outs.push(c.data);
    }
    for o in &outs {
        assert_eq!(o, &expect);
        assert!(o.iter().all(|&x| x < 0x20000));
    }
}

#[test]
fn loop_levels() {
    let a = mat(2, vec![1, 2, 3, 4]);
    let b = mat(2, vec![5, 6, 7, 8]);
    let mut c = mat(2, vec![0; 4]);
    l3(2, 1, 0, &a, &b, &mut c);
    assert_eq!(c.data, vec![0, 0, 43, 0]);
    let mut c = mat(2, vec![0; 4]);
    l3_stack(2, 0, 1, &a, &b, &mut c);
    assert_eq!(c.data, vec![0, 22, 0, 0]);
    let mut c = mat(2, vec![0; 4]);
    l3_slow(2, 1, 1, &a, &b, &mut c);
    assert_eq!(c.data, vec![0, 0, 0, 50]);
    let mut c = mat(2, vec![0; 4]);
    l2(2, 0, &a, &b, &mut c);
    assert_eq!(c.data, vec![19, 22, 0, 0]);
    let mut c = mat(2, vec![0; 4]);
    l1(2, &a, &b, &mut c);
    assert_eq!(c.data, vec![19, 22, 43, 50]);
    let mut c = mat(2, vec![0; 4]);
    l1_slow(2, &a, &b, &mut c);
    assert_eq!(c.data, vec![19, 22, 43, 50]);
    let mut c = mat(2, vec![0; 4]);
    l1_stack(2, &a, &b, &mut c);
    assert_eq!(c.data, vec![19, 22, 43, 50]);
}

#[test]
fn cell_kernel_beyond_the_square() {
    // with nn = 1 and longer buffers, cell (1, 2) reads a[1] and b[2]
    let a = mat(1, vec![1, 6, 0]);
    let b = mat(1, vec![0, 0, 7]);
    let mut c = mat(1, vec![0, 0, 0, 0x1_0005]);
    l3(1, 1, 2, &a, &b, &mut c);
    assert_eq!(c.data, vec![0, 0, 0, 5 + 42]);
    let mut c = mat(1, vec![0, 0, 0, 0]);
    l3_slow(1, 1, 2, &a, &b, &mut c);
    assert_eq!(c.data, vec![0, 0, 0, 42]);
    let mut c = mat(1, vec![0, 0, 0, 0]);
    l3_stack(1, 1, 2, &a, &b, &mut c);
    assert_eq!(c.data, vec![0, 0, 0, 42]);
    // an empty sum keeps the low 16 bits of the cell
    let mut c = mat(0, vec![0x3_0009]);
    l3(0, 0, 0, &a, &b, &mut c);
    assert_eq!(c.data, vec![9]);
}

#[test]
fn full_size_stack_kernel() {
    let n = N;
    let a = mat(n, vec![0x1_0002; n * n]);
    let b = mat(n, vec![3; n * n]);
    let mut c = mat(n, vec![0; n * n]);
    l3_stack(n, n - 1, n - 1, &a, &b, &mut c);
    assert_eq!(c.data[n * n - 1], (2 * 3 * n) % 65536);
}

#[test]
fn size_check_cases() {
    let a = mat(2, vec![]);
    let b = mat(2, vec![]);
    let c = mat(3, vec![]);
    assert_eq!(size_check(&a, &b, &b), Ok(()));
    assert_eq!(size_check(&a, &b, &c), Err("matrix not aligned"));
    assert_eq!(size_check(&c, &a, &b), Err("matrix not aligned"));
}

#[test]
fn scalar_helpers() {
    assert_eq!(add(40usize, 2), 42);
    assert_eq!(times(6usize, 7), 42);
    assert!(equal(3usize, 3));
    assert!(!equal(3usize, 4));
    assert_eq!(overflow(0x12_3456), 0x3456);
    assert_eq!(overflow(0xFFFF), 0xFFFF);
}
