use ggblas::{
    batched_sgemm, batched_sgemm_t, gemm_row, gemm_row_t, matmul, row_offsets, Scalar, Tensor,
};

/// Single-precision elements for the tests.
#[derive(Clone, Copy, Debug, PartialEq)]
struct F(f32);

impl Scalar for F {
    fn zero_value() -> F {
        F(0.0)
    }
    fn sum(a: F, b: F) -> F {
        F(a.0 + b.0)
    }
    fn product(a: F, b: F) -> F {
        F(a.0 * b.0)
    }
    fn zero() -> F {
        F(0.0)
    }
    fn plus(self, rhs: F) -> F {
        F(self.0 + rhs.0)
    }
    fn times(self, rhs: F) -> F {
        F(self.0 * rhs.0)
    }
}

fn ramp(len: usize) -> Vec<F> {
    (0..len).map(|s| F((s + 1) as f32)).collect()
}

fn values(t: &Tensor<F>) -> Vec<f32> {
    t.data().iter().map(|x| x.0).collect()
}

fn assert_close(a: &[F], b: &[F]) {
    assert_eq!(a.len(), b.len());
    a.iter().zip(b.iter()).for_each(|(&a, &b)| {
        if ((a.0 - b.0) / a.0).abs() > 1e-5 {
            panic!("{a:?} != {b:?}");
        }
    });
}

/// Values in [0.5, 1.5) from a fixed linear congruential sequence.
fn noise(len: usize, seed: u64) -> Vec<F> {
    let mut state = seed.wrapping_mul(6364136223846793005).wrapping_add(1442695040888963407);
    (0..len)
        .map(|_| {
            state = state.wrapping_mul(6364136223846793005).wrapping_add(1442695040888963407);
            F(0.5 + ((state >> 40) as f32) / ((1u64 << 24) as f32))
        })
        .collect()
}

/// The triple loop, accumulated in double precision.
fn reference(
    a: &[F],
    a_skip: usize,
    b: &[F],
    b_skip: usize,
    c_skip: usize,
    len: usize,
    m: usize,
    n: usize,
    k: usize,
    batching: usize,
    transposed: bool,
) -> Vec<F> {
    let mut c = vec![F(0.0); len];
    for item in 0..batching {
        for r in 0..m {
            for col in 0..n {
                let mut acc = 0.0f64;
                for i in 0..k {
                    let x = a[item * a_skip + r * k + i].0 as f64;
                    let y = if transposed {
                        b[item * b_skip + col * k + i].0 as f64
                    } else {
                        b[item * b_skip + i * n + col].0 as f64
                    };
                    acc += x * y;
                }
                c[item * c_skip + r * n + col] = F(acc as f32);
            }
        }
    }
    c
}

#[test]
fn ggml_simple_t() {
    let m = 3;
    let n = 2;
    let k = 4;

    let a = Tensor { shape: vec![m, k], data: ramp(m * k) };
    let b = Tensor { shape: vec![n, k], data: ramp(n * k) };
    let mut c = Tensor { shape: vec![m, n], data: vec![F(0.0); m * n] };
    batched_sgemm_t(a.data(), 1, b.data(), 1, c.data_mut(), 1, m, n, k, 1);

    assert_eq!(values(&c), [30.0, 70.0, 70.0, 174.0, 110.0, 278.0]);
}

#[test]
fn ggml_simple2() {
    let m = 2;
    let n = 2;
    let k = 2;

    let a = Tensor { shape: vec![m, k], data: ramp(m * k) };
    let b = Tensor { shape: vec![k, n], data: ramp(n * k) };
    let mut c = Tensor { shape: vec![m, n], data: vec![F(0.0); m * n] };
    batched_sgemm(a.data(), 1, b.data(), 1, c.data_mut(), 1, m, n, k, 1);

    assert_eq!(values(&c), [7., 10., 15., 22.]);
}

#[test]
fn ggml_simple() {
    let m = 3;
    let n = 2;
    let k = 4;

    let a = Tensor { shape: vec![m, k], data: ramp(m * k) };
    let b = Tensor { shape: vec![k, n], data: ramp(n * k) };
    let mut c = Tensor { shape: vec![m, n], data: vec![F(0.0); m * n] };
    batched_sgemm(a.data(), 1, b.data(), 1, c.data_mut(), 1, m, n, k, 1);

    assert_eq!(values(&c), [50., 60., 114., 140., 178., 220.]);
}

#[test]
fn mkl_simple() {
    let m = 3;
    let n = 2;
    let k = 4;

    let a = Tensor { shape: vec![m, k], data: ramp(m * k) };
    let b = Tensor { shape: vec![n, k], data: ramp(n * k) };
    let mut c = Tensor { shape: vec![m, n], data: vec![F(0.0); m * n] };
    matmul::<F, true>(&a, &b, &mut c).unwrap();

    assert_eq!(values(&c), [30.0, 70.0, 70.0, 174.0, 110.0, 278.0]);
}

#[test]
fn ggml_comparison_t() {
    let m = 6;
    let n = 768 * 3;
    let k = 768;

    let a = Tensor { shape: vec![m, k], data: ramp(m * k) };
    let b = Tensor { shape: vec![n, k], data: ramp(n * k) };
    let mut c = Tensor { shape: vec![m, n], data: vec![F(0.0); m * n] };
    let mut c2 = Tensor { shape: vec![m, n], data: vec![F(0.0); m * n] };
    matmul::<F, true>(&a, &b, &mut c).unwrap();
    batched_sgemm_t(a.data(), 1, &b.data(), 1, c2.data_mut(), 1, m, n, k, 1);
    assert_close(&c.data(), &c2.data());
    let c3 = reference(a.data(), 1, b.data(), 1, 1, m * n, m, n, k, 1, true);
    assert_close(&c3, &c2.data());
}

#[test]
fn ggml_comparison() {
    let m = 6;
    let n = 768 * 3;
    let k = 768;

    let a = Tensor { shape: vec![m, k], data: ramp(m * k) };
    let b = Tensor { shape: vec![k, n], data: ramp(n * k) };
    let mut c = Tensor { shape: vec![m, n], data: vec![F(0.0); m * n] };
    let mut c2 = Tensor { shape: vec![m, n], data: vec![F(0.0); m * n] };
    matmul::<F, false>(&a, &b, &mut c).unwrap();
    batched_sgemm(a.data(), 1, &b.data(), 1, c2.data_mut(), 1, m, n, k, 1);
    assert_close(&c.data(), &c2.data());
    let c3 = reference(a.data(), 1, b.data(), 1, 1, m * n, m, n, k, 1, false);
    assert_close(&c3, &c2.data());
}

#[test]
fn matches_the_triple_loop_on_many_shapes() {
    let shapes: [(usize, usize, usize, usize); 8] = [
        (1, 1, 1, 1),
        (3, 2, 4, 1),
        (2, 5, 31, 2),
        (4, 3, 32, 3),
        (5, 33, 33, 2),
        (7, 64, 65, 1),
        (2, 31, 100, 4),
        (9, 17, 129, 2),
    ];
    for (round, &(m, n, k, batching)) in shapes.iter().enumerate() {
        let a = noise(batching * m * k, 2 * round as u64);
        let b = noise(batching * n * k, 2 * round as u64 + 1);
        let mut c = vec![F(0.0); batching * m * n];
        batched_sgemm_t(&a, m * k, &b, n * k, &mut c, m * n, m, n, k, batching);
        let want = reference(&a, m * k, &b, n * k, m * n, c.len(), m, n, k, batching, true);
        assert_close(&want, &c);

        let mut c = vec![F(0.0); batching * m * n];
        batched_sgemm(&a, m * k, &b, n * k, &mut c, m * n, m, n, k, batching);
        let want = reference(&a, m * k, &b, n * k, m * n, c.len(), m, n, k, batching, false);
        assert_close(&want, &c);
    }
}

#[test]
fn integer_elements_give_the_exact_product() {
    let a: Vec<i64> = (1..=12).collect();
    let b: Vec<i64> = (1..=8).collect();
    let mut c = vec![0i64; 6];
    batched_sgemm(&a, 12, &b, 8, &mut c, 6, 3, 2, 4, 1);
    assert_eq!(c, [50, 60, 114, 140, 178, 220]);
    let mut c = vec![0i64; 6];
    batched_sgemm_t(&a, 12, &b, 8, &mut c, 6, 3, 2, 4, 1);
    assert_eq!(c, [30, 70, 70, 174, 110, 278]);
}

#[test]
fn a_batch_equals_its_items_multiplied_alone() {
    let (m, n, k, batching) = (3usize, 5usize, 37usize, 4usize);
    let (a_skip, b_skip, c_skip) = (m * k + 3, n * k + 1, m * n + 2);
    let a = noise(batching * a_skip, 11);
    let b = noise(batching * b_skip, 12);
    for transposed in [true, false] {
        let mut together = vec![F(-1.0); batching * c_skip];
        if transposed {
            batched_sgemm_t(&a, a_skip, &b, b_skip, &mut together, c_skip, m, n, k, batching);
        } else {
            batched_sgemm(&a, a_skip, &b, b_skip, &mut together, c_skip, m, n, k, batching);
        }
        for item in 0..batching {
            let mut alone = vec![F(-1.0); c_skip];
            let (a1, b1) = (&a[item * a_skip..], &b[item * b_skip..]);
            if transposed {
                batched_sgemm_t(a1, a_skip, b1, b_skip, &mut alone, c_skip, m, n, k, 1);
            } else {
                batched_sgemm(a1, a_skip, b1, b_skip, &mut alone, c_skip, m, n, k, 1);
            }
            assert_eq!(&together[item * c_skip..(item + 1) * c_skip], &alone[..]);
        }
    }
}

#[test]
fn elements_between_the_items_are_left_alone() {
    let (m, n, k, batching) = (2usize, 2usize, 3usize, 2usize);
    let a: Vec<i64> = (1..=12).collect();
    let b: Vec<i64> = (1..=12).collect();
    let mut c = vec![-7i64; 11];
    batched_sgemm_t(&a, 6, &b, 6, &mut c, 6, m, n, k, batching);
    assert_eq!(c, [14, 32, 32, 77, -7, -7, 194, 266, 266, 365, -7]);
    let mut c = vec![-7i64; 11];
    batched_sgemm(&a, 6, &b, 6, &mut c, 6, m, n, k, batching);
    assert_eq!(c, [22, 28, 49, 64, -7, -7, 220, 244, 301, 334, -7]);
}

#[test]
fn one_operand_can_serve_every_item() {
    let a: Vec<i64> = vec![1, 2, 3, 4, 5, 6, 7, 8];
    let b: Vec<i64> = vec![1, 0, 0, 1];
    let mut c = vec![0i64; 8];
    batched_sgemm(&a, 4, &b, 0, &mut c, 4, 2, 2, 2, 2);
    assert_eq!(c, a);
}

#[test]
fn what_the_output_held_does_not_enter_the_result() {
    let a: Vec<i64> = (1..=12).collect();
    let b: Vec<i64> = (1..=8).collect();
    let mut c = vec![1000i64; 6];
    batched_sgemm(&a, 1, &b, 1, &mut c, 1, 3, 2, 4, 1);
    assert_eq!(c, [50, 60, 114, 140, 178, 220]);
    let mut c = vec![1000i64; 6];
    batched_sgemm_t(&a, 1, &b, 1, &mut c, 1, 3, 2, 4, 1);
    assert_eq!(c, [30, 70, 70, 174, 110, 278]);
}

#[test]
fn empty_shapes_write_nothing_or_zero() {
    let a: Vec<i64> = vec![1, 2, 3, 4];
    let b: Vec<i64> = vec![5, 6, 7, 8];
    let mut c = vec![9i64; 4];
    batched_sgemm_t(&a, 0, &b, 0, &mut c, 4, 2, 2, 0, 1);
    assert_eq!(c, [0, 0, 0, 0]);
    let mut c = vec![9i64; 4];
    batched_sgemm(&a, 0, &b, 0, &mut c, 4, 2, 2, 0, 1);
    assert_eq!(c, [0, 0, 0, 0]);
    let mut c = vec![9i64; 4];
    batched_sgemm(&a, 4, &b, 4, &mut c, 4, 0, 2, 2, 1);
    assert_eq!(c, [9, 9, 9, 9]);
    batched_sgemm_t(&a, 4, &b, 4, &mut c, 4, 2, 0, 2, 1);
    assert_eq!(c, [9, 9, 9, 9]);
    batched_sgemm_t(&a, 4, &b, 4, &mut c, 4, 2, 2, 2, 0);
    assert_eq!(c, [9, 9, 9, 9]);
}

#[test]
fn one_row_at_a_time() {
    let a_row: Vec<i64> = vec![1, 2, 3];
    let b_t: Vec<i64> = vec![1, 1, 1, 2, 0, 1];
    let mut c_row = vec![5i64; 3];
    gemm_row_t(&a_row, &b_t, &mut c_row, 2, 3);
    assert_eq!(c_row, [6, 5, 5]);
    let b: Vec<i64> = vec![1, 2, 3, 4, 5, 6];
    let mut c_row = vec![5i64; 3];
    gemm_row(&a_row, &b, &mut c_row, 2, 3);
    assert_eq!(c_row, [22, 28, 5]);
}

#[test]
fn where_a_unit_of_work_reads_and_writes() {
    assert_eq!(row_offsets(0, 0, 12, 8, 6, 2, 4), (0, 0, 0));
    assert_eq!(row_offsets(2, 1, 12, 8, 6, 2, 4), (28, 16, 14));
    assert_eq!(row_offsets(3, 2, 0, 0, 0, 5, 7), (14, 0, 10));
}

#[test]
fn a_thousand_calls_in_a_row() {
    for round in 0..1000usize {
        let m = 1 + round % 5;
        let n = 1 + round % 7;
        let k = round % 40;
        let a: Vec<i64> = (0..m * k).map(|x| (x % 11) as i64 - 5).collect();
        let b: Vec<i64> = (0..n * k).map(|x| (x % 13) as i64 - 6).collect();
        let mut c = vec![0i64; m * n];
        batched_sgemm_t(&a, m * k, &b, n * k, &mut c, m * n, m, n, k, 1);
        for r in 0..m {
            for col in 0..n {
                let want: i64 = (0..k).map(|i| a[r * k + i] * b[col * k + i]).sum();
                assert_eq!(c[r * n + col], want);
            }
        }
    }
}
