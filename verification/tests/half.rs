use ggblas::{f32_to_f16, vec_dot_f16, Narrow, Scalar};
use half::f16;

#[derive(Clone, Copy, Debug, PartialEq)]
struct F(f32);

impl Scalar for F {
    fn zero_value() -> F {
        F(0.0)
    }
    fn sum(a: F, b: F) -> F {
        F(a.0 + b.0)
    }
    fn product(a: F, b: F) -> F {
        F(a.0 * b.0)
    }
    fn zero() -> F {
        F(0.0)
    }
    fn plus(self, rhs: F) -> F {
        F(self.0 + rhs.0)
    }
    fn times(self, rhs: F) -> F {
        F(self.0 * rhs.0)
    }
}

#[derive(Clone, Copy, Debug, PartialEq)]
struct H(f16);

impl Narrow for H {
    type Wide = F;

    fn widened(self) -> F {
        F(self.0.to_f32())
    }
    fn narrowed(w: F) -> H {
        H(f16::from_f32(w.0))
    }
    fn to_wide(self) -> F {
        F(self.0.to_f32())
    }
    fn from_wide(w: F) -> H {
        H(f16::from_f32(w.0))
    }
}

fn representative() -> Vec<f32> {
    vec![
        0.0, -0.0, 1.0, -1.0, 0.5, 0.1, -0.3, 3.14159, 2.71828, 1000.5, -1234.56, 65504.0,
        6.1e-5, 1.0e-3, 0.333333, 100.0, 7.0, -8.25, 42.42, 0.999, 1.001, 2048.0, 2049.0,
        -0.000123, 12345.678, 3.0e4, 1.0 / 3.0, 2.0 / 3.0, 9.99, 511.9, 0.0078125, 33.3, 77.7,
    ]
}

#[test]
fn conversion_matches_the_scalar_conversion_bit_for_bit() {
    let x: Vec<F> = representative().into_iter().map(F).collect();
    for n in 0..=x.len() {
        let mut y = vec![H(f16::from_f32(-99.0)); x.len()];
        f32_to_f16(&x, &mut y, n);
        for i in 0..x.len() {
            let want = if i < n { f16::from_f32(x[i].0) } else { f16::from_f32(-99.0) };
            assert_eq!(y[i].0.to_bits(), want.to_bits(), "n = {}, i = {}", n, i);
        }
    }
}

#[test]
fn half_round_trip_stays_within_half_an_ulp() {
    let x: Vec<F> = representative().into_iter().map(F).collect();
    let mut y = vec![H(f16::from_f32(0.0)); x.len()];
    f32_to_f16(&x, &mut y, x.len());
    for i in 0..x.len() {
        let back = y[i].to_wide().0;
        let bound = if x[i].0.abs() >= 6.104e-5 {
            // normal range: eleven significant bits
            x[i].0.abs() / 2048.0
        } else {
            // subnormal range: fixed spacing 2^-24
            2.9802322e-8
        };
        assert!((back - x[i].0).abs() <= bound, "{} -> {}", x[i].0, back);
    }
}

#[test]
fn integers_narrow_to_their_low_bits() {
    let x: Vec<i64> = (0..21).map(|i| (i as i64) * ((1 << 32) + 1) - 3).collect();
    for n in [0usize, 1, 3, 4, 7, 8, 11, 12, 13, 20, 21] {
        let mut y = vec![-1i32; 21];
        f32_to_f16(&x, &mut y, n);
        for i in 0..21 {
            let want = if i < n { x[i] as i32 } else { -1 };
            assert_eq!(y[i], want);
        }
    }
}

#[test]
fn half_rows_accumulate_at_full_precision() {
    let a: Vec<H> = (0..70).map(|i| H(f16::from_f32(1.0 + i as f32 / 64.0))).collect();
    let b: Vec<H> = (0..70).map(|i| H(f16::from_f32(2.0 - i as f32 / 128.0))).collect();
    for k in [0usize, 1, 31, 32, 33, 70] {
        let mut want = 0.0f64;
        for i in 0..k {
            want += a[i].0.to_f64() * b[i].0.to_f64();
        }
        let mut c = F(-1.0);
        vec_dot_f16(&a, &b, &mut c, k);
        assert!((c.0 as f64 - want).abs() <= want.abs() * 1e-6, "k = {}", k);
    }
    // 2049 is not a half-precision number; the sum of 2048 and 1 must not be
    // rounded to one.
    let a = vec![H(f16::from_f32(2048.0)), H(f16::from_f32(1.0))];
    let b = vec![H(f16::from_f32(1.0)), H(f16::from_f32(1.0))];
    let mut c = F(0.0);
    vec_dot_f16(&a, &b, &mut c, 2);
    assert_eq!(c, F(2049.0));
}
