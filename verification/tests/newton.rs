//! Renderer tests against a real damped-Newton escape-time evaluator for
//! the root function z^3 - 1 with derivative 3z^2.

use boundary_trace::CalcInfo;
use boundary_trace::Evaluator;
use boundary_trace::calc_rect;
use num_complex::Complex;

const EPSILON: f64 = 10e-10;

fn newton_step(z: Complex<f64>, a: Complex<f64>) -> Complex<f64> {
    let f = z * z * z - Complex::new(1.0, 0.0);
    let df = 3.0 * z * z;
    z - f / df * a
}

fn is_same(lhs: Complex<f64>, rhs: Complex<f64>, relative_error: f64) -> bool {
    let delta = lhs - rhs;
    if !(lhs.re == 0.0 && lhs.im == 0.0) {
        (delta / lhs).norm() < relative_error
    } else if !(rhs.re == 0.0 && rhs.im == 0.0) {
        (delta / rhs).norm() < relative_error
    } else {
        true
    }
}

fn escape_time(z: Complex<f64>, a: Complex<f64>, max_itr: u16) -> u16 {
    let mut z1 = z;
    for n in 0..max_itr {
        let z2 = newton_step(z1, a);
        if !(z2.re.is_finite() && z2.im.is_finite()) {
            return n;
        }
        if is_same(z1, z2, EPSILON) {
            return n;
        }
        z1 = z2;
    }
    max_itr
}

/// The render context of the concrete scenario: coefficient 1+0i, plane
/// center 0+0i, pixel-density divisor 64, plane range 4.0.
struct CubicEval {
    size: f64,
    center: Complex<f64>,
    range: f64,
    coeff: Complex<f64>,
    max_itr: u16,
}

impl CubicEval {
    fn plane_point(&self, x: i64, y: i64) -> Complex<f64> {
        Complex::new(
            (x as f64 / self.size - 0.5) * self.range + self.center.re,
            (y as f64 / self.size - 0.5) * self.range + self.center.im,
        )
    }
}

impl Evaluator for CubicEval {
    fn eval(&self, x: i64, y: i64) -> u16 {
        escape_time(self.plane_point(x, y), self.coeff, self.max_itr)
    }
}

fn scenario(max_itr: u16) -> CubicEval {
    CubicEval {
        size: 64.0,
        center: Complex::new(0.0, 0.0),
        range: 4.0,
        coeff: Complex::new(1.0, 0.0),
        max_itr,
    }
}

#[test]
fn concrete_scenario_first_pixel_is_direct_evaluation() {
    let out = calc_rect(CalcInfo::new(0, 0, 8, 8, 50, scenario(50)));
    assert_eq!(out.len(), 64);
    let direct = escape_time(Complex::new(-2.0, -2.0), Complex::new(1.0, 0.0), 50);
    assert_eq!(out[0], direct);
}

#[test]
fn concrete_scenario_is_deterministic() {
    let a = calc_rect(CalcInfo::new(0, 0, 8, 8, 50, scenario(50)));
    let b = calc_rect(CalcInfo::new(0, 0, 8, 8, 50, scenario(50)));
    assert_eq!(a, b);
}

#[test]
fn concrete_scenario_ring_is_exact() {
    let out = calc_rect(CalcInfo::new(0, 0, 8, 8, 50, scenario(50)));
    let e = scenario(50);
    for y in 0..8usize {
        for x in 0..8usize {
            if x == 0 || x == 7 || y == 0 || y == 7 {
                assert_eq!(out[y * 8 + x], e.eval(x as i64, y as i64));
            }
        }
    }
}

#[test]
fn concrete_scenario_respects_max_iter() {
    let out = calc_rect(CalcInfo::new(0, 0, 8, 8, 50, scenario(50)));
    for v in out {
        assert!(v <= 50);
    }
}

#[test]
fn max_iter_zero_renders_all_zeros() {
    let out = calc_rect(CalcInfo::new(0, 0, 8, 8, 0, scenario(0)));
    assert_eq!(out, vec![0u16; 64]);
}

#[test]
fn evaluator_is_idempotent() {
    let e = scenario(50);
    for y in 0..8i64 {
        for x in 0..8i64 {
            assert_eq!(e.eval(x, y), e.eval(x, y));
        }
    }
}

#[test]
fn escape_time_is_monotone_in_max_iter() {
    for y in 0..16i64 {
        for x in 0..16i64 {
            let z = scenario(60).plane_point(x, y);
            let a = Complex::new(1.0, 0.0);
            let mut previous = 0u16;
            for m in [0u16, 5, 10, 25, 60] {
                let count = escape_time(z, a, m);
                assert!(count <= m);
                assert!(count >= previous);
                previous = count;
            }
        }
    }
}

#[test]
fn offset_tile_matches_direct_evaluation_on_ring() {
    let out = calc_rect(CalcInfo::new(64, 32, 5, 4, 30, scenario(30)));
    let e = scenario(30);
    for y in 0..4usize {
        for x in 0..5usize {
            if x == 0 || x == 4 || y == 0 || y == 3 {
                assert_eq!(out[y * 5 + x], e.eval(64 + x as i64, 32 + y as i64));
            }
        }
    }
}

#[test]
fn rendered_counts_do_not_decrease_with_max_iter() {
    let low = calc_rect(CalcInfo::new(0, 0, 8, 8, 10, scenario(10)));
    let high = calc_rect(CalcInfo::new(0, 0, 8, 8, 50, scenario(50)));
    for i in 0..64usize {
        assert!(low[i] <= high[i]);
    }
}
