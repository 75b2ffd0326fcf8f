//! The grid against plain floating-point formulas: the results agree up to
//! the rounding of the grid.

use soft_body_simulation::entities::dot::Dot;
use soft_body_simulation::entities::segment::Segment;
use soft_body_simulation::entities::soft_body::{SoftBody, Spring};
use soft_body_simulation::utils::fixed::{div_fixed, isqrt, mul_fixed};
use soft_body_simulation::utils::vector::Vector2;

/// A small generator of numbers, the same on every run.
struct Numbers(u64);

impl Numbers {
    fn next(&mut self) -> u64 {
        self.0 = self.0.wrapping_mul(6364136223846793005).wrapping_add(1442695040888963407);
        self.0 >> 33
    }

    /// A scalar between `-limit` and `limit` thousandths.
    fn scalar(&mut self, limit: i32) -> i32 {
        (self.next() % (2 * limit as u64 + 1)) as i32 - limit
    }

    fn vector(&mut self, limit: i32) -> Vector2 {
        Vector2::new(self.scalar(limit), self.scalar(limit))
    }
}

fn units(v: i32) -> f64 {
    v as f64 / 1000.
}

fn close(grid: i32, exact: f64, tolerance: f64) -> bool {
    (units(grid) - exact).abs() <= tolerance
}

#[test]
fn products_agree_with_floats() {
    let mut numbers = Numbers(1);
    for _ in 0..2000 {
        let a = numbers.scalar(1_000_000);
        let b = numbers.scalar(1_000_000);
        assert!(close(mul_fixed(a, b), units(a) * units(b), 0.001));
    }
}

#[test]
fn quotients_agree_with_floats() {
    let mut numbers = Numbers(2);
    for _ in 0..2000 {
        let a = numbers.scalar(1_000_000);
        let b = numbers.scalar(1_000_000).abs() + 1;
        assert!(close(div_fixed(a, b), units(a) / units(b), 0.001));
    }
}

#[test]
fn roots_agree_with_floats() {
    let mut numbers = Numbers(3);
    for _ in 0..2000 {
        let n = numbers.next() * numbers.next();
        let root = isqrt(n) as f64;
        assert!((root - (n as f64).sqrt()).abs() <= 1.0);
    }
}

#[test]
fn lengths_agree_with_floats() {
    let mut numbers = Numbers(4);
    for _ in 0..2000 {
        let v = numbers.vector(1_000_000);
        let exact = (units(v.x).powi(2) + units(v.y).powi(2)).sqrt();
        assert!(close(v.length(), exact, 0.001));
    }
}

#[test]
fn unit_vectors_agree_with_floats() {
    let mut numbers = Numbers(5);
    for _ in 0..2000 {
        let v = numbers.vector(1_000_000);
        let length = (units(v.x).powi(2) + units(v.y).powi(2)).sqrt();
        if length < 1.0 {
            continue;
        }
        let unit = v.normalize();
        assert!(close(unit.x, units(v.x) / length, 0.003));
        assert!(close(unit.y, units(v.y) / length, 0.003));
    }
}

#[test]
fn projections_agree_with_floats() {
    let mut numbers = Numbers(6);
    let mut covered = 0;
    for _ in 0..4000 {
        let segment = Segment { p1: numbers.vector(500_000), p2: numbers.vector(500_000) };
        let point = numbers.vector(500_000);
        let (ex, ey) = (units(segment.p2.x) - units(segment.p1.x), units(segment.p2.y) - units(segment.p1.y));
        let (fx, fy) = (units(point.x) - units(segment.p1.x), units(point.y) - units(segment.p1.y));
        let span = ex * ex + ey * ey;
        if span == 0.0 {
            continue;
        }
        let t = (ex * fx + ey * fy) / span;
        match segment.get_projection(&point) {
            Some(foot) => {
                covered += 1;
                assert!(-1e-9 <= t && t <= 1.0 + 1e-9);
                assert!(close(foot.x, units(segment.p1.x) + t * ex, 0.001));
                assert!(close(foot.y, units(segment.p1.y) + t * ey, 0.001));
            }
            None => assert!(t < 1e-9 || t > 1.0 - 1e-9),
        }
    }
    assert!(covered > 500);
}

#[test]
fn ray_test_agrees_with_floats() {
    let mut numbers = Numbers(7);
    let mut hits = 0;
    for _ in 0..4000 {
        let segment = Segment { p1: numbers.vector(500_000), p2: numbers.vector(500_000) };
        let point = numbers.vector(500_000);
        let (x1, y1) = (units(segment.p1.x), units(segment.p1.y));
        let (x2, y2) = (units(segment.p2.x), units(segment.p2.y));
        let (x, y) = (units(point.x), units(point.y));
        let in_range = x1.min(x2) <= x && x < x1.max(x2);
        let hit = segment.vertical_raycast(&point);
        if !in_range {
            assert!(!hit);
            continue;
        }
        let line = y1 + (y2 - y1) / (x2 - x1) * (x - x1);
        if (line - y).abs() > 1e-6 {
            assert_eq!(hit, line > y);
        }
        if hit {
            hits += 1;
        }
    }
    assert!(hits > 200);
}

#[test]
fn spring_forces_agree_with_floats() {
    let mut numbers = Numbers(8);
    for _ in 0..2000 {
        let pos1 = numbers.vector(300_000);
        let pos2 = numbers.vector(300_000);
        let vel1 = numbers.vector(50_000);
        let vel2 = numbers.vector(50_000);
        let spring = Spring {
            stiffness: 10_000,
            damping_factor: 800,
            rest_length: 40_000,
            index_1: 0,
            index_2: 1,
            is_on_border: false,
        };
        let (dx, dy) = (units(pos1.x) - units(pos2.x), units(pos1.y) - units(pos2.y));
        let length = (dx * dx + dy * dy).sqrt();
        if length < 1.0 {
            continue;
        }
        let (nx, ny) = (dx / length, dy / length);
        let hooke = (length - 40.0) * 10.0;
        let damping = (nx * (units(vel1.x) - units(vel2.x)) + ny * (units(vel1.y) - units(vel2.y))) * 0.8;
        let force = spring.get_force(pos1, pos2, vel1, vel2);
        // the direction is rounded to thousandths before it is scaled
        let tolerance = 0.003 * (hooke + damping).abs() + 0.05;
        assert!(close(force.x, (hooke + damping) * nx, tolerance));
        assert!(close(force.y, (hooke + damping) * ny, tolerance));
    }
}

#[test]
fn free_fall_agrees_with_floats() {
    let mut dot = Dot::new(Some(Vector2::new(0, 0)), 0, 0);
    let (mut y, mut vy) = (0.0f64, 0.0f64);
    for _ in 0..50 {
        dot.update();
        vy += 9.8 * 0.25;
        y += vy * 0.25;
        assert!(close(dot.vel.y, vy, 0.001));
        assert!(close(dot.pos.y, y, 0.06));
        assert_eq!(dot.pos.x, 0);
    }
}

#[test]
fn a_body_in_free_fall_keeps_its_shape() {
    let mut body = SoftBody::new(400_000, 300_000);
    let before = SoftBody::new(400_000, 300_000);
    for _ in 0..20 {
        body.update_runge_kutta();
    }
    let fallen = body.points[0].pos.y - before.points[0].pos.y;
    assert!(fallen > 0);
    for (now, then) in body.points.iter().zip(before.points.iter()) {
        assert_eq!(now.pos.x, then.pos.x);
        assert_eq!(now.pos.y - then.pos.y, fallen);
    }
}
