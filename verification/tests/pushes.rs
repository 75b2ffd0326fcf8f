//! What a push leaves, swept over many centres around convex polygons
//! that run either way round.

use soft_body_simulation::entities::dot::Dot;
use soft_body_simulation::entities::polygon::Polygon;
use soft_body_simulation::utils::vector::Vector2;

fn dot_at(x: i32, y: i32) -> Dot {
    Dot::new(Some(Vector2::new(x, y)), 0, 0)
}

fn reversed(points: &[(i32, i32)]) -> Vec<(i32, i32)> {
    points.iter().rev().copied().collect()
}

/// The length of the shortest way from the centre to a foot on an edge
/// that covers it, and the index of that edge.
fn nearest_foot(dot: &Dot, polygon: &Polygon) -> Option<(i32, usize)> {
    let mut best: Option<(i32, usize)> = None;
    for (index, segment) in polygon.segments().iter().enumerate() {
        if let Some(foot) = segment.get_projection(&dot.pos) {
            let length = foot.minus(dot.pos).length();
            if best.map_or(true, |(shortest, _)| length <= shortest) {
                best = Some((length, index));
            }
        }
    }
    best
}

/// Pushes a particle at every place of a grid over the polygon, and holds
/// what the push leaves against `verdict`.
fn sweep(points: &[(i32, i32)], step: usize, verdict: &dyn Fn(&Dot, &Dot, &Polygon, i32)) -> u32 {
    let polygon = Polygon::new(points.to_vec());
    let frame = polygon.bounding_box();
    let mut pushed = 0;
    for x in (frame.min_hor - 15_000..frame.max_hor + 15_000).step_by(step) {
        for y in (frame.min_ver - 15_000..frame.max_ver + 15_000).step_by(step) {
            let before = dot_at(x, y);
            let nearest = match nearest_foot(&before, &polygon) {
                Some((length, _)) => length,
                None => continue,
            };
            if let Some(push) = before.get_push_vector(&polygon) {
                let mut after = before;
                after.push(&push);
                verdict(&before, &after, &polygon, nearest);
                pushed += 1;
            }
        }
    }
    pushed
}

const SQUARE: [(i32, i32); 4] = [(0, 0), (100_000, 0), (100_000, 100_000), (0, 100_000)];
const TRIANGLE: [(i32, i32); 3] = [(0, 0), (90_000, 20_000), (30_000, 80_000)];
const HEXAGON: [(i32, i32); 6] = [
    (30_000, 0),
    (71_000, 5000),
    (100_000, 42_000),
    (66_000, 90_000),
    (21_000, 83_000),
    (0, 37_000),
];

fn ended(_: &Dot, after: &Dot, polygon: &Polygon, _: i32) {
    assert!(!after.is_center_inside_polygon(polygon));
    assert_eq!(after.get_push_vector(polygon), None);
    if let Some((length, _)) = nearest_foot(after, polygon) {
        assert!(length >= after.radius);
    }
}

/// The distance of the centre from the line of edge `index`, in steps of
/// the grid.
fn distance_from_the_line(dot: &Dot, polygon: &Polygon, index: usize) -> f64 {
    let segment = polygon.segments()[index];
    let (ex, ey) = ((segment.p2.x - segment.p1.x) as f64, (segment.p2.y - segment.p1.y) as f64);
    let (fx, fy) = ((dot.pos.x - segment.p1.x) as f64, (dot.pos.y - segment.p1.y) as f64);
    (ex * fy - ey * fx).abs() / (ex * ex + ey * ey).sqrt()
}

fn nearly_ended(before: &Dot, after: &Dot, polygon: &Polygon, nearest: i32) {
    if nearest >= 3 {
        assert!(!after.is_center_inside_polygon(polygon));
    }
    if nearest >= 1000 {
        let (_, index) = nearest_foot(before, polygon).unwrap();
        let distance = distance_from_the_line(after, polygon, index);
        let radius = after.radius as f64;
        assert!(distance >= 0.99 * radius - 6.0 && distance <= 1.01 * radius + 7.0);
    }
    if nearest >= 1000 {
        for segment in polygon.segments().iter() {
            if let Some(foot) = segment.get_projection(&after.pos) {
                let length = foot.minus(after.pos).length();
                assert!(100 * (length as i64) >= 99 * (after.radius as i64) - 700);
            }
        }
    }
}

#[test]
fn a_push_out_of_a_square_ends_the_collision() {
    assert!(sweep(&SQUARE, 1700, &ended) > 1000);
}

#[test]
fn a_push_out_of_a_square_drawn_the_other_way_round_ends_the_collision() {
    assert!(sweep(&reversed(&SQUARE), 1700, &ended) > 1000);
}

#[test]
fn a_push_out_of_a_triangle_leaves_nearly_one_radius() {
    assert!(sweep(&TRIANGLE, 1300, &nearly_ended) > 1000);
}

#[test]
fn a_push_out_of_a_triangle_drawn_the_other_way_round_leaves_nearly_one_radius() {
    assert!(sweep(&reversed(&TRIANGLE), 1300, &nearly_ended) > 1000);
}

#[test]
fn a_push_out_of_a_hexagon_leaves_nearly_one_radius() {
    assert!(sweep(&HEXAGON, 1900, &nearly_ended) > 1000);
    assert!(sweep(&reversed(&HEXAGON), 1900, &nearly_ended) > 1000);
}

#[test]
fn a_push_across_a_slanted_edge_restores_the_radius_up_to_rounding() {
    // the edge from (0, 0) to (40, 30) of a triangle, wound either way
    for points in [
        vec![(0, 0), (40_000, 30_000), (0, 30_000)],
        vec![(0, 30_000), (40_000, 30_000), (0, 0)],
    ] {
        let polygon = Polygon::new(points);
        // outside, two and a half units from the edge
        let mut outside = dot_at(21_500, 13_000);
        let push = outside.get_push_vector(&polygon).unwrap();
        assert_eq!(push, Vector2::new(4500, -6000));
        outside.push(&push);
        assert_eq!(outside.pos, Vector2::new(26_000, 7000));
        assert!(!outside.is_center_inside_polygon(&polygon));
        // the foot on the slanted edge is one radius away again
        assert_eq!(nearest_foot(&outside, &polygon).map(|(length, _)| length), Some(10_000));
        // inside, two and a half units from the edge
        let mut inside = dot_at(18_500, 17_000);
        assert!(inside.is_center_inside_polygon(&polygon));
        let push = inside.get_push_vector(&polygon).unwrap();
        assert_eq!(push, Vector2::new(7500, -10_000));
        inside.push(&push);
        assert_eq!(inside.pos, Vector2::new(26_000, 7000));
        assert!(!inside.is_center_inside_polygon(&polygon));
    }
}
