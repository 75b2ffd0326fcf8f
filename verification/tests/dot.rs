use soft_body_simulation::entities::dot::{
    Dot, DELTA_T_RUNGE_KUTTA, GRAVITY, MAX_SPEED, PUSH_BIAS, RADIUS, RESET_SPEED,
};
use soft_body_simulation::entities::polygon::Polygon;
use soft_body_simulation::utils::vector::Vector2;

fn dot_at(x: i32, y: i32) -> Dot {
    Dot::new(Some(Vector2::new(x, y)), 0, 0)
}

fn square(side: i32) -> Polygon {
    Polygon::new(vec![(0, 0), (side, 0), (side, side), (0, side)])
}

#[test]
fn constants_of_a_particle() {
    assert_eq!(DELTA_T_RUNGE_KUTTA, 250);
    assert_eq!(RADIUS, 10_000);
    assert_eq!(GRAVITY, 9800);
    assert_eq!(MAX_SPEED, 200_000);
    assert_eq!(RESET_SPEED, 10_000);
    assert_eq!(PUSH_BIAS, 10_000);
}

#[test]
fn new_at_a_position_is_at_rest() {
    let d = Dot::new(Some(Vector2::new(1000, 2000)), 800_000, 600_000);
    assert_eq!(d.pos, Vector2::new(1000, 2000));
    assert_eq!(d.prev_pos, Vector2::new(1000, 2000));
    assert_eq!(d.vel, Vector2::zero());
    assert_eq!(d.acceleration, Vector2::zero());
    assert_eq!(d.radius, 10_000);
    assert!(!d.freeze);
}

#[test]
fn new_without_a_position_is_in_the_middle_of_the_screen() {
    let d = Dot::new(None, 800_000, 600_000);
    assert_eq!(d.pos, Vector2::new(400_000, 300_000));
    assert_eq!(d.prev_pos, Vector2::new(400_000, 300_000));
    let odd = Dot::new(None, 7, -7);
    assert_eq!(odd.pos, Vector2::new(3, -3));
}

#[test]
fn out_of_bounds_at_three_screen_widths() {
    let width = 800_000;
    let height = 600_000;
    assert!(dot_at(3 * width, 0).is_out_of_bounds(width, height));
    assert!(!dot_at(width / 2, 0).is_out_of_bounds(width, height));
}

#[test]
fn out_of_bounds_beyond_two_screens_on_either_axis() {
    let width = 800_000;
    let height = 600_000;
    assert!(!dot_at(2 * width, 2 * height).is_out_of_bounds(width, height));
    assert!(dot_at(2 * width + 1, 0).is_out_of_bounds(width, height));
    assert!(dot_at(-2 * width - 1, 0).is_out_of_bounds(width, height));
    assert!(!dot_at(-2 * width, -2 * height).is_out_of_bounds(width, height));
    assert!(dot_at(0, 2 * height + 1).is_out_of_bounds(width, height));
    assert!(dot_at(0, -2 * height - 1).is_out_of_bounds(width, height));
    assert!(dot_at(i32::MIN, 0).is_out_of_bounds(0x3fff_ffff, 0));
    assert!(!dot_at(i32::MIN, 0).is_out_of_bounds(0x4000_0000, 0));
    assert!(!dot_at(i32::MIN, 0).is_out_of_bounds(i32::MAX, i32::MAX));
}

#[test]
fn update_from_rest_falls() {
    let mut d = dot_at(1000, 2000);
    d.update();
    // the velocity gains a quarter of gravity, the position a quarter of that
    assert_eq!(d.vel, Vector2::new(0, 2450));
    assert_eq!(d.pos, Vector2::new(1000, 2612));
    assert_eq!(d.prev_pos, Vector2::new(1000, 2000));
    assert_eq!(d.acceleration, Vector2::zero());
    d.update();
    assert_eq!(d.vel, Vector2::new(0, 4900));
    assert_eq!(d.pos, Vector2::new(1000, 3837));
    assert_eq!(d.prev_pos, Vector2::new(1000, 2612));
}

#[test]
fn update_integrates_what_was_accumulated() {
    let mut d = dot_at(0, 0);
    d.add_acceleration(Vector2::new(4000, -9800));
    d.update();
    assert_eq!(d.vel, Vector2::new(1000, 0));
    assert_eq!(d.pos, Vector2::new(250, 0));
    assert_eq!(d.acceleration, Vector2::zero());
}

#[test]
fn update_slows_a_particle_that_is_too_fast() {
    let mut d = dot_at(0, 0);
    d.vel = Vector2::new(300_000, 400_000);
    d.add_acceleration(Vector2::new(0, -9800));
    d.update();
    assert_eq!(d.vel, Vector2::new(6000, 8000));
    assert_eq!(d.pos, Vector2::new(1500, 2000));
}

#[test]
fn update_keeps_a_speed_at_the_limit() {
    let mut d = dot_at(0, 0);
    d.vel = Vector2::new(120_000, 160_000);
    d.add_acceleration(Vector2::new(0, -9800));
    d.update();
    assert_eq!(d.vel, Vector2::new(120_000, 160_000));
    assert_eq!(d.pos, Vector2::new(30_000, 40_000));
    let mut e = dot_at(0, 0);
    e.vel = Vector2::new(120_000, 160_001);
    e.add_acceleration(Vector2::new(0, -9800));
    e.update();
    assert_eq!(e.vel, Vector2::new(120_000, 160_001));
    let mut f = dot_at(0, 0);
    f.vel = Vector2::new(120_001, 160_001);
    f.add_acceleration(Vector2::new(0, -9800));
    f.update();
    assert_eq!(f.vel, Vector2::new(6000, 8000));
    assert_eq!(f.pos, Vector2::new(1500, 2000));
}

#[test]
fn update_of_a_frozen_particle_only_remembers_and_clears() {
    let mut d = dot_at(1000, 2000);
    d.freeze = true;
    d.vel = Vector2::new(500, 500);
    d.prev_pos = Vector2::new(-1, -1);
    d.add_acceleration(Vector2::new(4000, 4000));
    d.update();
    assert_eq!(d.pos, Vector2::new(1000, 2000));
    assert_eq!(d.vel, Vector2::new(500, 500));
    assert_eq!(d.prev_pos, Vector2::new(1000, 2000));
    assert_eq!(d.acceleration, Vector2::zero());
}

#[test]
fn update_runge_derives_the_velocity_from_the_way() {
    let mut d = dot_at(0, 0);
    d.pos = Vector2::new(1000, 1000);
    d.update_runge(&Vector2::new(500, 0));
    assert_eq!(d.pos, Vector2::new(1500, 1000));
    assert_eq!(d.vel, Vector2::new(6000, 4000));
    assert_eq!(d.prev_pos, Vector2::new(0, 0));
}

#[test]
fn add_acceleration_accumulates() {
    let mut d = dot_at(0, 0);
    d.add_acceleration(Vector2::new(1000, 2000));
    d.add_acceleration(Vector2::new(-250, 500));
    assert_eq!(d.acceleration, Vector2::new(750, 2500));
    assert_eq!(d.pos, Vector2::zero());
    assert_eq!(d.vel, Vector2::zero());
}

#[test]
fn add_gravity_accumulates() {
    let mut d = dot_at(0, 0);
    d.add_gravity();
    assert_eq!(d.acceleration, Vector2::new(0, 9800));
    d.add_gravity();
    assert_eq!(d.acceleration, Vector2::new(0, 19_600));
}

#[test]
fn push_moves_and_biases() {
    let mut d = dot_at(5000, 5000);
    d.push(&Vector2::new(1000, -2000));
    assert_eq!(d.pos, Vector2::new(6000, 3000));
    assert_eq!(d.acceleration, Vector2::new(10_000, -20_000));
    assert_eq!(d.vel, Vector2::zero());
    assert_eq!(d.prev_pos, Vector2::new(5000, 5000));
}

#[test]
fn push_leaves_a_frozen_particle() {
    let mut d = dot_at(5000, 5000);
    d.freeze = true;
    let before = d;
    d.push(&Vector2::new(1000, -2000));
    assert_eq!(d, before);
}

#[test]
fn center_inside_the_square() {
    let p = square(10_000);
    assert!(dot_at(5000, 5000).is_center_inside_polygon(&p));
    assert!(!dot_at(15_000, 5000).is_center_inside_polygon(&p));
}

#[test]
fn center_inside_a_square_drawn_the_other_way_round() {
    let p = Polygon::new(vec![(0, 0), (0, 10_000), (10_000, 10_000), (10_000, 0)]);
    assert!(dot_at(5000, 5000).is_center_inside_polygon(&p));
    assert!(!dot_at(15_000, 5000).is_center_inside_polygon(&p));
    assert!(!dot_at(5000, -5000).is_center_inside_polygon(&p));
    assert!(!dot_at(5000, 15_000).is_center_inside_polygon(&p));
}

#[test]
fn center_inside_convex_polygons() {
    let triangle = Polygon::new(vec![(0, 0), (60_000, 10_000), (20_000, 50_000)]);
    assert!(dot_at(25_000, 20_000).is_center_inside_polygon(&triangle));
    assert!(!dot_at(50_000, 40_000).is_center_inside_polygon(&triangle));
    assert!(!dot_at(5000, 30_000).is_center_inside_polygon(&triangle));
    assert!(!dot_at(30_000, 2000).is_center_inside_polygon(&triangle));
    let hexagon = Polygon::new(vec![
        (20_000, 0),
        (40_000, 0),
        (60_000, 20_000),
        (40_000, 40_000),
        (20_000, 40_000),
        (0, 20_000),
    ]);
    assert!(dot_at(30_000, 20_000).is_center_inside_polygon(&hexagon));
    assert!(dot_at(5000, 20_000).is_center_inside_polygon(&hexagon));
    assert!(!dot_at(5000, 5000).is_center_inside_polygon(&hexagon));
    assert!(!dot_at(55_000, 35_000).is_center_inside_polygon(&hexagon));
    assert!(!dot_at(30_000, -1000).is_center_inside_polygon(&hexagon));
    assert!(!dot_at(30_000, 41_000).is_center_inside_polygon(&hexagon));
}

#[test]
fn center_around_the_square() {
    let p = square(10_000);
    assert!(!dot_at(-1, 5000).is_center_inside_polygon(&p));
    assert!(!dot_at(5000, -1).is_center_inside_polygon(&p));
    assert!(!dot_at(5000, 10_001).is_center_inside_polygon(&p));
    assert!(dot_at(1, 1).is_center_inside_polygon(&p));
    assert!(dot_at(9999, 9999).is_center_inside_polygon(&p));
}

#[test]
fn center_on_the_boundary_of_the_square() {
    let p = square(10_000);
    // the edge toward smaller y counts as inside, the one toward larger y not
    assert!(dot_at(5000, 0).is_center_inside_polygon(&p));
    assert!(!dot_at(5000, 10_000).is_center_inside_polygon(&p));
    // the ranges of x are half open
    assert!(dot_at(0, 5000).is_center_inside_polygon(&p));
    assert!(!dot_at(10_000, 5000).is_center_inside_polygon(&p));
}

#[test]
fn center_inside_a_polygon_with_a_notch() {
    // a square with a notch cut in from the side of larger y
    let p = Polygon::new(vec![
        (0, 0),
        (30_000, 0),
        (30_000, 30_000),
        (20_000, 30_000),
        (20_000, 10_000),
        (10_000, 10_000),
        (10_000, 30_000),
        (0, 30_000),
    ]);
    assert!(dot_at(5000, 20_000).is_center_inside_polygon(&p));
    assert!(!dot_at(15_000, 20_000).is_center_inside_polygon(&p));
    assert!(dot_at(15_000, 5000).is_center_inside_polygon(&p));
    assert!(dot_at(25_000, 20_000).is_center_inside_polygon(&p));
}

#[test]
fn no_push_outside_the_bounding_box() {
    let p = square(100_000);
    assert_eq!(dot_at(50_000, -20_000).get_push_vector(&p), None);
    assert_eq!(dot_at(50_000, -10_000).get_push_vector(&p), None);
    assert_eq!(dot_at(-10_000, 50_000).get_push_vector(&p), None);
    assert_eq!(dot_at(110_000, 50_000).get_push_vector(&p), None);
    assert_eq!(dot_at(50_000, 110_000).get_push_vector(&p), None);
}

#[test]
fn push_of_a_partly_overlapping_particle_restores_one_radius() {
    let p = square(100_000);
    let mut d = dot_at(50_000, -5000);
    assert_eq!(d.get_push_vector(&p), Some(Vector2::new(0, -5000)));
    let v = d.get_push_vector(&p).unwrap();
    d.push(&v);
    assert_eq!(d.pos, Vector2::new(50_000, -10_000));
    assert_eq!(d.get_push_vector(&p), None);
}

#[test]
fn push_of_a_particle_inside_ejects_it_by_one_radius() {
    let p = square(100_000);
    let mut d = dot_at(50_000, 5000);
    assert_eq!(d.get_push_vector(&p), Some(Vector2::new(0, -15_000)));
    let v = d.get_push_vector(&p).unwrap();
    d.push(&v);
    assert_eq!(d.pos, Vector2::new(50_000, -10_000));
    assert!(!d.is_center_inside_polygon(&p));
    assert_eq!(d.acceleration, Vector2::new(0, -150_000));
}

#[test]
fn push_toward_the_nearest_edge() {
    let p = square(100_000);
    assert_eq!(dot_at(97_000, 50_000).get_push_vector(&p), Some(Vector2::new(13_000, 0)));
    assert_eq!(dot_at(50_000, 97_000).get_push_vector(&p), Some(Vector2::new(0, 13_000)));
    assert_eq!(dot_at(3000, 50_000).get_push_vector(&p), Some(Vector2::new(-13_000, 0)));
    assert_eq!(dot_at(-3000, 50_000).get_push_vector(&p), Some(Vector2::new(-7000, 0)));
}

#[test]
fn push_where_two_edges_are_equally_near_goes_to_the_later_one() {
    let p = square(100_000);
    // as near to the first edge as to the last
    assert_eq!(dot_at(4000, 4000).get_push_vector(&p), Some(Vector2::new(-14_000, 0)));
}

#[test]
fn no_push_where_no_edge_covers_the_center() {
    // beside a corner, outside: inside the box of the disc, but the foot on
    // every edge falls past its ends
    let p = Polygon::new(vec![(0, 0), (100_000, 0), (50_000, 50_000)]);
    assert_eq!(dot_at(-3000, -3000).get_push_vector(&p), None);
}

#[test]
fn push_of_a_particle_that_barely_overlaps() {
    let p = square(100_000);
    assert_eq!(dot_at(50_000, -9999).get_push_vector(&p), Some(Vector2::new(0, -1)));
}

#[test]
fn no_push_beside_a_corner_of_the_square() {
    let p = square(100_000);
    // the disc reaches into the box, but no edge covers the centre
    assert_eq!(dot_at(-5000, -5000).get_push_vector(&p), None);
}

#[test]
fn push_in_a_narrow_notch_leads_to_the_other_wall() {
    // the notch is ten units wide, as wide as the radius
    let p = Polygon::new(vec![
        (0, 0),
        (30_000, 0),
        (30_000, 30_000),
        (20_000, 30_000),
        (20_000, 10_000),
        (10_000, 10_000),
        (10_000, 30_000),
        (0, 30_000),
    ]);
    let mut d = dot_at(12_000, 20_000);
    assert!(!d.is_center_inside_polygon(&p));
    assert_eq!(d.get_push_vector(&p), Some(Vector2::new(8000, 0)));
    let v = d.get_push_vector(&p).unwrap();
    d.push(&v);
    // one radius from the wall it overlapped, and on the wall across
    assert_eq!(d.pos, Vector2::new(20_000, 20_000));
}

#[test]
fn push_out_of_the_floor() {
    let floor = Polygon::generate_floor(800_000, 600_000);
    // sunk two units into the floor from above
    let mut d = dot_at(400_000, 552_000);
    assert!(d.is_center_inside_polygon(&floor));
    let v = d.get_push_vector(&floor).unwrap();
    assert_eq!(v, Vector2::new(0, -12_000));
    d.push(&v);
    assert_eq!(d.pos, Vector2::new(400_000, 540_000));
    assert!(!d.is_center_inside_polygon(&floor));
    assert_eq!(d.get_push_vector(&floor), None);
}

#[test]
fn push_along_a_slanted_edge_is_rounded() {
    // the edge from (0, 0) to (40, 30) and a centre two and a half units from it
    let p = Polygon::new(vec![(0, 0), (40_000, 30_000), (0, 30_000)]);
    let d = dot_at(21_500, 13_000);
    assert!(!d.is_center_inside_polygon(&p));
    // the nearest foot is at (20, 15): the offset is (-1.5, 2), the push
    // leads 7.5 units away from the edge
    assert_eq!(d.get_push_vector(&p), Some(Vector2::new(4500, -6000)));
}

#[test]
fn a_vertex_entered_twice_acts_as_a_corner() {
    let plain = square(100_000);
    let doubled = Polygon::new(vec![
        (0, 0),
        (100_000, 0),
        (100_000, 0),
        (100_000, 100_000),
        (0, 100_000),
    ]);
    // beside the far corner: no edge of the square covers the centre, and
    // the edge without length has its foot at the vertex, far away
    let d = dot_at(103_000, 105_000);
    assert_eq!(d.get_push_vector(&plain), None);
    assert_eq!(d.get_push_vector(&doubled), None);
    // beside the doubled vertex, nearer than the radius
    let e = dot_at(103_000, -4000);
    assert_eq!(e.get_push_vector(&plain), None);
    assert_eq!(e.get_push_vector(&doubled), Some(Vector2::new(3000, -4000)));
    for point in [(50_000, -5000), (50_000, 5000), (97_000, 50_000), (-3000, 50_000)] {
        let f = dot_at(point.0, point.1);
        assert_eq!(f.get_push_vector(&doubled), f.get_push_vector(&plain));
        assert_eq!(f.is_center_inside_polygon(&doubled), f.is_center_inside_polygon(&plain));
    }
}

#[test]
fn push_of_a_center_on_an_edge() {
    let p = square(100_000);
    // the nearest foot is the centre itself: there is no direction to push in
    assert_eq!(dot_at(50_000, 0).get_push_vector(&p), Some(Vector2::new(0, 0)));
}
