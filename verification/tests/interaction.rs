use soft_body_simulation::entities::dot::Dot;
use soft_body_simulation::entities::interaction::{
    handle_point_point_collision, handle_point_polygon_collision,
    handle_temp_point_point_collision,
};
use soft_body_simulation::entities::polygon::Polygon;
use soft_body_simulation::utils::vector::Vector2;

fn dot_at(x: i32, y: i32) -> Dot {
    Dot::new(Some(Vector2::new(x, y)), 0, 0)
}

fn square(side: i32) -> Polygon {
    Polygon::new(vec![(0, 0), (side, 0), (side, side), (0, side)])
}

#[test]
fn polygon_collision_pushes_an_overlapping_particle() {
    let p = square(100_000);
    let mut d = dot_at(50_000, -5000);
    handle_point_polygon_collision(&mut d, &p);
    assert_eq!(d.pos, Vector2::new(50_000, -10_000));
    assert_eq!(d.acceleration, Vector2::new(0, -50_000));
    assert_eq!(d.vel, Vector2::zero());
}

#[test]
fn polygon_collision_ejects_a_particle_inside() {
    let p = square(100_000);
    let mut d = dot_at(97_000, 50_000);
    handle_point_polygon_collision(&mut d, &p);
    assert_eq!(d.pos, Vector2::new(110_000, 50_000));
    assert_eq!(d.acceleration, Vector2::new(130_000, 0));
}

#[test]
fn polygon_collision_leaves_a_clear_particle() {
    let p = square(100_000);
    let mut d = dot_at(50_000, -30_000);
    let before = d;
    handle_point_polygon_collision(&mut d, &p);
    assert_eq!(d, before);
}

#[test]
fn polygon_collision_leaves_a_frozen_particle() {
    let p = square(100_000);
    let mut d = dot_at(50_000, 5000);
    d.freeze = true;
    let before = d;
    handle_point_polygon_collision(&mut d, &p);
    assert_eq!(d, before);
}

#[test]
fn overlapping_particles_are_pushed_apart() {
    let mut points = vec![dot_at(0, 0), dot_at(6000, 0), dot_at(50_000, 50_000)];
    handle_point_point_collision(&mut points, 0, 1);
    assert_eq!(points[0].pos, Vector2::new(-10_000, 0));
    assert_eq!(points[0].acceleration, Vector2::new(-100_000, 0));
    assert_eq!(points[1].pos, Vector2::new(16_000, 0));
    assert_eq!(points[1].acceleration, Vector2::new(100_000, 0));
    assert_eq!(points[2], dot_at(50_000, 50_000));
}

#[test]
fn overlapping_particles_are_pushed_along_the_line_between_them() {
    let mut points = vec![dot_at(3000, 4000), dot_at(0, 0)];
    handle_point_point_collision(&mut points, 0, 1);
    assert_eq!(points[0].pos, Vector2::new(9000, 12_000));
    assert_eq!(points[1].pos, Vector2::new(-6000, -8000));
}

#[test]
fn particles_in_one_place_stay() {
    let mut points = vec![dot_at(1000, 1000), dot_at(1000, 1000)];
    let before = points.clone();
    handle_point_point_collision(&mut points, 0, 1);
    assert_eq!(points, before);
}

#[test]
fn a_particle_does_not_collide_with_itself() {
    let mut points = vec![dot_at(1000, 1000)];
    let before = points.clone();
    handle_point_point_collision(&mut points, 0, 0);
    assert_eq!(points, before);
}

#[test]
fn particles_one_radius_apart_stay() {
    let mut points = vec![dot_at(0, 0), dot_at(10_000, 0)];
    let before = points.clone();
    handle_point_point_collision(&mut points, 0, 1);
    assert_eq!(points, before);
    let mut nearer = vec![dot_at(0, 0), dot_at(9999, 0)];
    handle_point_point_collision(&mut nearer, 0, 1);
    assert_eq!(nearer[0].pos, Vector2::new(-10_000, 0));
    assert_eq!(nearer[1].pos, Vector2::new(19_999, 0));
}

#[test]
fn the_radius_of_the_first_particle_decides() {
    let mut points = vec![dot_at(0, 0), dot_at(6000, 0)];
    points[0].radius = 5000;
    points[1].radius = 20_000;
    let before = points.clone();
    handle_point_point_collision(&mut points, 0, 1);
    assert_eq!(points, before);
    handle_point_point_collision(&mut points, 1, 0);
    assert_eq!(points[1].pos, Vector2::new(26_000, 0));
    assert_eq!(points[0].pos, Vector2::new(-20_000, 0));
}

#[test]
fn frozen_particles_are_not_pushed() {
    let mut points = vec![dot_at(0, 0), dot_at(6000, 0)];
    points[0].freeze = true;
    handle_point_point_collision(&mut points, 0, 1);
    assert_eq!(points[0].pos, Vector2::new(0, 0));
    assert_eq!(points[1].pos, Vector2::new(16_000, 0));
}

#[test]
fn sampled_positions_that_overlap_give_a_push() {
    assert_eq!(
        handle_temp_point_point_collision(Vector2::new(0, 0), Vector2::new(6000, 0)),
        Some(Vector2::new(-10_000, 0))
    );
    assert_eq!(
        handle_temp_point_point_collision(Vector2::new(3000, 4000), Vector2::new(0, 0)),
        Some(Vector2::new(6000, 8000))
    );
}

#[test]
fn sampled_positions_apart_or_in_one_place_give_none() {
    assert_eq!(
        handle_temp_point_point_collision(Vector2::new(0, 0), Vector2::new(10_000, 0)),
        None
    );
    assert_eq!(
        handle_temp_point_point_collision(Vector2::new(7000, 7000), Vector2::new(7000, 7000)),
        None
    );
    assert_eq!(
        handle_temp_point_point_collision(Vector2::new(0, 0), Vector2::new(0, 9999)),
        Some(Vector2::new(0, -10_000))
    );
}
