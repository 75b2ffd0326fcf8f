use soft_body_simulation::entities::incomplete_polygon::IncompletePolygon;
use soft_body_simulation::entities::polygon::Polygon;
use soft_body_simulation::entities::soft_body::SoftBody;
use soft_body_simulation::ui::{spawn_entity, Entities};
use soft_body_simulation::utils::vector::Vector2;

fn square(left: i32, top: i32, side: i32) -> Polygon {
    Polygon::new(vec![
        (left, top),
        (left + side, top),
        (left + side, top + side),
        (left, top + side),
    ])
}

#[test]
fn click_in_dot_mode_replaces_the_body() {
    let mut polygons = vec![square(0, 0, 10_000)];
    let mut drawing = IncompletePolygon::new();
    drawing.points.push(Vector2::new(1000, 1000));
    let mut body = SoftBody::new(0, 0);
    body.update_runge_kutta();
    spawn_entity(
        &Entities::Dot,
        &mut polygons,
        &mut drawing,
        &mut body,
        Vector2::new(400_000, 300_000),
    );
    let fresh = SoftBody::new(400_000, 300_000);
    assert_eq!(body.points, fresh.points);
    assert_eq!(body.springs, fresh.springs);
    assert_eq!(body.points[0].pos, Vector2::new(320_000, 200_000));
    assert_eq!(polygons.len(), 1);
    assert_eq!(drawing.points, vec![Vector2::new(1000, 1000)]);
}

#[test]
fn click_in_polygon_mode_adds_a_vertex() {
    let mut polygons = vec![square(0, 0, 10_000)];
    let mut drawing = IncompletePolygon::new();
    let mut body = SoftBody::new(400_000, 300_000);
    let before = SoftBody::new(400_000, 300_000);
    spawn_entity(
        &Entities::Polygon,
        &mut polygons,
        &mut drawing,
        &mut body,
        Vector2::new(-5000, 5000),
    );
    spawn_entity(
        &Entities::Polygon,
        &mut polygons,
        &mut drawing,
        &mut body,
        Vector2::new(-5000, 50_000),
    );
    assert_eq!(drawing.points, vec![Vector2::new(-5000, 5000), Vector2::new(-5000, 50_000)]);
    assert_eq!(polygons.len(), 1);
    assert_eq!(body.points, before.points);
    assert_eq!(body.springs, before.springs);
}

#[test]
fn click_in_polygon_mode_refuses_an_edge_through_a_polygon() {
    let mut polygons = vec![square(0, 0, 10_000)];
    let mut drawing = IncompletePolygon::new();
    let mut body = SoftBody::new(400_000, 300_000);
    spawn_entity(
        &Entities::Polygon,
        &mut polygons,
        &mut drawing,
        &mut body,
        Vector2::new(-5000, 5000),
    );
    spawn_entity(
        &Entities::Polygon,
        &mut polygons,
        &mut drawing,
        &mut body,
        Vector2::new(15_000, 5000),
    );
    assert_eq!(drawing.points, vec![Vector2::new(-5000, 5000)]);
    assert_eq!(polygons.len(), 1);
}

#[test]
fn click_on_the_start_closes_the_polygon() {
    let mut polygons: Vec<Polygon> = Vec::new();
    let mut drawing = IncompletePolygon::new();
    let mut body = SoftBody::new(400_000, 300_000);
    for point in [(0, 0), (100_000, 0), (50_000, 80_000), (2000, 2000)] {
        spawn_entity(
            &Entities::Polygon,
            &mut polygons,
            &mut drawing,
            &mut body,
            Vector2::new(point.0, point.1),
        );
    }
    assert!(drawing.points.is_empty());
    assert_eq!(polygons.len(), 1);
    assert_eq!(polygons[0].len(), 3);
}
