use soft_body_simulation::entities::polygon::{BoundingBox, Polygon};
use soft_body_simulation::entities::segment::Segment;
use soft_body_simulation::utils::vector::Vector2;

fn seg(x1: i32, y1: i32, x2: i32, y2: i32) -> Segment {
    Segment { p1: Vector2::new(x1, y1), p2: Vector2::new(x2, y2) }
}

#[test]
fn bounding_box_of_one_point() {
    let b = BoundingBox::new(&[(3000, -4000)]);
    assert_eq!(b, BoundingBox { min_hor: 3000, max_hor: 3000, min_ver: -4000, max_ver: -4000 });
}

#[test]
fn bounding_box_of_several_points() {
    let b = BoundingBox::new(&[(3000, -4000), (-1000, 2000), (7000, 0), (0, 9000)]);
    assert_eq!(b, BoundingBox { min_hor: -1000, max_hor: 7000, min_ver: -4000, max_ver: 9000 });
}

#[test]
fn bounding_box_where_the_first_point_is_the_extreme() {
    let b = BoundingBox::new(&[(i32::MAX, i32::MIN), (0, 0), (i32::MIN, i32::MAX)]);
    assert_eq!(
        b,
        BoundingBox { min_hor: i32::MIN, max_hor: i32::MAX, min_ver: i32::MIN, max_ver: i32::MAX }
    );
}

#[test]
fn polygon_keeps_its_bounding_box() {
    let p = Polygon::new(vec![(0, 0), (10_000, 0), (10_000, 10_000), (0, 10_000)]);
    assert_eq!(
        p.bounding_box(),
        BoundingBox { min_hor: 0, max_hor: 10_000, min_ver: 0, max_ver: 10_000 }
    );
    assert_eq!(p.len(), 4);
}

#[test]
fn segments_pair_each_vertex_with_the_next() {
    let p = Polygon::new(vec![(0, 0), (10_000, 0), (10_000, 10_000), (0, 10_000)]);
    assert_eq!(
        p.segments(),
        vec![
            seg(0, 0, 10_000, 0),
            seg(10_000, 0, 10_000, 10_000),
            seg(10_000, 10_000, 0, 10_000),
            seg(0, 10_000, 0, 0),
        ]
    );
}

#[test]
fn segments_of_a_triangle_wrap_to_the_first_vertex() {
    let p = Polygon::new(vec![(1000, 1000), (5000, 2000), (3000, 7000)]);
    let segments = p.segments();
    assert_eq!(segments.len(), 3);
    assert_eq!(segments[2], seg(3000, 7000, 1000, 1000));
}

#[test]
fn floor_of_a_screen() {
    let p = Polygon::generate_floor(800_000, 600_000);
    assert_eq!(
        p.segments(),
        vec![
            seg(20_000, 550_000, 780_000, 550_000),
            seg(780_000, 550_000, 780_000, 580_000),
            seg(780_000, 580_000, 20_000, 580_000),
            seg(20_000, 580_000, 20_000, 550_000),
        ]
    );
    assert_eq!(
        p.bounding_box(),
        BoundingBox { min_hor: 20_000, max_hor: 780_000, min_ver: 550_000, max_ver: 580_000 }
    );
}

#[test]
fn floor_of_a_screen_at_the_end_of_the_grid() {
    let p = Polygon::generate_floor(i32::MIN, i32::MIN);
    assert_eq!(
        p.bounding_box(),
        BoundingBox { min_hor: i32::MIN, max_hor: 20_000, min_ver: i32::MIN, max_ver: i32::MIN }
    );
}

#[test]
fn clone_keeps_vertices_and_box() {
    let p = Polygon::new(vec![(0, 0), (10_000, 0), (5000, 8000)]);
    let q = p.clone();
    assert_eq!(q.segments(), p.segments());
    assert_eq!(q.bounding_box(), p.bounding_box());
}
