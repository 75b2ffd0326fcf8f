use soft_body_simulation::entities::dot::Dot;
use soft_body_simulation::entities::polygon::Polygon;
use soft_body_simulation::entities::soft_body::{
    generate_dots, generate_springs, get_subdivisions, SoftBody, Spring, BORDER_BONUS,
    DAMPING_FACTOR, MAX_REFINEMENTS, STIFFNESS,
};
use soft_body_simulation::utils::vector::Vector2;

fn dot_at(x: i32, y: i32) -> Dot {
    Dot::new(Some(Vector2::new(x, y)), 0, 0)
}

fn neighbors(body: &SoftBody, index: usize) -> Vec<usize> {
    let mut found = Vec::new();
    for spring in body.springs.iter() {
        if spring.index_1 == index {
            found.push(spring.index_2);
        }
    }
    found
}

#[test]
fn constants_of_a_body() {
    assert_eq!(DAMPING_FACTOR, 800);
    assert_eq!(STIFFNESS, 10_000);
    assert_eq!(BORDER_BONUS, 2000);
    assert_eq!(MAX_REFINEMENTS, 64);
}

#[test]
fn spring_rests_at_the_distance_of_its_ends() {
    let dots = vec![dot_at(0, 0), dot_at(30_000, 40_000)];
    let spring = Spring::new(&dots, 0, 1, 10_000, false);
    assert_eq!(spring.rest_length, 50_000);
    assert_eq!(spring.index_1, 0);
    assert_eq!(spring.index_2, 1);
    assert_eq!(spring.stiffness, 10_000);
    assert_eq!(spring.damping_factor, 800);
    assert!(!spring.is_on_border);
    let back = Spring::new(&dots, 1, 0, 12_000, true);
    assert_eq!(back.rest_length, 50_000);
    assert!(back.is_on_border);
}

#[test]
fn spring_at_rest_exerts_no_force() {
    let dots = vec![dot_at(0, 0), dot_at(30_000, 40_000)];
    let spring = Spring::new(&dots, 0, 1, 10_000, false);
    assert_eq!(
        spring.get_force(dots[0].pos, dots[1].pos, Vector2::zero(), Vector2::zero()),
        Vector2::zero()
    );
    let together = Vector2::new(700, -300);
    assert_eq!(spring.get_force(dots[0].pos, dots[1].pos, together, together), Vector2::zero());
}

#[test]
fn stretched_spring_pulls_along_the_line_between_its_ends() {
    let spring = Spring {
        stiffness: 10_000,
        damping_factor: 800,
        rest_length: 40_000,
        index_1: 0,
        index_2: 1,
        is_on_border: false,
    };
    // stretched by 10 units: Hooke gives 100, the damping 0.48
    assert_eq!(
        spring.get_force(
            Vector2::new(0, 0),
            Vector2::new(30_000, 40_000),
            Vector2::zero(),
            Vector2::new(1000, 0),
        ),
        Vector2::new(-60_288, -80_384)
    );
}

#[test]
fn squeezed_spring_pushes() {
    let spring = Spring {
        stiffness: 5000,
        damping_factor: 800,
        rest_length: 40_000,
        index_1: 0,
        index_2: 1,
        is_on_border: false,
    };
    // squeezed by 10 units at stiffness 5: the force is -50 along (-1, 0)
    assert_eq!(
        spring.get_force(
            Vector2::new(0, 0),
            Vector2::new(30_000, 0),
            Vector2::zero(),
            Vector2::zero(),
        ),
        Vector2::new(50_000, 0)
    );
}

#[test]
fn spring_between_ends_in_one_place_exerts_no_force() {
    let spring = Spring {
        stiffness: 10_000,
        damping_factor: 800,
        rest_length: 40_000,
        index_1: 0,
        index_2: 1,
        is_on_border: false,
    };
    let at = Vector2::new(5000, 5000);
    assert_eq!(spring.get_force(at, at, Vector2::new(1000, 0), Vector2::zero()), Vector2::zero());
}

#[test]
fn subdivisions_of_a_square() {
    assert_eq!(get_subdivisions(100_000, 100_000), (1, 1));
    assert_eq!(get_subdivisions(1, 1), (1, 1));
}

#[test]
fn subdivisions_of_four_by_three() {
    assert_eq!(get_subdivisions(160_000, 120_000), (4, 3));
}

#[test]
fn subdivisions_of_long_rectangles() {
    assert_eq!(get_subdivisions(200_000, 100_000), (2, 1));
    assert_eq!(get_subdivisions(100_000, 200_000), (1, 2));
    assert_eq!(get_subdivisions(300_000, 100_000), (3, 1));
    assert_eq!(get_subdivisions(109_000, 100_000), (1, 1));
    assert_eq!(get_subdivisions(110_000, 100_000), (6, 5));
}

#[test]
fn subdivisions_stop_within_a_tenth() {
    // 1.1 and 0.9 themselves are not within
    assert_eq!(get_subdivisions(11, 10), (6, 5));
    assert_eq!(get_subdivisions(9, 10), (5, 6));
    assert_eq!(get_subdivisions(1099, 1000), (1, 1));
    assert_eq!(get_subdivisions(901, 1000), (1, 1));
}

#[test]
fn subdivisions_give_up_after_all_refinements() {
    assert_eq!(get_subdivisions(100_000, 0), (65, 1));
    assert_eq!(get_subdivisions(0, 100_000), (1, 65));
    assert_eq!(get_subdivisions(0, 0), (1, 65));
    assert_eq!(get_subdivisions(1_000_000, 1000), (65, 1));
}

#[test]
fn subdivisions_of_negative_extents() {
    assert_eq!(get_subdivisions(-100_000, -100_000), (1, 1));
    // a negative width never counts as the longer side
    assert_eq!(get_subdivisions(-200_000, 100_000), (1, 65));
    assert_eq!(get_subdivisions(i32::MIN, i32::MIN), (1, 1));
    assert_eq!(get_subdivisions(i32::MAX, i32::MIN), (1, 1));
}

#[test]
fn dots_of_a_four_by_three_mesh() {
    let (dots, steps) = generate_dots(Vector2::new(320_000, 200_000), Vector2::new(480_000, 320_000));
    assert_eq!(steps, (40_000, 40_000));
    assert_eq!(dots.len(), 20);
    // column after column, each from its first row to its last
    assert_eq!(dots[0], dot_at(320_000, 200_000));
    assert_eq!(dots[1], dot_at(320_000, 240_000));
    assert_eq!(dots[3], dot_at(320_000, 320_000));
    assert_eq!(dots[4], dot_at(360_000, 200_000));
    assert_eq!(dots[9], dot_at(400_000, 240_000));
    assert_eq!(dots[19], dot_at(480_000, 320_000));
}

#[test]
fn dots_of_a_mesh_with_uneven_steps() {
    let (dots, steps) = generate_dots(Vector2::new(0, 0), Vector2::new(100_000, 205_000));
    assert_eq!(steps, (100_000, 102_500));
    assert_eq!(dots.len(), 6);
    assert_eq!(dots[2], dot_at(0, 205_000));
    assert_eq!(dots[4], dot_at(100_000, 102_500));
}

#[test]
fn dots_of_a_mesh_whose_step_is_rounded() {
    let (dots, steps) = generate_dots(Vector2::new(0, 0), Vector2::new(100, 290));
    assert_eq!(steps, (100, 96));
    assert_eq!(dots.len(), 8);
    assert_eq!(dots[3], dot_at(0, 288));
    assert_eq!(dots[7], dot_at(100, 288));
}

#[test]
fn springs_link_particles_one_step_apart() {
    let dots = vec![dot_at(0, 0), dot_at(0, 30_000), dot_at(40_000, 0), dot_at(40_000, 30_000)];
    let corner1 = Vector2::new(0, 0);
    let corner2 = Vector2::new(40_000, 30_000);
    let springs = generate_springs(&dots, 40_000, 30_000, (&corner1, &corner2));
    let pairs: Vec<(usize, usize)> = springs.iter().map(|s| (s.index_1, s.index_2)).collect();
    assert_eq!(
        pairs,
        vec![
            (0, 1), (0, 2), (0, 3),
            (1, 0), (1, 2), (1, 3),
            (2, 0), (2, 1), (2, 3),
            (3, 0), (3, 1), (3, 2),
        ]
    );
    // at rest at the distance of the ends
    assert_eq!(springs[0].rest_length, 30_000);
    assert_eq!(springs[1].rest_length, 40_000);
    assert_eq!(springs[2].rest_length, 50_000);
    // on the border where both ends lie on one line of it
    assert!(springs[0].is_on_border);
    assert_eq!(springs[0].stiffness, 12_000);
    assert!(springs[1].is_on_border);
    assert!(!springs[2].is_on_border);
    assert_eq!(springs[2].stiffness, 10_000);
    assert_eq!(springs[2].damping_factor, 800);
}

#[test]
fn springs_skip_particles_that_are_not_one_step_apart() {
    let dots = vec![dot_at(0, 0), dot_at(0, 60_000), dot_at(40_001, 0), dot_at(0, 0)];
    let corner1 = Vector2::new(0, 0);
    let corner2 = Vector2::new(40_000, 30_000);
    let springs = generate_springs(&dots, 40_000, 30_000, (&corner1, &corner2));
    assert!(springs.is_empty());
}

#[test]
fn springs_of_no_particles() {
    let corner = Vector2::zero();
    assert!(generate_springs(&[], 40_000, 30_000, (&corner, &corner)).is_empty());
}

#[test]
fn body_is_a_mesh_of_five_by_four_particles() {
    let body = SoftBody::new(400_000, 300_000);
    assert_eq!(body.points.len(), 20);
    assert_eq!(body.points[0], dot_at(320_000, 200_000));
    assert_eq!(body.points[19], dot_at(480_000, 320_000));
    // 55 pairs of neighbours, one spring each way
    assert_eq!(body.springs.len(), 110);
    for spring in body.springs.iter() {
        assert!(spring.index_1 < 20 && spring.index_2 < 20 && spring.index_1 != spring.index_2);
    }
}

#[test]
fn corner_particles_have_three_neighbors() {
    let body = SoftBody::new(400_000, 300_000);
    assert_eq!(neighbors(&body, 0), vec![1, 4, 5]);
    assert_eq!(neighbors(&body, 3), vec![2, 6, 7]);
    assert_eq!(neighbors(&body, 16), vec![12, 13, 17]);
    assert_eq!(neighbors(&body, 19), vec![14, 15, 18]);
}

#[test]
fn inner_particles_have_eight_neighbors() {
    let body = SoftBody::new(400_000, 300_000);
    assert_eq!(neighbors(&body, 5), vec![0, 1, 2, 4, 6, 8, 9, 10]);
    assert_eq!(neighbors(&body, 10), vec![5, 6, 7, 9, 11, 13, 14, 15]);
    assert_eq!(neighbors(&body, 14).len(), 8);
}

#[test]
fn edge_particles_have_five_neighbors() {
    let body = SoftBody::new(400_000, 300_000);
    assert_eq!(neighbors(&body, 1), vec![0, 2, 4, 5, 6]);
    assert_eq!(neighbors(&body, 4), vec![0, 1, 5, 8, 9]);
}

#[test]
fn border_springs_run_along_the_rim() {
    let body = SoftBody::new(400_000, 300_000);
    let mut border = 0;
    for spring in body.springs.iter() {
        if spring.is_on_border {
            border += 1;
            assert_eq!(spring.stiffness, 12_000);
            let a = body.points[spring.index_1].pos;
            let b = body.points[spring.index_2].pos;
            assert!(a.x == b.x || a.y == b.y);
        } else {
            assert_eq!(spring.stiffness, 10_000);
        }
        assert_eq!(spring.damping_factor, 800);
    }
    // 14 pairs along the rim, one spring each way
    assert_eq!(border, 28);
}

#[test]
fn rest_lengths_of_a_body() {
    let body = SoftBody::new(400_000, 300_000);
    for spring in body.springs.iter() {
        let a = body.points[spring.index_1].pos;
        let b = body.points[spring.index_2].pos;
        if a.x == b.x || a.y == b.y {
            assert_eq!(spring.rest_length, 40_000);
        } else {
            assert_eq!(spring.rest_length, 56_568);
        }
    }
}

#[test]
fn body_at_rest_only_falls() {
    let mut body = SoftBody::new(400_000, 300_000);
    let before: Vec<Dot> = body.points.clone();
    body.update_runge_kutta();
    assert_eq!(body.points.len(), 20);
    assert_eq!(body.springs.len(), 110);
    for (now, then) in body.points.iter().zip(before.iter()) {
        assert_eq!(now.pos, then.pos.plus(Vector2::new(0, 612)));
        assert_eq!(now.vel, Vector2::new(0, 2450));
        assert_eq!(now.prev_pos, then.pos);
        assert_eq!(now.acceleration, Vector2::zero());
    }
}

#[test]
fn deltas_of_a_body_at_rest_are_zero() {
    let body = SoftBody::new(400_000, 300_000);
    let deltas = body.spring_deltas();
    assert_eq!(deltas.len(), 20);
    for delta in deltas.iter() {
        assert_eq!(*delta, Vector2::zero());
    }
}

#[test]
fn deltas_of_a_stretched_pair_point_at_each_other() {
    let points = vec![dot_at(0, 0), dot_at(60_000, 0), dot_at(0, 500_000)];
    let spring = |a: usize, b: usize| Spring {
        stiffness: 10_000,
        damping_factor: 800,
        rest_length: 40_000,
        index_1: a,
        index_2: b,
        is_on_border: false,
    };
    let body = SoftBody { points: points.clone(), springs: vec![spring(0, 1)] };
    // the force starts at 200 and shrinks as the ends approach at the half steps
    assert_eq!(
        body.spring_deltas(),
        vec![Vector2::new(60_307, 0), Vector2::new(-60_307, 0), Vector2::zero()]
    );
    // the body itself is as it was
    assert_eq!(body.points, points);
    let both = SoftBody { points, springs: vec![spring(0, 1), spring(1, 0)] };
    assert_eq!(
        both.spring_deltas(),
        vec![Vector2::new(120_614, 0), Vector2::new(-120_614, 0), Vector2::zero()]
    );
}

#[test]
fn deltas_skip_springs_whose_ends_are_in_one_place() {
    let points = vec![dot_at(5000, 5000), dot_at(5000, 5000)];
    let spring = Spring {
        stiffness: 10_000,
        damping_factor: 800,
        rest_length: 40_000,
        index_1: 0,
        index_2: 1,
        is_on_border: false,
    };
    let body = SoftBody { points, springs: vec![spring] };
    assert_eq!(body.spring_deltas(), vec![Vector2::zero(), Vector2::zero()]);
}

#[test]
fn stretched_pair_is_drawn_together() {
    let points = vec![dot_at(0, 0), dot_at(60_000, 0)];
    let spring = |a: usize, b: usize| Spring {
        stiffness: 10_000,
        damping_factor: 800,
        rest_length: 40_000,
        index_1: a,
        index_2: b,
        is_on_border: false,
    };
    let mut body = SoftBody { points, springs: vec![spring(0, 1), spring(1, 0)] };
    body.update_runge_kutta();
    assert_eq!(body.points[0].pos, Vector2::new(7538, 612));
    assert_eq!(body.points[0].vel, Vector2::new(30_153, 2450));
    assert_eq!(body.points[0].prev_pos, Vector2::new(0, 0));
    assert_eq!(body.points[1].pos, Vector2::new(52_462, 612));
    assert_eq!(body.points[1].vel, Vector2::new(-30_153, 2450));
    assert_eq!(body.points[1].prev_pos, Vector2::new(60_000, 0));
}

#[test]
fn spring_between_particles_in_one_place_adds_nothing() {
    let points = vec![dot_at(5000, 5000), dot_at(5000, 5000)];
    let spring = Spring {
        stiffness: 10_000,
        damping_factor: 800,
        rest_length: 40_000,
        index_1: 0,
        index_2: 1,
        is_on_border: false,
    };
    let mut body = SoftBody { points, springs: vec![spring] };
    body.update_runge_kutta();
    assert_eq!(body.points[0].pos, Vector2::new(5000, 5612));
    assert_eq!(body.points[1].pos, Vector2::new(5000, 5612));
    assert_eq!(body.points[0].vel, Vector2::new(0, 2450));
}

#[test]
fn overlapping_ends_of_a_spring_are_separated_after_the_step() {
    let points = vec![dot_at(0, 0), dot_at(6000, 0)];
    let spring = Spring {
        stiffness: 0,
        damping_factor: 0,
        rest_length: 6000,
        index_1: 0,
        index_2: 1,
        is_on_border: false,
    };
    let mut body = SoftBody { points, springs: vec![spring] };
    body.update_runge_kutta();
    assert_eq!(body.points[0].pos, Vector2::new(-10_000, 612));
    assert_eq!(body.points[1].pos, Vector2::new(16_000, 612));
    assert_eq!(body.points[0].acceleration, Vector2::new(-100_000, 0));
    assert_eq!(body.points[1].acceleration, Vector2::new(100_000, 0));
}

#[test]
fn body_without_springs_only_falls() {
    let mut body = SoftBody { points: vec![dot_at(0, 0)], springs: vec![] };
    body.update_runge_kutta();
    assert_eq!(body.points[0].pos, Vector2::new(0, 612));
}

#[test]
fn collision_pushes_every_particle_out() {
    let polygon = Polygon::new(vec![(0, 0), (100_000, 0), (100_000, 100_000), (0, 100_000)]);
    let points = vec![dot_at(50_000, -5000), dot_at(50_000, 5000), dot_at(50_000, -50_000)];
    let mut body = SoftBody { points, springs: vec![] };
    body.handle_collision(&polygon);
    assert_eq!(body.points[0].pos, Vector2::new(50_000, -10_000));
    assert_eq!(body.points[1].pos, Vector2::new(50_000, -10_000));
    assert_eq!(body.points[2].pos, Vector2::new(50_000, -50_000));
    assert_eq!(body.points[2], dot_at(50_000, -50_000));
}

#[test]
fn tick_lets_a_particle_land_on_the_floor() {
    let floor = Polygon::generate_floor(800_000, 600_000);
    // the disc reaches 0.3 units into the floor after the step
    let mut body = SoftBody { points: vec![dot_at(400_000, 539_688)], springs: vec![] };
    body.tick(&[floor]);
    // fallen to 540.3, then pulled back until the disc touches the floor
    assert_eq!(body.points[0].pos, Vector2::new(400_000, 540_000));
    assert_eq!(body.points[0].vel, Vector2::new(0, 2450));
    assert_eq!(body.points[0].acceleration, Vector2::new(0, -3000));
}

#[test]
fn tick_resolves_the_polygons_in_their_order() {
    let first = Polygon::new(vec![(0, 0), (100_000, 0), (100_000, 100_000), (0, 100_000)]);
    let second = Polygon::new(vec![
        (0, -100_000),
        (100_000, -100_000),
        (100_000, -12_000),
        (0, -12_000),
    ]);
    // after the step the centre is at (50, -5): pushed out of the first
    // polygon to (50, -10), where the disc overlaps the second
    let mut body = SoftBody { points: vec![dot_at(50_000, -5612)], springs: vec![] };
    body.tick(&[first, second]);
    assert_eq!(body.points[0].pos, Vector2::new(50_000, -2000));
}

#[test]
fn tick_without_polygons_is_the_step() {
    let mut one = SoftBody::new(400_000, 300_000);
    let mut other = SoftBody::new(400_000, 300_000);
    one.tick(&[]);
    other.update_runge_kutta();
    assert_eq!(one.points, other.points);
    assert_eq!(one.springs, other.springs);
}
