use soft_body_simulation::utils::vector::Vector2;

#[test]
fn new_and_zero() {
    assert_eq!(Vector2::new(3, -4), Vector2 { x: 3, y: -4 });
    assert_eq!(Vector2::zero(), Vector2 { x: 0, y: 0 });
}

#[test]
fn plus_adds_the_components() {
    let a = Vector2::new(1000, -2000);
    let b = Vector2::new(250, 750);
    assert_eq!(a.plus(b), Vector2::new(1250, -1250));
    assert_eq!(a.plus(Vector2::zero()), a);
}

#[test]
fn plus_saturates() {
    let a = Vector2::new(i32::MAX, i32::MIN);
    assert_eq!(a.plus(Vector2::new(1, -1)), Vector2::new(i32::MAX, i32::MIN));
}

#[test]
fn minus_subtracts_the_components() {
    let a = Vector2::new(1000, -2000);
    let b = Vector2::new(250, 750);
    assert_eq!(a.minus(b), Vector2::new(750, -2750));
    assert_eq!(a.minus(a), Vector2::zero());
    assert_eq!(
        Vector2::new(i32::MIN, i32::MAX).minus(Vector2::new(1, -1)),
        Vector2::new(i32::MIN, i32::MAX)
    );
}

#[test]
fn negate_turns_the_vector_round() {
    assert_eq!(Vector2::new(5, -7).negate(), Vector2::new(-5, 7));
    assert_eq!(Vector2::new(i32::MIN, 0).negate(), Vector2::new(i32::MAX, 0));
}

#[test]
fn scale_multiplies_by_a_fixed_point_factor() {
    // times a quarter
    assert_eq!(Vector2::new(0, 9800).scale(250), Vector2::new(0, 2450));
    assert_eq!(Vector2::new(0, 2450).scale(250), Vector2::new(0, 612));
    // times ten
    assert_eq!(Vector2::new(1000, -2000).scale(10_000), Vector2::new(10_000, -20_000));
    // times one
    assert_eq!(Vector2::new(123, -456).scale(1000), Vector2::new(123, -456));
}

#[test]
fn divide_by_a_fixed_point_divisor() {
    assert_eq!(Vector2::new(1500, 1000).divide(250), Vector2::new(6000, 4000));
    assert_eq!(Vector2::new(-7, 7).divide(2000), Vector2::new(-3, 3));
    assert_eq!(Vector2::new(1500, -1000).divide(-250), Vector2::new(-6000, 4000));
}

#[test]
fn dot_product_is_scaled_by_the_unit() {
    // (-0.6, -0.8) . (-1, 0) = 0.6
    assert_eq!(Vector2::new(-600, -800).dot(Vector2::new(-1000, 0)), 600);
    assert_eq!(Vector2::new(1000, 2000).dot(Vector2::new(3000, 4000)), 11_000);
    assert_eq!(Vector2::new(1000, 0).dot(Vector2::new(0, 1000)), 0);
}

#[test]
fn length_squared_is_exact() {
    assert_eq!(Vector2::new(3, 4).length_squared(), 25);
    assert_eq!(Vector2::new(-3000, 4000).length_squared(), 25_000_000);
    assert_eq!(
        Vector2::new(i32::MIN, i32::MIN).length_squared(),
        9_223_372_036_854_775_808
    );
}

#[test]
fn length_rounds_down() {
    assert_eq!(Vector2::new(3, 4).length(), 5);
    assert_eq!(Vector2::new(-30_000, -40_000).length(), 50_000);
    assert_eq!(Vector2::new(1, 1).length(), 1);
    assert_eq!(Vector2::new(10_000, 10_000).length(), 14_142);
    assert_eq!(Vector2::zero().length(), 0);
}

#[test]
fn length_saturates() {
    assert_eq!(Vector2::new(i32::MAX, i32::MAX).length(), i32::MAX);
    assert_eq!(Vector2::new(i32::MIN, 0).length(), i32::MAX);
}

#[test]
fn normalize_gives_length_one() {
    assert_eq!(Vector2::new(-30_000, -40_000).normalize(), Vector2::new(-600, -800));
    assert_eq!(Vector2::new(0, 5000).normalize(), Vector2::new(0, 1000));
    assert_eq!(Vector2::new(-6000, 0).normalize(), Vector2::new(-1000, 0));
    assert_eq!(Vector2::new(300_000, 400_000).normalize(), Vector2::new(600, 800));
}

#[test]
fn normalize_of_zero_is_zero() {
    assert_eq!(Vector2::zero().normalize(), Vector2::zero());
}

#[test]
fn normalize_of_a_tiny_vector_stays_within_one_per_component() {
    // the length of (1, 1) rounds down to 1
    assert_eq!(Vector2::new(1, 1).normalize(), Vector2::new(1000, 1000));
    assert_eq!(Vector2::new(i32::MIN, i32::MIN).normalize(), Vector2::new(-707, -707));
}
