use boids::vec2::Vec2;

#[test]
fn length_of_pythagorean_triple() {
    let v = Vec2 { x: 3000, y: 4000 };
    assert_eq!(v.length(), 5000);
    assert_eq!(v.norm_sq(), 25_000_000);
}

#[test]
fn length_rounds_down() {
    // |(3000, 3000)| = sqrt(18_000_000) = 4242.64..., floored to 4242.
    let v = Vec2 { x: 3000, y: 3000 };
    assert_eq!(v.length(), 4242);
}

#[test]
fn distance_between_points() {
    let a = Vec2 { x: 1000, y: 2000 };
    let b = Vec2 { x: 4000, y: 6000 };
    assert_eq!(a.distance(b), 5000);
    assert_eq!(b.distance(a), 5000);
    assert_eq!(a.distance(a), 0);
}

#[test]
fn normalize_exact() {
    let v = Vec2 { x: 3000, y: 4000 };
    assert_eq!(v.normalize(), Vec2 { x: 600, y: 800 });
}

#[test]
fn normalize_zero_stays_zero() {
    let v = Vec2 { x: 0, y: 0 };
    assert_eq!(v.normalize(), Vec2 { x: 0, y: 0 });
}

#[test]
fn normalize_negative_direction() {
    let v = Vec2 { x: -50_000, y: 0 };
    assert_eq!(v.normalize(), Vec2 { x: -1000, y: 0 });
}

#[test]
fn clamp_length_shrinks_long_vector() {
    // |(3000, 3000)| = 4242 > 2000, so each coordinate becomes
    // 3000 * 2000 / 4242 = 1414 (truncated).
    let v = Vec2 { x: 3000, y: 3000 };
    assert_eq!(v.clamp_length(2000), Vec2 { x: 1414, y: 1414 });
}

#[test]
fn clamp_length_keeps_short_vector() {
    let v = Vec2 { x: 100, y: -70 };
    assert_eq!(v.clamp_length(2000), v);
}

#[test]
fn div_int_truncates_toward_zero() {
    let v = Vec2 { x: 7, y: -7 };
    assert_eq!(v.div_int(2), Vec2 { x: 3, y: -3 });
}

#[test]
fn scale_fp_is_fixed_point() {
    // 1.5 in fixed point is 1500: (2000, -2000) * 1.5 = (3000, -3000).
    let v = Vec2 { x: 2000, y: -2000 };
    assert_eq!(v.scale_fp(1500), Vec2 { x: 3000, y: -3000 });
}

#[test]
fn div_fp_divides_by_fixed_point_scalar() {
    // (-1000, 0) / 50 (units) = (-20, 0).
    let v = Vec2 { x: -1000, y: 0 };
    assert_eq!(v.div_fp(50_000), Vec2 { x: -20, y: 0 });
}
