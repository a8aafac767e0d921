use multipath::vec2::Vec2;
use multipath::vec3::{Vec3, VecError, UNIT};

#[test]
fn add_sub_mul_are_componentwise() {
    let a = Vec3::new(1, -2, 3);
    let b = Vec3::new(4, 5, -6);
    assert_eq!(Vec3::add(&a, &b), Vec3::new(5, 3, -3));
    assert_eq!(Vec3::sub(&a, &b), Vec3::new(-3, -7, 9));
    assert_eq!(Vec3::mul(&a, -2), Vec3::new(-2, 4, -6));
}

#[test]
fn dot_of_known_vectors() {
    let a = Vec3::new(1, 2, 3);
    let b = Vec3::new(4, -5, 6);
    assert_eq!(Vec3::dot(&a, &b), 4 - 10 + 18);
}

#[test]
fn cross_of_basis_vectors_gives_third_axis() {
    let x = Vec3::new(1, 0, 0);
    let y = Vec3::new(0, 1, 0);
    let z = Vec3::new(0, 0, 1);
    assert_eq!(Vec3::cross(&x, &y), z);
    assert_eq!(Vec3::cross(&y, &z), x);
    assert_eq!(Vec3::cross(&z, &x), y);
    assert_eq!(Vec3::cross(&y, &x), Vec3::new(0, 0, -1));
    assert_eq!(Vec3::dot(&x, &y), 0);
    assert_eq!(Vec3::dot(&y, &z), 0);
    assert_eq!(Vec3::dot(&z, &x), 0);
}

#[test]
fn cross_follows_the_standard_formula() {
    let a = Vec3::new(2, 3, 4);
    let b = Vec3::new(5, 6, 7);
    // (3*7 - 4*6, 4*5 - 2*7, 2*6 - 3*5)
    assert_eq!(Vec3::cross(&a, &b), Vec3::new(-3, 6, -3));
}

#[test]
fn change_pos_and_pos_translate() {
    let mut v = Vec3::new(1, 1, 1);
    v.change_pos(2, -3, 4);
    assert_eq!(v, Vec3::new(3, -2, 5));
    v.pos(-3, 2, -5);
    assert_eq!(v, Vec3::new(0, 0, 0));
}

#[test]
fn len_rounds_down() {
    assert_eq!(Vec3::len(&Vec3::new(3, 4, 0)), 5);
    assert_eq!(Vec3::len(&Vec3::new(1, 1, 0)), 1);
    assert_eq!(Vec3::len(&Vec3::new(0, 0, 0)), 0);
    assert_eq!(Vec3::len2(&Vec3::new(1, 2, 3)), 14);
}

#[test]
fn normalising_a_unit_vector_returns_it() {
    let u = Vec3::new(UNIT, 0, 0);
    assert_eq!(Vec3::norm(&u), Ok(u));
    let w = Vec3::new(0, -UNIT, 0);
    assert_eq!(Vec3::norm(&w), Ok(w));
}

#[test]
fn normalising_scales_to_unit_length() {
    // 3 * 65536 / 5 = 39321.6, 4 * 65536 / 5 = 52428.8
    assert_eq!(Vec3::norm(&Vec3::new(3, 4, 0)), Ok(Vec3::new(39321, 52428, 0)));
    assert_eq!(Vec3::norm(&Vec3::new(-3, 0, -4)), Ok(Vec3::new(-39321, 0, -52428)));
}

#[test]
fn normalising_zero_fails() {
    assert_eq!(Vec3::norm(&Vec3::new(0, 0, 0)), Err(VecError::DivideByZero));
}

#[test]
fn line_dist_to_axis() {
    let a = Vec3::new(0, 0, 0);
    let b = Vec3::new(10, 0, 0);
    assert_eq!(Vec3::line_dist(&a, &b, &Vec3::new(5, 3, 0)), 3);
    assert_eq!(Vec3::line_dist(&a, &b, &Vec3::new(50, 3, 4)), 5);
    assert_eq!(Vec3::line_dist(&a, &b, &Vec3::new(7, 0, 0)), 0);
    // sqrt(2) rounds down to 1
    assert_eq!(Vec3::line_dist(&a, &b, &Vec3::new(1, 1, 1)), 1);
}

#[test]
fn line_dist_to_a_degenerate_line_is_to_the_point() {
    let a = Vec3::new(1, 1, 1);
    assert_eq!(Vec3::line_dist(&a, &a, &Vec3::new(4, 5, 1)), 5);
}

#[test]
fn dot_wide_holds_large_products() {
    let n = Vec3::new(1 << 39, 1 << 39, 0);
    assert_eq!(Vec3::dot_wide(&n, &n), 1i128 << 79);
}

#[test]
fn line_of_a_shallow_segment() {
    let pts = Vec2::line(&Vec2::new(0, 0), &Vec2::new(4, 2));
    assert_eq!(
        pts,
        vec![Vec2::new(0, 0), Vec2::new(1, 0), Vec2::new(2, 1), Vec2::new(3, 1)]
    );
}

#[test]
fn line_of_a_steep_reversed_segment() {
    let pts = Vec2::line(&Vec2::new(0, 3), &Vec2::new(0, 0));
    assert_eq!(pts, vec![Vec2::new(0, 0), Vec2::new(0, 1), Vec2::new(0, 2)]);
}

#[test]
fn line_of_a_point_is_empty() {
    assert!(Vec2::line(&Vec2::new(5, 5), &Vec2::new(5, 5)).is_empty());
}

#[test]
fn line_going_down() {
    let pts = Vec2::line(&Vec2::new(0, 2), &Vec2::new(4, 0));
    assert_eq!(
        pts,
        vec![Vec2::new(0, 2), Vec2::new(1, 2), Vec2::new(2, 1), Vec2::new(3, 1)]
    );
}

#[test]
fn line_far_from_the_origin() {
    let base: i64 = 1 << 59;
    let pts = Vec2::line(&Vec2::new(base, base), &Vec2::new(base + 3, base - 3));
    assert_eq!(
        pts,
        vec![Vec2::new(base, base), Vec2::new(base + 1, base - 1), Vec2::new(base + 2, base - 2)]
    );
}
