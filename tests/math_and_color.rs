use raytracer::{clamp, max, min, Color, V3, UNIT};

fn v(x: i64, y: i64, z: i64) -> V3 {
    V3 { x, y, z }
}

#[test]
fn min_of_three() {
    assert_eq!(min(3, 1, 2), 1);
    assert_eq!(min(-4, 7, -4), -4);
    assert_eq!(min(5, 5, 5), 5);
}

#[test]
fn max_of_three() {
    assert_eq!(max(3, 1, 2), 3);
    assert_eq!(max(-4, -7, -5), -4);
    assert_eq!(max(2, 9, 9), 9);
}

#[test]
fn clamp_holds_value_in_range() {
    assert_eq!(clamp(5, 0, 10), 5);
    assert_eq!(clamp(-3, 0, 10), 0);
    assert_eq!(clamp(12, 0, 10), 10);
}

#[test]
fn vector_add_subtract_multiply() {
    let a = v(1, 2, 3);
    let b = v(10, 20, 30);
    assert_eq!(a.add(&b), v(11, 22, 33));
    assert_eq!(a.subtract(&b), v(-9, -18, -27));
    assert_eq!(a.multiply(-2), v(-2, -4, -6));
}

#[test]
fn vector_dot_and_cross() {
    let a = v(1, 2, 3);
    let b = v(4, 5, 6);
    assert_eq!(a.dot(&b), 32);
    assert_eq!(a.cross(&b), v(-3, 6, -3));
    assert_eq!(v(1, 0, 0).cross(&v(0, 1, 0)), v(0, 0, 1));
}

#[test]
fn vector_length_rounds_down() {
    assert_eq!(v(3, 4, 0).length(), 5);
    assert_eq!(v(1, 1, 1).length(), 1);
    assert_eq!(v(0, 0, 0).length(), 0);
}

#[test]
fn normalize_scales_to_unit() {
    assert_eq!(v(3, 4, 0).normalize(), v(600_000, 800_000, 0));
    assert_eq!(v(0, 0, -7).normalize(), v(0, 0, -UNIT));
}

#[test]
fn normalize_twice_keeps_unit_length() {
    for start in [v(3, 4, 0), v(0, -9, 0), v(8, 0, 6), v(-36, 48, 0)] {
        let once = start.normalize();
        let twice = once.normalize();
        assert_eq!(once.length(), UNIT);
        assert_eq!(twice.length(), UNIT);
        assert_eq!(twice, once);
    }
}

#[test]
fn normalize_second_application_changes_nothing() {
    for start in [v(5, 0, 12), v(2, 3, 6), v(-7, 2, 9), v(300, 200, 100), v(1, 1, 1)] {
        let once = start.normalize();
        assert_eq!(once.normalize(), once);
        let len = once.length();
        assert!(UNIT - 2 <= len && len <= UNIT);
    }
    assert_eq!(v(5, 0, 12).normalize(), v(384_615, 0, 923_076));
    assert_eq!(v(1, 1, 1).normalize(), v(577_350, 577_350, 577_350));
}

#[test]
fn vector_lerp() {
    let a = v(0, 10, -10);
    let b = v(100, 20, 10);
    assert_eq!(a.lerp(&b, 1, 2), v(50, 15, 0));
    assert_eq!(a.lerp(&b, 0, 1), a);
    assert_eq!(a.lerp(&b, 1, 1), b);
    assert_eq!(a.lerp(&b, 2, 1), v(200, 30, 30));
}

#[test]
fn color_add_subtract_multiply() {
    let a = Color { r: 10 * UNIT, g: 20 * UNIT, b: 30 * UNIT };
    let b = Color { r: UNIT, g: 2 * UNIT, b: 3 * UNIT };
    assert_eq!(a.add(&b), Color { r: 11 * UNIT, g: 22 * UNIT, b: 33 * UNIT });
    assert_eq!(a.subtract(&b), Color { r: 9 * UNIT, g: 18 * UNIT, b: 27 * UNIT });
    assert_eq!(a.multiply(UNIT / 2), Color { r: 5 * UNIT, g: 10 * UNIT, b: 15 * UNIT });
}

#[test]
fn relative_multiply_treats_surface_as_reflectance() {
    let surface = Color { r: 255 * UNIT, g: 0, b: 51 * UNIT };
    let light = Color { r: 100 * UNIT, g: 100 * UNIT, b: 100 * UNIT };
    assert_eq!(
        surface.relative_element_wise_multiply(&light),
        Color { r: 100 * UNIT, g: 0, b: 20 * UNIT }
    );
}

#[test]
fn color_lerp_toward_black() {
    let c = Color { r: 200 * UNIT, g: 100 * UNIT, b: 0 };
    let black = Color { r: 0, g: 0, b: 0 };
    assert_eq!(c.lerp(&black, 1, 4), Color { r: 150 * UNIT, g: 75 * UNIT, b: 0 });
    assert_eq!(c.lerp(&black, 1, 1), black);
    assert_eq!(c.lerp(&black, 0, 1), c);
}
