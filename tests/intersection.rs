use raytracer::{points_are_on_same_side_of_ray, Color, Ray, Sphere, Triangle, COORD_MAX, V3, UNIT};

fn v(x: i64, y: i64, z: i64) -> V3 {
    V3 { x, y, z }
}

const RED: Color = Color { r: 255 * UNIT, g: 0, b: 0 };

fn triangle() -> Triangle {
    Triangle { p1: v(0, 0, 1000), p2: v(1000, 0, 1000), p3: v(0, 1000, 1000), color: RED }
}

#[test]
fn sphere_head_on_hit_distance_and_normal() {
    let s = Sphere { center: v(0, 0, 100_000), radius: 5000, color: RED };
    let ray = Ray { origin: v(0, 0, 0), direction: v(0, 0, UNIT) };
    let hit = s.intersect(&ray).expect("the ray points at the center");
    assert_eq!(hit.distance, 95_000);
    assert_eq!(hit.point, v(0, 0, 95_000));
    assert_eq!(hit.surface_normal, v(0, 0, -UNIT));
    assert_eq!(hit.material_color, RED);
}

#[test]
fn sphere_head_on_hit_off_axis_origin() {
    let s = Sphere { center: v(300, -200, 50_000), radius: 1000, color: RED };
    let ray = Ray { origin: v(300, -200, 10_000), direction: v(0, 0, 7) };
    let hit = s.intersect(&ray).unwrap();
    assert_eq!(hit.distance, 39_000);
    assert_eq!(hit.surface_normal, v(0, 0, -UNIT));
}

#[test]
fn sphere_missed() {
    let s = Sphere { center: v(0, 0, 100_000), radius: 5000, color: RED };
    let ray = Ray { origin: v(0, 0, 0), direction: v(UNIT, 0, 0) };
    assert!(s.intersect(&ray).is_none());
    let aside = Ray { origin: v(10_000, 0, 0), direction: v(0, 0, UNIT) };
    assert!(s.intersect(&aside).is_none());
}

#[test]
fn sphere_behind_origin_still_reported() {
    let s = Sphere { center: v(0, 0, -100_000), radius: 5000, color: RED };
    let ray = Ray { origin: v(0, 0, 0), direction: v(0, 0, UNIT) };
    let hit = s.intersect(&ray).unwrap();
    assert_eq!(hit.point, v(0, 0, -105_000));
    assert_eq!(hit.distance, 105_000);
}

#[test]
fn triangle_hit_inside() {
    let ray = Ray { origin: v(100, 100, 0), direction: v(0, 0, UNIT) };
    let hit = triangle().intersect(&ray).unwrap();
    assert_eq!(hit.point, v(100, 100, 1000));
    assert_eq!(hit.distance, 1000);
    assert_eq!(hit.surface_normal, v(0, 0, UNIT));
    assert_eq!(hit.material_color, RED);
}

#[test]
fn triangle_hit_same_under_cyclic_relabeling() {
    let t = triangle();
    let rotated = Triangle { p1: t.p2, p2: t.p3, p3: t.p1, color: t.color };
    let rotated_twice = Triangle { p1: t.p3, p2: t.p1, p3: t.p2, color: t.color };
    for ray in [
        Ray { origin: v(100, 100, 0), direction: v(0, 0, UNIT) },
        Ray { origin: v(900, 900, 0), direction: v(0, 0, UNIT) },
        Ray { origin: v(-500, 200, 0), direction: v(1000, 0, 2000) },
    ] {
        assert_eq!(rotated.intersect(&ray), t.intersect(&ray));
        assert_eq!(rotated_twice.intersect(&ray), t.intersect(&ray));
    }
}

#[test]
fn triangle_swap_flips_normal() {
    let t = triangle();
    let swapped = Triangle { p1: t.p2, p2: t.p1, p3: t.p3, color: t.color };
    let ray = Ray { origin: v(100, 100, 0), direction: v(0, 0, UNIT) };
    let hit = t.intersect(&ray).unwrap();
    let flipped = swapped.intersect(&ray).unwrap();
    assert_eq!(flipped.point, hit.point);
    assert_eq!(flipped.distance, hit.distance);
    assert_eq!(flipped.surface_normal, v(0, 0, -UNIT));
    let miss = Ray { origin: v(900, 900, 0), direction: v(0, 0, UNIT) };
    assert!(swapped.intersect(&miss).is_none());
}

#[test]
fn triangle_parallel_ray_misses() {
    let in_plane = Ray { origin: v(100, 100, 1000), direction: v(UNIT, 0, 0) };
    assert!(triangle().intersect(&in_plane).is_none());
    let beside = Ray { origin: v(100, 100, 0), direction: v(0, UNIT, 0) };
    assert!(triangle().intersect(&beside).is_none());
}

#[test]
fn triangle_behind_or_outside_misses() {
    let away = Ray { origin: v(100, 100, 0), direction: v(0, 0, -UNIT) };
    assert!(triangle().intersect(&away).is_none());
    let outside = Ray { origin: v(900, 900, 0), direction: v(0, 0, UNIT) };
    assert!(triangle().intersect(&outside).is_none());
    let out_of_box = Ray { origin: v(2000, 100, 0), direction: v(0, 0, UNIT) };
    assert!(triangle().intersect(&out_of_box).is_none());
}

#[test]
fn same_side_of_line() {
    let s = v(0, 0, 0);
    let e = v(10, 0, 0);
    assert!(points_are_on_same_side_of_ray(&v(3, 4, 0), &v(7, 1, 0), &s, &e));
    assert!(!points_are_on_same_side_of_ray(&v(3, 4, 0), &v(7, -1, 0), &s, &e));
    assert!(!points_are_on_same_side_of_ray(&v(3, 0, 0), &v(7, 1, 0), &s, &e));
}

#[test]
fn sphere_hit_past_the_coordinate_range() {
    let s = Sphere { center: v(COORD_MAX, 0, 100), radius: 70, color: RED };
    let ray = Ray { origin: v(COORD_MAX - 10, 0, 0), direction: v(707_107, 0, 707_107) };
    let hit = s.intersect(&ray).expect("the discriminant is positive");
    assert!(hit.point.x > COORD_MAX);
    assert!(hit.point.z > 0);
}

#[test]
fn sphere_from_center_takes_root_behind() {
    let s = Sphere { center: v(COORD_MAX, 0, 0), radius: 5000, color: RED };
    let ray = Ray { origin: v(COORD_MAX, 0, 0), direction: v(-UNIT, 0, 0) };
    let hit = s.intersect(&ray).expect("the origin lies inside the sphere");
    assert_eq!(hit.point, v(COORD_MAX + 5000, 0, 0));
    assert_eq!(hit.distance, 5000);
    assert_eq!(hit.surface_normal, v(UNIT, 0, 0));
}

#[test]
fn sphere_tiny_radius_still_hit() {
    let s = Sphere { center: v(0, 0, 10), radius: 1, color: RED };
    for k in 1..=5 {
        let ray = Ray { origin: v(0, 0, 0), direction: v(0, 0, k) };
        let hit = s.intersect(&ray).unwrap();
        assert_eq!(hit.surface_normal, v(0, 0, -UNIT));
    }
}
