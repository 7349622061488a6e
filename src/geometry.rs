use vstd::prelude::*;
use crate::color::{color_bounded, Color, SCENE_CHANNEL_MAX};
use crate::math::{
    bounded, cross_v, UNIT, diff, dot3, is_zero, isqrt, lemma_dot_bound, lemma_mul_bound,
    lemma_quot_bound, lemma_quot_le, length_spec, sqrt_floor, direction, direction_of, max, min, quot, quot_i128, unit, V3,
};

verus! {

/// The largest coordinate magnitude of a point of the scene.
pub const COORD_MAX: i64 = 0x10_0000;

/// The largest coordinate magnitude of a hit point. A sphere's hit may lie outside the
/// scene's range: the root taken can lie behind the ray's origin.
pub const HIT_MAX: i64 = 0x4_0000_0000_0000;

/// A point that lies inside the scene's coordinate range.
pub open spec fn in_world(v: V3) -> bool {
    bounded(v, COORD_MAX as int)
}

/// A half-line from `origin` along `direction`.
#[derive(Clone, Copy, Debug, PartialEq, Eq, Structural)]
pub struct Ray {
    pub origin: V3,
    pub direction: V3,
}

#[derive(Clone, Copy, Debug, PartialEq, Eq, Structural)]
pub struct Sphere {
    pub center: V3,
    pub radius: i64,
    pub color: Color,
}

#[derive(Clone, Copy, Debug, PartialEq, Eq, Structural)]
pub struct Triangle {
    pub p1: V3,
    pub p2: V3,
    pub p3: V3,
    pub color: Color,
}

/// Where a ray met a surface: the point, the surface's color, the distance from the ray's
/// origin (rounded down) and the unit normal there.
#[derive(Clone, Copy, Debug, PartialEq, Eq, Structural)]
pub struct Hit {
    pub point: V3,
    pub material_color: Color,
    pub distance: i64,
    pub surface_normal: V3,
}

impl Ray {
    pub open spec fn wf(&self) -> bool {
        in_world(self.origin) && in_world(self.direction)
    }
}

impl Hit {
    pub open spec fn wf(&self) -> bool {
        bounded(self.point, HIT_MAX as int) && color_bounded(self.material_color, SCENE_CHANNEL_MAX as int)
            && bounded(self.surface_normal, UNIT as int) && 0 <= self.distance < 0x4000_0000_0000_0000
    }
}

impl Sphere {
    pub open spec fn wf(&self) -> bool {
        in_world(self.center) && 0 < self.radius <= COORD_MAX
            && color_bounded(self.color, SCENE_CHANNEL_MAX as int)
    }
}

impl Triangle {
    pub open spec fn wf(&self) -> bool {
        in_world(self.p1) && in_world(self.p2) && in_world(self.p3)
            && color_bounded(self.color, SCENE_CHANNEL_MAX as int)
    }
}

/// One coordinate of the point at parameter `num / den` along a ray, rounded toward zero.
pub open spec fn advance(o: int, d: int, num: int, den: int) -> int {
    o + quot(d * num, den)
}

/// The point at parameter `num / den` along `ray`.
pub open spec fn point_along(ray: Ray, num: int, den: int) -> V3 {
    V3 {
        x: advance(ray.origin.x as int, ray.direction.x as int, num, den) as i64,
        y: advance(ray.origin.y as int, ray.direction.y as int, num, den) as i64,
        z: advance(ray.origin.z as int, ray.direction.z as int, num, den) as i64,
    }
}

/// The hit record for a hit at `point` on a surface of color `color` with normal `normal`.
pub open spec fn hit_at(ray: Ray, point: V3, color: Color, normal: V3) -> Hit {
    Hit {
        point,
        material_color: color,
        distance: length_spec(diff(point, ray.origin)) as i64,
        surface_normal: unit(normal),
    }
}

/// Quadratic coefficients of `|origin + t * direction - center|^2 = radius^2`.
pub open spec fn sphere_a(s: Sphere, ray: Ray) -> int {
    dot3(ray.direction, ray.direction)
}

pub open spec fn sphere_b(s: Sphere, ray: Ray) -> int {
    2 * dot3(diff(ray.origin, s.center), ray.direction)
}

pub open spec fn sphere_c(s: Sphere, ray: Ray) -> int {
    dot3(diff(ray.origin, s.center), diff(ray.origin, s.center)) - s.radius * s.radius
}

pub open spec fn sphere_discriminant(s: Sphere, ray: Ray) -> int {
    sphere_b(s, ray) * sphere_b(s, ray) - 4 * (sphere_a(s, ray) * sphere_c(s, ray))
}

/// The offset from the center to the point at parameter `num / den` along `ray`, times `den`;
/// exact, with no rounding.
pub open spec fn center_offset(s: Sphere, ray: Ray, num: int, den: int, axis: int) -> int {
    let oc = diff(ray.origin, s.center);
    let d = ray.direction;
    if axis == 0 {
        oc.x * den + d.x * num
    } else if axis == 1 {
        oc.y * den + d.y * num
    } else {
        oc.z * den + d.z * num
    }
}

pub open spec fn max_abs3(x: int, y: int, z: int) -> int {
    let ax = if x >= 0 { x } else { -x };
    let ay = if y >= 0 { y } else { -y };
    let az = if z >= 0 { z } else { -z };
    if ax >= ay && ax >= az { ax } else if ay >= az { ay } else { az }
}

/// The divisor that brings the largest magnitude of `(x, y, z)` under `2^41`.
pub open spec fn reduce_divisor(x: int, y: int, z: int) -> int {
    let g = max_abs3(x, y, z) / 0x100_0000_0000;
    if g < 1 { 1 } else { g }
}

/// `(x, y, z)` scaled down to at most `2^41` in magnitude, keeping its direction up to
/// rounding.
pub open spec fn reduced(x: int, y: int, z: int) -> V3 {
    let g = reduce_divisor(x, y, z);
    V3 { x: quot(x, g) as i64, y: quot(y, g) as i64, z: quot(z, g) as i64 }
}

/// The hit of `ray` on sphere `s`. The root taken is the smaller one, `(-b - sqrt(disc)) / 2a`
/// with the square root rounded down, even where it lies behind the ray's origin. Only a zero
/// direction or a negative discriminant gives no hit. The normal is taken from the exact
/// offset of that point from the center.
pub open spec fn sphere_hit(s: Sphere, ray: Ray) -> Option<Hit> {
    let a = sphere_a(s, ray);
    let disc = sphere_discriminant(s, ray);
    if a == 0 || disc < 0 {
        None
    } else {
        let num = -sphere_b(s, ray) - sqrt_floor(disc);
        let den = 2 * a;
        let point = point_along(ray, num, den);
        Some(Hit {
            point,
            material_color: s.color,
            distance: length_spec(diff(point, ray.origin)) as i64,
            surface_normal: direction(reduced(
                center_offset(s, ray, num, den, 0),
                center_offset(s, ray, num, den, 1),
                center_offset(s, ray, num, den, 2),
            )),
        })
    }
}

/// `q1` and `q2` lie strictly on the same side of the line through `s` and `e`.
pub open spec fn same_side(q1: V3, q2: V3, s: V3, e: V3) -> bool {
    let edge = diff(s, e);
    dot3(cross_v(edge, diff(q1, e)), cross_v(edge, diff(q2, e))) > 0
}

/// `v` lies within the span of `a`, `b` and `c`.
pub open spec fn within(v: int, a: int, b: int, c: int) -> bool {
    !(v < a && v < b && v < c) && !(v > a && v > b && v > c)
}

/// The normal of the triangle's plane, `(p2 - p1) × (p3 - p1)`.
pub open spec fn triangle_normal(t: Triangle) -> V3 {
    cross_v(diff(t.p2, t.p1), diff(t.p3, t.p1))
}

/// The ray parameter of the plane crossing is `plane_num / plane_den`.
pub open spec fn plane_num(t: Triangle, ray: Ray) -> int {
    dot3(triangle_normal(t), t.p1) - dot3(triangle_normal(t), ray.origin)
}

pub open spec fn plane_den(t: Triangle, ray: Ray) -> int {
    dot3(triangle_normal(t), ray.direction)
}

/// The hit of `ray` on triangle `t`: the ray meets the plane at a parameter `>= 0`, the point
/// (rounded toward the origin) lies in the triangle's bounding box, and on the inner side of
/// each of the three edges. A ray parallel to the plane never hits.
pub open spec fn triangle_hit(t: Triangle, ray: Ray) -> Option<Hit> {
    let den0 = plane_den(t, ray);
    let num0 = plane_num(t, ray);
    let num = if den0 < 0 { -num0 } else { num0 };
    let den = if den0 < 0 { -den0 } else { den0 };
    let xi = advance(ray.origin.x as int, ray.direction.x as int, num, den);
    let yi = advance(ray.origin.y as int, ray.direction.y as int, num, den);
    let zi = advance(ray.origin.z as int, ray.direction.z as int, num, den);
    let point = point_along(ray, num, den);
    if den0 == 0 || num < 0 {
        None
    } else if !within(xi, t.p1.x as int, t.p2.x as int, t.p3.x as int)
        || !within(yi, t.p1.y as int, t.p2.y as int, t.p3.y as int)
        || !within(zi, t.p1.z as int, t.p2.z as int, t.p3.z as int) {
        None
    } else if !same_side(point, t.p1, t.p2, t.p3) || !same_side(point, t.p2, t.p3, t.p1)
        || !same_side(point, t.p3, t.p1, t.p2) {
        None
    } else {
        Some(hit_at(ray, point, t.color, triangle_normal(t)))
    }
}

pub proof fn lemma_cross_bound(a: V3, b: V3, m: int)
    requires
        bounded(a, m),
        bounded(b, m),
    ensures
        -2 * (m * m) <= crate::math::cross_x(a, b) <= 2 * (m * m),
        -2 * (m * m) <= crate::math::cross_y(a, b) <= 2 * (m * m),
        -2 * (m * m) <= crate::math::cross_z(a, b) <= 2 * (m * m),
{
    lemma_mul_bound(a.y as int, b.z as int, m, m);
    lemma_mul_bound(a.z as int, b.y as int, m, m);
    lemma_mul_bound(a.z as int, b.x as int, m, m);
    lemma_mul_bound(a.x as int, b.z as int, m, m);
    lemma_mul_bound(a.x as int, b.y as int, m, m);
    lemma_mul_bound(a.y as int, b.x as int, m, m);
}

/// One coordinate of the point at parameter `num / den` along a ray.
fn advance_exec(o: i64, d: i64, num: i128, den: i128) -> (r: i128)
    requires
        -COORD_MAX <= o <= COORD_MAX,
        -COORD_MAX <= d <= COORD_MAX,
        -0x10_0000_0000_0000_0000_0000_0000 <= num <= 0x10_0000_0000_0000_0000_0000_0000,
        den > 0,
    ensures
        r == advance(o as int, d as int, num as int, den as int),
        -COORD_MAX - 0x100_0000_0000_0000_0000_0000_0000_0000 <= r <= COORD_MAX + 0x100_0000_0000_0000_0000_0000_0000_0000,
{
    proof {
        lemma_mul_bound(d as int, num as int, COORD_MAX as int, 0x10_0000_0000_0000_0000_0000_0000);
    }
    let p = d as i128 * num;
    proof {
        lemma_quot_bound(p as int, den as int);
    }
    o as i128 + quot_i128(p, den)
}

/// Whether `point_to_test_1` and `point_to_test_2` lie strictly on the same side of the line
/// through `line_start_point` and `line_end_point`.
pub fn points_are_on_same_side_of_ray(
    point_to_test_1: &V3,
    point_to_test_2: &V3,
    line_start_point: &V3,
    line_end_point: &V3,
) -> (r: bool)
    requires
        in_world(*point_to_test_1),
        in_world(*point_to_test_2),
        in_world(*line_start_point),
        in_world(*line_end_point),
    ensures
        r == same_side(*point_to_test_1, *point_to_test_2, *line_start_point, *line_end_point),
{
    let boundary_vec = line_start_point.subtract(line_end_point);
    let point_1_vec = boundary_vec.cross(&point_to_test_1.subtract(line_end_point));
    let point_2_vec = boundary_vec.cross(&point_to_test_2.subtract(line_end_point));
    proof {
        let m = 2 * COORD_MAX as int;
        lemma_cross_bound(boundary_vec, diff(*point_to_test_1, *line_end_point), m);
        lemma_cross_bound(boundary_vec, diff(*point_to_test_2, *line_end_point), m);
    }
    let c = point_1_vec.dot(&point_2_vec);
    c > 0
}

impl Sphere {
    /// The hit of `ray` on this sphere, if any.
    pub fn intersect(&self, ray: &Ray) -> (r: Option<Hit>)
        requires
            self.wf(),
            ray.wf(),
        ensures
            r == sphere_hit(*self, *ray),
            r matches Some(h) ==> h.wf(),
            r is Some <==> (!is_zero(ray.direction) && sphere_discriminant(*self, *ray) >= 0),
    {
        let origin_to_center = ray.origin.subtract(&self.center);
        proof {
            let m = COORD_MAX as int;
            lemma_dot_bound(ray.direction, ray.direction, m, m);
            lemma_dot_bound(origin_to_center, ray.direction, 2 * m, m);
            lemma_dot_bound(origin_to_center, origin_to_center, 2 * m, 2 * m);
            lemma_mul_bound(self.radius as int, self.radius as int, m, m);
        }
        let a = ray.direction.dot(&ray.direction);
        let b = 2 * origin_to_center.dot(&ray.direction);
        let rr = self.radius as i128 * self.radius as i128;
        let c = origin_to_center.dot(&origin_to_center) - rr;
        proof {
            let m = COORD_MAX as int;
            crate::math::lemma_dot_self_nonneg(ray.direction);
            lemma_mul_bound(b as int, b as int, 12 * (m * m), 12 * (m * m));
            lemma_mul_bound(a as int, c as int, 3 * (m * m), 13 * (m * m));
        }
        let discriminant = b * b - 4 * (a * c);
        proof {
            lemma_square_sum_zero(ray.direction);
        }
        if a == 0 || discriminant < 0 {
            return None;
        }
        proof {
            let m = COORD_MAX as int;
            assert(discriminant <= (12 * (m * m)) * (12 * (m * m)) + 4 * ((3 * (m * m)) * (13 * (m * m))));
        }
        let root = isqrt(discriminant as u128) as i128;
        proof {
            let m = COORD_MAX as int;
            let bnd: int = 0x1_0000_0000_0000;
            if root > bnd {
                assert(root * root > bnd * bnd) by (nonlinear_arith)
                    requires root > bnd, bnd > 0;
            }
        }
        let num = -b - root;
        let den = 2 * a;
        proof {
            lemma_component_le_square_sum(ray.direction);
            let k: int = if num >= 0 { num as int } else { -num };
            let di = den as int;
            lemma_mul_bound(ray.direction.x as int, num as int, di, k);
            lemma_mul_bound(ray.direction.y as int, num as int, di, k);
            lemma_mul_bound(ray.direction.z as int, num as int, di, k);
            assert(di * k == k * di) by (nonlinear_arith);
            lemma_quot_le(ray.direction.x * num, di, k);
            lemma_quot_le(ray.direction.y * num, di, k);
            lemma_quot_le(ray.direction.z * num, di, k);
        }
        let point = V3 {
            x: advance_exec(ray.origin.x, ray.direction.x, num, den) as i64,
            y: advance_exec(ray.origin.y, ray.direction.y, num, den) as i64,
            z: advance_exec(ray.origin.z, ray.direction.z, num, den) as i64,
        };
        let oc = origin_to_center;
        proof {
            let m = COORD_MAX as int;
            let nb: int = 0x2_0000_0000_0000;
            assert(-nb <= num <= nb);
            assert(0 < den <= 6 * (m * m));
            lemma_mul_bound(oc.x as int, den as int, 2 * m, 6 * (m * m));
            lemma_mul_bound(oc.y as int, den as int, 2 * m, 6 * (m * m));
            lemma_mul_bound(oc.z as int, den as int, 2 * m, 6 * (m * m));
            lemma_mul_bound(ray.direction.x as int, num as int, m, nb);
            lemma_mul_bound(ray.direction.y as int, num as int, m, nb);
            lemma_mul_bound(ray.direction.z as int, num as int, m, nb);
        }
        let offset_x = oc.x as i128 * den + ray.direction.x as i128 * num;
        let offset_y = oc.y as i128 * den + ray.direction.y as i128 * num;
        let offset_z = oc.z as i128 * den + ray.direction.z as i128 * num;
        let normal = direction_of(&reduce_exec(offset_x, offset_y, offset_z));
        let distance = point.subtract(&ray.origin).length();
        Some(Hit { point, material_color: self.color, distance, surface_normal: normal })
    }
}

/// `d . d` is zero only for the zero vector.
proof fn lemma_square_sum_zero(d: V3)
    ensures
        dot3(d, d) == 0 <==> is_zero(d),
{
    let (x, y, z) = (d.x as int, d.y as int, d.z as int);
    assert(x * x >= 0 && y * y >= 0 && z * z >= 0) by (nonlinear_arith);
    if x != 0 {
        assert(x * x > 0) by (nonlinear_arith) requires x != 0;
    }
    if y != 0 {
        assert(y * y > 0) by (nonlinear_arith) requires y != 0;
    }
    if z != 0 {
        assert(z * z > 0) by (nonlinear_arith) requires z != 0;
    }
}

/// `|d.x|`, `|d.y|` and `|d.z|` never exceed `d . d`.
proof fn lemma_component_le_square_sum(d: V3)
    ensures
        -dot3(d, d) <= d.x <= dot3(d, d),
        -dot3(d, d) <= d.y <= dot3(d, d),
        -dot3(d, d) <= d.z <= dot3(d, d),
{
    let (x, y, z) = (d.x as int, d.y as int, d.z as int);
    assert(-(x * x) <= x <= x * x) by (nonlinear_arith);
    assert(-(y * y) <= y <= y * y) by (nonlinear_arith);
    assert(-(z * z) <= z <= z * z) by (nonlinear_arith);
    assert(x * x >= 0 && y * y >= 0 && z * z >= 0) by (nonlinear_arith);
}

/// The reduced vector stays within `2^41`.
pub proof fn lemma_reduced_bound(x: int, y: int, z: int)
    ensures
        reduce_divisor(x, y, z) >= 1,
        -0x200_0000_0000 <= quot(x, reduce_divisor(x, y, z)) <= 0x200_0000_0000,
        -0x200_0000_0000 <= quot(y, reduce_divisor(x, y, z)) <= 0x200_0000_0000,
        -0x200_0000_0000 <= quot(z, reduce_divisor(x, y, z)) <= 0x200_0000_0000,
{
    let k: int = 0x200_0000_0000;
    let mi = max_abs3(x, y, z);
    let gi = reduce_divisor(x, y, z);
    let g0 = mi / 0x100_0000_0000;
    if g0 < 1 {
        assert(mi < 0x100_0000_0000) by (nonlinear_arith)
            requires g0 == mi / 0x100_0000_0000, g0 < 1, mi >= 0;
        assert(mi < (gi + 1) * 0x100_0000_0000);
    } else {
        assert(mi < (gi + 1) * 0x100_0000_0000) by (nonlinear_arith)
            requires gi == mi / 0x100_0000_0000, mi >= 0;
    }
    assert(mi <= k * gi) by (nonlinear_arith)
        requires mi < (gi + 1) * 0x100_0000_0000, gi >= 1, k == 0x200_0000_0000;
    lemma_quot_le(x, gi, k);
    lemma_quot_le(y, gi, k);
    lemma_quot_le(z, gi, k);
}

/// `(x, y, z)` scaled down to at most `2^41` in magnitude.
#[verifier::rlimit(40)]
fn reduce_exec(x: i128, y: i128, z: i128) -> (r: V3)
    requires
        -0x1_0000_0000_0000_0000_0000_0000 <= x <= 0x1_0000_0000_0000_0000_0000_0000,
        -0x1_0000_0000_0000_0000_0000_0000 <= y <= 0x1_0000_0000_0000_0000_0000_0000,
        -0x1_0000_0000_0000_0000_0000_0000 <= z <= 0x1_0000_0000_0000_0000_0000_0000,
    ensures
        r == reduced(x as int, y as int, z as int),
        bounded(r, 0x200_0000_0000),
{
    let ax = if x >= 0 { x } else { -x };
    let ay = if y >= 0 { y } else { -y };
    let az = if z >= 0 { z } else { -z };
    let most = if ax >= ay && ax >= az { ax } else if ay >= az { ay } else { az };
    let g0 = most / 0x100_0000_0000;
    let g = if g0 < 1 { 1 } else { g0 };
    proof {
        assert(most as int == max_abs3(x as int, y as int, z as int));
        assert(g as int == reduce_divisor(x as int, y as int, z as int));
        lemma_reduced_bound(x as int, y as int, z as int);
    }
    V3 { x: quot_i128(x, g) as i64, y: quot_i128(y, g) as i64, z: quot_i128(z, g) as i64 }
}

impl Triangle {
    /// The hit of `ray` on this triangle, if any.
    pub fn intersect(&self, ray: &Ray) -> (r: Option<Hit>)
        requires
            self.wf(),
            ray.wf(),
        ensures
            r == triangle_hit(*self, *ray),
            r matches Some(h) ==> h.wf(),
    {
        let side1 = self.p2.subtract(&self.p1);
        let side2 = self.p3.subtract(&self.p1);
        let normal = side1.cross(&side2);
        proof {
            let m = COORD_MAX as int;
            lemma_cross_bound(side1, side2, 2 * m);
            lemma_dot_bound(normal, ray.direction, 8 * (m * m), m);
            lemma_dot_bound(normal, self.p1, 8 * (m * m), m);
            lemma_dot_bound(normal, ray.origin, 8 * (m * m), m);
        }
        let den0 = normal.dot(&ray.direction);
        let num0 = normal.dot(&self.p1) - normal.dot(&ray.origin);
        if den0 == 0 {
            return None;
        }
        let num = if den0 < 0 { -num0 } else { num0 };
        let den = if den0 < 0 { -den0 } else { den0 };
        if num < 0 {
            return None;
        }
        let x = advance_exec(ray.origin.x, ray.direction.x, num, den);
        let y = advance_exec(ray.origin.y, ray.direction.y, num, den);
        let z = advance_exec(ray.origin.z, ray.direction.z, num, den);
        if x < min(self.p1.x, self.p2.x, self.p3.x) as i128 {
            return None;
        }
        if x > max(self.p1.x, self.p2.x, self.p3.x) as i128 {
            return None;
        }
        if y < min(self.p1.y, self.p2.y, self.p3.y) as i128 {
            return None;
        }
        if y > max(self.p1.y, self.p2.y, self.p3.y) as i128 {
            return None;
        }
        if z < min(self.p1.z, self.p2.z, self.p3.z) as i128 {
            return None;
        }
        if z > max(self.p1.z, self.p2.z, self.p3.z) as i128 {
            return None;
        }
        let point = V3 { x: x as i64, y: y as i64, z: z as i64 };
        if !points_are_on_same_side_of_ray(&point, &self.p1, &self.p2, &self.p3) {
            return None;
        }
        if !points_are_on_same_side_of_ray(&point, &self.p2, &self.p3, &self.p1) {
            return None;
        }
        if !points_are_on_same_side_of_ray(&point, &self.p3, &self.p1, &self.p2) {
            return None;
        }
        proof {
            let m = COORD_MAX as int;
            assert((2 * m) * (2 * m) == 0x400_0000_0000) by (nonlinear_arith) requires m == COORD_MAX;
            let (nx, ny, nz) = (normal.x as int, normal.y as int, normal.z as int);
            let (dx, dy, dz) = (ray.direction.x as int, ray.direction.y as int, ray.direction.z as int);
            if is_zero(normal) {
                assert(nx * dx + ny * dy + nz * dz == 0) by (nonlinear_arith)
                    requires nx == 0, ny == 0, nz == 0;
            }
        }
        let distance = point.subtract(&ray.origin).length();
        Some(Hit {
            point,
            material_color: self.color,
            distance,
            surface_normal: normal.normalize(),
        })
    }
}

} // verus!
