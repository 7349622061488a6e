use vstd::prelude::*;
use crate::color::{black, blend_channel, color_bounded, Color, BLEND_MAX};
use crate::geometry::{in_world, plane_den, sphere_hit, triangle_hit, Hit, Ray, Sphere, Triangle};
use crate::geometry::{plane_num, same_side, triangle_normal, COORD_MAX};
use crate::math::{
    cross_v, cross_x, cross_y, cross_z, diff, dot3, is_sqrt_floor, lemma_sqrt_floor_unique,
    length_spec, quot, unit, V3, UNIT,
};
use crate::shading::{closest_hit, faded, lemma_no_hit_no_closest, object_hit, ray_color, Object, ShadingSettings};

verus! {

/// A ray parallel to a triangle's plane (the plane's normal is perpendicular to the ray's
/// direction) never hits the triangle.
pub proof fn lemma_parallel_ray_misses_triangle(t: Triangle, ray: Ray)
    requires
        plane_den(t, ray) == 0,
    ensures
        triangle_hit(t, ray) is None,
{
}

/// At the fade end, and beyond it, every color has faded to black.
pub proof fn lemma_fade_end_is_black(c: Color, distance: int, st: ShadingSettings)
    requires
        st.wf(),
        color_bounded(c, BLEND_MAX as int),
        distance >= st.fade_distance_end,
    ensures
        faded(c, distance, st) == black(),
{
    let span = st.fade_distance_end - st.fade_distance_start;
    lemma_blend_full_is_target(c.r as int, span);
    lemma_blend_full_is_target(c.g as int, span);
    lemma_blend_full_is_target(c.b as int, span);
}

proof fn lemma_blend_full_is_target(c: int, span: int)
    requires
        span > 0,
    ensures
        blend_channel(c, 0, span, span) == 0,
{
    let p = (0 - c) * span;
    if c <= 0 {
        assert(p / span == -c) by (nonlinear_arith) requires p == (0 - c) * span, span > 0;
        assert(quot(p, span) == -c);
    } else {
        assert(-p == c * span) by (nonlinear_arith) requires p == (0 - c) * span;
        assert((-p) / span == c) by (nonlinear_arith) requires -p == c * span, span > 0;
        assert(p < 0) by (nonlinear_arith) requires -p == c * span, span > 0, c > 0;
        assert(quot(p, span) == -c);
    }
}

/// Up to the fade start, the fade leaves a color exactly as it is.
pub proof fn lemma_no_fade_before_start(c: Color, distance: int, st: ShadingSettings)
    requires
        distance <= st.fade_distance_start,
    ensures
        faded(c, distance, st) == c,
{
}

/// A ray along `+z` from `origin` toward the center of a sphere `d` ahead, with `d` greater
/// than the radius, hits it at distance `d - radius`, with the normal pointing straight back
/// along the ray.
pub proof fn lemma_sphere_head_on_hit(s: Sphere, origin: V3, k: i64, d: int)
    requires
        s.wf(),
        in_world(origin),
        0 < k <= crate::geometry::COORD_MAX,
        s.radius < d <= crate::geometry::COORD_MAX,
        s.center == (V3 { x: origin.x, y: origin.y, z: (origin.z + d) as i64 }),
    ensures
        ({
            let ray = Ray { origin, direction: V3 { x: 0, y: 0, z: k } };
            &&& sphere_hit(s, ray) is Some
            &&& sphere_hit(s, ray)->Some_0.distance == d - s.radius
            &&& sphere_hit(s, ray)->Some_0.surface_normal == (V3 { x: 0, y: 0, z: -UNIT as i64 })
        }),
{
    let ray = Ray { origin, direction: V3 { x: 0, y: 0, z: k } };
    let r = s.radius as int;
    let kk = k as int;
    let a = crate::geometry::sphere_a(s, ray);
    let b = crate::geometry::sphere_b(s, ray);
    let c = crate::geometry::sphere_c(s, ray);
    let oc = crate::math::diff(ray.origin, s.center);
    assert(oc == (V3 { x: 0, y: 0, z: (0 - d) as i64 }));
    assert(dot3(oc, ray.direction) == (0 - d) * kk);
    assert(a == kk * kk);
    let dk = d * kk;
    let kr = kk * r;
    assert(b == -2 * dk) by (nonlinear_arith)
        requires b == 2 * ((0 - d) * kk), dk == d * kk;
    assert((0 - d) * (0 - d) == d * d) by (nonlinear_arith);
    assert(c == d * d - r * r);
    let disc = crate::geometry::sphere_discriminant(s, ray);
    assert(disc == (2 * kr) * (2 * kr)) by (nonlinear_arith)
        requires disc == b * b - 4 * (a * c), a == kk * kk, b == -2 * dk, c == d * d - r * r,
            dk == d * kk, kr == kk * r;
    assert(kr > 0) by (nonlinear_arith) requires kr == kk * r, kk > 0, r > 0;
    assert(is_sqrt_floor(disc, 2 * kr)) by (nonlinear_arith)
        requires disc == (2 * kr) * (2 * kr), kr > 0;
    lemma_sqrt_floor_unique(disc, 2 * kr);
    let num = -b - 2 * kr;
    let den = 2 * a;
    assert(num == 2 * dk - 2 * kr);
    assert(kk * num == (d - r) * den) by (nonlinear_arith)
        requires num == 2 * dk - 2 * kr, den == 2 * (kk * kk), dk == d * kk, kr == kk * r;
    assert(den > 0) by (nonlinear_arith) requires den == 2 * (kk * kk), kk > 0;
    assert((kk * num) / den == d - r) by (nonlinear_arith)
        requires kk * num == (d - r) * den, den > 0;
    assert(quot(kk * num, den) == d - r);
    assert(0 * num == 0);
    assert(quot(0 * num, den) == 0);
    let point = crate::geometry::point_along(ray, num, den);
    assert(point == (V3 { x: origin.x, y: origin.y, z: (origin.z + (d - r)) as i64 }));
    let dist = d - r;
    let back = crate::math::diff(point, ray.origin);
    assert(back == (V3 { x: 0, y: 0, z: dist as i64 }));
    assert(dot3(back, back) == dist * dist);
    assert(is_sqrt_floor(dist * dist, dist)) by (nonlinear_arith)
        requires dist > 0;
    lemma_sqrt_floor_unique(dist * dist, dist);
    // The exact offset of the hit from the center points straight back along the ray.
    let oz = crate::geometry::center_offset(s, ray, num, den, 2);
    assert(crate::geometry::center_offset(s, ray, num, den, 0) == 0);
    assert(crate::geometry::center_offset(s, ray, num, den, 1) == 0);
    assert(oz == (0 - d) * den + kk * num);
    assert(oz == -(den * r)) by (nonlinear_arith)
        requires oz == (0 - d) * den + kk * num, kk * num == (d - r) * den;
    let big = den * r;
    assert(big > 0) by (nonlinear_arith) requires den > 0, r > 0, big == den * r;
    assert(crate::geometry::max_abs3(0, 0, oz) == big);
    let g = crate::geometry::reduce_divisor(0, 0, oz);
    assert(1 <= g <= big) by (nonlinear_arith)
        requires g == (if big / 0x100_0000_0000 < 1 { 1 } else { big / 0x100_0000_0000 }), big > 0;
    let q = big / g;
    assert(1 <= q <= big) by (nonlinear_arith) requires q == big / g, 1 <= g <= big;
    assert(quot(oz, g) == -q);
    assert(quot(0, g) == 0);
    crate::geometry::lemma_reduced_bound(0, 0, oz);
    lemma_unit_of_backward_z(q);
}

/// The unit vector along `(0, 0, -q)` is `(0, 0, -UNIT)`.
proof fn lemma_unit_of_backward_z(q: int)
    requires
        0 < q <= 0x200_0000_0000,
    ensures
        crate::math::direction(V3 { x: 0, y: 0, z: (-q) as i64 }) == (V3 { x: 0, y: 0, z: -UNIT as i64 }),
{
    let v = V3 { x: 0, y: 0, z: (-q) as i64 };
    let u = UNIT as int;
    assert((-q) * (-q) == q * q) by (nonlinear_arith);
    assert(dot3(v, v) == q * q);
    let si = crate::math::norm_scale(v);
    assert(si == 1 || si == u);
    let qs = q * si;
    assert(q * q * si * si == qs * qs) by (nonlinear_arith) requires qs == q * si;
    assert(qs > 0) by (nonlinear_arith) requires qs == q * si, q > 0, si >= 1;
    assert(is_sqrt_floor(qs * qs, qs)) by (nonlinear_arith) requires qs > 0;
    lemma_sqrt_floor_unique(qs * qs, qs);
    assert(crate::math::scaled_length(v) == qs);
    assert((-q) * si * u == -(qs * u)) by (nonlinear_arith) requires qs == q * si;
    assert((qs * u) / qs == u) by (nonlinear_arith) requires qs > 0;
    assert(quot((-q) * si * u, qs) == -u);
    assert(0 * si * u == 0);
    assert(quot(0 * si * u, qs) == 0);
}

/// The cross product of two edges of a triangle, taken from any corner in turn, is the same.
proof fn lemma_normal_cyclic(a: V3, b: V3, c: V3)
    requires
        in_world(a),
        in_world(b),
        in_world(c),
    ensures
        cross_v(diff(c, b), diff(a, b)) == cross_v(diff(b, a), diff(c, a)),
        cross_v(diff(a, b), diff(c, b)) == (V3 {
            x: -cross_v(diff(b, a), diff(c, a)).x as i64,
            y: -cross_v(diff(b, a), diff(c, a)).y as i64,
            z: -cross_v(diff(b, a), diff(c, a)).z as i64,
        }),
{
    let (ax, ay, az) = (a.x as int, a.y as int, a.z as int);
    let (bx, by, bz) = (b.x as int, b.y as int, b.z as int);
    let (cx, cy, cz) = (c.x as int, c.y as int, c.z as int);
    assert((cy - by) * (az - bz) - (cz - bz) * (ay - by) == (by - ay) * (cz - az) - (bz - az) * (cy - ay))
        by (nonlinear_arith);
    assert((cz - bz) * (ax - bx) - (cx - bx) * (az - bz) == (bz - az) * (cx - ax) - (bx - ax) * (cz - az))
        by (nonlinear_arith);
    assert((cx - bx) * (ay - by) - (cy - by) * (ax - bx) == (bx - ax) * (cy - ay) - (by - ay) * (cx - ax))
        by (nonlinear_arith);
    let nx = (by - ay) * (cz - az) - (bz - az) * (cy - ay);
    let ny = (bz - az) * (cx - ax) - (bx - ax) * (cz - az);
    let nz = (bx - ax) * (cy - ay) - (by - ay) * (cx - ax);
    assert((ay - by) * (cz - bz) - (az - bz) * (cy - by) == -nx) by (nonlinear_arith)
        requires nx == (by - ay) * (cz - az) - (bz - az) * (cy - ay);
    assert((az - bz) * (cx - bx) - (ax - bx) * (cz - bz) == -ny) by (nonlinear_arith)
        requires ny == (bz - az) * (cx - ax) - (bx - ax) * (cz - az);
    assert((ax - bx) * (cy - by) - (ay - by) * (cx - bx) == -nz) by (nonlinear_arith)
        requires nz == (bx - ax) * (cy - ay) - (by - ay) * (cx - ax);
    assert(diff(a, b).x == ax - bx && diff(a, b).y == ay - by && diff(a, b).z == az - bz);
    assert(diff(c, b).x == cx - bx && diff(c, b).y == cy - by && diff(c, b).z == cz - bz);
    assert(diff(b, a).x == bx - ax && diff(b, a).y == by - ay && diff(b, a).z == bz - az);
    assert(diff(c, a).x == cx - ax && diff(c, a).y == cy - ay && diff(c, a).z == cz - az);
    assert(cross_x(diff(b, a), diff(c, a)) == nx);
    assert(cross_y(diff(b, a), diff(c, a)) == ny);
    assert(cross_z(diff(b, a), diff(c, a)) == nz);
    assert(cross_x(diff(a, b), diff(c, b)) == -nx);
    assert(cross_y(diff(a, b), diff(c, b)) == -ny);
    assert(cross_z(diff(a, b), diff(c, b)) == -nz);
    crate::geometry::lemma_cross_bound(diff(b, a), diff(c, a), 2 * COORD_MAX as int);
    crate::geometry::lemma_cross_bound(diff(a, b), diff(c, b), 2 * COORD_MAX as int);
    crate::geometry::lemma_cross_bound(diff(c, b), diff(a, b), 2 * COORD_MAX as int);
}

/// `(u × v) . u == 0`.
proof fn lemma_triple_product_zero(ux: int, uy: int, uz: int, vx: int, vy: int, vz: int)
    ensures
        (uy * vz - uz * vy) * ux + (uz * vx - ux * vz) * uy + (ux * vy - uy * vx) * uz == 0,
{
    assert((uy * vz - uz * vy) * ux + (uz * vx - ux * vz) * uy + (ux * vy - uy * vx) * uz == 0)
        by (nonlinear_arith);
}

/// Every corner of a triangle lies in its plane.
proof fn lemma_corners_in_plane(a: V3, b: V3, c: V3)
    requires
        in_world(a),
        in_world(b),
        in_world(c),
    ensures
        dot3(cross_v(diff(b, a), diff(c, a)), b) == dot3(cross_v(diff(b, a), diff(c, a)), a),
{
    let n = cross_v(diff(b, a), diff(c, a));
    crate::geometry::lemma_cross_bound(diff(b, a), diff(c, a), 2 * COORD_MAX as int);
    let (ax, ay, az) = (a.x as int, a.y as int, a.z as int);
    let (bx, by, bz) = (b.x as int, b.y as int, b.z as int);
    let (cx, cy, cz) = (c.x as int, c.y as int, c.z as int);
    let (ux, uy, uz) = (bx - ax, by - ay, bz - az);
    let (vx, vy, vz) = (cx - ax, cy - ay, cz - az);
    let nx = uy * vz - uz * vy;
    let ny = uz * vx - ux * vz;
    let nz = ux * vy - uy * vx;
    assert(diff(b, a).x == ux && diff(b, a).y == uy && diff(b, a).z == uz);
    assert(diff(c, a).x == vx && diff(c, a).y == vy && diff(c, a).z == vz);
    assert(cross_x(diff(b, a), diff(c, a)) == nx);
    assert(cross_y(diff(b, a), diff(c, a)) == ny);
    assert(cross_z(diff(b, a), diff(c, a)) == nz);
    assert((2 * COORD_MAX as int) * (2 * COORD_MAX as int) == 0x400_0000_0000) by (nonlinear_arith);
    assert(n.x == nx && n.y == ny && n.z == nz);
    lemma_triple_product_zero(ux, uy, uz, vx, vy, vz);
    assert(nx * bx + ny * by + nz * bz - (nx * ax + ny * ay + nz * az) == nx * ux + ny * uy + nz * uz)
        by (nonlinear_arith)
        requires ux == bx - ax, uy == by - ay, uz == bz - az;
}

/// Relabeling a triangle's corners in cyclic order, `(p2, p3, p1)`, changes none of its hits.
pub proof fn lemma_triangle_hit_cyclic(t: Triangle, ray: Ray)
    requires
        t.wf(),
        ray.wf(),
    ensures
        triangle_hit(Triangle { p1: t.p2, p2: t.p3, p3: t.p1, color: t.color }, ray)
            == triangle_hit(t, ray),
{
    let t2 = Triangle { p1: t.p2, p2: t.p3, p3: t.p1, color: t.color };
    lemma_normal_cyclic(t.p1, t.p2, t.p3);
    lemma_corners_in_plane(t.p1, t.p2, t.p3);
    assert(triangle_normal(t2) == triangle_normal(t));
    assert(plane_num(t2, ray) == plane_num(t, ray));
    assert(plane_den(t2, ray) == plane_den(t, ray));
}

proof fn lemma_cross_reverse(q: V3, s: V3, e: V3)
    requires
        in_world(q),
        in_world(s),
        in_world(e),
    ensures
        cross_v(diff(e, s), diff(q, s)).x == -cross_v(diff(s, e), diff(q, e)).x,
        cross_v(diff(e, s), diff(q, s)).y == -cross_v(diff(s, e), diff(q, e)).y,
        cross_v(diff(e, s), diff(q, s)).z == -cross_v(diff(s, e), diff(q, e)).z,
{
    let (qx, qy, qz) = (q.x as int, q.y as int, q.z as int);
    let (sx, sy, sz) = (s.x as int, s.y as int, s.z as int);
    let (ex, ey, ez) = (e.x as int, e.y as int, e.z as int);
    assert(diff(e, s).x == ex - sx && diff(e, s).y == ey - sy && diff(e, s).z == ez - sz);
    assert(diff(s, e).x == sx - ex && diff(s, e).y == sy - ey && diff(s, e).z == sz - ez);
    assert(diff(q, s).x == qx - sx && diff(q, s).y == qy - sy && diff(q, s).z == qz - sz);
    assert(diff(q, e).x == qx - ex && diff(q, e).y == qy - ey && diff(q, e).z == qz - ez);
    assert((ey - sy) * (qz - sz) - (ez - sz) * (qy - sy) == -((sy - ey) * (qz - ez) - (sz - ez) * (qy - ey)))
        by (nonlinear_arith);
    assert((ez - sz) * (qx - sx) - (ex - sx) * (qz - sz) == -((sz - ez) * (qx - ex) - (sx - ex) * (qz - ez)))
        by (nonlinear_arith);
    assert((ex - sx) * (qy - sy) - (ey - sy) * (qx - sx) == -((sx - ex) * (qy - ey) - (sy - ey) * (qx - ex)))
        by (nonlinear_arith);
    assert((2 * COORD_MAX as int) * (2 * COORD_MAX as int) == 0x400_0000_0000) by (nonlinear_arith);
    crate::geometry::lemma_cross_bound(diff(e, s), diff(q, s), 2 * COORD_MAX as int);
    crate::geometry::lemma_cross_bound(diff(s, e), diff(q, e), 2 * COORD_MAX as int);
}

/// Whether two points lie on the same side of a line does not depend on the direction in
/// which the line is taken.
proof fn lemma_same_side_reverse(q1: V3, q2: V3, s: V3, e: V3)
    requires
        in_world(q1),
        in_world(q2),
        in_world(s),
        in_world(e),
    ensures
        same_side(q1, q2, s, e) == same_side(q1, q2, e, s),
{
    lemma_cross_reverse(q1, s, e);
    lemma_cross_reverse(q2, s, e);
    let a1 = cross_v(diff(s, e), diff(q1, e));
    let a2 = cross_v(diff(s, e), diff(q2, e));
    let b1 = cross_v(diff(e, s), diff(q1, s));
    let b2 = cross_v(diff(e, s), diff(q2, s));
    let (x1, y1, z1) = (a1.x as int, a1.y as int, a1.z as int);
    let (x2, y2, z2) = (a2.x as int, a2.y as int, a2.z as int);
    assert((-x1) * (-x2) + (-y1) * (-y2) + (-z1) * (-z2) == x1 * x2 + y1 * y2 + z1 * z2)
        by (nonlinear_arith);
    assert(dot3(b1, b2) == dot3(a1, a2));
}

/// `v` with every component negated.
pub open spec fn negated(v: V3) -> V3 {
    V3 { x: -v.x as i64, y: -v.y as i64, z: -v.z as i64 }
}

proof fn lemma_quot_neg(a: int, b: int)
    requires
        b > 0,
    ensures
        quot(-a, b) == -quot(a, b),
{
    assert(0int / b == 0);
}

proof fn lemma_unit_negated(n: V3)
    requires
        crate::math::bounded(n, 0x800_0000_0000),
        !crate::math::is_zero(n),
    ensures
        unit(negated(n)) == negated(unit(n)),
{
    let m = negated(n);
    let (x, y, z) = (n.x as int, n.y as int, n.z as int);
    assert((-x) * (-x) + (-y) * (-y) + (-z) * (-z) == x * x + y * y + z * z) by (nonlinear_arith);
    assert(dot3(m, m) == dot3(n, n));
    let si = crate::math::norm_scale(n);
    let len = crate::math::scaled_length(n);
    assert(crate::math::norm_scale(m) == si);
    assert(crate::math::scaled_length(m) == len);
    let u = UNIT as int;
    assert((-x) * si * u == -(x * si * u)) by (nonlinear_arith);
    assert((-y) * si * u == -(y * si * u)) by (nonlinear_arith);
    assert((-z) * si * u == -(z * si * u)) by (nonlinear_arith);
    crate::math::lemma_scaled_components(n);
    lemma_quot_neg(x * si * u, len);
    lemma_quot_neg(y * si * u, len);
    lemma_quot_neg(z * si * u, len);
    crate::math::lemma_unit_component_bound(x * si, len);
    crate::math::lemma_unit_component_bound(y * si, len);
    crate::math::lemma_unit_component_bound(z * si, len);
}

/// Swapping two corners of a triangle, `(p2, p1, p3)`, reverses its winding: every hit stays
/// where it was, with the normal turned around.
pub proof fn lemma_triangle_hit_swapped(t: Triangle, ray: Ray)
    requires
        t.wf(),
        ray.wf(),
    ensures
        ({
            let swapped = triangle_hit(Triangle { p1: t.p2, p2: t.p1, p3: t.p3, color: t.color }, ray);
            let hit = triangle_hit(t, ray);
            &&& (swapped is Some <==> hit is Some)
            &&& hit is Some ==> swapped->Some_0 == (Hit {
                surface_normal: negated(hit->Some_0.surface_normal),
                ..hit->Some_0
            })
        }),
{
    let t2 = Triangle { p1: t.p2, p2: t.p1, p3: t.p3, color: t.color };
    let n = triangle_normal(t);
    lemma_normal_cyclic(t.p1, t.p2, t.p3);
    lemma_corners_in_plane(t.p1, t.p2, t.p3);
    assert(triangle_normal(t2) == negated(n));
    crate::geometry::lemma_cross_bound(diff(t.p2, t.p1), diff(t.p3, t.p1), 2 * COORD_MAX as int);
    assert((2 * COORD_MAX as int) * (2 * COORD_MAX as int) == 0x400_0000_0000) by (nonlinear_arith);
    let (x, y, z) = (n.x as int, n.y as int, n.z as int);
    let (dx, dy, dz) = (ray.direction.x as int, ray.direction.y as int, ray.direction.z as int);
    let (ox, oy, oz) = (ray.origin.x as int, ray.origin.y as int, ray.origin.z as int);
    let (px, py, pz) = (t.p2.x as int, t.p2.y as int, t.p2.z as int);
    assert((-x) * dx + (-y) * dy + (-z) * dz == -(x * dx + y * dy + z * dz)) by (nonlinear_arith);
    assert((-x) * ox + (-y) * oy + (-z) * oz == -(x * ox + y * oy + z * oz)) by (nonlinear_arith);
    assert((-x) * px + (-y) * py + (-z) * pz == -(x * px + y * py + z * pz)) by (nonlinear_arith);
    assert(plane_den(t2, ray) == -plane_den(t, ray));
    assert(plane_num(t2, ray) == -plane_num(t, ray));
    let den0 = plane_den(t, ray);
    let num0 = plane_num(t, ray);
    let num = if den0 < 0 { -num0 } else { num0 };
    let den = if den0 < 0 { -den0 } else { den0 };
    let point = crate::geometry::point_along(ray, num, den);
    if den0 != 0 {
        if crate::math::is_zero(n) {
            assert(x * dx + y * dy + z * dz == 0) by (nonlinear_arith)
                requires x == 0, y == 0, z == 0;
        }
        lemma_unit_negated(n);
    }
    if in_world(point) {
        lemma_same_side_reverse(point, t.p1, t.p2, t.p3);
        lemma_same_side_reverse(point, t.p2, t.p3, t.p1);
        lemma_same_side_reverse(point, t.p3, t.p1, t.p2);
    }
}

/// Facts on one component: `a = |w| * UNIT / len` rounded down, from either side.
proof fn lemma_component_rounding(w: int, len: int)
    requires
        len > 0,
        -len <= w <= len,
    ensures
        ({
            let a = if quot(w * UNIT, len) >= 0 { quot(w * UNIT, len) } else { -quot(w * UNIT, len) };
            let b = if w >= 0 { w } else { -w };
            &&& 0 <= a
            &&& a * len <= b * UNIT
            &&& b * UNIT < (a + 1) * len
            &&& quot(w * UNIT, len) * quot(w * UNIT, len) == a * a
        }),
{
    let u = UNIT as int;
    let b = if w >= 0 { w } else { -w };
    let p = b * u;
    assert(p >= 0) by (nonlinear_arith) requires b >= 0, u > 0, p == b * u;
    assert((p / len) * len <= p && p < (p / len + 1) * len) by (nonlinear_arith)
        requires p >= 0, len > 0;
    assert(p / len >= 0) by (nonlinear_arith) requires p >= 0, len > 0;
    let a = p / len;
    if w >= 0 {
        assert(w * u == p);
        assert(quot(w * UNIT, len) == a);
    } else {
        assert(w * u == -p) by (nonlinear_arith) requires b == -w, p == b * u;
        assert(quot(w * UNIT, len) == -a);
        assert((-a) * (-a) == a * a) by (nonlinear_arith);
    }
}

proof fn lemma_square_bounds(a: int, b: int, len: int, u: int)
    requires
        0 <= a,
        0 <= b,
        0 < len,
        0 < u,
        a * len <= b * u,
        b * u < (a + 1) * len,
    ensures
        (a * a) * (len * len) <= (b * b) * (u * u),
        (b * b) * (u * u) < ((a + 1) * (a + 1)) * (len * len),
{
    assert((a * len) * (a * len) <= (b * u) * (b * u)) by (nonlinear_arith)
        requires 0 <= a * len <= b * u;
    assert((b * u) * (b * u) < ((a + 1) * len) * ((a + 1) * len)) by (nonlinear_arith)
        requires 0 <= b * u < (a + 1) * len;
    assert((a * len) * (a * len) == (a * a) * (len * len)) by (nonlinear_arith);
    assert((b * u) * (b * u) == (b * b) * (u * u)) by (nonlinear_arith);
    assert(((a + 1) * len) * ((a + 1) * len) == ((a + 1) * (a + 1)) * (len * len)) by (nonlinear_arith);
}

/// A normalized vector has length 1 up to fixed-point rounding: its length, rounded down,
/// lies within `[UNIT - 2, UNIT + 1]`.
pub proof fn lemma_unit_length(v: V3)
    requires
        crate::math::bounded(v, 0x10_0000_0000_0000),
        !crate::math::is_zero(v),
    ensures
        UNIT - 2 <= length_spec(unit(v)) <= UNIT + 1,
{
    let u = UNIT as int;
    let si = crate::math::norm_scale(v);
    let len = crate::math::scaled_length(v);
    let n = dot3(v, v);
    let m = n * si * si;
    crate::math::lemma_scaled_components(v);
    crate::math::lemma_dot_self_nonneg(v);
    let (x, y, z) = (v.x as int, v.y as int, v.z as int);
    let (wx, wy, wz) = (x * si, y * si, z * si);
    // The scaled squared length is the sum of the squared scaled components.
    let s2 = si * si;
    assert(m == n * s2) by (nonlinear_arith) requires m == n * si * si, s2 == si * si;
    assert(wx * wx == (x * x) * s2) by (nonlinear_arith) requires wx == x * si, s2 == si * si;
    assert(wy * wy == (y * y) * s2) by (nonlinear_arith) requires wy == y * si, s2 == si * si;
    assert(wz * wz == (z * z) * s2) by (nonlinear_arith) requires wz == z * si, s2 == si * si;
    assert(n * s2 == (x * x) * s2 + (y * y) * s2 + (z * z) * s2) by (nonlinear_arith)
        requires n == x * x + y * y + z * z;
    assert(m == wx * wx + wy * wy + wz * wz);
    // The scaled length is at least UNIT.
    crate::math::lemma_sqrt_floor_exists(m);
    assert(n >= 1) by (nonlinear_arith)
        requires n == x * x + y * y + z * z, x != 0 || y != 0 || z != 0;
    if si == u {
        assert(m >= u * u) by (nonlinear_arith) requires m == n * s2, s2 == u * u, n >= 1, u > 0;
    } else {
        assert(m >= u * u) by (nonlinear_arith)
            requires m == n, n >= 0x1_0000_0000_0000_0000_0000, u == 1_000_000;
    }
    if len < u {
        assert((len + 1) * (len + 1) <= u * u) by (nonlinear_arith) requires 0 <= len, len + 1 <= u;
    }
    assert(len >= u);
    assert(len * len <= m && m < (len + 1) * (len + 1));
    // Each component of the unit vector, from above and below.
    lemma_component_rounding(wx, len);
    lemma_component_rounding(wy, len);
    lemma_component_rounding(wz, len);
    let qx = quot(wx * u, len);
    let qy = quot(wy * u, len);
    let qz = quot(wz * u, len);
    crate::math::lemma_unit_component_bound(wx, len);
    crate::math::lemma_unit_component_bound(wy, len);
    crate::math::lemma_unit_component_bound(wz, len);
    let uv = unit(v);
    assert(uv.x == qx && uv.y == qy && uv.z == qz);
    let ax = if qx >= 0 { qx } else { -qx };
    let ay = if qy >= 0 { qy } else { -qy };
    let az = if qz >= 0 { qz } else { -qz };
    let bx = if wx >= 0 { wx } else { -wx };
    let by = if wy >= 0 { wy } else { -wy };
    let bz = if wz >= 0 { wz } else { -wz };
    let sq = ax * ax + ay * ay + az * az;
    assert(dot3(uv, uv) == sq);
    assert(bx * bx + by * by + bz * bz == m) by (nonlinear_arith)
        requires
            m == wx * wx + wy * wy + wz * wz,
            bx == wx || bx == -wx, by == wy || by == -wy, bz == wz || bz == -wz;
    // From above: len^2 * sq <= UNIT^2 * m < UNIT^2 * (len + 1)^2 <= (UNIT + 2)^2 * len^2.
    assert(0 <= ax * len) by (nonlinear_arith) requires 0 <= ax, len > 0;
    lemma_square_bounds(ax, bx, len, u);
    lemma_square_bounds(ay, by, len, u);
    lemma_square_bounds(az, bz, len, u);
    let l2 = len * len;
    let u2 = u * u;
    assert(sq * l2 == (ax * ax) * l2 + (ay * ay) * l2 + (az * az) * l2) by (nonlinear_arith)
        requires sq == ax * ax + ay * ay + az * az;
    assert(m * u2 == (bx * bx) * u2 + (by * by) * u2 + (bz * bz) * u2) by (nonlinear_arith)
        requires m == bx * bx + by * by + bz * bz;
    assert(sq * l2 <= m * u2);
    assert(u2 * m < (u + 2) * (u + 2) * l2) by (nonlinear_arith)
        requires m < (len + 1) * (len + 1), len >= u, u > 0, u2 == u * u, l2 == len * len;
    assert(sq < (u + 2) * (u + 2)) by (nonlinear_arith)
        requires sq * l2 < (u + 2) * (u + 2) * l2, l2 > 0;
    // From below: UNIT^2 < sum of (a + 1)^2.
    let t = ax + ay + az;
    let e = (ax + 1) * (ax + 1) + (ay + 1) * (ay + 1) + (az + 1) * (az + 1);
    assert(e * l2 == ((ax + 1) * (ax + 1)) * l2 + ((ay + 1) * (ay + 1)) * l2 + ((az + 1) * (az + 1)) * l2)
        by (nonlinear_arith)
        requires e == (ax + 1) * (ax + 1) + (ay + 1) * (ay + 1) + (az + 1) * (az + 1);
    assert(m * u2 < e * l2);
    assert(u2 * l2 <= m * u2) by (nonlinear_arith) requires l2 <= m, u2 > 0;
    assert(u2 < e) by (nonlinear_arith) requires u2 * l2 < e * l2, l2 > 0;
    assert(e == sq + 2 * t + 3) by (nonlinear_arith)
        requires
            e == (ax + 1) * (ax + 1) + (ay + 1) * (ay + 1) + (az + 1) * (az + 1),
            sq == ax * ax + ay * ay + az * az, t == ax + ay + az;
    assert(t * t <= 3 * sq) by (nonlinear_arith)
        requires t == ax + ay + az, sq == ax * ax + ay * ay + az * az;
    if sq < (u - 2) * (u - 2) {
        assert(2 * t >= 4 * u - 6);
        assert(t * t >= (2 * u - 3) * (2 * u - 3)) by (nonlinear_arith)
            requires 2 * t >= 4 * u - 6, u > 2;
        assert(false) by (nonlinear_arith)
            requires t * t >= (2 * u - 3) * (2 * u - 3), t * t <= 3 * sq, sq < (u - 2) * (u - 2), u > 2;
    }
    // The rounded-down length of the unit vector.
    crate::math::lemma_dot_self_nonneg(uv);
    crate::math::lemma_sqrt_floor_exists(sq);
    let k = length_spec(uv);
    if k > u + 1 {
        assert((u + 2) * (u + 2) <= k * k) by (nonlinear_arith) requires k >= u + 2, u > 0;
    }
    if k < u - 2 {
        assert((k + 1) * (k + 1) <= (u - 2) * (u - 2)) by (nonlinear_arith) requires 0 <= k, k + 1 <= u - 2;
    }
}

/// Normalizing twice: the result still has length 1 up to fixed-point rounding, its length
/// rounded down lying within `[UNIT - 2, UNIT + 1]`.
pub proof fn lemma_normalize_twice(v: V3)
    requires
        crate::math::bounded(v, 0x10_0000_0000_0000),
        !crate::math::is_zero(v),
    ensures
        !crate::math::is_zero(unit(v)),
        UNIT - 2 <= length_spec(unit(unit(v))) <= UNIT + 1,
{
    lemma_unit_length(v);
    crate::math::lemma_scaled_components(v);
    let len = crate::math::scaled_length(v);
    let si = crate::math::norm_scale(v);
    crate::math::lemma_unit_component_bound(v.x * si, len);
    crate::math::lemma_unit_component_bound(v.y * si, len);
    crate::math::lemma_unit_component_bound(v.z * si, len);
    let uv = unit(v);
    if crate::math::is_zero(uv) {
        assert(dot3(uv, uv) == 0);
        assert(crate::math::sqrt_floor(0) == 0) by {
            assert(is_sqrt_floor(0, 0));
            lemma_sqrt_floor_unique(0, 0);
        }
    }
    lemma_unit_length(uv);
}

/// The ray's line passes farther than the radius from the sphere's center. With `oc` from the
/// center to the origin and `d` the direction: `|oc|^2 |d|^2 - (oc . d)^2 > r^2 |d|^2`, the
/// squared distance from the center to the line times `|d|^2`.
pub open spec fn line_misses_sphere(s: Sphere, ray: Ray) -> bool {
    let oc = diff(ray.origin, s.center);
    let d = ray.direction;
    dot3(oc, oc) * dot3(d, d) - dot3(oc, d) * dot3(oc, d) > (s.radius * s.radius) * dot3(d, d)
}

/// The point at parameter `num / den` along `ray`, as the library rounds it, lies in the
/// triangle's bounding box.
pub open spec fn in_triangle_box(t: Triangle, ray: Ray, num: int, den: int) -> bool {
    crate::geometry::within(
        crate::geometry::advance(ray.origin.x as int, ray.direction.x as int, num, den),
        t.p1.x as int, t.p2.x as int, t.p3.x as int,
    ) && crate::geometry::within(
        crate::geometry::advance(ray.origin.y as int, ray.direction.y as int, num, den),
        t.p1.y as int, t.p2.y as int, t.p3.y as int,
    ) && crate::geometry::within(
        crate::geometry::advance(ray.origin.z as int, ray.direction.z as int, num, den),
        t.p1.z as int, t.p2.z as int, t.p3.z as int,
    )
}

/// No point of the ray ahead of its origin lies in the triangle's bounding box.
pub open spec fn ray_misses_box(t: Triangle, ray: Ray) -> bool {
    forall|num: int, den: int| num >= 0 && den > 0 ==> !#[trigger] in_triangle_box(t, ray, num, den)
}

/// The ray passes outside the object's bounding volume; a light has none and is never hit.
pub open spec fn misses_bounding_volume(o: Object, ray: Ray) -> bool {
    match o {
        Object::SphereObject(s) => line_misses_sphere(s, ray),
        Object::TriangleObject(t) => ray_misses_box(t, ray),
        Object::LightObject(_) => true,
    }
}

proof fn lemma_missed_volume_no_hit(o: Object, ray: Ray)
    requires
        misses_bounding_volume(o, ray),
    ensures
        object_hit(o, ray) is None,
{
    match o {
        Object::SphereObject(s) => {
            let oc = diff(ray.origin, s.center);
            let d = ray.direction;
            let a = dot3(d, d);
            let p = dot3(oc, d);
            let q = dot3(oc, oc);
            let rr = s.radius * s.radius;
            let b = crate::geometry::sphere_b(s, ray);
            let disc = crate::geometry::sphere_discriminant(s, ray);
            assert(b == 2 * p);
            assert(disc == b * b - 4 * (a * (q - rr)));
            assert(disc < 0) by (nonlinear_arith)
                requires disc == b * b - 4 * (a * (q - rr)), b == 2 * p, q * a - p * p > rr * a;
        },
        Object::TriangleObject(t) => {
            let den0 = plane_den(t, ray);
            let num0 = plane_num(t, ray);
            let num = if den0 < 0 { -num0 } else { num0 };
            let den = if den0 < 0 { -den0 } else { den0 };
            if den0 != 0 && num >= 0 {
                assert(!in_triangle_box(t, ray, num, den));
            }
        },
        Object::LightObject(_) => {},
    }
}

/// A ray that passes outside every object's bounding volume (the sphere's ball, the triangle's
/// bounding box) sees black, whatever the lights and the color mode.
pub proof fn lemma_ray_outside_bounding_volumes_is_black(scene: Seq<Object>, ray: Ray, st: ShadingSettings)
    requires
        forall|i: int| 0 <= i < scene.len() ==> misses_bounding_volume(#[trigger] scene[i], ray),
    ensures
        ray_color(scene, ray, st) == crate::color::black(),
{
    assert forall|i: int| 0 <= i < scene.len() implies #[trigger] object_hit(scene[i], ray) is None by {
        lemma_missed_volume_no_hit(scene[i], ray);
    }
    lemma_no_hit_no_closest(scene, ray, scene.len() as int);
}

/// With the viewport's height derived exactly from the image's aspect ratio, its pixels are
/// square on every image size and viewport width.
pub proof fn lemma_viewport_pixels_square(w: int, h: int, vw: int)
    requires
        0 < w,
        0 < h,
        0 < vw,
    ensures
        crate::camera::pixels_are_square(w, h, vw),
{
    assert(vw * (h * w) == (h * vw) * w) by (nonlinear_arith);
    assert(vw * (h * w) > 0) by (nonlinear_arith) requires 0 < w, 0 < h, 0 < vw;
}

} // verus!
