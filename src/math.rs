use vstd::prelude::*;

verus! {

/// The smallest of three values.
pub fn min(a: i64, b: i64, c: i64) -> (r: i64)
    ensures
        r <= a && r <= b && r <= c,
        r == a || r == b || r == c,
{
    if a < b && a < c {
        return a;
    }
    if b < c { b } else { c }
}

/// The largest of three values.
pub fn max(a: i64, b: i64, c: i64) -> (r: i64)
    ensures
        r >= a && r >= b && r >= c,
        r == a || r == b || r == c,
{
    if a > b && a > c {
        return a;
    }
    if b > c { b } else { c }
}

/// `value` limited to the interval `[min, max]`; `max` wins when the bounds cross.
pub fn clamp(value: i64, min: i64, max: i64) -> (r: i64)
    ensures
        r == clamp_spec(value as int, min as int, max as int),
{
    if value > max {
        return max;
    }
    if value < min {
        return min;
    }
    value
}

pub open spec fn clamp_spec(value: int, lo: int, hi: int) -> int {
    if value > hi {
        hi
    } else if value < lo {
        lo
    } else {
        value
    }
}

/// Integer division that rounds toward zero, so that `quot(-a, b) == -quot(a, b)`.
pub open spec fn quot(a: int, b: int) -> int {
    if a >= 0 {
        a / b
    } else {
        -((-a) / b)
    }
}

/// The integer square root: the largest `r` with `r * r <= n`.
pub open spec fn sqrt_floor(n: int) -> int {
    choose|r: int| is_sqrt_floor(n, r)
}

pub open spec fn is_sqrt_floor(n: int, r: int) -> bool {
    0 <= r && r * r <= n && n < (r + 1) * (r + 1)
}

pub proof fn lemma_sqrt_floor_unique(n: int, r: int)
    requires
        is_sqrt_floor(n, r),
    ensures
        sqrt_floor(n) == r,
{
    let s = sqrt_floor(n);
    assert(is_sqrt_floor(n, s));
    if s < r {
        assert((s + 1) * (s + 1) <= r * r) by (nonlinear_arith)
            requires 0 <= s, s + 1 <= r;
    } else if r < s {
        assert((r + 1) * (r + 1) <= s * s) by (nonlinear_arith)
            requires 0 <= r, r + 1 <= s;
    }
}

pub proof fn lemma_mul_bound(a: int, b: int, m: int, n: int)
    requires
        -m <= a <= m,
        -n <= b <= n,
    ensures
        -(m * n) <= a * b <= m * n,
{
    assert(-(m * n) <= a * b <= m * n) by (nonlinear_arith)
        requires -m <= a <= m, -n <= b <= n;
}

/// Integer division of `a` by a positive `b`, rounding toward zero.
pub fn quot_i128(a: i128, b: i128) -> (r: i128)
    requires
        b > 0,
        a > i128::MIN,
    ensures
        r == quot(a as int, b as int),
{
    if a >= 0 {
        a / b
    } else {
        let q = (-a) / b;
        -q
    }
}

/// The integer square root of `n`.
pub fn isqrt(n: u128) -> (r: u64)
    requires
        n < 0x4000_0000_0000_0000_0000_0000_0000_0000,
    ensures
        is_sqrt_floor(n as int, r as int),
        r == sqrt_floor(n as int),
{
    let mut lo: u128 = 0;
    let mut hi: u128 = 0x8000_0000_0000_0000;
    assert(n < hi * hi) by (nonlinear_arith)
        requires hi == 0x8000_0000_0000_0000u128, n < 0x4000_0000_0000_0000_0000_0000_0000_0000;
    while lo + 1 < hi
        invariant
            lo < hi <= 0x8000_0000_0000_0000,
            lo * lo <= n,
            n < hi * hi,
        decreases hi - lo,
    {
        let mid = lo + (hi - lo) / 2;
        assert(mid * mid <= 0x8000_0000_0000_0000u128 * 0x8000_0000_0000_0000u128) by (nonlinear_arith)
            requires mid <= 0x8000_0000_0000_0000u128;
        if mid * mid <= n {
            lo = mid;
        } else {
            hi = mid;
        }
    }
    proof {
        lemma_sqrt_floor_unique(n as int, lo as int);
    }
    lo as u64
}

/// Fixed-point scale of a unit vector: a component of `UNIT` stands for 1.
pub const UNIT: i64 = 1_000_000;

/// A point or a direction in space, on an integer grid.
#[derive(Clone, Copy, Debug, PartialEq, Eq, Structural)]
pub struct V3 {
    pub x: i64,
    pub y: i64,
    pub z: i64,
}

/// Every component of `v` lies in `[-m, m]`.
pub open spec fn bounded(v: V3, m: int) -> bool {
    -m <= v.x <= m && -m <= v.y <= m && -m <= v.z <= m
}

pub open spec fn dot3(a: V3, b: V3) -> int {
    a.x * b.x + a.y * b.y + a.z * b.z
}

pub open spec fn cross_x(a: V3, b: V3) -> int {
    a.y * b.z - a.z * b.y
}

pub open spec fn cross_y(a: V3, b: V3) -> int {
    a.z * b.x - a.x * b.z
}

pub open spec fn cross_z(a: V3, b: V3) -> int {
    a.x * b.y - a.y * b.x
}

/// `a - b`, component by component.
pub open spec fn diff(a: V3, b: V3) -> V3 {
    V3 { x: (a.x - b.x) as i64, y: (a.y - b.y) as i64, z: (a.z - b.z) as i64 }
}

/// `a + b`, component by component.
pub open spec fn sum(a: V3, b: V3) -> V3 {
    V3 { x: (a.x + b.x) as i64, y: (a.y + b.y) as i64, z: (a.z + b.z) as i64 }
}

/// The cross product `a × b` (right-handed).
pub open spec fn cross_v(a: V3, b: V3) -> V3 {
    V3 { x: cross_x(a, b) as i64, y: cross_y(a, b) as i64, z: cross_z(a, b) as i64 }
}

/// The factor by which a vector's coordinates are taken before its length is measured: a
/// short vector is measured in fixed point, so that its length keeps its fraction.
pub open spec fn norm_scale(v: V3) -> int {
    if dot3(v, v) < 0x1_0000_0000_0000_0000_0000 {
        UNIT as int
    } else {
        1
    }
}

/// The length of `v` times `norm_scale(v)`, rounded down.
pub open spec fn scaled_length(v: V3) -> int {
    sqrt_floor(dot3(v, v) * norm_scale(v) * norm_scale(v))
}

/// The unit vector along `v`, in fixed point.
pub open spec fn unit(v: V3) -> V3 {
    V3 {
        x: unit_component(v.x * norm_scale(v), scaled_length(v)) as i64,
        y: unit_component(v.y * norm_scale(v), scaled_length(v)) as i64,
        z: unit_component(v.z * norm_scale(v), scaled_length(v)) as i64,
    }
}

/// The unit vector along `v`, or the zero vector where `v` is zero.
pub open spec fn direction(v: V3) -> V3 {
    if is_zero(v) {
        v
    } else {
        unit(v)
    }
}

/// `x^n` in fixed point, rounding toward zero after each product.
pub open spec fn pow_fixed(x: int, n: nat) -> int
    decreases n,
{
    if n == 0 {
        UNIT as int
    } else {
        quot(pow_fixed(x, (n - 1) as nat) * x, UNIT as int)
    }
}

/// `x^(halves / 2)` in fixed point; an odd count of halves takes one rounded square root.
pub open spec fn pow_halves(x: int, halves: nat) -> int {
    let whole = pow_fixed(x, halves / 2);
    if halves % 2 == 1 {
        quot(whole * sqrt_floor(x * UNIT), UNIT as int)
    } else {
        whole
    }
}

pub open spec fn is_zero(v: V3) -> bool {
    v.x == 0 && v.y == 0 && v.z == 0
}

/// Euclidean length, rounded down.
pub open spec fn length_spec(v: V3) -> int {
    sqrt_floor(dot3(v, v))
}

/// One component of the unit vector along a vector of length `len`.
pub open spec fn unit_component(c: int, len: int) -> int {
    quot(c * UNIT, len)
}

/// One component of the point that lies `num / den` of the way from `a` to `b`.
pub open spec fn lerp_component(a: int, b: int, num: int, den: int) -> int {
    a + quot((b - a) * num, den)
}

pub proof fn lemma_dot_bound(a: V3, b: V3, m: int, n: int)
    requires
        bounded(a, m),
        bounded(b, n),
    ensures
        -3 * (m * n) <= dot3(a, b) <= 3 * (m * n),
{
    lemma_mul_bound(a.x as int, b.x as int, m, n);
    lemma_mul_bound(a.y as int, b.y as int, m, n);
    lemma_mul_bound(a.z as int, b.z as int, m, n);
}

pub proof fn lemma_dot_self_nonneg(v: V3)
    ensures
        dot3(v, v) >= 0,
{
    assert(v.x * v.x >= 0 && v.y * v.y >= 0 && v.z * v.z >= 0) by (nonlinear_arith);
}

proof fn lemma_square_le_root(c: int, n: int)
    requires
        c * c <= n,
        n >= 0,
    ensures
        -sqrt_floor(n) <= c <= sqrt_floor(n),
{
    lemma_sqrt_floor_exists(n);
    let r = sqrt_floor(n);
    if c > r {
        assert((r + 1) * (r + 1) <= c * c) by (nonlinear_arith)
            requires c >= r + 1, r >= 0;
    }
    if c < -r {
        assert((r + 1) * (r + 1) <= c * c) by (nonlinear_arith)
            requires -c >= r + 1, r >= 0;
    }
}

/// Every non-negative number has an integer square root.
pub proof fn lemma_sqrt_floor_exists(n: int)
    requires
        n >= 0,
    ensures
        is_sqrt_floor(n, sqrt_floor(n)),
    decreases n,
{
    if n == 0 {
        assert(is_sqrt_floor(0, 0));
    } else {
        lemma_sqrt_floor_exists(n - 1);
        let r = sqrt_floor(n - 1);
        if (r + 1) * (r + 1) <= n {
            assert(n < (r + 2) * (r + 2)) by (nonlinear_arith)
                requires n - 1 < (r + 1) * (r + 1), r >= 0;
            assert(is_sqrt_floor(n, r + 1));
        } else {
            assert(is_sqrt_floor(n, r));
        }
    }
}

impl V3 {
    pub fn add(&self, other: &V3) -> (r: V3)
        requires
            i64::MIN <= self.x + other.x <= i64::MAX,
            i64::MIN <= self.y + other.y <= i64::MAX,
            i64::MIN <= self.z + other.z <= i64::MAX,
        ensures
            r.x == self.x + other.x,
            r.y == self.y + other.y,
            r.z == self.z + other.z,
            r == sum(*self, *other),
    {
        V3 { x: self.x + other.x, y: self.y + other.y, z: self.z + other.z }
    }

    pub fn subtract(&self, other: &V3) -> (r: V3)
        requires
            i64::MIN <= self.x - other.x <= i64::MAX,
            i64::MIN <= self.y - other.y <= i64::MAX,
            i64::MIN <= self.z - other.z <= i64::MAX,
        ensures
            r.x == self.x - other.x,
            r.y == self.y - other.y,
            r.z == self.z - other.z,
            r == diff(*self, *other),
    {
        V3 { x: self.x - other.x, y: self.y - other.y, z: self.z - other.z }
    }

    pub fn multiply(&self, amount: i64) -> (r: V3)
        requires
            i64::MIN <= self.x * amount <= i64::MAX,
            i64::MIN <= self.y * amount <= i64::MAX,
            i64::MIN <= self.z * amount <= i64::MAX,
        ensures
            r.x == self.x * amount,
            r.y == self.y * amount,
            r.z == self.z * amount,
    {
        V3 { x: self.x * amount, y: self.y * amount, z: self.z * amount }
    }

    pub fn dot(&self, other: &V3) -> (r: i128)
        requires
            bounded(*self, 0x1000_0000_0000_0000),
            bounded(*other, 0x1000_0000_0000_0000),
        ensures
            r == dot3(*self, *other),
    {
        proof {
            lemma_dot_bound(*self, *other, 0x1000_0000_0000_0000, 0x1000_0000_0000_0000);
        }
        let (ax, ay, az) = (self.x as i128, self.y as i128, self.z as i128);
        let (bx, by, bz) = (other.x as i128, other.y as i128, other.z as i128);
        proof {
            lemma_mul_bound(ax as int, bx as int, 0x1000_0000_0000_0000, 0x1000_0000_0000_0000);
            lemma_mul_bound(ay as int, by as int, 0x1000_0000_0000_0000, 0x1000_0000_0000_0000);
            lemma_mul_bound(az as int, bz as int, 0x1000_0000_0000_0000, 0x1000_0000_0000_0000);
        }
        ax * bx + ay * by + az * bz
    }

    pub fn cross(&self, other: &V3) -> (r: V3)
        requires
            bounded(*self, 0x4000_0000),
            bounded(*other, 0x4000_0000),
        ensures
            r.x == cross_x(*self, *other),
            r.y == cross_y(*self, *other),
            r.z == cross_z(*self, *other),
            r == cross_v(*self, *other),
    {
        proof {
            let m: int = 0x4000_0000;
            lemma_mul_bound(self.y as int, other.z as int, m, m);
            lemma_mul_bound(self.z as int, other.y as int, m, m);
            lemma_mul_bound(self.z as int, other.x as int, m, m);
            lemma_mul_bound(self.x as int, other.z as int, m, m);
            lemma_mul_bound(self.x as int, other.y as int, m, m);
            lemma_mul_bound(self.y as int, other.x as int, m, m);
        }
        V3 {
            x: (self.y * other.z) - (self.z * other.y),
            y: (self.z * other.x) - (self.x * other.z),
            z: (self.x * other.y) - (self.y * other.x),
        }
    }

    /// Euclidean length, rounded down.
    pub fn length(&self) -> (r: i64)
        requires
            bounded(*self, 0x10_0000_0000_0000),
        ensures
            r == length_spec(*self),
            r >= 0,
            r < 0x4000_0000_0000_0000,
    {
        proof {
            lemma_dot_bound(*self, *self, 0x10_0000_0000_0000, 0x10_0000_0000_0000);
            assert(dot3(*self, *self) >= 0) by (nonlinear_arith);
        }
        let squared = self.dot(self);
        let r = isqrt(squared as u128);
        proof {
            if r >= 0x4000_0000_0000_0000 {
                assert(r * r >= 0x4000_0000_0000_0000u128 * 0x4000_0000_0000_0000u128) by (nonlinear_arith)
                    requires r >= 0x4000_0000_0000_0000u128;
            }
        }
        r as i64
    }

    /// The unit vector along `self`, in fixed point with `UNIT` for 1.
    pub fn normalize(&self) -> (r: V3)
        requires
            bounded(*self, 0x10_0000_0000_0000),
            !is_zero(*self),
        ensures
            r == unit(*self),
            bounded(r, UNIT as int),
    {
        proof {
            lemma_dot_bound(*self, *self, 0x10_0000_0000_0000, 0x10_0000_0000_0000);
            lemma_dot_self_nonneg(*self);
        }
        let n = self.dot(self);
        let scale: i128 = if n < 0x1_0000_0000_0000_0000_0000 { UNIT as i128 } else { 1 };
        proof {
            let ni = n as int;
            let si = scale as int;
            if si == 1 {
                assert(ni * si * si == ni);
            } else {
                assert(0 <= ni * si <= 0x1_0000_0000_0000_0000_0000 * UNIT) by (nonlinear_arith)
                    requires 0 <= ni < 0x1_0000_0000_0000_0000_0000, si == UNIT;
                assert(0 <= (ni * si) * si <= (0x1_0000_0000_0000_0000_0000 * UNIT) * UNIT) by (nonlinear_arith)
                    requires 0 <= ni * si <= 0x1_0000_0000_0000_0000_0000 * UNIT, si == UNIT;
            }
        }
        let len = isqrt((n * scale * scale) as u128) as i128;
        proof {
            let si = scale as int;
            let (x, y, z) = (self.x as int, self.y as int, self.z as int);
            lemma_scaled_components(*self);
            lemma_unit_component_bound(x * si, len as int);
            lemma_unit_component_bound(y * si, len as int);
            lemma_unit_component_bound(z * si, len as int);
            lemma_mul_bound(x, si, 0x10_0000_0000_0000, UNIT as int);
            lemma_mul_bound(y, si, 0x10_0000_0000_0000, UNIT as int);
            lemma_mul_bound(z, si, 0x10_0000_0000_0000, UNIT as int);
            lemma_mul_bound(x * si, UNIT as int, 0x10_0000_0000_0000 * UNIT, UNIT as int);
            lemma_mul_bound(y * si, UNIT as int, 0x10_0000_0000_0000 * UNIT, UNIT as int);
            lemma_mul_bound(z * si, UNIT as int, 0x10_0000_0000_0000 * UNIT, UNIT as int);
        }
        let u = UNIT as i128;
        V3 {
            x: quot_i128(self.x as i128 * scale * u, len) as i64,
            y: quot_i128(self.y as i128 * scale * u, len) as i64,
            z: quot_i128(self.z as i128 * scale * u, len) as i64,
        }
    }

    /// The point `ratio_num / ratio_den` of the way from `self` to `other`; a ratio outside
    /// `[0, 1]` extrapolates.
    pub fn lerp(&self, other: &V3, ratio_num: i64, ratio_den: i64) -> (r: V3)
        requires
            bounded(*self, 0x100_0000_0000),
            bounded(*other, 0x100_0000_0000),
            -0x10_0000 <= ratio_num <= 0x10_0000,
            0 < ratio_den,
        ensures
            r.x == lerp_component(self.x as int, other.x as int, ratio_num as int, ratio_den as int),
            r.y == lerp_component(self.y as int, other.y as int, ratio_num as int, ratio_den as int),
            r.z == lerp_component(self.z as int, other.z as int, ratio_num as int, ratio_den as int),
    {
        let d = other.subtract(self);
        proof {
            lemma_mul_bound(d.x as int, ratio_num as int, 0x200_0000_0000, 0x10_0000);
            lemma_mul_bound(d.y as int, ratio_num as int, 0x200_0000_0000, 0x10_0000);
            lemma_mul_bound(d.z as int, ratio_num as int, 0x200_0000_0000, 0x10_0000);
        }
        let s = d.multiply(ratio_num);
        let q = V3 { x: quot_i64(s.x, ratio_den), y: quot_i64(s.y, ratio_den), z: quot_i64(s.z, ratio_den) };
        proof {
            lemma_quot_bound(s.x as int, ratio_den as int);
            lemma_quot_bound(s.y as int, ratio_den as int);
            lemma_quot_bound(s.z as int, ratio_den as int);
        }
        q.add(self)
    }
}

/// Each component of a non-zero vector, scaled as for measuring, lies within the scaled
/// length, which is positive.
pub proof fn lemma_scaled_components(v: V3)
    requires
        bounded(v, 0x10_0000_0000_0000),
        !is_zero(v),
    ensures
        scaled_length(v) > 0,
        -scaled_length(v) <= v.x * norm_scale(v) <= scaled_length(v),
        -scaled_length(v) <= v.y * norm_scale(v) <= scaled_length(v),
        -scaled_length(v) <= v.z * norm_scale(v) <= scaled_length(v),
{
    let si = norm_scale(v);
    let ni = dot3(v, v);
    lemma_dot_self_nonneg(v);
    let (x, y, z) = (v.x as int, v.y as int, v.z as int);
    let s2 = si * si;
    assert(ni * si * si == ni * s2) by (nonlinear_arith) requires s2 == si * si;
    assert((x * si) * (x * si) == (x * x) * s2) by (nonlinear_arith) requires s2 == si * si;
    assert((y * si) * (y * si) == (y * y) * s2) by (nonlinear_arith) requires s2 == si * si;
    assert((z * si) * (z * si) == (z * z) * s2) by (nonlinear_arith) requires s2 == si * si;
    assert(ni * s2 == (x * x) * s2 + (y * y) * s2 + (z * z) * s2) by (nonlinear_arith)
        requires ni == x * x + y * y + z * z;
    assert((x * si) * (x * si) >= 0 && (y * si) * (y * si) >= 0 && (z * si) * (z * si) >= 0)
        by (nonlinear_arith);
    lemma_square_le_root(x * si, ni * si * si);
    lemma_square_le_root(y * si, ni * si * si);
    lemma_square_le_root(z * si, ni * si * si);
    assert(x * si != 0 || y * si != 0 || z * si != 0) by (nonlinear_arith)
        requires x != 0 || y != 0 || z != 0, si >= 1;
}

/// Rounding toward zero never moves away from zero.
pub proof fn lemma_quot_bound(a: int, b: int)
    requires
        b > 0,
    ensures
        a >= 0 ==> 0 <= quot(a, b) <= a,
        a < 0 ==> a <= quot(a, b) <= 0,
{
    if a >= 0 {
        assert(a / b <= a) by (nonlinear_arith) requires a >= 0, b > 0;
        assert(a / b >= 0) by (nonlinear_arith) requires a >= 0, b > 0;
    } else {
        assert((-a) / b <= -a) by (nonlinear_arith) requires -a >= 0, b > 0;
        assert((-a) / b >= 0) by (nonlinear_arith) requires -a >= 0, b > 0;
    }
}

/// Dividing a value of magnitude at most `k * b` by `b` gives one of magnitude at most `k`.
pub proof fn lemma_quot_le(a: int, b: int, k: int)
    requires
        b > 0,
        k >= 0,
        -(k * b) <= a <= k * b,
    ensures
        -k <= quot(a, b) <= k,
{
    if a >= 0 {
        assert(a / b <= k) by (nonlinear_arith) requires 0 <= a <= k * b, b > 0;
        assert(a / b >= 0) by (nonlinear_arith) requires 0 <= a, b > 0;
    } else {
        assert((-a) / b <= k) by (nonlinear_arith) requires 0 <= -a <= k * b, b > 0;
        assert((-a) / b >= 0) by (nonlinear_arith) requires 0 <= -a, b > 0;
    }
}

pub proof fn lemma_unit_component_bound(c: int, len: int)
    requires
        0 < len,
        -len <= c <= len,
    ensures
        -UNIT <= unit_component(c, len) <= UNIT,
{
    let a = c * UNIT;
    if a >= 0 {
        assert(a <= len * UNIT) by (nonlinear_arith) requires c <= len, a == c * UNIT;
        assert(a / len <= UNIT) by (nonlinear_arith) requires 0 <= a <= len * UNIT, len > 0;
        assert(a / len >= 0) by (nonlinear_arith) requires 0 <= a, len > 0;
    } else {
        assert(-a <= len * UNIT) by (nonlinear_arith) requires -len <= c, a == c * UNIT;
        assert((-a) / len <= UNIT) by (nonlinear_arith) requires 0 <= -a <= len * UNIT, len > 0;
        assert((-a) / len >= 0) by (nonlinear_arith) requires 0 <= -a, len > 0;
    }
}

/// Integer division of `a` by a positive `b`, rounding toward zero.
pub fn quot_i64(a: i64, b: i64) -> (r: i64)
    requires
        b > 0,
        a > i64::MIN,
    ensures
        r == quot(a as int, b as int),
{
    if a >= 0 {
        a / b
    } else {
        let q = (-a) / b;
        -q
    }
}

/// The unit vector along `v`, or `v` itself where it is zero.
pub fn direction_of(v: &V3) -> (r: V3)
    requires
        bounded(*v, 0x10_0000_0000_0000),
    ensures
        r == direction(*v),
        bounded(r, UNIT as int),
{
    if v.x == 0 && v.y == 0 && v.z == 0 {
        *v
    } else {
        v.normalize()
    }
}

proof fn lemma_pow_fixed_bound(x: int, n: nat)
    requires
        0 <= x <= UNIT,
    ensures
        0 <= pow_fixed(x, n) <= UNIT,
    decreases n,
{
    if n > 0 {
        lemma_pow_fixed_bound(x, (n - 1) as nat);
        let p = pow_fixed(x, (n - 1) as nat);
        assert(0 <= p * x <= UNIT * UNIT) by (nonlinear_arith)
            requires 0 <= p <= UNIT, 0 <= x <= UNIT;
        assert((p * x) / (UNIT as int) <= UNIT) by (nonlinear_arith)
            requires 0 <= p * x <= UNIT * UNIT;
        assert((p * x) / (UNIT as int) >= 0) by (nonlinear_arith)
            requires 0 <= p * x;
    }
}

/// `x^(halves / 2)` in fixed point, for `x` in `[0, UNIT]`.
pub fn pow_halves_exec(x: i64, halves: u32) -> (r: i64)
    requires
        0 <= x <= UNIT,
    ensures
        r == pow_halves(x as int, halves as nat),
        0 <= r <= UNIT,
{
    let whole_steps = halves / 2;
    let mut p: i64 = UNIT;
    let mut i: u32 = 0;
    while i < whole_steps
        invariant
            0 <= x <= UNIT,
            i <= whole_steps,
            p == pow_fixed(x as int, i as nat),
            0 <= p <= UNIT,
        decreases whole_steps - i,
    {
        proof {
            lemma_pow_fixed_bound(x as int, (i + 1) as nat);
            lemma_mul_bound(p as int, x as int, UNIT as int, UNIT as int);
        }
        p = quot_i64(p * x, UNIT);
        i = i + 1;
    }
    if halves % 2 == 1 {
        proof {
            lemma_mul_bound(x as int, UNIT as int, UNIT as int, UNIT as int);
        }
        assert(0 <= x * UNIT <= UNIT * UNIT) by (nonlinear_arith)
            requires 0 <= x <= UNIT;
        let root_wide = isqrt((x * UNIT) as u128);
        proof {
            if root_wide > UNIT {
                assert(root_wide * root_wide > UNIT * UNIT) by (nonlinear_arith)
                    requires root_wide > UNIT;
            }
        }
        let root = root_wide as i64;
        proof {
            assert(0 <= p * root <= UNIT * UNIT) by (nonlinear_arith)
                requires 0 <= p <= UNIT, 0 <= root <= UNIT;
            assert((p * root) / (UNIT as int) <= UNIT) by (nonlinear_arith)
                requires 0 <= p * root <= UNIT * UNIT;
        }
        quot_i64(p * root, UNIT)
    } else {
        p
    }
}

} // verus!
