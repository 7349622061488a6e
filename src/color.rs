use vstd::prelude::*;
use crate::math::{quot, quot_i64, quot_i128, lemma_mul_bound, lemma_quot_bound, lemma_quot_le, UNIT};

verus! {

/// An RGB color in fixed point: a channel of `UNIT` is one level of the nominal 0..=255
/// range. Channels are not clamped: light may add up past 255 or fall below 0.
#[derive(Clone, Copy, Debug, PartialEq, Eq, Structural)]
pub struct Color {
    pub r: i64,
    pub g: i64,
    pub b: i64,
}

/// The largest channel magnitude that the color operations accept.
pub const CHANNEL_MAX: i64 = 0x100_0000_0000;

/// The largest channel magnitude of a surface or a light of the scene.
pub const SCENE_CHANNEL_MAX: i64 = 0x1_0000_0000;

/// The largest channel magnitude that blending accepts.
pub const BLEND_MAX: i64 = 0x1000_0000_0000_0000;

/// Every channel of `c` lies in `[-m, m]`.
pub open spec fn color_bounded(c: Color, m: int) -> bool {
    -m <= c.r <= m && -m <= c.g <= m && -m <= c.b <= m
}

/// A channel scaled by a fixed-point factor.
pub open spec fn scale_channel(c: int, amount: int) -> int {
    quot(c * amount, UNIT as int)
}

/// A light channel filtered by a surface channel that counts as a reflectance out of 255.
pub open spec fn filter_channel(surface: int, light: int) -> int {
    quot(surface * light, 255 * UNIT)
}

/// One channel `num / den` of the way from `a` to `b`.
pub open spec fn blend_channel(a: int, b: int, num: int, den: int) -> int {
    a + quot((b - a) * num, den)
}

/// `a + b`, channel by channel.
pub open spec fn plus(a: Color, b: Color) -> Color {
    Color { r: (a.r + b.r) as i64, g: (a.g + b.g) as i64, b: (a.b + b.b) as i64 }
}

/// `c` scaled by the fixed-point factor `amount`.
pub open spec fn scaled(c: Color, amount: int) -> Color {
    Color {
        r: scale_channel(c.r as int, amount) as i64,
        g: scale_channel(c.g as int, amount) as i64,
        b: scale_channel(c.b as int, amount) as i64,
    }
}

/// The light `light` reflected by a surface of color `surface`.
pub open spec fn filtered(surface: Color, light: Color) -> Color {
    Color {
        r: filter_channel(surface.r as int, light.r as int) as i64,
        g: filter_channel(surface.g as int, light.g as int) as i64,
        b: filter_channel(surface.b as int, light.b as int) as i64,
    }
}

/// The color `num / den` of the way from `a` to `b`.
pub open spec fn blend(a: Color, b: Color, num: int, den: int) -> Color {
    Color {
        r: blend_channel(a.r as int, b.r as int, num, den) as i64,
        g: blend_channel(a.g as int, b.g as int, num, den) as i64,
        b: blend_channel(a.b as int, b.b as int, num, den) as i64,
    }
}

pub open spec fn black() -> Color {
    Color { r: 0, g: 0, b: 0 }
}

impl Color {
    pub fn add(&self, other: &Color) -> (r: Color)
        requires
            i64::MIN <= self.r + other.r <= i64::MAX,
            i64::MIN <= self.g + other.g <= i64::MAX,
            i64::MIN <= self.b + other.b <= i64::MAX,
        ensures
            r.r == self.r + other.r,
            r.g == self.g + other.g,
            r.b == self.b + other.b,
            r == plus(*self, *other),
    {
        Color { r: self.r + other.r, g: self.g + other.g, b: self.b + other.b }
    }

    pub fn subtract(&self, other: &Color) -> (r: Color)
        requires
            i64::MIN <= self.r - other.r <= i64::MAX,
            i64::MIN <= self.g - other.g <= i64::MAX,
            i64::MIN <= self.b - other.b <= i64::MAX,
        ensures
            r.r == self.r - other.r,
            r.g == self.g - other.g,
            r.b == self.b - other.b,
    {
        Color { r: self.r - other.r, g: self.g - other.g, b: self.b - other.b }
    }

    /// Every channel times the fixed-point factor `amount` (`UNIT` keeps the color).
    pub fn multiply(&self, amount: i64) -> (r: Color)
        requires
            color_bounded(*self, CHANNEL_MAX as int),
            -CHANNEL_MAX <= amount <= CHANNEL_MAX,
        ensures
            r.r == scale_channel(self.r as int, amount as int),
            r.g == scale_channel(self.g as int, amount as int),
            r.b == scale_channel(self.b as int, amount as int),
            r == scaled(*self, amount as int),
    {
        Color {
            r: scale_i128(self.r, amount),
            g: scale_i128(self.g, amount),
            b: scale_i128(self.b, amount),
        }
    }

    /// `(self / 255) * other`, channel by channel: one of the two is a light, the other the
    /// color of the surface that reflects it.
    pub fn relative_element_wise_multiply(&self, other: &Color) -> (r: Color)
        requires
            color_bounded(*self, 0x4_0000_0000),
            color_bounded(*other, 0x1_0000_0000),
        ensures
            r == filtered(*self, *other),
            color_bounded(r, CHANNEL_MAX as int),
    {
        Color {
            r: filter_i128(self.r, other.r),
            g: filter_i128(self.g, other.g),
            b: filter_i128(self.b, other.b),
        }
    }

    /// The color `ratio_num / ratio_den` of the way from `self` to `other`; a ratio outside
    /// `[0, 1]` extrapolates.
    pub fn lerp(&self, other: &Color, ratio_num: i64, ratio_den: i64) -> (r: Color)
        requires
            color_bounded(*self, BLEND_MAX as int),
            color_bounded(*other, BLEND_MAX as int),
            -0x100_0000_0000 <= ratio_num <= 0x100_0000_0000,
            0 < ratio_den,
            i64::MIN <= blend_channel(self.r as int, other.r as int, ratio_num as int, ratio_den as int) <= i64::MAX,
            i64::MIN <= blend_channel(self.g as int, other.g as int, ratio_num as int, ratio_den as int) <= i64::MAX,
            i64::MIN <= blend_channel(self.b as int, other.b as int, ratio_num as int, ratio_den as int) <= i64::MAX,
        ensures
            r == blend(*self, *other, ratio_num as int, ratio_den as int),
    {
        Color {
            r: blend_i128(self.r, other.r, ratio_num, ratio_den),
            g: blend_i128(self.g, other.g, ratio_num, ratio_den),
            b: blend_i128(self.b, other.b, ratio_num, ratio_den),
        }
    }
}

fn scale_i128(c: i64, amount: i64) -> (r: i64)
    requires
        -CHANNEL_MAX <= c <= CHANNEL_MAX,
        -CHANNEL_MAX <= amount <= CHANNEL_MAX,
    ensures
        r == scale_channel(c as int, amount as int),
{
    proof {
        lemma_mul_bound(c as int, amount as int, CHANNEL_MAX as int, CHANNEL_MAX as int);
    }
    let p = c as i128 * amount as i128;
    proof {
        let k: int = 0x2000_0000_0000_0000;
        assert(0x100_0000_0000int * 0x100_0000_0000int <= 0x2000_0000_0000_0000int * 1_000_000int);
        lemma_quot_le(p as int, UNIT as int, k);
    }
    quot_i128(p, UNIT as i128) as i64
}

fn filter_i128(surface: i64, light: i64) -> (r: i64)
    requires
        -0x4_0000_0000 <= surface <= 0x4_0000_0000,
        -0x1_0000_0000 <= light <= 0x1_0000_0000,
    ensures
        r == filter_channel(surface as int, light as int),
        -CHANNEL_MAX <= r <= CHANNEL_MAX,
{
    proof {
        lemma_mul_bound(surface as int, light as int, 0x4_0000_0000, 0x1_0000_0000);
    }
    let p = surface as i128 * light as i128;
    let q = quot_i128(p, 255 * UNIT as i128);
    proof {
        let d = 255 * UNIT as int;
        let pi = p as int;
        let m: int = 0x4_0000_0000int * 0x1_0000_0000int;
        lemma_quot_bound(pi, d);
        if pi >= 0 {
            assert(pi / d <= CHANNEL_MAX) by (nonlinear_arith)
                requires 0 <= pi <= m, d >= 0x400_0000, m == 0x4_0000_0000int * 0x1_0000_0000int;
        } else {
            assert((-pi) / d <= CHANNEL_MAX) by (nonlinear_arith)
                requires 0 <= -pi <= m, d >= 0x400_0000, m == 0x4_0000_0000int * 0x1_0000_0000int;
        }
    }
    q as i64
}

fn blend_i128(a: i64, b: i64, num: i64, den: i64) -> (r: i64)
    requires
        -BLEND_MAX <= a <= BLEND_MAX,
        -BLEND_MAX <= b <= BLEND_MAX,
        -0x100_0000_0000 <= num <= 0x100_0000_0000,
        0 < den,
        i64::MIN <= blend_channel(a as int, b as int, num as int, den as int) <= i64::MAX,
    ensures
        r == blend_channel(a as int, b as int, num as int, den as int),
{
    proof {
        lemma_mul_bound((b - a) as int, num as int, 2 * BLEND_MAX, 0x100_0000_0000);
    }
    let p = (b as i128 - a as i128) * num as i128;
    let q = quot_i128(p, den as i128);
    proof {
        lemma_quot_bound(p as int, den as int);
    }
    (a as i128 + q) as i64
}

} // verus!
