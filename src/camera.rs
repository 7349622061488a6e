use vstd::prelude::*;
use crate::color::Color;
use crate::geometry::{in_world, Ray, COORD_MAX};
use crate::math::{clamp, clamp_spec, diff, lemma_mul_bound, quot, unit, V3, UNIT};
use crate::shading::{ray_color, scene_wf, send_ray, Object, ShadingSettings};

verus! {

/// The largest image side, in pixels.
pub const MAX_IMAGE_SIDE: u32 = 0x4000;

/// The world-space rectangle through which the camera looks: `viewport_width` wide, at
/// `focal_length` in front of the camera, cut into `image_width` by `image_height` pixels.
/// Its height follows from the image's aspect ratio.
#[derive(Clone, Copy, Debug, PartialEq, Eq, Structural)]
pub struct Viewport {
    pub image_width: u32,
    pub image_height: u32,
    pub viewport_width: i64,
    pub focal_length: i64,
}

impl Viewport {
    pub open spec fn wf(&self) -> bool {
        0 < self.image_width <= MAX_IMAGE_SIDE && 0 < self.image_height <= MAX_IMAGE_SIDE
            && 0 < self.viewport_width <= COORD_MAX && 0 < self.focal_length <= COORD_MAX
    }
}

/// The viewport's height, `image_height / image_width * viewport_width`, rounded down.
pub open spec fn viewport_height_spec(w: int, h: int, vw: int) -> int {
    (h * vw) / w
}

/// The pixel width `vw / w` and the pixel height `vh / h`, with `vh = h / w * vw` the
/// viewport's exact height, differ by less than a thousandth of the pixel width. Both sizes
/// are compared times `w * h * w`, so that no rounding enters.
pub open spec fn pixels_are_square(w: int, h: int, vw: int) -> bool {
    let width_scaled = vw * (h * w);
    let height_scaled = (h * vw) * w;
    let gap = width_scaled - height_scaled;
    -width_scaled < 1000 * gap < width_scaled
}

/// The viewport's height for an image of `image_width` by `image_height` pixels.
pub fn viewport_height(image_width: u32, image_height: u32, viewport_width: i64) -> (r: i64)
    requires
        0 < image_width <= MAX_IMAGE_SIDE,
        0 < image_height <= MAX_IMAGE_SIDE,
        0 < viewport_width <= COORD_MAX,
    ensures
        r == viewport_height_spec(image_width as int, image_height as int, viewport_width as int),
{
    proof {
        lemma_mul_bound(image_height as int, viewport_width as int, MAX_IMAGE_SIDE as int, COORD_MAX as int);
    }
    (image_height as i64 * viewport_width) / image_width as i64
}

/// Whether the pixels of the viewport are square to within a thousandth of their width, with
/// the viewport's height derived exactly from the image's aspect ratio.
pub fn check_viewport_is_sane(image_width: u32, image_height: u32, viewport_width: i64) -> (r: bool)
    requires
        0 < image_width <= MAX_IMAGE_SIDE,
        0 < image_height <= MAX_IMAGE_SIDE,
        0 < viewport_width <= COORD_MAX,
    ensures
        r == pixels_are_square(image_width as int, image_height as int, viewport_width as int),
{
    let w = image_width as i64;
    let h = image_height as i64;
    proof {
        let m = MAX_IMAGE_SIDE as int;
        let c = COORD_MAX as int;
        lemma_mul_bound(h as int, w as int, m, m);
        lemma_mul_bound(viewport_width as int, h * w, c, m * m);
        lemma_mul_bound(h as int, viewport_width as int, m, c);
        lemma_mul_bound(h * viewport_width, w as int, m * c, m);
        assert(viewport_width * (h * w) == (h * viewport_width) * w) by (nonlinear_arith);
    }
    let width_scaled = viewport_width * (h * w);
    let height_scaled = (h * viewport_width) * w;
    let gap = width_scaled - height_scaled;
    -width_scaled < 1000 * gap && 1000 * gap < width_scaled
}

/// The ray from `start` through `end`, with a unit direction.
pub fn ray_through_points(start: V3, end: V3) -> (r: Ray)
    requires
        in_world(start),
        in_world(end),
        start != end,
    ensures
        r == (Ray { origin: start, direction: unit(diff(end, start)) }),
        r.wf(),
{
    let d = end.subtract(&start);
    Ray { direction: d.normalize(), origin: start }
}

/// The direction through the center-relative viewport point of pixel `(px, py)`, scaled by
/// `2 * image_width * image_height` so that it stays on the integer grid.
pub open spec fn pixel_offset(view: Viewport, px: int, py: int) -> V3 {
    let w = view.image_width as int;
    let h = view.image_height as int;
    V3 {
        x: (view.viewport_width * h * (2 * px - w)) as i64,
        y: (view.viewport_width * h * (2 * py - h)) as i64,
        z: (2 * w * h * view.focal_length) as i64,
    }
}

/// The camera ray through pixel `(px, py)`.
pub open spec fn pixel_ray_spec(view: Viewport, camera: V3, px: int, py: int) -> Ray {
    Ray { origin: camera, direction: unit(pixel_offset(view, px, py)) }
}

/// The camera ray from `camera` through the viewport point of pixel `(px, py)`; pixel
/// `(0, 0)` looks toward the viewport's corner at `-x`, `-y`.
pub fn pixel_ray(view: &Viewport, camera: &V3, px: u32, py: u32) -> (r: Ray)
    requires
        view.wf(),
        in_world(*camera),
        px < view.image_width,
        py < view.image_height,
    ensures
        r == pixel_ray_spec(*view, *camera, px as int, py as int),
        r.wf(),
{
    let w = view.image_width as i64;
    let h = view.image_height as i64;
    let ghost m = MAX_IMAGE_SIDE as int;
    let ghost c = COORD_MAX as int;
    proof {
        lemma_mul_bound(view.viewport_width as int, h as int, c, m);
        lemma_mul_bound(view.viewport_width * h, 2 * (px as int) - w, c * m, 2 * m);
        lemma_mul_bound(view.viewport_width * h, 2 * (py as int) - h, c * m, 2 * m);
        lemma_mul_bound(2 * w, h as int, 2 * m, m);
        lemma_mul_bound(2 * w * h, view.focal_length as int, 2 * m * m, c);
        assert(2 * w * h * view.focal_length > 0) by (nonlinear_arith)
            requires w > 0, h > 0, view.focal_length > 0;
    }
    let offset = V3 {
        x: view.viewport_width * h * (2 * px as i64 - w),
        y: view.viewport_width * h * (2 * py as i64 - h),
        z: 2 * w * h * view.focal_length,
    };
    Ray { origin: *camera, direction: offset.normalize() }
}

/// A fixed-point channel as an 8-bit level: the fraction dropped, then held to `0..=255`.
pub open spec fn channel_level(c: int) -> int {
    clamp_spec(quot(c, UNIT as int), 0, 255)
}

/// A color as three 8-bit levels.
pub open spec fn rgb8(c: Color) -> (u8, u8, u8) {
    (channel_level(c.r as int) as u8, channel_level(c.g as int) as u8, channel_level(c.b as int) as u8)
}

pub fn channel_to_u8(c: i64) -> (r: u8)
    ensures
        r == channel_level(c as int),
{
    if c < 0 {
        0
    } else {
        clamp(c / UNIT, 0, 255) as u8
    }
}

/// The color of pixel `(px, py)`.
pub fn render_pixel(
    scene: &Vec<Object>,
    view: &Viewport,
    settings: &ShadingSettings,
    px: u32,
    py: u32,
) -> (r: Color)
    requires
        scene_wf(scene@),
        view.wf(),
        settings.wf(),
        px < view.image_width,
        py < view.image_height,
    ensures
        r == ray_color(scene@, pixel_ray_spec(*view, settings.camera_position, px as int, py as int), *settings),
{
    let ray = pixel_ray(view, &settings.camera_position, px, py);
    send_ray(scene, &ray, settings)
}

/// The 8-bit colors of the pixels of row `py`, from `x = 0` on.
pub fn render_row(scene: &Vec<Object>, view: &Viewport, settings: &ShadingSettings, py: u32) -> (r: Vec<(u8, u8, u8)>)
    requires
        scene_wf(scene@),
        view.wf(),
        settings.wf(),
        py < view.image_height,
    ensures
        r@.len() == view.image_width,
        forall|x: int| 0 <= x < view.image_width ==> #[trigger] r@[x] == rgb8(
            ray_color(scene@, pixel_ray_spec(*view, settings.camera_position, x, py as int), *settings),
        ),
{
    let mut row: Vec<(u8, u8, u8)> = Vec::new();
    let mut px: u32 = 0;
    while px < view.image_width
        invariant
            scene_wf(scene@),
            view.wf(),
            settings.wf(),
            py < view.image_height,
            px <= view.image_width,
            row@.len() == px,
            forall|x: int| 0 <= x < px ==> #[trigger] row@[x] == rgb8(
                ray_color(scene@, pixel_ray_spec(*view, settings.camera_position, x, py as int), *settings),
            ),
        decreases view.image_width - px,
    {
        let c = render_pixel(scene, view, settings, px, py);
        row.push((channel_to_u8(c.r), channel_to_u8(c.g), channel_to_u8(c.b)));
        px = px + 1;
    }
    row
}

} // verus!
