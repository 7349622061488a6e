//! A small ray tracer on an integer grid. Points and directions have integer coordinates,
//! unit vectors and colors are fixed point with `UNIT` standing for 1, and every
//! intersection, shading and fade step is exact integer arithmetic with stated rounding.
pub mod math;
pub mod color;
pub mod geometry;
pub mod shading;
pub mod camera;
pub mod laws;

pub use camera::{
    channel_to_u8, check_viewport_is_sane, pixel_ray, ray_through_points, render_pixel, render_row,
    viewport_height, Viewport,
};
pub use color::Color;
pub use geometry::{points_are_on_same_side_of_ray, Hit, Ray, Sphere, Triangle, COORD_MAX};
pub use math::{clamp, max, min, V3, UNIT};
pub use shading::{
    fade, get_color_for_hitpoint, intersect_object, send_ray, ColorMode, Light, Object,
    ShadingSettings,
};
