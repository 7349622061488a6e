use raytracer::{
    check_viewport_is_sane, channel_to_u8, fade, get_color_for_hitpoint, pixel_ray, ray_through_points,
    render_pixel, render_row, send_ray, viewport_height, Color, ColorMode, Hit, Light, Object, Ray,
    ShadingSettings, Sphere, Triangle, Viewport, V3, UNIT,
};

fn v(x: i64, y: i64, z: i64) -> V3 {
    V3 { x, y, z }
}

const RED: Color = Color { r: 255 * UNIT, g: 0, b: 0 };
const WHITE: Color = Color { r: 255 * UNIT, g: 255 * UNIT, b: 255 * UNIT };
const BLACK: Color = Color { r: 0, g: 0, b: 0 };

fn settings(mode: ColorMode) -> ShadingSettings {
    ShadingSettings {
        color_mode: mode,
        static_color: RED,
        camera_position: v(0, 0, -10_000),
        fade_distance_start: 1_000_000,
        fade_distance_end: 2_000_000,
        ambient_reflection: UNIT / 10,
        diffuse_reflection: UNIT / 10,
        specular_reflection: UNIT / 2,
        shininess_halves: 3,
    }
}

fn hit_facing_camera(distance: i64) -> Hit {
    Hit { point: v(0, 0, 0), material_color: RED, distance, surface_normal: v(0, 0, -UNIT) }
}

#[test]
fn normals_mode_maps_components() {
    let st = settings(ColorMode::Normals);
    let c = get_color_for_hitpoint(&hit_facing_camera(10), &Vec::new(), &st);
    assert_eq!(c, Color { r: 127_500_000, g: 127_500_000, b: 0 });
    let up = Hit { surface_normal: v(0, UNIT, 0), ..hit_facing_camera(10) };
    let c = get_color_for_hitpoint(&up, &Vec::new(), &st);
    assert_eq!(c, Color { r: 127_500_000, g: 255 * UNIT, b: 127_500_000 });
}

#[test]
fn static_mode_ignores_hit() {
    let st = settings(ColorMode::StaticColor);
    let up = Hit { surface_normal: v(0, UNIT, 0), material_color: WHITE, ..hit_facing_camera(10) };
    assert_eq!(get_color_for_hitpoint(&up, &Vec::new(), &st), RED);
}

#[test]
fn light_mode_single_light_in_front() {
    let st = settings(ColorMode::Light);
    let light = Light { position: v(0, 0, -1000), diffuse_component: WHITE, specular_component: WHITE };
    let scene = vec![Object::LightObject(light)];
    let c = get_color_for_hitpoint(&hit_facing_camera(10), &scene, &st);
    assert_eq!(c, Color { r: 141_156_015, g: 90_156_015, b: 90_156_015 });
}

#[test]
fn light_mode_adds_every_light() {
    let st = settings(ColorMode::Light);
    let light = Light { position: v(0, 0, -1000), diffuse_component: WHITE, specular_component: WHITE };
    let sphere = Sphere { center: v(0, 0, 100_000), radius: 5000, color: RED };
    let scene = vec![Object::LightObject(light), Object::SphereObject(sphere), Object::LightObject(light)];
    let c = get_color_for_hitpoint(&hit_facing_camera(10), &scene, &st);
    assert_eq!(c, Color { r: 256_812_030, g: 180_312_030, b: 180_312_030 });
}

#[test]
fn light_mode_without_lights_is_ambient_only() {
    let st = settings(ColorMode::Light);
    let c = get_color_for_hitpoint(&hit_facing_camera(10), &Vec::new(), &st);
    assert_eq!(c, Color { r: 25_500_000, g: 0, b: 0 });
}

#[test]
fn light_behind_surface_subtracts() {
    let st = ShadingSettings { specular_reflection: 0, ambient_reflection: 0, ..settings(ColorMode::Light) };
    let light = Light { position: v(0, 0, 1000), diffuse_component: WHITE, specular_component: WHITE };
    let scene = vec![Object::LightObject(light)];
    let c = get_color_for_hitpoint(&hit_facing_camera(10), &scene, &st);
    assert_eq!(c, Color { r: -25_500_000, g: 0, b: 0 });
}

#[test]
fn fade_at_end_is_black() {
    let st = settings(ColorMode::StaticColor);
    assert_eq!(fade(&WHITE, 2_000_000, &st), BLACK);
    assert_eq!(fade(&WHITE, 3_000_000, &st), BLACK);
    let c = get_color_for_hitpoint(&hit_facing_camera(2_000_000), &Vec::new(), &st);
    assert_eq!(c, BLACK);
}

#[test]
fn fade_before_start_keeps_color() {
    let st = settings(ColorMode::StaticColor);
    assert_eq!(fade(&WHITE, 1_000_000, &st), WHITE);
    assert_eq!(fade(&WHITE, 0, &st), WHITE);
    let c = get_color_for_hitpoint(&hit_facing_camera(1_000_000), &Vec::new(), &st);
    assert_eq!(c, RED);
}

#[test]
fn fade_halfway_halves() {
    let st = settings(ColorMode::StaticColor);
    assert_eq!(fade(&WHITE, 1_500_000, &st), Color { r: 127_500_000, g: 127_500_000, b: 127_500_000 });
    assert_eq!(fade(&RED, 1_250_000, &st), Color { r: 191_250_000, g: 0, b: 0 });
}

#[test]
fn empty_scene_is_black() {
    let st = settings(ColorMode::StaticColor);
    let ray = Ray { origin: v(0, 0, 0), direction: v(0, 0, UNIT) };
    assert_eq!(send_ray(&Vec::new(), &ray, &st), BLACK);
}

#[test]
fn ray_missing_everything_is_black() {
    let st = settings(ColorMode::StaticColor);
    let scene = vec![
        Object::SphereObject(Sphere { center: v(0, 0, 100_000), radius: 5000, color: RED }),
        Object::TriangleObject(Triangle {
            p1: v(0, 0, 1000),
            p2: v(1000, 0, 1000),
            p3: v(0, 1000, 1000),
            color: RED,
        }),
        Object::LightObject(Light { position: v(0, 0, 0), diffuse_component: WHITE, specular_component: WHITE }),
    ];
    let ray = Ray { origin: v(0, 0, 0), direction: v(0, -UNIT, 0) };
    assert_eq!(send_ray(&scene, &ray, &st), BLACK);
}

#[test]
fn closest_hit_wins() {
    let st = settings(ColorMode::Normals);
    let far = Sphere { center: v(0, 0, 100_000), radius: 5000, color: RED };
    let near = Triangle { p1: v(-1000, -1000, 1000), p2: v(1000, -1000, 1000), p3: v(0, 1000, 1000), color: WHITE };
    let ray = Ray { origin: v(0, 0, 0), direction: v(0, 0, UNIT) };
    let both = vec![Object::SphereObject(far), Object::TriangleObject(near)];
    let reversed = vec![Object::TriangleObject(near), Object::SphereObject(far)];
    let expected = get_color_for_hitpoint(&near.intersect(&ray).unwrap(), &both, &st);
    assert_eq!(send_ray(&both, &ray, &st), expected);
    assert_eq!(send_ray(&reversed, &ray, &st), expected);
    assert_eq!(expected, Color { r: 127_500_000, g: 127_500_000, b: 255 * UNIT });
}

#[test]
fn one_sphere_center_pixel_static_color() {
    let mut st = settings(ColorMode::StaticColor);
    st.camera_position = v(0, 0, 0);
    st.static_color = Color { r: 0, g: 255 * UNIT, b: 0 };
    let scene = vec![Object::SphereObject(Sphere { center: v(0, 0, 100_000), radius: 5000, color: RED })];
    let view = Viewport { image_width: 101, image_height: 101, viewport_width: 4000, focal_length: 10_000 };
    assert_eq!(render_pixel(&scene, &view, &st, 50, 50), st.static_color);
    assert_eq!(render_pixel(&scene, &view, &st, 0, 0), BLACK);
    assert_eq!(render_pixel(&scene, &view, &st, 100, 50), BLACK);
    let row = render_row(&scene, &view, &st, 50);
    assert_eq!(row.len(), 101);
    assert_eq!(row[50], (0, 255, 0));
    assert_eq!(row[0], (0, 0, 0));
}

#[test]
fn viewport_sanity() {
    assert!(check_viewport_is_sane(2500, 2500, 4000));
    assert!(check_viewport_is_sane(640, 480, 4000));
    assert!(check_viewport_is_sane(7, 5, 4000));
    assert!(check_viewport_is_sane(3, 1, 1));
    assert!(check_viewport_is_sane(2500, 2499, 4000));
    assert!(check_viewport_is_sane(2500, 2499, 4));
    assert_eq!(viewport_height(640, 480, 4000), 3000);
    assert_eq!(viewport_height(3, 1, 1), 0);
    assert_eq!(viewport_height(7, 5, 4000), 2857);
}

#[test]
fn pixel_rays_through_viewport() {
    let view = Viewport { image_width: 2, image_height: 2, viewport_width: 4000, focal_length: 3000 };
    let camera = v(0, 0, -3000);
    let r = pixel_ray(&view, &camera, 1, 1);
    assert_eq!(r.origin, camera);
    assert_eq!(r.direction, v(0, 0, UNIT));
    let corner = pixel_ray(&view, &camera, 0, 0);
    assert_eq!(corner.direction, v(-485_071, -485_071, 727_606));
}

#[test]
fn pixel_rays_square_on_wide_images() {
    let view = Viewport { image_width: 7, image_height: 5, viewport_width: 4000, focal_length: 3000 };
    let camera = v(0, 0, 0);
    let a = pixel_ray(&view, &camera, 2, 2);
    let b = pixel_ray(&view, &camera, 3, 1);
    assert_eq!(a.direction.x, b.direction.y);
    assert_eq!(a.direction.y, b.direction.x);
    assert_eq!(a.direction.z, b.direction.z);
}

#[test]
fn ray_through_two_points() {
    let r = ray_through_points(v(1, 2, 3), v(4, 6, 3));
    assert_eq!(r.origin, v(1, 2, 3));
    assert_eq!(r.direction, v(600_000, 800_000, 0));
}

#[test]
fn channels_narrow_to_bytes() {
    assert_eq!(channel_to_u8(-5), 0);
    assert_eq!(channel_to_u8(127_500_000), 127);
    assert_eq!(channel_to_u8(300 * UNIT), 255);
    assert_eq!(channel_to_u8(UNIT - 1), 0);
}
