use vstd::prelude::*;
use crate::color::{
    black, blend, blend_channel, color_bounded, filtered, plus, scaled, Color, BLEND_MAX,
    CHANNEL_MAX, SCENE_CHANNEL_MAX,
};
use crate::geometry::{in_world, sphere_hit, triangle_hit, Hit, Ray, Sphere, Triangle};
use crate::math::{
    diff, direction, direction_of, dot3, lemma_dot_bound, lemma_mul_bound,
    lemma_quot_bound, lemma_quot_le, pow_halves, pow_halves_exec, quot, quot_i128, quot_i64, V3, UNIT,
};

verus! {

/// The most objects a scene may hold.
pub const MAX_OBJECTS: usize = 0x1_0000;

/// A point light. It illuminates the scene and is never hit.
#[derive(Clone, Copy, Debug, PartialEq, Eq, Structural)]
pub struct Light {
    pub position: V3,
    pub diffuse_component: Color,
    pub specular_component: Color,
}

#[derive(Clone, Copy, Debug, PartialEq, Eq, Structural)]
pub enum Object {
    SphereObject(Sphere),
    TriangleObject(Triangle),
    LightObject(Light),
}

/// How the color of a hit is computed.
#[derive(Clone, Copy, Debug, PartialEq, Eq, Structural)]
pub enum ColorMode {
    /// Every hit takes the settings' static color.
    StaticColor,
    /// The surface normal, each component mapped from `[-1, 1]` to `[0, 255]`.
    Normals,
    /// Diffuse and specular light of every light of the scene, plus ambient light.
    Light,
}

/// What is fixed before rendering starts. The reflection constants are fixed-point factors
/// (`UNIT` is 1); the specular exponent is `shininess_halves / 2`.
#[derive(Clone, Copy, Debug, PartialEq, Eq, Structural)]
pub struct ShadingSettings {
    pub color_mode: ColorMode,
    pub static_color: Color,
    pub camera_position: V3,
    pub fade_distance_start: i64,
    pub fade_distance_end: i64,
    pub ambient_reflection: i64,
    pub diffuse_reflection: i64,
    pub specular_reflection: i64,
    pub shininess_halves: u32,
}

/// The largest fade distance that the settings accept.
pub const FADE_MAX: i64 = 0x100_0000_0000;

impl Light {
    pub open spec fn wf(&self) -> bool {
        in_world(self.position)
            && color_bounded(self.diffuse_component, SCENE_CHANNEL_MAX as int)
            && color_bounded(self.specular_component, SCENE_CHANNEL_MAX as int)
    }
}

impl Object {
    pub open spec fn wf(&self) -> bool {
        match *self {
            Object::SphereObject(s) => s.wf(),
            Object::TriangleObject(t) => t.wf(),
            Object::LightObject(l) => l.wf(),
        }
    }
}

impl ShadingSettings {
    /// The fade starts before it ends, and the reflection constants lie in `[0, 1]`.
    pub open spec fn wf(&self) -> bool {
        color_bounded(self.static_color, SCENE_CHANNEL_MAX as int) && in_world(self.camera_position)
            && 0 <= self.fade_distance_start < self.fade_distance_end <= FADE_MAX
            && 0 <= self.ambient_reflection <= UNIT && 0 <= self.diffuse_reflection <= UNIT
            && 0 <= self.specular_reflection <= UNIT
    }
}

/// A scene the renderer accepts: every object well formed, and not too many of them.
pub open spec fn scene_wf(scene: Seq<Object>) -> bool {
    scene.len() <= MAX_OBJECTS && forall|i: int| 0 <= i < scene.len() ==> #[trigger] scene[i].wf()
}

/// The hit of `ray` on object `o`; a light is never hit.
pub open spec fn object_hit(o: Object, ray: Ray) -> Option<Hit> {
    match o {
        Object::SphereObject(s) => sphere_hit(s, ray),
        Object::TriangleObject(t) => triangle_hit(t, ray),
        Object::LightObject(_) => None,
    }
}

/// The closest hit among the first `n` objects: a later hit replaces the one found so far
/// only where it is strictly closer.
pub open spec fn closest_hit(scene: Seq<Object>, ray: Ray, n: int) -> Option<Hit>
    decreases n,
{
    if n <= 0 {
        None
    } else {
        let before = closest_hit(scene, ray, n - 1);
        match object_hit(scene[n - 1], ray) {
            Some(h) => match before {
                Some(b) => if h.distance < b.distance { Some(h) } else { before },
                None => Some(h),
            },
            None => before,
        }
    }
}

/// One channel of the color that shows a normal component.
pub open spec fn normal_channel(n: int) -> int {
    quot((n + UNIT) * 255, 2)
}

/// Unit vector from the hit toward the light.
pub open spec fn to_light(l: Light, h: Hit) -> V3 {
    direction(diff(l.position, h.point))
}

/// Cosine of the angle between the light and the normal, in fixed point; not clamped at 0.
pub open spec fn l_dot_n(l: Light, h: Hit) -> int {
    quot(dot3(to_light(l, h), h.surface_normal), UNIT as int)
}

pub open spec fn diffuse_part(l: Light, h: Hit, st: ShadingSettings) -> Color {
    filtered(
        scaled(l.diffuse_component, quot(st.diffuse_reflection * l_dot_n(l, h), UNIT as int)),
        h.material_color,
    )
}

/// The light's direction mirrored about the normal: `normal * 2 (l . n) - to_light`.
pub open spec fn reflected(l: Light, h: Hit) -> V3 {
    let k = 2 * l_dot_n(l, h);
    let n = h.surface_normal;
    let bent = V3 {
        x: quot(n.x * k, UNIT as int) as i64,
        y: quot(n.y * k, UNIT as int) as i64,
        z: quot(n.z * k, UNIT as int) as i64,
    };
    direction(diff(bent, to_light(l, h)))
}

pub open spec fn r_dot_v(l: Light, h: Hit, st: ShadingSettings) -> int {
    quot(dot3(reflected(l, h), direction(diff(st.camera_position, h.point))), UNIT as int)
}

/// The base of the specular power, held at most at 1.
pub open spec fn specular_base(l: Light, h: Hit, st: ShadingSettings) -> int {
    let s = quot(st.specular_reflection * r_dot_v(l, h, st), UNIT as int);
    if s > UNIT { UNIT as int } else { s }
}

pub open spec fn specular_part(l: Light, h: Hit, st: ShadingSettings) -> Color {
    if r_dot_v(l, h, st) > 0 {
        scaled(l.specular_component, pow_halves(specular_base(l, h, st), st.shininess_halves as nat))
    } else {
        black()
    }
}

/// What the first `n` objects add to the light of a hit: each light adds its diffuse and
/// its specular part, other objects nothing.
pub open spec fn light_sum(scene: Seq<Object>, h: Hit, st: ShadingSettings, n: int) -> Color
    decreases n,
{
    if n <= 0 {
        black()
    } else {
        let before = light_sum(scene, h, st, n - 1);
        match scene[n - 1] {
            Object::LightObject(l) => plus(plus(before, diffuse_part(l, h, st)), specular_part(l, h, st)),
            _ => before,
        }
    }
}

/// The color of a hit before the fade.
pub open spec fn mode_color(h: Hit, scene: Seq<Object>, st: ShadingSettings) -> Color {
    match st.color_mode {
        ColorMode::StaticColor => st.static_color,
        ColorMode::Normals => Color {
            r: normal_channel(h.surface_normal.x as int) as i64,
            g: normal_channel(h.surface_normal.y as int) as i64,
            b: normal_channel(h.surface_normal.z as int) as i64,
        },
        ColorMode::Light => plus(
            light_sum(scene, h, st, scene.len() as int),
            scaled(h.material_color, st.ambient_reflection as int),
        ),
    }
}

/// `c` seen from `distance`: unchanged up to the fade start, then blended toward black,
/// black from the fade end on.
pub open spec fn faded(c: Color, distance: int, st: ShadingSettings) -> Color {
    if distance > st.fade_distance_start {
        let span = st.fade_distance_end - st.fade_distance_start;
        let into = distance - st.fade_distance_start;
        blend(c, black(), if into > span { span } else { into }, span)
    } else {
        c
    }
}

/// The final color of a hit.
pub open spec fn shade(h: Hit, scene: Seq<Object>, st: ShadingSettings) -> Color {
    faded(mode_color(h, scene, st), h.distance as int, st)
}

/// The color seen along a ray: the shaded closest hit, or black where nothing is hit.
pub open spec fn ray_color(scene: Seq<Object>, ray: Ray, st: ShadingSettings) -> Color {
    match closest_hit(scene, ray, scene.len() as int) {
        Some(h) => shade(h, scene, st),
        None => black(),
    }
}

/// The diffuse and the specular part that `light` adds at `hit`.
fn light_parts(light: &Light, hit: &Hit, settings: &ShadingSettings) -> (r: (Color, Color))
    requires
        light.wf(),
        hit.wf(),
        settings.wf(),
    ensures
        r.0 == diffuse_part(*light, *hit, *settings),
        r.1 == specular_part(*light, *hit, *settings),
        color_bounded(r.0, CHANNEL_MAX as int),
        color_bounded(r.1, SCENE_CHANNEL_MAX as int),
{
    let ghost u = UNIT as int;
    let to_l = direction_of(&light.position.subtract(&hit.point));
    proof {
        lemma_dot_bound(to_l, hit.surface_normal, u, u);
    }
    let d = to_l.dot(&hit.surface_normal);
    proof {
        lemma_quot_le(d as int, u, 3 * u);
    }
    let ldn = quot_i128(d, UNIT as i128) as i64;
    proof {
        lemma_mul_bound(settings.diffuse_reflection as int, ldn as int, u, 3 * u);
        lemma_quot_le(settings.diffuse_reflection * ldn, u, 3 * u);
    }
    let amount = quot_i64(settings.diffuse_reflection * ldn, UNIT);
    let dl = light.diffuse_component.multiply(amount);
    proof {
        let c = light.diffuse_component;
        let m = SCENE_CHANNEL_MAX as int;
        lemma_mul_bound(c.r as int, amount as int, m, 3 * u);
        lemma_mul_bound(c.g as int, amount as int, m, 3 * u);
        lemma_mul_bound(c.b as int, amount as int, m, 3 * u);
        lemma_quot_le(c.r * amount, u, 3 * m);
        lemma_quot_le(c.g * amount, u, 3 * m);
        lemma_quot_le(c.b * amount, u, 3 * m);
    }
    let diffuse = dl.relative_element_wise_multiply(&hit.material_color);
    let view = direction_of(&settings.camera_position.subtract(&hit.point));
    let k = 2 * ldn;
    let n = hit.surface_normal;
    proof {
        lemma_mul_bound(n.x as int, k as int, u, 6 * u);
        lemma_mul_bound(n.y as int, k as int, u, 6 * u);
        lemma_mul_bound(n.z as int, k as int, u, 6 * u);
        lemma_quot_le(n.x * k, u, 6 * u);
        lemma_quot_le(n.y * k, u, 6 * u);
        lemma_quot_le(n.z * k, u, 6 * u);
    }
    let bent = V3 { x: quot_i64(n.x * k, UNIT), y: quot_i64(n.y * k, UNIT), z: quot_i64(n.z * k, UNIT) };
    let refl = direction_of(&bent.subtract(&to_l));
    proof {
        lemma_dot_bound(refl, view, u, u);
    }
    let rv = refl.dot(&view);
    proof {
        lemma_quot_le(rv as int, u, 3 * u);
    }
    let rdv = quot_i128(rv, UNIT as i128) as i64;
    let specular = if rdv > 0 {
        proof {
            lemma_mul_bound(settings.specular_reflection as int, rdv as int, u, 3 * u);
            lemma_quot_le(settings.specular_reflection * rdv, u, 3 * u);
            assert(settings.specular_reflection * rdv >= 0) by (nonlinear_arith)
                requires settings.specular_reflection >= 0, rdv > 0;
            lemma_quot_bound(settings.specular_reflection * rdv, u);
        }
        let s = quot_i64(settings.specular_reflection * rdv, UNIT);
        let base = if s > UNIT { UNIT } else { s };
        let p = pow_halves_exec(base, settings.shininess_halves);
        let c = light.specular_component;
        proof {
            let m = SCENE_CHANNEL_MAX as int;
            lemma_mul_bound(c.r as int, p as int, m, u);
            lemma_mul_bound(c.g as int, p as int, m, u);
            lemma_mul_bound(c.b as int, p as int, m, u);
            lemma_quot_le(c.r * p, u, m);
            lemma_quot_le(c.g * p, u, m);
            lemma_quot_le(c.b * p, u, m);
        }
        c.multiply(p)
    } else {
        Color { r: 0, g: 0, b: 0 }
    };
    (diffuse, specular)
}

/// The light that all lights of the scene send to `hit`, before the ambient part.
fn sum_of_lights(hit: &Hit, scene: &Vec<Object>, settings: &ShadingSettings) -> (r: Color)
    requires
        hit.wf(),
        settings.wf(),
        scene_wf(scene@),
    ensures
        r == light_sum(scene@, *hit, *settings, scene@.len() as int),
        color_bounded(r, (scene@.len() as int) * 0x200_0000_0000),
{
    let mut total = Color { r: 0, g: 0, b: 0 };
    let mut i: usize = 0;
    while i < scene.len()
        invariant
            hit.wf(),
            settings.wf(),
            scene_wf(scene@),
            i <= scene@.len(),
            total == light_sum(scene@, *hit, *settings, i as int),
            color_bounded(total, (i as int) * 0x200_0000_0000),
        decreases scene.len() - i,
    {
        assert(scene@[i as int].wf());
        match &scene[i] {
            Object::LightObject(light) => {
                let (diffuse, specular) = light_parts(light, hit, settings);
                total = total.add(&diffuse);
                total = total.add(&specular);
            },
            _ => {},
        }
        i = i + 1;
    }
    total
}

/// `color` seen from `distance`: unchanged up to the fade start, blended toward black after
/// it, black from the fade end on.
pub fn fade(color: &Color, distance: i64, settings: &ShadingSettings) -> (r: Color)
    requires
        color_bounded(*color, BLEND_MAX as int),
        settings.wf(),
        distance >= 0,
    ensures
        r == faded(*color, distance as int, *settings),
{
    if distance > settings.fade_distance_start {
        let span = settings.fade_distance_end - settings.fade_distance_start;
        let into = distance - settings.fade_distance_start;
        let ratio_num = if into > span { span } else { into };
        proof {
            lemma_blend_to_black_fits(color.r as int, ratio_num as int, span as int);
            lemma_blend_to_black_fits(color.g as int, ratio_num as int, span as int);
            lemma_blend_to_black_fits(color.b as int, ratio_num as int, span as int);
        }
        color.lerp(&Color { r: 0, g: 0, b: 0 }, ratio_num, span)
    } else {
        *color
    }
}

/// Blending toward black by a ratio in `[0, 1]` stays between the channel and 0.
proof fn lemma_blend_to_black_fits(c: int, num: int, den: int)
    requires
        0 <= num <= den,
        0 < den,
        -BLEND_MAX <= c <= BLEND_MAX,
    ensures
        -BLEND_MAX <= blend_channel(c, 0, num, den) <= BLEND_MAX,
{
    let p = (0 - c) * num;
    if c >= 0 {
        assert(-(c * den) <= p <= 0) by (nonlinear_arith) requires p == (0 - c) * num, 0 <= num <= den, c >= 0;
        lemma_quot_le(p, den, c);
        lemma_quot_bound(p, den);
    } else {
        assert(0 <= p <= (-c) * den) by (nonlinear_arith) requires p == (0 - c) * num, 0 <= num <= den, c < 0;
        lemma_quot_le(p, den, -c);
        lemma_quot_bound(p, den);
    }
}

/// The final color of `hit` under the settings' color mode, after the fade.
pub fn get_color_for_hitpoint(hit: &Hit, scene: &Vec<Object>, settings: &ShadingSettings) -> (r: Color)
    requires
        hit.wf(),
        settings.wf(),
        scene_wf(scene@),
    ensures
        r == shade(*hit, scene@, *settings),
{
    let computed_color = match settings.color_mode {
        ColorMode::StaticColor => settings.static_color,
        ColorMode::Normals => {
            let n = hit.surface_normal;
            Color {
                r: (n.x + UNIT) * 255 / 2,
                g: (n.y + UNIT) * 255 / 2,
                b: (n.z + UNIT) * 255 / 2,
            }
        },
        ColorMode::Light => {
            let lights = sum_of_lights(hit, scene, settings);
            proof {
                let m = SCENE_CHANNEL_MAX as int;
                let c = hit.material_color;
                let a = settings.ambient_reflection as int;
                let u = UNIT as int;
                lemma_mul_bound(c.r as int, a, m, u);
                lemma_mul_bound(c.g as int, a, m, u);
                lemma_mul_bound(c.b as int, a, m, u);
                lemma_quot_le(c.r * a, u, m);
                lemma_quot_le(c.g * a, u, m);
                lemma_quot_le(c.b * a, u, m);
            }
            let ambient = hit.material_color.multiply(settings.ambient_reflection);
            lights.add(&ambient)
        },
    };
    fade(&computed_color, hit.distance, settings)
}

/// The hit of `ray` on `object`, if any.
pub fn intersect_object(object: &Object, ray: &Ray) -> (r: Option<Hit>)
    requires
        object.wf(),
        ray.wf(),
    ensures
        r == object_hit(*object, *ray),
        r matches Some(h) ==> h.wf(),
{
    match object {
        Object::SphereObject(s) => s.intersect(ray),
        Object::TriangleObject(t) => t.intersect(ray),
        Object::LightObject(_) => None,
    }
}

/// Where no object of the first `n` is hit, there is no closest hit.
pub proof fn lemma_no_hit_no_closest(scene: Seq<Object>, ray: Ray, n: int)
    requires
        0 <= n <= scene.len(),
        forall|i: int| 0 <= i < n ==> #[trigger] object_hit(scene[i], ray) is None,
    ensures
        closest_hit(scene, ray, n) is None,
    decreases n,
{
    if n > 0 {
        lemma_no_hit_no_closest(scene, ray, n - 1);
        assert(object_hit(scene[n - 1], ray) is None);
    }
}

/// The color seen along `ray`: the closest hit shaded, or black where the ray hits nothing.
pub fn send_ray(scene: &Vec<Object>, ray: &Ray, settings: &ShadingSettings) -> (r: Color)
    requires
        scene_wf(scene@),
        ray.wf(),
        settings.wf(),
    ensures
        r == ray_color(scene@, *ray, *settings),
        (forall|i: int| 0 <= i < scene@.len() ==> #[trigger] object_hit(scene@[i], *ray) is None)
            ==> r == black(),
{
    let mut closest_hit_distance: i64 = i64::MAX;
    let mut closest: Option<Hit> = None;
    let mut i: usize = 0;
    while i < scene.len()
        invariant
            scene_wf(scene@),
            ray.wf(),
            i <= scene@.len(),
            closest == closest_hit(scene@, *ray, i as int),
            match closest {
                Some(h) => h.wf() && closest_hit_distance == h.distance,
                None => closest_hit_distance == i64::MAX,
            },
        decreases scene.len() - i,
    {
        assert(scene@[i as int].wf());
        let opt_hit = intersect_object(&scene[i], ray);
        match opt_hit {
            Some(hit) => {
                if hit.distance < closest_hit_distance {
                    closest_hit_distance = hit.distance;
                    closest = Some(hit);
                }
            },
            None => {},
        }
        i = i + 1;
    }
    proof {
        if forall|i: int| 0 <= i < scene@.len() ==> #[trigger] object_hit(scene@[i], *ray) is None {
            lemma_no_hit_no_closest(scene@, *ray, scene@.len() as int);
        }
    }
    match closest {
        Some(hit) => get_color_for_hitpoint(&hit, scene, settings),
        None => Color { r: 0, g: 0, b: 0 },
    }
}

} // verus!
