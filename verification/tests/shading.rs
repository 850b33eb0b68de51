use raytracer::color::Color;
use raytracer::image::RgbImage;
use raytracer::material::{blend_case, is_reflective, is_refractive, BlendCase, Texture};
use raytracer::math_util::Vec3;
use raytracer::primitives::{Plane, Sphere};
use raytracer::ray::{Hit, Interface};
use raytracer::renderer::{recursion_ends, Renderer};
use raytracer::scalar::Scalar;
use raytracer::scene::{closer, in_light, trace};

fn sc(x: f32) -> Scalar {
    Scalar::from_bits(x.to_bits())
}

fn fl(x: Scalar) -> f32 {
    f32::from_bits(x.to_bits())
}

fn color(r: f32, g: f32, b: f32) -> Color {
    Color::new(sc(r), sc(g), sc(b))
}

fn channels(c: Color) -> [f32; 3] {
    [fl(c.r), fl(c.g), fl(c.b)]
}

fn quantize(c: Color) -> (u8, u8, u8) {
    ((fl(c.r) * 255.0) as u8, (fl(c.g) * 255.0) as u8, (fl(c.b) * 255.0) as u8)
}

fn hit_at(point: [f32; 3], distance: f32, normal: [f32; 3]) -> Hit {
    Hit::new(
        Vec3::new(sc(point[0]), sc(point[1]), sc(point[2])),
        sc(distance),
        Vec3::new(sc(normal[0]), sc(normal[1]), sc(normal[2])),
        (sc(0.0), sc(0.0)),
    )
}

/// Distance at which a ray meets the unit sphere around `center`.
fn sphere_hit(origin: [f32; 3], dir: [f32; 3], center: [f32; 3]) -> Option<f32> {
    let to_center = [center[0] - origin[0], center[1] - origin[1], center[2] - origin[2]];
    let adjacent = to_center[0] * dir[0] + to_center[1] * dir[1] + to_center[2] * dir[2];
    let center_distance_squared =
        to_center[0] * to_center[0] + to_center[1] * to_center[1] + to_center[2] * to_center[2];
    let distance_squared = center_distance_squared - adjacent.powi(2);
    let thickness_half = (1.0 - distance_squared).sqrt();
    let (t0, t1) = (adjacent - thickness_half, adjacent + thickness_half);
    (Sphere {}).nearer_crossing(sc(distance_squared), sc(t0), sc(t1)).map(fl)
}

/// Distance at which a ray meets the plane at height `y` that faces up.
fn plane_hit(origin: [f32; 3], dir: [f32; 3], y: f32) -> Option<f32> {
    let denominator = -dir[1];
    let distance = (origin[1] - y) / denominator;
    if (Plane {}).is_hit(sc(denominator), sc(distance)) {
        Some(distance)
    } else {
        None
    }
}

#[test]
fn empty_scene_renders_the_clear_color() {
    let clear = color(0.2, 0.3, 0.4);
    let shade = |_x: usize, _y: usize| quantize(clear.clamp());
    let img = Renderer::new((2, 2)).render(&shade);
    assert_eq!((img.width(), img.height()), (2, 2));
    for y in 0..2 {
        for x in 0..2 {
            assert_eq!(img.get_pixel(x, y), (51, 76, 102));
        }
    }
}

#[test]
fn render_rect_asks_for_each_pixel_of_the_rectangle() {
    let shade = |x: usize, y: usize| (x as u8, y as u8, (10 * y + x) as u8);
    let img = Renderer::new((8, 8)).render_rect(3, 2, 4, 3, &shade);
    assert_eq!((img.width(), img.height()), (4, 3));
    for row in 0..3 {
        for column in 0..4 {
            let (x, y) = (column + 3, row + 2);
            assert_eq!(img.get_pixel(column, row), (x as u8, y as u8, (10 * y + x) as u8));
        }
    }
    let none = Renderer::new((8, 8)).render_rect(3, 2, 0, 3, &shade);
    assert_eq!(none.data().len(), 0);
}

#[test]
fn rendering_twice_gives_the_same_image() {
    let shade = |x: usize, y: usize| ((x * 31 + y * 7) as u8, (x ^ y) as u8, 200);
    let renderer = Renderer::new((16, 9));
    assert_eq!(renderer.render(&shade).into_raw(), renderer.render(&shade).into_raw());
}

#[test]
fn red_sphere_under_ambient_light_is_red() {
    let distance = sphere_hit([0.0, 0.0, 5.0], [0.0, 0.0, -1.0], [0.0, 0.0, 0.0]).unwrap();
    assert_eq!(distance, 4.0);
    let material = [1.0f32, 0.0, 0.0];
    let ambient = [1.0f32, 1.0, 1.0];
    let lit = color(material[0] * ambient[0], material[1] * ambient[1], material[2] * ambient[2]);
    let shade = |_x: usize, _y: usize| quantize(lit.clamp());
    let img = Renderer::new((1, 1)).render(&shade);
    let (r, g, b) = img.get_pixel(0, 0);
    assert!(r > 0);
    assert_eq!((g, b), (0, 0));
}

#[test]
fn sphere_crossings() {
    assert_eq!(sphere_hit([0.0, 0.0, 0.0], [1.0, 0.0, 0.0], [0.0, 0.0, 0.0]), Some(1.0));
    assert_eq!(sphere_hit([0.0, 0.0, 5.0], [0.0, 0.0, 1.0], [0.0, 0.0, 0.0]), None);
    assert_eq!(sphere_hit([0.0, 2.0, 5.0], [0.0, 0.0, -1.0], [0.0, 0.0, 0.0]), None);
    assert_eq!(sphere_hit([0.0, 1.0, 5.0], [0.0, 0.0, -1.0], [0.0, 0.0, 0.0]), Some(5.0));
    let s = Sphere {};
    assert_eq!(s.nearer_crossing(sc(0.0), sc(-1.0), sc(-0.5)).map(fl), None);
    assert_eq!(s.nearer_crossing(sc(0.0), sc(2.0), sc(-0.5)).map(fl), Some(2.0));
    assert_eq!(s.nearer_crossing(sc(0.0), sc(3.0), sc(2.0)).map(fl), Some(2.0));
    assert_eq!(s.nearer_crossing(sc(1.5), sc(1.0), sc(2.0)).map(fl), None);
}

#[test]
fn plane_is_hit_from_the_front_only() {
    assert_eq!(plane_hit([0.0, 5.0, 0.0], [0.0, -1.0, 0.0], 0.0), Some(5.0));
    assert_eq!(plane_hit([0.0, 5.0, 0.0], [0.0, 1.0, 0.0], 0.0), None);
    assert_eq!(plane_hit([0.0, -5.0, 0.0], [0.0, -1.0, 0.0], 0.0), None);
    assert_eq!(plane_hit([0.0, 5.0, 0.0], [1.0, 0.0, 0.0], 0.0), None);
    assert!(!(Plane {}).is_hit(sc(0.0), sc(1.0)));
    assert!(!(Plane {}).is_hit(sc(1.0), sc(0.0)));
}

#[test]
fn plane_under_a_directional_light() {
    let distance = plane_hit([0.0, 5.0, 0.0], [0.0, -1.0, 0.0], 0.0).unwrap();
    assert_eq!(distance, 5.0);
    let normal = [0.0f32, 1.0, 0.0];
    let light_dir = [0.0f32, -1.0, 0.0];
    let to_light = [-light_dir[0], -light_dir[1], -light_dir[2]];
    // Nothing stands between the plane and the light.
    let shadow = trace(1, &|_i: usize| {
        plane_hit([0.0, 1e-5, 0.0], to_light, 0.0).map(|d| hit_at([0.0, 0.0, 0.0], d, normal))
    });
    assert!(shadow.is_none());
    let cosine = (normal[0] * to_light[0] + normal[1] * to_light[1] + normal[2] * to_light[2]).max(0.0);
    for (light_color, intensity) in [([1.0f32, 1.0, 1.0], 1.0f32), ([1.0, 0.5, 0.25], 2.0), ([1.0, 1.0, 1.0], 10.0)] {
        let factor = cosine * intensity * (1.0 / std::f32::consts::PI);
        let lit = color(light_color[0] * factor, light_color[1] * factor, light_color[2] * factor);
        let expected: Vec<f32> = light_color.iter().map(|c| (c * factor).min(1.0).max(0.0)).collect();
        assert_eq!(channels(lit.clamp()).to_vec(), expected);
    }
}

#[test]
fn sphere_casts_a_shadow_on_the_plane() {
    let light = [0.0f32, 10.0, 0.0];
    let intensity = 4.0 * std::f32::consts::PI * 100.0;
    let ambient = 0.1f32;
    let shade = |point: [f32; 3]| -> f32 {
        let to = [light[0] - point[0], light[1] - point[1], light[2] - point[2]];
        let light_distance = (to[0] * to[0] + to[1] * to[1] + to[2] * to[2]).sqrt();
        let dir = [to[0] / light_distance, to[1] / light_distance, to[2] / light_distance];
        let start = [point[0], point[1] + 1e-5, point[2]];
        let shadow_hit = trace(2, &|i: usize| {
            let d = if i == 0 { sphere_hit(start, dir, [0.0, 0.0, 0.0]) } else { plane_hit(start, dir, -1.0) };
            d.map(|d| hit_at(start, d, [0.0, 1.0, 0.0]))
        });
        let mut value = ambient;
        if in_light(&shadow_hit.map(|(_, hit)| hit), sc(light_distance)) {
            let power = dir[1].max(0.0) * intensity / (4.0 * std::f32::consts::PI * light_distance * light_distance);
            value += power / std::f32::consts::PI;
        }
        fl(color(value, value, value).clamp().r)
    };
    let under_the_sphere = shade([0.0, -1.0, 0.0]);
    let far_away = shade([20.0, -1.0, 0.0]);
    assert_eq!(under_the_sphere, ambient);
    assert!(far_away > ambient);
}

#[test]
fn trace_returns_the_nearest_object_and_the_first_of_equals() {
    let distances = [Some(5.0f32), None, Some(2.0), Some(7.0), Some(2.0)];
    let found = trace(5, &|i: usize| distances[i].map(|d| hit_at([0.0; 3], d, [0.0, 1.0, 0.0])));
    let (index, hit) = found.unwrap();
    assert_eq!((index, fl(hit.distance)), (2, 2.0));
    assert!(trace(3, &|_i: usize| None).is_none());
    assert!(trace(0, &|_i: usize| Some(hit_at([0.0; 3], 1.0, [0.0; 3]))).is_none());
}

#[test]
fn closer_replaces_only_by_a_strictly_nearer_hit() {
    let a = hit_at([0.0; 3], 3.0, [0.0; 3]);
    let b = hit_at([0.0; 3], 3.0, [0.0; 3]);
    let c = hit_at([0.0; 3], 1.0, [0.0; 3]);
    assert_eq!(closer(None, 1, Some(a)).unwrap().0, 1);
    assert_eq!(closer(Some((1, a)), 2, Some(b)).unwrap().0, 1);
    assert_eq!(closer(Some((1, a)), 2, Some(c)).unwrap().0, 2);
    assert_eq!(closer(Some((1, a)), 2, None).unwrap().0, 1);
    assert!(closer(None, 2, None).is_none());
}

#[test]
fn clamp_cuts_every_channel_to_the_unit_range() {
    let c = color(1.5, -0.25, 0.75).clamp();
    assert_eq!(channels(c), [1.0, 0.0, 0.75]);
    let odd = color(f32::NAN, f32::INFINITY, f32::NEG_INFINITY).clamp();
    assert_eq!(channels(odd), [f32::NAN.min(1.0).max(0.0), 1.0, 0.0]);
    for x in [-3.0f32, -0.0, 0.0, 0.3, 1.0, 1.0001, 1e30] {
        let r = fl(color(x, x, x).clamp().r);
        assert!(0.0 <= r && r <= 1.0);
        assert_eq!(r, x.min(1.0).max(0.0));
    }
    assert_eq!(channels(Color::black()), [0.0, 0.0, 0.0]);
}

#[test]
fn texels_wrap_around() {
    let img = RgbImage::from_raw(2, 3, (0u8..18).collect());
    let texture = Texture::new(std::path::PathBuf::from("checker.png"), img);
    assert_eq!(texture.texel(0, 0), (0, 1, 2));
    assert_eq!(texture.texel(1, 2), (15, 16, 17));
    assert_eq!(texture.texel(2, 3), (0, 1, 2));
    assert_eq!(texture.texel(-1, -1), (15, 16, 17));
    assert_eq!(texture.texel(-2, 4), (6, 7, 8));
    assert_eq!(texture.texel(5, -4), (15, 16, 17));
    assert_eq!(texture.texel(i64::MIN, i64::MAX), texture.texel(0, 1));
}

#[test]
fn light_leaving_dense_glass_at_a_flat_angle_is_all_reflected() {
    let refractive_index = 2.0f32;
    // Leaving the body: the ray points along the outward normal.
    let cosine = 0.5f32;
    let interface = Interface::of(sc(cosine), sc(refractive_index));
    assert!(!interface.entering);
    assert_eq!((fl(interface.eta_i), fl(interface.eta_t)), (2.0, 1.0));
    let eta = fl(interface.eta_i) / fl(interface.eta_t);
    let k = 1.0 - eta.powi(2) * (1.0 - cosine.powi(2));
    assert!(Interface::blocks_transmission(sc(k)));
    let sin_theta_t = eta * (1.0 - cosine.powi(2)).sqrt();
    assert!(Interface::reflects_all(sc(sin_theta_t)));
    // With all light reflected, the refracted part is the mirrored color.
    let k_r = 1.0f32;
    let reflective = [0.25f32, 0.5, 0.75];
    let transmitted = [0.0f32; 3];
    for c in 0..3 {
        assert_eq!(k_r * reflective[c] + (1.0 - k_r) * transmitted[c], reflective[c]);
    }

    // Nearly along the normal the ray gets out.
    let steep = 0.95f32;
    let k = 1.0 - eta.powi(2) * (1.0 - steep.powi(2));
    assert!(!Interface::blocks_transmission(sc(k)));
    assert!(!Interface::reflects_all(sc(eta * (1.0 - steep.powi(2)).sqrt())));

    // Entering the body: from index one into the body's index.
    let entering = Interface::of(sc(-0.5), sc(refractive_index));
    assert!(entering.entering);
    assert_eq!((fl(entering.eta_i), fl(entering.eta_t)), (1.0, 2.0));
    assert!(Interface::reflects_all(sc(1.0)));
    assert!(!Interface::blocks_transmission(sc(0.0)));
}

#[test]
fn materials_mirror_and_refract() {
    assert!(!is_refractive(sc(0.0)));
    assert!(is_refractive(sc(0.1)));
    assert!(!is_reflective(sc(0.0), sc(0.0)));
    assert!(is_reflective(sc(0.3), sc(0.0)));
    assert!(is_reflective(sc(0.0), sc(0.3)));
    assert!(!is_reflective(sc(-1.0), sc(f32::NAN)));
}

#[test]
fn a_point_is_lit_unless_something_stands_before_the_light() {
    assert!(in_light(&None, sc(10.0)));
    assert!(in_light(&Some(hit_at([0.0; 3], 11.0, [0.0; 3])), sc(10.0)));
    assert!(!in_light(&Some(hit_at([0.0; 3], 10.0, [0.0; 3])), sc(10.0)));
    assert!(!in_light(&Some(hit_at([0.0; 3], 3.0, [0.0; 3])), sc(10.0)));
    assert!(!in_light(&Some(hit_at([0.0; 3], 1.0e30, [0.0; 3])), sc(f32::INFINITY)));
}

#[test]
fn ray_that_starts_inside_the_sphere_hits_it_ahead() {
    // The centre lies behind the origin; the crossings are -1.5 and 0.5.
    assert_eq!(sphere_hit([0.0, 0.0, 0.5], [0.0, 0.0, 1.0], [0.0, 0.0, 0.0]), Some(0.5));
    assert_eq!((Sphere {}).nearer_crossing(sc(0.0), sc(-1.5), sc(0.5)).map(fl), Some(0.5));
    // From the centre the sphere is one away in every direction.
    assert_eq!(sphere_hit([0.0, 0.0, 0.0], [0.0, 1.0, 0.0], [0.0, 0.0, 0.0]), Some(1.0));
    // A sphere wholly behind the ray is missed.
    assert_eq!(sphere_hit([0.0, 0.0, 5.0], [0.0, 0.0, 1.0], [0.0, 0.0, 0.0]), None);
}

#[test]
fn blend_cases() {
    assert_eq!(blend_case(sc(2.0), sc(2.0), sc(5.0), sc(5.0)), BlendCase::Exact);
    assert_eq!(blend_case(sc(2.0), sc(3.0), sc(5.0), sc(5.0)), BlendCase::AlongRow);
    assert_eq!(blend_case(sc(2.0), sc(2.0), sc(5.0), sc(6.0)), BlendCase::AlongColumn);
    assert_eq!(blend_case(sc(2.0), sc(3.0), sc(5.0), sc(6.0)), BlendCase::Between);
    assert_eq!(blend_case(sc(-0.0), sc(0.0), sc(-1.0), sc(-0.0)), BlendCase::AlongColumn);
    assert_eq!(blend_case(sc(f32::NAN), sc(f32::NAN), sc(1.0), sc(1.0)), BlendCase::AlongRow);
}

#[test]
fn rays_are_followed_up_to_the_depth_limit() {
    assert!(!recursion_ends(0, 0));
    assert!(recursion_ends(1, 0));
    assert!(!recursion_ends(5, 5));
    assert!(recursion_ends(6, 5));
    assert!(!recursion_ends(0, u32::MAX));
    assert!(!recursion_ends(u32::MAX, u32::MAX));
}

#[test]
fn texture_keeps_its_path_and_image() {
    let img = RgbImage::from_raw(1, 1, vec![7, 8, 9]);
    let texture = Texture::new(std::path::PathBuf::from("dir/wood.png"), img);
    assert_eq!(texture.path.to_str(), Some("dir/wood.png"));
    assert_eq!(texture.img.get_pixel(0, 0), (7, 8, 9));
}
