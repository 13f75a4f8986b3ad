use raytracer::frame::{assemble, pixel_offsets, quantize, Pixel};
use raytracer::objects::plane::{self, Footprint};
use raytracer::objects::sphere;
use raytracer::raytracing::physics::{
    incidence, light_reaches, ray_ends, scene_intersect, total_reflection,
};
use raytracer::single::{positive_part, ONE};

const EPS: f32 = 1e-3;
const VIEW: f32 = 1000.0;

fn dot(a: [f32; 3], b: [f32; 3]) -> f32 {
    a[0] * b[0] + a[1] * b[1] + a[2] * b[2]
}

fn sub(a: [f32; 3], b: [f32; 3]) -> [f32; 3] {
    [a[0] - b[0], a[1] - b[1], a[2] - b[2]]
}

fn norm(a: [f32; 3]) -> [f32; 3] {
    let len = dot(a, a).sqrt();
    [a[0] / len, a[1] / len, a[2] / len]
}

fn hit_sphere(center: [f32; 3], radius: f32, orig: [f32; 3], dir: [f32; 3]) -> Option<f32> {
    let l = sub(center, orig);
    let tca = dot(l, dir);
    let d2 = dot(l, l) - tca * tca;
    let r2 = radius * radius;
    let thc = (r2 - d2).sqrt();
    sphere::intersect(
        d2.to_bits(),
        r2.to_bits(),
        (tca - thc).to_bits(),
        (tca + thc).to_bits(),
        EPS.to_bits(),
    )
    .map(f32::from_bits)
}

fn hit_plane(center: [f32; 3], size: f32, orig: [f32; 3], dir: [f32; 3]) -> Option<f32> {
    let d = -(orig[1] - center[1]) / dir[1];
    let p = [orig[0] + dir[0] * d, orig[1] + dir[1] * d, orig[2] + dir[2] * d];
    let f = Footprint {
        x_low: (center[0] - size / 2.0).to_bits(),
        x_high: (center[0] + size / 2.0).to_bits(),
        z_low: (center[2] - size / 2.0).to_bits(),
        z_high: (center[2] + size / 2.0).to_bits(),
    };
    plane::intersect(dir[1].to_bits(), d.to_bits(), p[0].to_bits(), p[2].to_bits(), &f, EPS.to_bits())
        .map(f32::from_bits)
}

#[test]
fn ray_at_the_centre_hits_the_near_side() {
    let t = hit_sphere([0.0, 0.0, -5.0], 1.0, [0.0, 0.0, 0.0], [0.0, 0.0, -1.0]).unwrap();
    assert!((t - 4.0).abs() < 1e-5);
    let t = hit_sphere([3.0, 4.0, 0.0], 2.0, [0.0, 0.0, 0.0], norm([3.0, 4.0, 0.0])).unwrap();
    assert!((t - 3.0).abs() < 1e-5);
}

#[test]
fn ray_from_inside_hits_the_far_side() {
    let t = hit_sphere([0.0, 0.0, 0.0], 2.0, [0.0, 0.0, 0.0], [0.0, 0.0, -1.0]).unwrap();
    assert!((t - 2.0).abs() < 1e-5);
}

#[test]
fn ray_from_the_surface_does_not_hit_where_it_starts() {
    let t = hit_sphere([0.0, 0.0, -5.0], 1.0, [0.0, 0.0, -4.0], [0.0, 0.0, -1.0]).unwrap();
    assert!((t - 2.0).abs() < 1e-5);
    assert_eq!(hit_sphere([0.0, 0.0, -5.0], 1.0, [0.0, 0.0, -4.0], [0.0, 0.0, 1.0]), None);
}

#[test]
fn ray_past_the_sphere_misses() {
    assert_eq!(hit_sphere([0.0, 0.0, -5.0], 1.0, [0.0, 0.0, 0.0], [0.0, 1.0, 0.0]), None);
    assert_eq!(hit_sphere([0.0, 0.0, -5.0], 1.0, [0.0, 0.0, 0.0], norm([0.0, 1.0, -2.0])), None);
}

#[test]
fn sphere_behind_the_ray_misses() {
    assert_eq!(hit_sphere([0.0, 0.0, 5.0], 1.0, [0.0, 0.0, 0.0], [0.0, 0.0, -1.0]), None);
}

#[test]
fn sphere_roots_are_taken_in_order() {
    let b = |x: f32| x.to_bits();
    assert_eq!(sphere::intersect(b(0.5), b(1.0), b(3.0), b(5.0), b(EPS)), Some(b(3.0)));
    assert_eq!(sphere::intersect(b(0.5), b(1.0), b(-3.0), b(5.0), b(EPS)), Some(b(5.0)));
    assert_eq!(sphere::intersect(b(0.5), b(1.0), b(EPS), b(5.0), b(EPS)), Some(b(5.0)));
    assert_eq!(sphere::intersect(b(0.5), b(1.0), b(-3.0), b(-1.0), b(EPS)), None);
    assert_eq!(sphere::intersect(b(1.5), b(1.0), b(3.0), b(5.0), b(EPS)), None);
    assert_eq!(sphere::intersect(b(1.0), b(1.0), b(3.0), b(3.0), b(EPS)), Some(b(3.0)));
    assert_eq!(sphere::intersect(b(1.5), b(1.0), b(f32::NAN), b(f32::NAN), b(EPS)), None);
    assert_eq!(sphere::intersect(b(f32::NAN), b(1.0), b(f32::NAN), b(f32::NAN), b(EPS)), None);
}

#[test]
fn ray_into_the_footprint_hits_the_tile() {
    let t = hit_plane([0.0, -5.0, -15.0], 10.0, [0.0, 0.0, 0.0], norm([0.0, -1.0, -3.0])).unwrap();
    let len = (1.0f32 + 9.0).sqrt();
    assert!((t - 5.0 * len).abs() < 1e-4);
}

#[test]
fn ray_beside_the_footprint_misses_the_tile() {
    let dir = norm([0.0, -1.0, -3.0]);
    assert!(hit_plane([0.0, -5.0, -15.0], 10.0, [0.0, 0.0, 0.0], dir).is_some());
    assert_eq!(hit_plane([0.0, -5.0, -15.0], 10.0, [5.5, 0.0, 0.0], dir), None);
    assert_eq!(hit_plane([0.0, -5.0, -15.0], 10.0, [-5.5, 0.0, 0.0], dir), None);
    assert_eq!(hit_plane([0.0, -5.0, -15.0], 10.0, [0.0, 0.0, 6.0], dir), None);
    assert_eq!(hit_plane([0.0, -5.0, -15.0], 10.0, [0.0, 0.0, -6.0], dir), None);
}

#[test]
fn ray_on_the_edge_of_the_footprint_misses() {
    assert_eq!(hit_plane([0.0, -5.0, 0.0], 10.0, [5.0, 0.0, 0.0], [0.0, -1.0, 0.0]), None);
    assert!(hit_plane([0.0, -5.0, 0.0], 10.0, [4.5, 0.0, 0.0], [0.0, -1.0, 0.0]).is_some());
}

#[test]
fn ray_along_or_away_from_the_plane_misses() {
    assert_eq!(hit_plane([0.0, -5.0, -15.0], 10.0, [0.0, 0.0, 0.0], [0.0, 0.0, -1.0]), None);
    assert_eq!(hit_plane([0.0, -5.0, -15.0], 10.0, [0.0, 0.0, 0.0], norm([0.0, 1.0, -3.0])), None);
    assert_eq!(hit_plane([0.0, -5.0, -15.0], 10.0, [0.0, 0.0, 0.0], norm([0.0, -0.0005, -1.0])), None);
}

#[test]
fn checker_follows_the_bit_rule() {
    let b = |x: f32| x.to_bits();
    assert!(plane::checker(b(1.5)));
    assert!(plane::checker(b(3.7)));
    assert!(!plane::checker(b(2.0)));
    assert!(!plane::checker(b(33.2)));
    assert!(!plane::checker(b(35.0)));
    assert!(plane::checker(b(65.0)));
    assert!(plane::checker(b(-62.5)));
    assert!(!plane::checker(b(-0.5)));
    assert!(!plane::checker(b(0.0)));
    for k in -200i32..200 {
        let x = k as f32 + 0.25;
        assert_eq!(plane::checker(b(x)), (x.floor() as i32) & 33 == 1, "{}", x);
    }
}

#[test]
fn scene_takes_the_nearest_hit() {
    let b = |x: f32| Some(x.to_bits());
    let found = scene_intersect(&vec![b(7.0), None, b(3.0), b(12.0)], VIEW.to_bits());
    assert!(found.hit);
    assert_eq!(found.index, Some(2));
    assert_eq!(found.distance, 3.0f32.to_bits());
}

#[test]
fn scene_takes_the_last_of_equal_hits() {
    let b = |x: f32| Some(x.to_bits());
    let found = scene_intersect(&vec![b(3.0), b(7.0), b(3.0), b(9.0)], VIEW.to_bits());
    assert_eq!(found.index, Some(2));
}

#[test]
fn scene_without_hits_reports_none() {
    let found = scene_intersect(&vec![None, None], VIEW.to_bits());
    assert!(!found.hit);
    assert_eq!(found.index, None);
    assert_eq!(found.distance, f32::MAX.to_bits());
    let found = scene_intersect(&Vec::new(), VIEW.to_bits());
    assert!(!found.hit);
    assert_eq!(found.index, None);
}

#[test]
fn scene_hit_beyond_view_is_a_miss() {
    let b = |x: f32| Some(x.to_bits());
    let found = scene_intersect(&vec![b(1500.0), b(1000.0)], VIEW.to_bits());
    assert!(!found.hit);
    assert_eq!(found.index, Some(1));
    let found = scene_intersect(&vec![b(999.9)], VIEW.to_bits());
    assert!(found.hit);
}

#[test]
fn scene_skips_a_hit_at_infinity() {
    let b = |x: f32| Some(x.to_bits());
    let found = scene_intersect(&vec![b(f32::INFINITY)], f32::INFINITY.to_bits());
    assert_eq!(found.index, None);
    assert!(found.hit);
    let found = scene_intersect(&vec![b(f32::MAX)], VIEW.to_bits());
    assert_eq!(found.index, Some(0));
    assert!(!found.hit);
}

#[test]
fn blocker_before_the_light_casts_a_shadow() {
    let b = |x: f32| x.to_bits();
    assert!(!light_reaches(true, b(2.0), b(5.0)));
    assert!(light_reaches(true, b(7.0), b(5.0)));
    assert!(light_reaches(true, b(5.0), b(5.0)));
    assert!(light_reaches(false, b(2.0), b(5.0)));
}

#[test]
fn sphere_between_light_and_point_takes_the_light_away() {
    // A point on the floor at the origin, a light straight above it, a sphere between them.
    let point = [0.0, 0.0, 0.0];
    let light = [0.0, 10.0, 0.0];
    let to_light = sub(light, point);
    let light_dir = norm(to_light);
    let light_distance = dot(to_light, to_light).sqrt();
    let normal = [0.0, 1.0, 0.0];
    let shade = |hits: Vec<Option<u32>>| {
        let found = scene_intersect(&hits, VIEW.to_bits());
        if light_reaches(found.hit, found.distance, light_distance.to_bits()) {
            f32::from_bits(positive_part(dot(light_dir, normal).to_bits()))
        } else {
            0.0
        }
    };
    let blocker = hit_sphere([0.0, 5.0, 0.0], 1.0, point, light_dir);
    assert_eq!(blocker.map(|t| (t - 4.0).abs() < 1e-5), Some(true));
    assert_eq!(shade(vec![blocker.map(f32::to_bits)]), 0.0);
    let beyond = hit_sphere([0.0, 15.0, 0.0], 1.0, point, light_dir);
    assert!(beyond.is_some());
    assert_eq!(shade(vec![beyond.map(f32::to_bits)]), 1.0);
    let aside = hit_sphere([4.0, 5.0, 0.0], 1.0, point, light_dir);
    assert_eq!(aside, None);
    assert_eq!(shade(vec![None]), 1.0);
}

#[test]
fn rays_end_past_the_bound_or_on_a_miss() {
    assert!(!ray_ends(0, 4, true));
    assert!(!ray_ends(4, 4, true));
    assert!(ray_ends(5, 4, true));
    assert!(ray_ends(0, 4, false));
    assert!(ray_ends(5, 4, false));
}

#[test]
fn with_a_bound_of_zero_no_ray_bounces() {
    assert!(!ray_ends(0, 0, true));
    for depth in 0..3 {
        assert!(ray_ends(depth + 1, 0, true));
        assert!(ray_ends(depth + 1, 0, false));
    }
}

#[test]
fn incidence_changes_sides_once() {
    let b = |x: f32| x.to_bits();
    let outside = incidence(b(-0.5));
    assert!(!outside.inside);
    assert_eq!(outside.cosine, b(0.5));
    let inside = incidence(b(0.5));
    assert!(inside.inside);
    assert_eq!(inside.cosine, b(0.5));
    let steep = incidence(b(-1.5));
    assert!(!steep.inside);
    assert_eq!(steep.cosine, ONE);
    let far = incidence(b(2.0));
    assert!(far.inside);
    assert_eq!(far.cosine, ONE);
    let grazing = incidence(b(0.0));
    assert!(!grazing.inside);
    assert_eq!(grazing.cosine, b(-0.0));
}

#[test]
fn total_reflection_reads_the_sign() {
    let b = |x: f32| x.to_bits();
    assert!(total_reflection(b(-0.25)));
    assert!(total_reflection(b(-0.0)));
    assert!(!total_reflection(b(0.0)));
    assert!(!total_reflection(b(0.75)));
}

#[test]
fn offsets_follow_rows_from_the_top_left() {
    assert_eq!(pixel_offsets(0, 2, 2), (-1, 1));
    assert_eq!(pixel_offsets(1, 2, 2), (1, 1));
    assert_eq!(pixel_offsets(2, 2, 2), (-1, -1));
    assert_eq!(pixel_offsets(3, 2, 2), (1, -1));
    assert_eq!(pixel_offsets(0, 3, 1), (-2, 0));
    assert_eq!(pixel_offsets(1, 3, 1), (0, 0));
    assert_eq!(pixel_offsets(3839, 3840, 2160), (3839, 2159));
    assert_eq!(pixel_offsets(3840, 3840, 2160), (-3839, 2157));
}

#[test]
fn offsets_are_the_direction_formula() {
    let (width, height) = (7usize, 5usize);
    for index in 0..width * height {
        let (x, y) = pixel_offsets(index, width, height);
        let dir_x = ((index % width) as f32 + 0.5) - width as f32 / 2.0;
        let dir_y = -((index / width) as f32 + 0.5) + height as f32 / 2.0;
        assert_eq!(x as f32 / 2.0, dir_x);
        assert_eq!(y as f32 / 2.0, dir_y);
    }
}

#[test]
fn quantize_cuts_channels_down_to_bytes() {
    let scaled = |x: f32| (x * 255.0).to_bits();
    let p = quantize(scaled(0.0), scaled(1.0), scaled(1.2));
    assert_eq!((p.red, p.green, p.blue), (0, 255, 255));
    let p = quantize(scaled(0.5), scaled(-0.3), scaled(0.2));
    assert_eq!((p.red, p.green, p.blue), (127, 0, 51));
    let p = quantize(scaled(1.0001), scaled(0.999), scaled(f32::NAN));
    assert_eq!((p.red, p.green, p.blue), (255, 254, 0));
}

#[test]
fn buffer_holds_three_bytes_a_pixel_in_row_order() {
    let pixels: Vec<Pixel> = (0..6u8)
        .map(|i| Pixel { red: 10 * i, green: 10 * i + 1, blue: 10 * i + 2 })
        .collect();
    let buffer = assemble(3, 2, &pixels);
    assert_eq!(buffer.len(), 3 * 2 * 3);
    assert_eq!(buffer, vec![0, 1, 2, 10, 11, 12, 20, 21, 22, 30, 31, 32, 40, 41, 42, 50, 51, 52]);
    let row = 1;
    let column = 2;
    let at = 3 * (row * 3 + column);
    assert_eq!(&buffer[at..at + 3], &[50, 51, 52]);
}

#[test]
fn buffer_of_an_empty_frame_is_empty() {
    assert!(assemble(0, 0, &Vec::new()).is_empty());
    assert!(assemble(0, 7, &Vec::new()).is_empty());
    assert!(assemble(4, 0, &Vec::new()).is_empty());
}

#[test]
fn one_diffuse_sphere_fills_a_two_by_two_frame() {
    // A unit sphere of diffuse-only material straight ahead, the light at the eye.
    let center = [0.0f32, 0.0, -5.0];
    let albedo = [1.0f32, 0.0, 0.0, 0.0];
    let diffuse_color = [0.4f32, 0.4, 0.3];
    let light = [0.0f32, 0.0, 0.0];
    let eye = [0.0f32, 0.0, 0.0];
    let (width, height) = (2usize, 2usize);
    let fov = 0.2f32;
    let background = [0.2f32, 0.2, 0.2];
    let mut pixels = Vec::new();
    for index in 0..width * height {
        let (x, y) = pixel_offsets(index, width, height);
        let dir_z = -(height as f32) / (2.0 * (fov / 2.0).tan());
        let dir = norm([x as f32 / 2.0, y as f32 / 2.0, dir_z]);
        let hits = vec![hit_sphere(center, 1.0, eye, dir).map(f32::to_bits)];
        let found = scene_intersect(&hits, VIEW.to_bits());
        assert!(found.hit);
        assert_eq!(found.index, Some(0));
        assert!(!ray_ends(0, 4, found.hit));
        let d = f32::from_bits(found.distance);
        let point = [eye[0] + dir[0] * d, eye[1] + dir[1] * d, eye[2] + dir[2] * d];
        let normal = norm(sub(point, center));
        let light_dir = norm(sub(light, point));
        // The ray back to the light starts on the sphere and leaves it.
        let shadow = vec![hit_sphere(center, 1.0, point, light_dir).map(f32::to_bits)];
        let blocked = scene_intersect(&shadow, VIEW.to_bits());
        let to_light = sub(light, point);
        assert!(light_reaches(blocked.hit, blocked.distance, dot(to_light, to_light).sqrt().to_bits()));
        let diffuse = f32::from_bits(positive_part(dot(light_dir, normal).to_bits()));
        assert!(diffuse > 0.0);
        let reflected = [background[0] * albedo[2], background[1] * albedo[2], background[2] * albedo[2]];
        let refracted = [background[0] * albedo[3], background[1] * albedo[3], background[2] * albedo[3]];
        assert_eq!(reflected, [0.0, 0.0, 0.0]);
        assert_eq!(refracted, [0.0, 0.0, 0.0]);
        let color: Vec<f32> = (0..3)
            .map(|c| diffuse_color[c] * diffuse * albedo[0] + reflected[c] + refracted[c])
            .collect();
        let p = quantize(
            (color[0] * 255.0).to_bits(),
            (color[1] * 255.0).to_bits(),
            (color[2] * 255.0).to_bits(),
        );
        assert!(p.red > 0 && p.green > 0 && p.blue > 0);
        assert_eq!(p.red, (diffuse_color[0] * diffuse * 255.0) as u8);
        pixels.push(p);
    }
    let buffer = assemble(width, height, &pixels);
    assert_eq!(buffer.len(), width * height * 3);
    // The four rays are mirror images of one another, and so are the pixels.
    assert_eq!(&buffer[0..3], &buffer[3..6]);
    assert_eq!(&buffer[0..3], &buffer[9..12]);
}
