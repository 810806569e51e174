use raytracer::material::Material;
use raytracer::ray::{color as lone_sphere, hit_sphere, sky};
use raytracer::sampler::unit_interval;
use raytracer::scene::{color, rand_in_unit_sphere, Hitable};
use raytracer::{
    pixel, render, Binary32, Camera, HitRecord, Lambertian, Objects, Ray, Reflective, Sampler,
    Sphere, Surface, Vec3,
};

fn b(x: f32) -> Binary32 {
    Binary32::from_bits(x.to_bits())
}

fn h(x: Binary32) -> f32 {
    f32::from_bits(x.to_bits())
}

fn v(x: f32, y: f32, z: f32) -> Vec3 {
    Vec3::new(b(x), b(y), b(z))
}

fn f(a: Vec3) -> [f32; 3] {
    [h(a.x()), h(a.y()), h(a.z())]
}

fn ray(o: [f32; 3], d: [f32; 3]) -> Ray {
    Ray::new(v(o[0], o[1], o[2]), v(d[0], d[1], d[2]))
}

fn matt(r: f32, g: f32, bl: f32) -> Surface {
    Surface::Diffuse(Lambertian::new(v(r, g, bl)))
}

fn mirror(r: f32, g: f32, bl: f32) -> Surface {
    Surface::Specular(Reflective::new(v(r, g, bl)))
}

fn supply(values: &[f32]) -> Sampler {
    Sampler::new(values.iter().map(|x| b(*x)).collect())
}

/// A fixed sequence of samples in the unit interval.
fn fixed_stream(seed: u64, count: usize) -> Vec<Binary32> {
    let mut state = seed;
    let mut out = Vec::new();
    for _ in 0..count {
        state = state
            .wrapping_mul(6364136223846793005)
            .wrapping_add(1442695040888963407);
        out.push(b(((state >> 40) & 0xff_ffff) as f32 * (1.0 / 16777216.0)));
    }
    out
}

#[test]
fn ray_point_at_parameter() {
    let r = ray([1.0, 2.0, 3.0], [0.5, -1.0, 2.0]);
    assert_eq!(f(r.origin()), [1.0, 2.0, 3.0]);
    assert_eq!(f(r.direction()), [0.5, -1.0, 2.0]);
    assert_eq!(f(r.point_at_parameter(b(2.0))), [2.0, 0.0, 7.0]);
    assert_eq!(f(r.point_at_parameter(b(-1.0))), [0.5, 3.0, 1.0]);
    assert_eq!(f(Ray::default().origin()), [0.0, 0.0, 0.0]);
}

#[test]
fn camera_rays_start_at_the_eye() {
    let cam = Camera::new();
    let r = cam.get_ray(b(0.0), b(0.0));
    assert_eq!(f(r.origin()), [0.0, 0.0, 0.0]);
    assert_eq!(f(r.direction()), [-2.0, -1.0, -1.0]);
    assert_eq!(f(cam.get_ray(b(1.0), b(1.0)).direction()), [2.0, 1.0, -1.0]);
    assert_eq!(f(cam.get_ray(b(0.5), b(0.5)).direction()), [0.0, 0.0, -1.0]);
    assert_eq!(f(cam.get_ray(b(1.25), b(-0.25)).direction()), [3.0, -1.5, -1.0]);
}

#[test]
fn sky_is_white_below_and_blue_above() {
    assert_eq!(f(sky(&ray([0.0, 0.0, 0.0], [0.0, -1.0, 0.0]))), [1.0, 1.0, 1.0]);
    assert_eq!(f(sky(&ray([0.0, 0.0, 0.0], [0.0, 1.0, 0.0]))), [0.5, 0.7, 1.0]);
    assert_eq!(f(sky(&ray([0.0, 0.0, 0.0], [1.0, 0.0, 0.0]))), [0.75, 0.85, 1.0]);
}

#[test]
fn trace_of_an_empty_scene_is_the_sky() {
    let world: Objects<Sphere> = Objects::new(Vec::new());
    let mut s = supply(&[0.25, 0.5]);
    assert_eq!(
        f(color(ray([0.0, 0.0, 0.0], [0.0, -1.0, 0.0]), &world, 0, &mut s)),
        [1.0, 1.0, 1.0]
    );
    assert_eq!(
        f(color(ray([0.0, 0.0, 0.0], [0.0, 1.0, 0.0]), &world, 0, &mut s)),
        [0.5, 0.7, 1.0]
    );
    assert_eq!(s.remaining(), 2);
}

#[test]
fn ray_through_the_center_hits_at_the_near_side() {
    let m = matt(0.5, 0.5, 0.5);
    let sphere = Sphere::new(v(0.0, 0.0, -3.0), b(0.5), &m);
    let r = ray([0.0, 0.0, 0.0], [0.0, 0.0, -1.0]);
    let rec = sphere.hit(r, b(0.001), b(f32::INFINITY)).unwrap();
    assert_eq!(f(rec.p()), [0.0, 0.0, -2.5]);
    assert_eq!(f(rec.normal()), [0.0, 0.0, 1.0]);
    assert_eq!(h(rec.t), 2.5);
    // both roots lie one diameter apart: with the near one shut out, the far one is found
    let far = sphere.hit(r, b(2.5), b(f32::INFINITY)).unwrap();
    assert_eq!(h(far.t), 3.5);
    assert_eq!(f(far.normal()), [0.0, 0.0, -1.0]);
    assert!(h(far.t) - h(rec.t) <= 2.0 * 0.5);
    // neither root inside the bounds
    assert!(sphere.hit(r, b(3.5), b(f32::INFINITY)).is_none());
    assert!(sphere.hit(r, b(0.001), b(2.5)).is_none());
}

#[test]
fn ray_aimed_at_the_center_from_anywhere_outside_hits() {
    let m = matt(0.5, 0.5, 0.5);
    let center = [0.3f32, -1.2, -4.0];
    let radius = 0.75f32;
    let sphere = Sphere::new(v(center[0], center[1], center[2]), b(radius), &m);
    for o in [[0.0f32, 0.0, 0.0], [5.0, 5.0, 5.0], [-3.0, 0.5, -4.0], [0.3, 10.0, -4.0]] {
        let d = [center[0] - o[0], center[1] - o[1], center[2] - o[2]];
        let dist = (d[0] * d[0] + d[1] * d[1] + d[2] * d[2]).sqrt();
        let rec = sphere.hit(ray(o, d), b(0.0), b(f32::INFINITY)).unwrap();
        // the direction is not normalized: the parameter counts in lengths of it
        let entry = (dist - radius) / dist;
        assert!((h(rec.t) - entry).abs() < 1e-5, "{}", h(rec.t));
        assert!(h(rec.t) > 0.0 && h(rec.t) * dist < dist);
        let n = f(rec.normal());
        let len = (n[0] * n[0] + n[1] * n[1] + n[2] * n[2]).sqrt();
        assert!((len - 1.0).abs() < 1e-5);
        assert!(n[0] * d[0] + n[1] * d[1] + n[2] * d[2] < 0.0);
    }
}

#[test]
fn ray_aimed_at_the_center_hits_before_the_center() {
    let m = matt(0.5, 0.5, 0.5);
    // squared radius from a thousandth of the squared distance up to a
    // thousandth short of it
    for (o, c, r) in [
        ([0.0f32, 0.0, 0.0], [0.0f32, 0.0, -1.0], 0.0317f32),
        ([0.0, 0.0, 0.0], [0.0, 0.0, -1.0], 0.9995),
        ([3.0, -2.0, 7.5], [2.5, 1.0, -4.0], 6.0),
        ([1e-6, 0.0, 0.0], [0.0, 2e-6, 3e-6], 1e-6),
        ([1e6, -3e6, 0.0], [0.0, 2e6, 5e6], 5.5e6),
    ] {
        let sphere = Sphere::new(v(c[0], c[1], c[2]), b(r), &m);
        let aimed = ray(o, [c[0] - o[0], c[1] - o[1], c[2] - o[2]]);
        let rec = sphere.hit(aimed, b(0.0), b(1.0)).unwrap();
        assert!(h(rec.t) > 0.0 && h(rec.t) < 1.0);
        let open = sphere.hit(aimed, b(0.0), b(f32::INFINITY)).unwrap();
        assert_eq!(open.t.to_bits(), rec.t.to_bits());
        // the point of the hit lies on the near side: the normal faces the origin
        let n = f(rec.normal());
        assert!(n[0] * (o[0] - c[0]) + n[1] * (o[1] - c[1]) + n[2] * (o[2] - c[2]) > 0.0);
    }
}

#[test]
fn ray_starting_at_its_nearest_point_outside_misses() {
    let m = matt(0.5, 0.5, 0.5);
    let sphere = Sphere::new(v(0.0, 0.0, 0.0), b(1.0), &m);
    for (o, d) in [
        ([1.0000001f32, 0.0, 0.0], [0.0f32, 1.0, 0.0]),
        ([0.0, 1.5, 0.0], [3.0, 0.0, -4.0]),
        ([0.0, 0.0, -1e10], [1e-20, 1e-20, 0.0]),
        ([2.0, 0.0, 0.0], [0.0, 0.0, 0.0]),
    ] {
        assert!(sphere.hit(ray(o, d), b(-f32::INFINITY), b(f32::INFINITY)).is_none());
    }
}

#[test]
fn grazing_ray_can_hit_by_rounding() {
    // this ray passes the unit sphere at a distance just above one
    let m = matt(0.5, 0.5, 0.5);
    let sphere = Sphere::new(v(0.0, 0.0, 0.0), b(1.0), &m);
    let grazing = ray(
        [1.0, -0.0004103254759684205, 0.0],
        [0.0, 1.8302416801452637, 0.4776448905467987],
    );
    assert!(sphere.hit(grazing, b(-1e30), b(f32::INFINITY)).is_some());
}

#[test]
fn ray_passing_further_than_the_radius_misses() {
    let m = matt(0.5, 0.5, 0.5);
    let sphere = Sphere::new(v(0.0, 0.0, -3.0), b(0.5), &m);
    assert!(sphere
        .hit(ray([0.51, 0.0, 0.0], [0.0, 0.0, -1.0]), b(0.001), b(f32::INFINITY))
        .is_none());
    assert!(sphere
        .hit(ray([0.0, -2.0, 0.0], [0.0, 0.0, -1.0]), b(0.001), b(f32::INFINITY))
        .is_none());
    // a tangent ray has no positive discriminant
    assert!(sphere
        .hit(ray([0.5, 0.0, 0.0], [0.0, 0.0, -1.0]), b(0.001), b(f32::INFINITY))
        .is_none());
    // the sphere lies behind the ray
    assert!(sphere
        .hit(ray([0.0, 0.0, 0.0], [0.0, 0.0, 1.0]), b(0.001), b(f32::INFINITY))
        .is_none());
}

#[test]
fn small_sphere_far_away_is_lost_to_rounding() {
    // the square of the radius vanishes beside the square of the distance
    let m = matt(0.5, 0.5, 0.5);
    let sphere = Sphere::new(v(0.0, 0.0, -1000.0), b(0.001), &m);
    assert!(sphere
        .hit(ray([0.0, 0.0, 0.0], [0.0, 0.0, -1000.0]), b(0.0), b(f32::INFINITY))
        .is_none());
}

#[test]
fn scene_reports_the_nearest_member_in_any_order() {
    let (m1, m2, m3) = (matt(0.1, 0.1, 0.1), mirror(0.2, 0.2, 0.2), matt(0.3, 0.3, 0.3));
    let r = ray([0.0, 0.0, 0.0], [0.0, 0.0, -1.0]);
    let make = |order: [usize; 3]| {
        let all = [
            (v(0.0, 0.0, -5.0), &m1),
            (v(0.0, 0.0, -2.0), &m2),
            (v(0.0, 0.0, -9.0), &m3),
        ];
        Objects::new(order.iter().map(|i| Sphere::new(all[*i].0, b(0.5), all[*i].1)).collect())
    };
    for order in [[0, 1, 2], [2, 1, 0], [1, 0, 2], [2, 0, 1]] {
        let world = make(order);
        let rec = world.hit(r, b(0.001), b(f32::INFINITY)).unwrap();
        assert_eq!(h(rec.t), 1.5);
        assert!(matches!(rec.material, Surface::Specular(_)));
        let rec = world.hit(r, b(3.0), b(f32::INFINITY)).unwrap();
        assert_eq!(h(rec.t), 4.5);
        assert!(world.hit(r, b(0.001), b(1.5)).is_none());
    }
    let empty: Objects<Sphere> = Objects::new(Vec::new());
    assert!(empty.hit(r, b(0.001), b(f32::INFINITY)).is_none());
    let empty: Objects<Sphere> = Objects::default();
    assert!(empty.hit(r, b(0.001), b(f32::INFINITY)).is_none());
}

#[test]
fn of_two_equal_hits_the_first_wins() {
    let (m1, m2) = (matt(0.1, 0.1, 0.1), mirror(0.2, 0.2, 0.2));
    let r = ray([0.0, 0.0, 0.0], [0.0, 0.0, -1.0]);
    let world = Objects::new(vec![
        Sphere::new(v(0.0, 0.0, -2.0), b(0.5), &m1),
        Sphere::new(v(0.0, 0.0, -2.0), b(0.5), &m2),
    ]);
    let rec = world.hit(r, b(0.001), b(f32::INFINITY)).unwrap();
    assert!(matches!(rec.material, Surface::Diffuse(_)));
}

#[test]
fn hit_record_starts_empty() {
    let m = mirror(0.8, 0.6, 0.2);
    let rec = HitRecord::new(&m);
    assert_eq!(f(rec.p()), [0.0, 0.0, 0.0]);
    assert_eq!(f(rec.normal()), [0.0, 0.0, 0.0]);
    assert_eq!(rec.t.to_bits(), 0);
    assert!(matches!(rec.material, Surface::Specular(_)));
}

#[test]
fn hit_at_the_depth_cap_is_black() {
    let m = matt(0.8, 0.8, 0.8);
    let world = Objects::new(vec![Sphere::new(v(0.0, 0.0, -1.0), b(0.5), &m)]);
    let r = ray([0.0, 0.0, 0.0], [0.0, 0.0, -1.0]);
    for depth in [50u8, 51, 200, 255] {
        let mut s = supply(&[0.5, 0.5, 0.5]);
        let c = color(r, &world, depth, &mut s);
        assert_eq!([c.x().to_bits(), c.y().to_bits(), c.z().to_bits()], [0, 0, 0]);
        assert_eq!(s.remaining(), 3);
    }
    // one level below the cap the hit still scatters
    let mut s = supply(&[0.5, 0.5, 0.5]);
    let c = color(r, &world, 49, &mut s);
    assert!(h(c.x()) > 0.0);
    assert_eq!(s.remaining(), 0);
}

#[test]
fn mirror_absorbs_a_ray_reflected_into_the_surface() {
    let m = mirror(0.8, 0.6, 0.2);
    let sphere = Sphere::new(v(0.0, 0.0, -1.0), b(0.5), &m);
    let world = Objects::new(vec![sphere]);
    // from the center the ray meets the surface from inside
    let r = ray([0.0, 0.0, -1.0], [0.0, 0.0, -1.0]);
    let mut s = supply(&[]);
    let c = color(r, &world, 0, &mut s);
    assert_eq!([c.x().to_bits(), c.y().to_bits(), c.z().to_bits()], [0, 0, 0]);

    let rec = world.hit(r, b(0.001), b(f32::INFINITY)).unwrap();
    assert_eq!(f(rec.normal()), [0.0, 0.0, -1.0]);
    let mut attenuation = Vec3::default();
    let mut scattered = Ray::default();
    let goes_on = rec.material.scatter(r, &rec, &mut attenuation, &mut scattered, &mut s);
    assert!(!goes_on);
    // the reflected ray was computed all the same
    assert_eq!(f(scattered.origin()), [0.0, 0.0, -1.5]);
    assert_eq!(f(scattered.direction()), [0.0, 0.0, 1.0]);
    assert_eq!(f(attenuation), [0.8, 0.6, 0.2]);
}

#[test]
fn mirror_reflects_a_ray_from_outside() {
    let m = Reflective::new(v(0.8, 0.6, 0.2));
    assert_eq!(f(m.reflect(v(1.0, -1.0, 0.0), v(0.0, 1.0, 0.0))), [1.0, 1.0, 0.0]);
    let surface = Surface::Specular(m);
    let world = Objects::new(vec![Sphere::new(v(0.0, 0.0, -1.0), b(0.5), &surface)]);
    let r = ray([0.0, 0.0, 0.0], [0.0, 0.0, -1.0]);
    let mut s = supply(&[]);
    // straight back into the sky at the height of the eye, attenuated
    let c = color(r, &world, 0, &mut s);
    assert_eq!(f(c), [0.8 * 0.75, 0.6 * 0.85, 0.2 * 1.0]);
}

#[test]
fn matt_surface_scatters_around_the_normal() {
    let m = Lambertian::new(v(0.5, 0.9, 0.5));
    let surface = Surface::Diffuse(m);
    let mut rec = HitRecord::new(&surface);
    rec.p = v(1.0, 2.0, 3.0);
    rec.normal = v(0.0, 1.0, 0.0);
    let mut attenuation = Vec3::default();
    let mut scattered = Ray::default();
    let mut s = supply(&[0.25, 0.5, 0.75, 0.125]);
    let goes_on = m.scatter(
        ray([0.0, 0.0, 0.0], [1.0, 2.0, 3.0]),
        &rec,
        &mut attenuation,
        &mut scattered,
        &mut s,
    );
    assert!(goes_on);
    assert_eq!(f(attenuation), [0.5, 0.9, 0.5]);
    assert_eq!(f(scattered.origin()), [1.0, 2.0, 3.0]);
    assert_eq!(f(scattered.direction()), [-0.5, 1.0, 0.5]);
    assert_eq!(s.remaining(), 1);
}

#[test]
fn unit_ball_point_is_found_by_rejection() {
    // the corner of the cube is rejected, the center accepted
    let mut s = supply(&[0.0, 0.0, 0.0, 0.5, 0.5, 0.5, 0.9]);
    let p = rand_in_unit_sphere(&mut s);
    assert_eq!(f(p), [0.0, 0.0, 0.0]);
    assert_eq!(s.remaining(), 1);

    let mut s = supply(&[1.0, 0.5, 0.5, 0.75, 0.25, 0.5]);
    // (1, 0, 0) has squared length one and is rejected
    let p = rand_in_unit_sphere(&mut s);
    assert_eq!(f(p), [0.5, -0.5, 0.0]);
    assert_eq!(s.remaining(), 0);
}

#[test]
fn unit_ball_point_without_samples_is_the_center() {
    let mut s = supply(&[0.9, 0.9]);
    let p = rand_in_unit_sphere(&mut s);
    assert_eq!([p.x().to_bits(), p.y().to_bits(), p.z().to_bits()], [0, 0, 0]);
    assert_eq!(s.remaining(), 2);

    let mut s = supply(&[0.0, 0.0, 0.0, 1.0, 1.0, 1.0, 0.3]);
    let p = rand_in_unit_sphere(&mut s);
    assert_eq!(f(p), [0.0, 0.0, 0.0]);
    assert_eq!(s.remaining(), 1);
}

#[test]
fn unit_ball_points_lie_inside_the_ball() {
    let mut s = Sampler::new(fixed_stream(99, 3000));
    while s.remaining() >= 3 {
        let p = rand_in_unit_sphere(&mut s);
        assert!(h(p.len_sqrd()) < 1.0);
    }
}

#[test]
fn sampler_yields_its_values_in_order_and_then_zero() {
    let mut s = supply(&[0.25, 0.75]);
    assert_eq!(s.remaining(), 2);
    assert_eq!(h(s.draw()), 0.25);
    assert_eq!(h(s.draw()), 0.75);
    assert_eq!(s.remaining(), 0);
    assert_eq!(s.draw().to_bits(), 0);
    assert_eq!(s.draw().to_bits(), 0);
    assert_eq!(s.remaining(), 0);
}

#[test]
fn random_samples_lie_in_the_unit_interval() {
    let mut s = Sampler::from_entropy(2000);
    assert_eq!(s.remaining(), 2000);
    let mut distinct = std::collections::HashSet::new();
    for _ in 0..2000 {
        let x = h(s.draw());
        assert!((0.0..1.0).contains(&x));
        distinct.insert(x.to_bits());
    }
    assert!(distinct.len() > 1000);
    assert_eq!(Sampler::from_entropy(0).remaining(), 0);
}

#[test]
fn random_word_becomes_its_upper_bits_in_steps() {
    for word in [0u32, 1, 255, 256, 0x8000_0000, 0xdead_beef, u32::MAX] {
        let want = (word >> 8) as f32 * (1.0 / 16777216.0);
        assert_eq!(h(unit_interval(word)), want);
    }
    assert_eq!(h(unit_interval(u32::MAX)), 1.0 - 1.0 / 16777216.0);
    assert_eq!(h(unit_interval(0x8000_0000)), 0.5);
}

#[test]
fn lone_sphere_is_shaded_by_its_normal() {
    let r = ray([0.0, 0.0, 0.0], [0.0, 0.0, -1.0]);
    assert_eq!(h(hit_sphere(v(0.0, 0.0, -1.0), b(0.5), &r)), 0.5);
    assert_eq!(f(lone_sphere(&r)), [0.5, 0.5, 1.0]);
    let up = ray([0.0, 0.0, 0.0], [0.0, 1.0, 0.0]);
    assert_eq!(h(hit_sphere(v(0.0, 0.0, -1.0), b(0.5), &up)), -1.0);
    assert_eq!(f(lone_sphere(&up)), [0.5, 0.7, 1.0]);
}

#[test]
fn ground_alone_renders_to_known_bytes() {
    let ground = matt(0.8, 0.8, 0.0);
    let world = Objects::new(vec![Sphere::new(v(0.0, -100.5, -1.0), b(100.0), &ground)]);
    let mut s = supply(&[]);
    let image = render(&Camera::new(), &world, 2, 2, 1, &mut s);
    assert_eq!(image, vec![191, 217, 255, 191, 217, 255, 102, 143, 0, 102, 143, 0]);
    let mut s = supply(&[]);
    let image = render(&Camera::new(), &world, 4, 2, 1, &mut s);
    assert_eq!(
        image,
        vec![
            191, 217, 255, 191, 217, 255, 191, 217, 255, 191, 217, 255, 102, 143, 0, 102, 143, 0,
            102, 143, 0, 102, 143, 0
        ]
    );
}

fn four_spheres<'a>(m: &'a [Surface; 4]) -> Objects<Sphere<'a>> {
    Objects::new(vec![
        Sphere::new(v(0.0, 0.0, -1.0), b(0.5), &m[0]),
        Sphere::new(v(0.0, -100.5, -1.0), b(100.0), &m[1]),
        Sphere::new(v(1.0, 0.0, -1.0), b(0.5), &m[2]),
        Sphere::new(v(-1.0, 0.0, -1.0), b(0.5), &m[3]),
    ])
}

#[test]
fn four_spheres_render_to_known_bytes() {
    let m = [
        matt(0.5, 0.9, 0.5),
        matt(0.8, 0.8, 0.0),
        mirror(0.8, 0.6, 0.2),
        mirror(0.8, 0.8, 0.8),
    ];
    let world = four_spheres(&m);
    let mut s = Sampler::new(fixed_stream(12345, 4000));
    let image = render(&Camera::new(), &world, 8, 4, 3, &mut s);
    let want: Vec<u8> = vec![
        169, 203, 255, 162, 200, 255, 159, 198, 255, 158, 197, 255, 156, 196, 255, 144, 169, 187,
        151, 173, 187, 158, 177, 187, 125, 157, 204, 133, 162, 204, 140, 173, 221, 74, 166, 85,
        112, 190, 170, 127, 155, 172, 130, 120, 51, 128, 119, 51, 80, 109, 0, 104, 125, 68, 91,
        121, 0, 70, 155, 42, 66, 151, 42, 26, 21, 0, 89, 89, 0, 89, 79, 0, 115, 145, 0, 73, 94, 0,
        66, 116, 0, 98, 150, 0, 37, 74, 0, 61, 77, 0, 50, 39, 0, 89, 91, 0,
    ];
    assert_eq!(image, want);
    assert_eq!(s.remaining(), 3163);
}

#[test]
fn rendering_twice_with_the_same_samples_gives_the_same_bytes() {
    let m = [
        matt(0.5, 0.9, 0.5),
        matt(0.8, 0.8, 0.0),
        mirror(0.8, 0.6, 0.2),
        mirror(0.8, 0.8, 0.8),
    ];
    let world = four_spheres(&m);
    let cam = Camera::new();
    let mut first = Sampler::new(fixed_stream(7, 3000));
    let mut second = Sampler::new(fixed_stream(7, 3000));
    let one = render(&cam, &world, 6, 3, 2, &mut first);
    let two = render(&cam, &world, 6, 3, 2, &mut second);
    assert_eq!(one, two);
    assert_eq!(one.len(), 6 * 3 * 3);
    assert_eq!(first.remaining(), second.remaining());
    let mut other = Sampler::new(fixed_stream(8, 3000));
    assert_ne!(one, render(&cam, &world, 6, 3, 2, &mut other));
}

#[test]
fn image_is_made_of_its_pixels_top_row_first() {
    let m = [
        matt(0.5, 0.9, 0.5),
        matt(0.8, 0.8, 0.0),
        mirror(0.8, 0.6, 0.2),
        mirror(0.8, 0.8, 0.8),
    ];
    let world = four_spheres(&m);
    let cam = Camera::new();
    let mut s = Sampler::new(fixed_stream(21, 3000));
    let image = render(&cam, &world, 5, 4, 2, &mut s);
    let mut s = Sampler::new(fixed_stream(21, 3000));
    let mut want = Vec::new();
    for y in (0..4).rev() {
        for x in 0..5 {
            let (r, g, bl) = pixel(&cam, &world, x, y, 5, 4, 2, &mut s);
            want.extend([r, g, bl]);
        }
    }
    assert_eq!(image, want);
}

#[test]
fn image_without_pixels_or_samples() {
    let world: Objects<Sphere> = Objects::new(Vec::new());
    let cam = Camera::new();
    let mut s = supply(&[0.5; 8]);
    assert!(render(&cam, &world, 0, 3, 1, &mut s).is_empty());
    assert!(render(&cam, &world, 3, 0, 1, &mut s).is_empty());
    assert_eq!(s.remaining(), 8);
    // no samples per pixel: nothing divided by nothing, which a byte holds as zero
    assert_eq!(render(&cam, &world, 1, 1, 0, &mut s), vec![0, 0, 0]);
}
