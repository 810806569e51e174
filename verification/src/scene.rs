//! Spheres, the scene they make up, and the light that comes back along a ray.
use crate::arith::lemma_zero_nearest;
use crate::exact::Exact;
use crate::format::{lemma_magnitude_increases, lemma_magnitude_small, Binary32, ONE, TWO};
use crate::material::{Material, Surface};
use crate::ray::{
    blue, lemma_sky_straight_down, lemma_sky_straight_up, sky, sky_colour, white, Ray,
};
use crate::sampler::{drawn_from, lemma_drawn_chain, lemma_drawn_rest, Sampler};
use crate::vec::Vec3;
use vstd::arithmetic::power2::*;
use vstd::prelude::*;

verus! {

/// The pattern of 0.001, the nearest that a hit may lie to a ray's origin.
pub const NEAREST_HIT: u32 = 0x3a83_126f;

/// How many times light may be scattered before it counts as lost.
pub const DEPTH_CAP: u8 = 50;

/// Where a ray meets a surface.
#[derive(Clone, Copy, Debug)]
pub struct HitRecord {
    /// The ray's parameter at the hit.
    pub t: Binary32,
    /// The point of the hit.
    pub p: Vec3,
    /// The surface normal there, pointing outwards.
    pub normal: Vec3,
    /// What the surface is made of.
    pub material: Surface,
}

/// Something a ray can hit.
pub trait Hitable {
    /// The hit that `hit` returns for parameters strictly between `tmin` and `tmax`.
    spec fn crossing(&self, ray: Ray, tmin: Binary32, tmax: Binary32) -> Option<HitRecord>;

    /// A hit lies strictly between the bounds.
    proof fn crossing_in_range(&self, ray: Ray, tmin: Binary32, tmax: Binary32)
        ensures
            self.crossing(ray, tmin, tmax) matches Some(rec) ==> tmin.below(rec.t) && rec.t.below(
                tmax,
            ),
    ;

    fn hit(&self, ray: Ray, tmin: Binary32, tmax: Binary32) -> (r: Option<HitRecord>)
        ensures
            r == self.crossing(ray, tmin, tmax),
    ;
}

/// A sphere of one material.
pub struct Sphere<'a> {
    pub center: Vec3,
    pub radius: Binary32,
    pub material: &'a Surface,
}

/// A scene: the members in the order in which they are tried.
pub struct Objects<H: Hitable>(pub Vec<H>);

impl HitRecord {
    /// A record at the origin of everything, to be filled in.
    pub fn new(material: &Surface) -> (r: HitRecord)
        ensures
            r == (HitRecord {
                t: Binary32::zero(),
                p: Vec3::origin(),
                normal: Vec3::origin(),
                material: *material,
            }),
    {
        HitRecord {
            material: *material,
            p: Vec3::default(),
            t: Binary32 { bits: 0 },
            normal: Vec3::default(),
        }
    }

    pub fn p(&self) -> (r: Vec3)
        ensures
            r == self.p,
    {
        self.p
    }

    pub fn normal(&self) -> (r: Vec3)
        ensures
            r == self.normal,
    {
        self.normal
    }
}

impl<'a> Sphere<'a> {
    /// The record of a hit at parameter `t`: the point on the ray, and the
    /// normal `(p - center) / radius`.
    pub open spec fn record(&self, ray: Ray, t: Binary32) -> HitRecord {
        HitRecord {
            t,
            p: ray.at(t),
            normal: ray.at(t).minus(self.center).shrunk(self.radius),
            material: *self.material,
        }
    }

    /// The discriminant `b^2 - a c` of the quadratic for the ray parameter,
    /// with `a = d . d`, `b = oc . d`, `c = oc . oc - r^2`.
    pub open spec fn discriminant(&self, ray: Ray) -> Binary32 {
        let oc = ray.a.minus(self.center);
        let a = ray.b.inner(ray.b);
        let b = oc.inner(ray.b);
        let c = oc.inner(oc).difference(self.radius.product(self.radius));
        b.product(b).difference(a.product(c))
    }

    /// The smaller root `(-b - sqrt(disc)) / a`.
    pub open spec fn near_root(&self, ray: Ray) -> Binary32 {
        let oc = ray.a.minus(self.center);
        oc.inner(ray.b).negation().difference(self.discriminant(ray).root()).quotient(
            ray.b.inner(ray.b),
        )
    }

    /// The larger root `(-b + sqrt(disc)) / a`.
    pub open spec fn far_root(&self, ray: Ray) -> Binary32 {
        let oc = ray.a.minus(self.center);
        oc.inner(ray.b).negation().sum(self.discriminant(ray).root()).quotient(ray.b.inner(ray.b))
    }

    pub fn new(center: Vec3, radius: Binary32, material: &'a Surface) -> (r: Sphere<'a>)
        ensures
            r.center == center,
            r.radius == radius,
            r.material == material,
    {
        Sphere { center, radius, material }
    }

    fn fill(&self, ray: Ray, t: Binary32) -> (r: HitRecord)
        ensures
            r == self.record(ray, t),
    {
        let mut rec: HitRecord = HitRecord::new(self.material);
        rec.t = t;
        rec.p = ray.point_at_parameter(rec.t);
        let mut out: Vec3 = rec.p;
        out.sub_assign(self.center);
        out.div_assign(self.radius);
        rec.normal = out;
        rec
    }
}

impl<'a> Hitable for Sphere<'a> {
    /// No hit unless the discriminant is positive; then the smaller root if
    /// it lies strictly between the bounds, else the larger one if that does.
    open spec fn crossing(&self, ray: Ray, tmin: Binary32, tmax: Binary32) -> Option<HitRecord> {
        if Binary32::zero().below(self.discriminant(ray)) {
            if self.near_root(ray).below(tmax) && tmin.below(self.near_root(ray)) {
                Some(self.record(ray, self.near_root(ray)))
            } else if self.far_root(ray).below(tmax) && tmin.below(self.far_root(ray)) {
                Some(self.record(ray, self.far_root(ray)))
            } else {
                None
            }
        } else {
            None
        }
    }

    proof fn crossing_in_range(&self, ray: Ray, tmin: Binary32, tmax: Binary32) {
    }

    fn hit(&self, ray: Ray, tmin: Binary32, tmax: Binary32) -> (r: Option<HitRecord>) {
        let mut oc: Vec3 = ray.origin();
        oc.sub_assign(self.center);
        let a: Binary32 = ray.direction().dot(ray.direction());
        let b: Binary32 = oc.dot(ray.direction());
        let c: Binary32 = oc.dot(oc).sub(self.radius.mul(self.radius));
        let discriminant: Binary32 = b.mul(b).sub(a.mul(c));
        if discriminant.gt(Binary32 { bits: 0 }) {
            let near: Binary32 = b.neg().sub(b.mul(b).sub(a.mul(c)).sqrt()).div(a);
            if near.lt(tmax) && near.gt(tmin) {
                return Some(self.fill(ray, near));
            }
            let far: Binary32 = b.neg().add(b.mul(b).sub(a.mul(c)).sqrt()).div(a);
            if far.lt(tmax) && far.gt(tmin) {
                return Some(self.fill(ray, far));
            }
        }
        None
    }
}

/// A ray whose quadratic has no positive discriminant misses the sphere,
/// whatever the bounds.
pub proof fn lemma_sphere_miss(sphere: Sphere, ray: Ray, tmin: Binary32, tmax: Binary32)
    requires
        !Binary32::zero().below(sphere.discriminant(ray)),
    ensures
        sphere.crossing(ray, tmin, tmax) is None,
{
}

/// A hit of a sphere lies at one of the two roots, at the smaller one
/// whenever that lies between the bounds, with the normal `(p - center) / radius`.
pub proof fn lemma_sphere_hit(sphere: Sphere, ray: Ray, tmin: Binary32, tmax: Binary32)
    ensures
        sphere.crossing(ray, tmin, tmax) matches Some(rec) ==> {
            &&& rec.t == sphere.near_root(ray) || rec.t == sphere.far_root(ray)
            &&& tmin.below(sphere.near_root(ray)) && sphere.near_root(ray).below(tmax) ==> rec.t
                == sphere.near_root(ray)
            &&& rec.p == ray.at(rec.t)
            &&& rec.normal == rec.p.minus(sphere.center).shrunk(sphere.radius)
            &&& rec.material == *sphere.material
        },
{
}

/// The nearest hit among the first `n` members: each member is tried
/// against the nearest hit so far, and replaces it only where it hits
/// strictly nearer.
pub open spec fn nearest_crossing<H: Hitable>(
    items: Seq<H>,
    ray: Ray,
    tmin: Binary32,
    tmax: Binary32,
    n: nat,
) -> Option<HitRecord>
    decreases n,
{
    if n == 0 {
        None
    } else {
        let before = nearest_crossing(items, ray, tmin, tmax, (n - 1) as nat);
        match items[n - 1].crossing(ray, tmin, closest(before, tmax)) {
            Some(rec) => Some(rec),
            None => before,
        }
    }
}

/// The bound that the next member has to beat.
pub open spec fn closest(best: Option<HitRecord>, tmax: Binary32) -> Binary32 {
    match best {
        Some(rec) => rec.t,
        None => tmax,
    }
}

impl<H: Hitable> Objects<H> {
    pub fn new(items: Vec<H>) -> (r: Objects<H>)
        ensures
            r.0 == items,
    {
        Objects(items)
    }
}

impl<H: Hitable> Default for Objects<H> {
    /// The scene with no members.
    fn default() -> (r: Objects<H>)
        ensures
            r.0@.len() == 0,
    {
        Objects(Vec::new())
    }
}

impl<H: Hitable> Hitable for Objects<H> {
    open spec fn crossing(&self, ray: Ray, tmin: Binary32, tmax: Binary32) -> Option<HitRecord> {
        nearest_crossing(self.0@, ray, tmin, tmax, self.0@.len())
    }

    proof fn crossing_in_range(&self, ray: Ray, tmin: Binary32, tmax: Binary32) {
        lemma_nearest_in_range(self.0@, ray, tmin, tmax, self.0@.len());
    }

    fn hit(&self, ray: Ray, tmin: Binary32, tmax: Binary32) -> (r: Option<HitRecord>) {
        let mut best: Option<HitRecord> = None;
        let mut bound: Binary32 = tmax;
        let mut i: usize = 0;
        while i < self.0.len()
            invariant
                i <= self.0@.len(),
                best == nearest_crossing(self.0@, ray, tmin, tmax, i as nat),
                bound == closest(best, tmax),
            decreases self.0@.len() - i,
        {
            if let Some(rec) = self.0[i].hit(ray, tmin, bound) {
                bound = rec.t;
                best = Some(rec);
            }
            i = i + 1;
        }
        best
    }
}

/// The hit that a scene returns lies strictly between the bounds, and is
/// the hit of one of its members.
pub proof fn lemma_nearest_in_range<H: Hitable>(
    items: Seq<H>,
    ray: Ray,
    tmin: Binary32,
    tmax: Binary32,
    n: nat,
)
    requires
        n <= items.len(),
    ensures
        nearest_crossing(items, ray, tmin, tmax, n) matches Some(rec) ==> {
            &&& tmin.below(rec.t)
            &&& rec.t.below(tmax)
            &&& exists|i: int, bound: Binary32|
                0 <= i < n && #[trigger] items[i].crossing(ray, tmin, bound) == Some(rec)
        },
    decreases n,
{
    if n > 0 {
        let before = nearest_crossing(items, ray, tmin, tmax, (n - 1) as nat);
        lemma_nearest_in_range(items, ray, tmin, tmax, (n - 1) as nat);
        let bound = closest(before, tmax);
        items[n - 1].crossing_in_range(ray, tmin, bound);
        match items[n - 1].crossing(ray, tmin, bound) {
            Some(rec) => {
                lemma_below_chain(rec.t, bound, tmax);
            },
            None => {},
        }
    }
}

/// Under a narrower upper bound a sphere is hit no further away, and where
/// it is not hit at all any more, its hit lay at the bound or beyond.
pub proof fn lemma_sphere_narrowed(
    sphere: Sphere,
    ray: Ray,
    tmin: Binary32,
    tmax: Binary32,
    bound: Binary32,
)
    requires
        bound == tmax || bound.below(tmax),
    ensures
        sphere.crossing(ray, tmin, tmax) matches Some(wide) ==> match sphere.crossing(
            ray,
            tmin,
            bound,
        ) {
            Some(narrow) => !wide.t.below(narrow.t),
            None => !wide.t.below(bound),
        },
{
}

/// Nearest wins: where any sphere of a scene is hit between the bounds, the
/// scene returns a hit, and no sphere is hit nearer than that.
pub proof fn lemma_scene_nearest(
    items: Seq<Sphere>,
    ray: Ray,
    tmin: Binary32,
    tmax: Binary32,
    n: nat,
    i: int,
)
    requires
        0 <= i < n <= items.len(),
        items[i].crossing(ray, tmin, tmax) is Some,
    ensures
        nearest_crossing(items, ray, tmin, tmax, n) is Some,
        !items[i].crossing(ray, tmin, tmax)->Some_0.t.below(
            nearest_crossing(items, ray, tmin, tmax, n)->Some_0.t,
        ),
    decreases n,
{
    let own = items[i].crossing(ray, tmin, tmax)->Some_0;
    let before = nearest_crossing(items, ray, tmin, tmax, (n - 1) as nat);
    let bound = closest(before, tmax);
    let last = items[n - 1];
    items[i].crossing_in_range(ray, tmin, tmax);
    lemma_nearest_in_range(items, ray, tmin, tmax, (n - 1) as nat);
    last.crossing_in_range(ray, tmin, bound);
    if i < n - 1 {
        lemma_scene_nearest(items, ray, tmin, tmax, (n - 1) as nat, i);
    } else {
        lemma_sphere_narrowed(last, ray, tmin, tmax, bound);
    }
}

/// Below something that is at most a bound is below the bound.
pub proof fn lemma_below_chain(a: Binary32, b: Binary32, c: Binary32)
    requires
        a.below(b),
        b == c || b.below(c),
    ensures
        a.below(c),
{
}

/// A scene with no members is never hit.
pub proof fn lemma_empty_scene<H: Hitable>(
    world: Objects<H>,
    ray: Ray,
    tmin: Binary32,
    tmax: Binary32,
)
    requires
        world.0@.len() == 0,
    ensures
        world.crossing(ray, tmin, tmax) is None,
{
}

/// The candidate point of the cube `[-1, 1]^3` that three samples stand for.
pub open spec fn candidate(r1: Binary32, r2: Binary32, r3: Binary32) -> Vec3 {
    Vec3 { x: r1, y: r2, z: r3 }.scaled(Binary32 { bits: TWO }).minus(
        Vec3 { x: Binary32::one(), y: Binary32::one(), z: Binary32::one() },
    )
}

/// Whether a candidate is kept: its squared length is not one or more.
pub open spec fn inside_ball(p: Vec3) -> bool {
    !(Binary32::one().below(p.norm_squared()) || Binary32::one().same(p.norm_squared()))
}

/// The first candidate inside the unit ball that the samples yield, three
/// at a time, with the samples left over; the centre of the ball where
/// fewer than three samples are left.
pub open spec fn ball_point(samples: Seq<Binary32>) -> (Vec3, Seq<Binary32>)
    decreases samples.len(),
{
    if samples.len() < 3 {
        (Vec3::origin(), samples)
    } else if inside_ball(candidate(samples[0], samples[1], samples[2])) {
        (candidate(samples[0], samples[1], samples[2]), samples.skip(3))
    } else {
        ball_point(samples.skip(3))
    }
}

/// The point lies inside the unit ball, and the samples left over are what
/// remains of the supply.
pub proof fn lemma_ball_point_inside(samples: Seq<Binary32>)
    ensures
        inside_ball(ball_point(samples).0),
        drawn_from(ball_point(samples).1, samples),
    decreases samples.len(),
{
    assert(samples.skip(0) =~= samples);
    if samples.len() >= 3 {
        lemma_ball_point_inside(samples.skip(3));
        assert(drawn_from(samples.skip(3), samples));
        lemma_drawn_chain(ball_point(samples.skip(3)).1, samples.skip(3), samples);
    }
    if samples.len() < 3 {
        reveal(Binary32::sum);
        reveal(Binary32::product);
        let zero = Binary32::zero();
        let q = Exact::ratio(0, pow2(149));
        lemma_pow2_pos(149);
        lemma_magnitude_small();
        assert(0 * 0 == 0) by (nonlinear_arith);
        lemma_zero_nearest(q);
        assert(zero.product(zero) == zero);
        assert(zero.sum(zero) == zero);
        assert(Vec3::origin().norm_squared() == zero);
        lemma_magnitude_increases(0, 0x3f80_0000);
    }
}

/// Draws a point inside the unit ball by rejection.
pub fn rand_in_unit_sphere(sampler: &mut Sampler) -> (p: Vec3)
    ensures
        p == ball_point(old(sampler)@).0,
        final(sampler)@ == ball_point(old(sampler)@).1,
        inside_ball(p),
        drawn_from(final(sampler)@, old(sampler)@),
{
    proof {
        lemma_ball_point_inside(sampler@);
    }
    let mut p: Vec3 = Vec3::default();
    let mut found: bool = false;
    while !found && sampler.remaining() >= 3
        invariant
            found ==> p == ball_point(old(sampler)@).0 && sampler@ == ball_point(old(sampler)@).1,
            !found ==> ball_point(sampler@) == ball_point(old(sampler)@),
            !found ==> p == Vec3::origin(),
        decreases sampler@.len() + (if found { 0int } else { 1int }),
    {
        let ghost before = sampler@;
        let one: Binary32 = Binary32 { bits: ONE };
        let two: Binary32 = Binary32 { bits: TWO };
        let r1: Binary32 = sampler.draw();
        let r2: Binary32 = sampler.draw();
        let r3: Binary32 = sampler.draw();
        proof {
            assert(before.skip(1).skip(1) =~= before.skip(2));
            assert(before.skip(2).skip(1) =~= before.skip(3));
            assert(r1 == before[0] && r2 == before[1] && r3 == before[2]);
            assert(sampler@ == before.skip(3));
        }
        let mut q: Vec3 = Vec3::new(r1.mul(two), r2.mul(two), r3.mul(two));
        q.sub_assign(Vec3::new(one, one, one));
        assert(q == candidate(before[0], before[1], before[2]));
        let outside: bool = q.len_sqrd().ge(one);
        assert(outside == !inside_ball(q));
        if !outside {
            p = q;
            found = true;
        }
    }
    p
}

/// The light that comes back along `ray`, with the samples left over: the
/// sky where nothing is hit; nothing where the hit absorbs or the depth cap
/// is reached; else the light along the scattered ray, attenuated.
pub open spec fn radiance<H: Hitable>(
    world: &H,
    ray: Ray,
    depth: nat,
    samples: Seq<Binary32>,
) -> (Vec3, Seq<Binary32>)
    decreases 50 - depth,
{
    match world.crossing(ray, Binary32 { bits: NEAREST_HIT }, Binary32 { bits: 0x7f80_0000 }) {
        Some(rec) => {
            if depth < 50 {
                let s = rec.material.scattering(ray, rec, samples);
                if s.scattered {
                    let deeper = radiance(world, s.ray, depth + 1, s.rest);
                    (s.attenuation.times(deeper.0), deeper.1)
                } else {
                    (Vec3::origin(), s.rest)
                }
            } else {
                (Vec3::origin(), samples)
            }
        },
        None => (sky_colour(ray), samples),
    }
}

/// Traces `ray` into `world`.
pub fn color<H: Hitable>(ray: Ray, world: &H, depth: u8, sampler: &mut Sampler) -> (r: Vec3)
    ensures
        r == radiance(world, ray, depth as nat, old(sampler)@).0,
        final(sampler)@ == radiance(world, ray, depth as nat, old(sampler)@).1,
        drawn_from(final(sampler)@, old(sampler)@),
    decreases 50 - depth,
{
    proof {
        lemma_radiance_draws(world, ray, depth as nat, sampler@);
    }
    match world.hit(ray, Binary32 { bits: NEAREST_HIT }, Binary32 { bits: 0x7f80_0000 }) {
        Some(rec) => {
            let mut scattered: Ray = Ray::default();
            let mut attenuation: Vec3 = Vec3::default();
            if depth < DEPTH_CAP {
                let goes_on: bool = rec.material.scatter(
                    ray,
                    &rec,
                    &mut attenuation,
                    &mut scattered,
                    sampler,
                );
                if goes_on {
                    let deeper: Vec3 = color(scattered, world, depth + 1, sampler);
                    attenuation.mul_assign(deeper);
                    attenuation
                } else {
                    Vec3::default()
                }
            } else {
                Vec3::default()
            }
        },
        None => sky(&ray),
    }
}

/// Tracing takes its samples from the front of the supply.
pub proof fn lemma_radiance_draws<H: Hitable>(
    world: &H,
    ray: Ray,
    depth: nat,
    samples: Seq<Binary32>,
)
    ensures
        drawn_from(radiance(world, ray, depth, samples).1, samples),
    decreases 50 - depth,
{
    lemma_drawn_rest(samples);
    match world.crossing(ray, Binary32 { bits: NEAREST_HIT }, Binary32 { bits: 0x7f80_0000 }) {
        Some(rec) => {
            if depth < 50 {
                let s = rec.material.scattering(ray, rec, samples);
                rec.material.scattering_draws(ray, rec, samples);
                if s.scattered {
                    lemma_radiance_draws(world, s.ray, depth + 1, s.rest);
                    lemma_drawn_chain(
                        radiance(world, s.ray, depth + 1, s.rest).1,
                        s.rest,
                        samples,
                    );
                }
            }
        },
        None => {},
    }
}

/// Into a scene with no members a ray straight down returns white, and a
/// ray straight up the blue of the sky, at any depth and without a draw.
pub proof fn lemma_empty_scene_colours<H: Hitable>(
    world: &Objects<H>,
    origin: Vec3,
    depth: nat,
    samples: Seq<Binary32>,
)
    requires
        world.0@.len() == 0,
    ensures
        radiance(
            world,
            Ray {
                a: origin,
                b: Vec3 {
                    x: Binary32::zero(),
                    y: Binary32 { bits: 0xbf80_0000 },
                    z: Binary32::zero(),
                },
            },
            depth,
            samples,
        ) == (white(), samples),
        radiance(
            world,
            Ray {
                a: origin,
                b: Vec3 { x: Binary32::zero(), y: Binary32::one(), z: Binary32::zero() },
            },
            depth,
            samples,
        ) == (blue(), samples),
{
    lemma_sky_straight_down(origin);
    lemma_sky_straight_up(origin);
}

/// At the depth cap a hit returns no light at all.
pub proof fn lemma_depth_cap<H: Hitable>(
    world: &H,
    ray: Ray,
    depth: nat,
    samples: Seq<Binary32>,
)
    requires
        depth >= 50,
        world.crossing(
            ray,
            Binary32 { bits: NEAREST_HIT },
            Binary32 { bits: 0x7f80_0000 },
        ) is Some,
    ensures
        radiance(world, ray, depth, samples) == (Vec3::origin(), samples),
{
}

/// A hit that absorbs returns no light, whatever lies behind.
pub proof fn lemma_absorbed_is_black<H: Hitable>(
    world: &H,
    ray: Ray,
    depth: nat,
    samples: Seq<Binary32>,
)
    requires
        world.crossing(ray, Binary32 { bits: NEAREST_HIT }, Binary32 { bits: 0x7f80_0000 })
            matches Some(rec) && !rec.material.scattering(ray, rec, samples).scattered,
    ensures
        radiance(world, ray, depth, samples).0 == Vec3::origin(),
{
}

/// A ray that hits nothing returns the sky and draws no sample.
pub proof fn lemma_miss_is_sky<H: Hitable>(
    world: &H,
    ray: Ray,
    depth: nat,
    samples: Seq<Binary32>,
)
    requires
        world.crossing(
            ray,
            Binary32 { bits: NEAREST_HIT },
            Binary32 { bits: 0x7f80_0000 },
        ) is None,
    ensures
        radiance(world, ray, depth, samples) == (sky_colour(ray), samples),
{
}

} // verus!
