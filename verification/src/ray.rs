//! Rays, the sky behind the scene, and the shading of a lone sphere.
use crate::evaluate::{
    lemma_plus_zero, lemma_product_exact, lemma_quotient_exact, lemma_root_exact,
    lemma_small_powers, lemma_sum_exact, lemma_times_one, lemma_times_zero,
};
use crate::format::{lemma_magnitude_small, magnitude, Binary32, HALF, ONE, TWO};
use vstd::arithmetic::power2::*;
use crate::vec::Vec3;
use vstd::prelude::*;

verus! {

/// The pattern of the blue sky's green channel, 0.7.
pub const SKY_GREEN: u32 = 0x3f33_3333;

/// The pattern of four.
pub const FOUR: u32 = 0x4080_0000;

/// The pattern of minus one.
pub const MINUS_ONE: u32 = 0xbf80_0000;

/// A half-line: the points `a + t * b`.
#[derive(Clone, Copy, Debug)]
pub struct Ray {
    pub a: Vec3,
    pub b: Vec3,
}

/// White, the sky's colour straight down.
pub open spec fn white() -> Vec3 {
    Vec3 { x: Binary32::one(), y: Binary32::one(), z: Binary32::one() }
}

/// The sky's colour straight up.
pub open spec fn blue() -> Vec3 {
    Vec3 { x: Binary32 { bits: HALF }, y: Binary32 { bits: SKY_GREEN }, z: Binary32::one() }
}

/// The colour of the sky along `ray`: white blended into blue by the height
/// `t = 0.5 * (y + 1)` of the unit direction.
pub open spec fn sky_colour(ray: Ray) -> Vec3 {
    let t = Binary32 { bits: HALF }.product(ray.b.unit().y.sum(Binary32::one()));
    white().scaled(Binary32::one().difference(t)).plus(blue().scaled(t))
}

/// The parameter at which `ray` first meets the sphere, from the smaller
/// root of the quadratic, or minus one where the discriminant is negative.
pub open spec fn first_root(center: Vec3, radius: Binary32, ray: Ray) -> Binary32 {
    let oc = ray.a.minus(center);
    let a = ray.b.inner(ray.b);
    let b = Binary32 { bits: TWO }.product(oc.inner(ray.b));
    let c = oc.inner(oc).difference(radius.product(radius));
    let discriminant = b.product(b).difference(Binary32 { bits: FOUR }.product(a).product(c));
    if discriminant.below(Binary32::zero()) {
        Binary32 { bits: MINUS_ONE }
    } else {
        b.negation().difference(discriminant.root()).quotient(Binary32 { bits: TWO }.product(a))
    }
}

/// The centre of the lone sphere, one unit in front of the eye.
pub open spec fn lone_center() -> Vec3 {
    Vec3 { x: Binary32::zero(), y: Binary32::zero(), z: Binary32 { bits: MINUS_ONE } }
}

/// The colour seen along `ray` with one sphere of radius one half in front
/// of the eye: the surface normal mapped into colours where the ray hits,
/// the sky elsewhere.
pub open spec fn lone_sphere_colour(ray: Ray) -> Vec3 {
    let t = first_root(lone_center(), Binary32 { bits: HALF }, ray);
    if Binary32::zero().below(t) {
        let n = ray.at(t).minus(lone_center()).unit();
        Vec3 {
            x: n.x.sum(Binary32::one()),
            y: n.y.sum(Binary32::one()),
            z: n.z.sum(Binary32::one()),
        }.scaled(Binary32 { bits: HALF })
    } else {
        sky_colour(ray)
    }
}

impl Ray {
    /// The point at parameter `t`.
    pub open spec fn at(self, t: Binary32) -> Vec3 {
        self.a.plus(self.b.scaled(t))
    }

    pub fn new(a: Vec3, b: Vec3) -> (r: Ray)
        ensures
            r == (Ray { a, b }),
    {
        Ray { a, b }
    }

    pub fn origin(&self) -> (r: Vec3)
        ensures
            r == self.a,
    {
        self.a
    }

    pub fn direction(&self) -> (r: Vec3)
        ensures
            r == self.b,
    {
        self.b
    }

    pub fn point_at_parameter(&self, t: Binary32) -> (r: Vec3)
        ensures
            r == self.at(t),
    {
        let step: Vec3 = Vec3 { x: self.b.x.mul(t), y: self.b.y.mul(t), z: self.b.z.mul(t) };
        Vec3 { x: self.a.x.add(step.x), y: self.a.y.add(step.y), z: self.a.z.add(step.z) }
    }
}

impl Default for Ray {
    fn default() -> (r: Ray)
        ensures
            r == (Ray { a: Vec3::origin(), b: Vec3::origin() }),
    {
        Ray { a: Vec3::default(), b: Vec3::default() }
    }
}

/// The sky behind everything.
pub fn sky(ray: &Ray) -> (r: Vec3)
    ensures
        r == sky_colour(*ray),
{
    let one: Binary32 = Binary32 { bits: ONE };
    let half: Binary32 = Binary32 { bits: HALF };
    let unit_dir: Vec3 = ray.direction().normalize();
    let t: Binary32 = half.mul(unit_dir.y().add(one));
    let low: Vec3 = Vec3::new(one, one, one);
    let high: Vec3 = Vec3::new(half, Binary32 { bits: SKY_GREEN }, one);
    let keep: Binary32 = one.sub(t);
    let mut blend: Vec3 = Vec3::new(low.x.mul(keep), low.y.mul(keep), low.z.mul(keep));
    blend.add_assign(Vec3::new(high.x.mul(t), high.y.mul(t), high.z.mul(t)));
    blend
}

/// Solves for the nearer crossing of `ray` and a sphere.
pub fn hit_sphere(center: Vec3, radius: Binary32, ray: &Ray) -> (r: Binary32)
    ensures
        r == first_root(center, radius, *ray),
{
    let two: Binary32 = Binary32 { bits: TWO };
    let mut oc: Vec3 = ray.origin();
    oc.sub_assign(center);
    let a: Binary32 = ray.direction().dot(ray.direction());
    let b: Binary32 = two.mul(oc.dot(ray.direction()));
    let c: Binary32 = oc.dot(oc).sub(radius.mul(radius));
    let discriminant: Binary32 = b.mul(b).sub(Binary32 { bits: FOUR }.mul(a).mul(c));
    if discriminant.lt(Binary32 { bits: 0 }) {
        Binary32 { bits: MINUS_ONE }
    } else {
        b.neg().sub(discriminant.sqrt()).div(two.mul(a))
    }
}

/// Shades `ray` against the lone sphere.
pub fn color(ray: &Ray) -> (r: Vec3)
    ensures
        r == lone_sphere_colour(*ray),
{
    let center: Vec3 = Vec3::new(
        Binary32 { bits: 0 },
        Binary32 { bits: 0 },
        Binary32 { bits: MINUS_ONE },
    );
    let t: Binary32 = hit_sphere(center, Binary32 { bits: HALF }, ray);
    if t.gt(Binary32 { bits: 0 }) {
        let mut n: Vec3 = ray.point_at_parameter(t);
        n.sub_assign(center);
        n = n.normalize();
        let one: Binary32 = Binary32 { bits: ONE };
        let mut shade: Vec3 = Vec3::new(n.x().add(one), n.y().add(one), n.z().add(one));
        shade.scale_assign(Binary32 { bits: HALF });
        return shade;
    }
    sky(ray)
}

/// Straight down the sky is white.
pub proof fn lemma_sky_straight_down(origin: Vec3)
    ensures
        sky_colour(
            Ray {
                a: origin,
                b: Vec3 { x: Binary32::zero(), y: Binary32 { bits: MINUS_ONE }, z: Binary32::zero() },
            },
        ) == white(),
{
    reveal(Binary32::sum);
    let zero = Binary32::zero();
    let one = Binary32::one();
    let half = Binary32 { bits: HALF };
    let down = Binary32 { bits: MINUS_ONE };
    let d = Vec3 { x: zero, y: down, z: zero };
    lemma_small_powers();
    lemma_magnitude_small();
    assert(down.ordinal() == 0x3f80_0000 && down.negative());
    assert(one.ordinal() == 0x3f80_0000 && !one.negative());
    assert(half.ordinal() == 0x3f00_0000 && !half.negative());
    // the length of the direction is one
    lemma_times_zero(zero);
    lemma_product_exact(down, down, 0x3f80_0000);
    lemma_plus_zero(one);
    assert(d.norm_squared() == one);
    lemma_root_exact(one, 0x3f80_0000);
    lemma_quotient_exact(one, one, 0x3f80_0000);
    assert(d.norm().reciprocal() == one);
    lemma_times_one(zero);
    lemma_times_one(down);
    assert(d.unit() == d);
    // the height is nothing
    assert(down.sum(one) == zero);
    lemma_times_zero(half);
    let t = half.product(down.sum(one));
    assert(t == zero);
    assert(zero.negation().ordinal() == 0 && zero.negation().units() == 0);
    lemma_sum_exact(one, zero.negation(), 0x3f80_0000);
    assert(one.difference(t) == one);
    lemma_times_one(one);
    lemma_times_zero(Binary32 { bits: SKY_GREEN });
    lemma_times_zero(one);
}

/// Straight up the sky is blue.
pub proof fn lemma_sky_straight_up(origin: Vec3)
    ensures
        sky_colour(
            Ray { a: origin, b: Vec3 { x: Binary32::zero(), y: Binary32::one(), z: Binary32::zero() } },
        ) == blue(),
{
    reveal(Binary32::sum);
    let zero = Binary32::zero();
    let one = Binary32::one();
    let two = Binary32 { bits: TWO };
    let half = Binary32 { bits: HALF };
    let green = Binary32 { bits: SKY_GREEN };
    let d = Vec3 { x: zero, y: one, z: zero };
    lemma_small_powers();
    lemma_magnitude_small();
    assert(one.ordinal() == 0x3f80_0000 && !one.negative());
    assert(two.ordinal() == 0x4000_0000 && !two.negative());
    assert(half.ordinal() == 0x3f00_0000 && !half.negative());
    assert(green.ordinal() == 0x3f33_3333 && !green.negative());
    // the length of the direction is one
    lemma_times_zero(zero);
    lemma_times_one(one);
    lemma_plus_zero(one);
    assert(d.norm_squared() == one);
    lemma_root_exact(one, 0x3f80_0000);
    lemma_quotient_exact(one, one, 0x3f80_0000);
    assert(d.norm().reciprocal() == one);
    lemma_times_one(zero);
    assert(d.unit() == d);
    // the height is one
    lemma_sum_exact(one, one, 0x4000_0000);
    assert(one.sum(one) == two);
    assert(magnitude(0x3f00_0000) * magnitude(0x4000_0000) == magnitude(0x3f80_0000) * pow2(149))
        by (nonlinear_arith)
        requires
            2 * magnitude(0x3f00_0000) == pow2(149),
            magnitude(0x4000_0000) == 2 * pow2(149),
            magnitude(0x3f80_0000) == pow2(149),
    ;
    lemma_product_exact(half, two, 0x3f80_0000);
    let t = half.product(one.sum(one));
    assert(t == one);
    assert(one.difference(t) == zero);
    lemma_times_zero(one);
    lemma_times_one(half);
    lemma_times_one(green);
    lemma_plus_zero(half);
    lemma_plus_zero(green);
}

} // verus!
