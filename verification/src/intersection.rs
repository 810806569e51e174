//! What rounding leaves of the geometry of a ray aimed at a sphere.
//!
//! A ray whose direction is the difference of the sphere's centre and its own
//! origin enters the sphere before it reaches the centre. In rounded
//! arithmetic this holds where the sphere is neither too small to tell from a
//! point nor so large that the origin lies almost on it: a part in a
//! thousand either way is enough.
use crate::accuracy::{
    lemma_difference_error, lemma_landmarks, lemma_product_error,
    lemma_quotient_error, lemma_root_accuracy, lemma_sum_error, lemma_sum_mirrored,
    lemma_within_scale, size, within,
};
use crate::arith::{lemma_square_sign, lemma_zero_nearest};
use crate::bits::lemma_pow2_increases;
use crate::exact::{lemma_nearest_exists, Exact};
use crate::format::{lemma_magnitude_increases, lemma_magnitude_small, magnitude, Binary32};
use crate::ray::Ray;
use crate::scene::{Hitable, Sphere};
use crate::vec::{lemma_length_is_a_number, Vec3};
use vstd::arithmetic::power2::*;
use vstd::prelude::*;

verus! {

/// The discriminant for a ray aimed at the centre, from the squared distance
/// `a` and the squared radius `r2`: `a^2 - a (a - r2)`.
pub open spec fn aimed_discriminant(a: Binary32, r2: Binary32) -> Binary32 {
    a.product(a).difference(a.product(a.difference(r2)))
}

/// The smaller root for a ray aimed at the centre: `(a - sqrt(disc)) / a`.
pub open spec fn aimed_root(a: Binary32, r2: Binary32) -> Binary32 {
    a.difference(aimed_discriminant(a, r2).root()).quotient(a)
}

/// The squared distance is in the middle of the range, and the squared
/// radius is at least a part in a thousand of it and at least as much short
/// of it.
pub open spec fn well_apart(a: Binary32, r2: Binary32) -> bool {
    &&& a.is_finite() && !a.negative()
    &&& r2.is_finite() && !r2.negative()
    &&& pow2(100) <= size(a) <= pow2(200)
    &&& 1024 * size(r2) >= size(a)
    &&& 1024 * (size(a) - size(r2)) >= size(a)
}

proof fn lemma_gap_of_squares(a: int, s: int)
    by (nonlinear_arith)
    requires
        0 <= s,
        0 <= a,
        8192 * (s * s) <= 8191 * (a * a),
        8192 * (s * s) >= a * a,
    ensures
        16384 * (a - s) >= a,
        128 * s >= a,
{
    if 16384 * (a - s) < a {
        assert(16384 * s > 16383 * a);
        assert((16384 * s) * (16384 * s) >= (16383 * a) * (16383 * a));
    }
    if 128 * s < a {
        assert((128 * s) * (128 * s) <= a * a);
    }
}

proof fn lemma_cancel_positive(x: int, y: int, c: int)
    by (nonlinear_arith)
    requires
        c > 0,
        x * c < y * c,
    ensures
        x < y,
{
}

/// For a ray aimed at the centre of a sphere well apart from its origin,
/// the discriminant is positive and the smaller root lies between zero and one.
pub proof fn lemma_aimed_root(a: Binary32, r2: Binary32)
    requires
        well_apart(a, r2),
    ensures
        Binary32::zero().below(aimed_discriminant(a, r2)),
        Binary32::zero().below(aimed_root(a, r2)),
        aimed_root(a, r2).below(Binary32::one()),
{
    let u = pow2(149) as int;
    let big = size(a);
    let rr = size(r2);
    lemma2_to64();
    lemma_landmarks();
    lemma_magnitude_small();
    lemma_pow2_increases(64, 100);
    lemma_pow2_increases(64, 149);
    lemma_pow2_adds(100, 100);
    lemma_pow2_adds(200, 200);
    lemma_pow2_adds(23, 149);
    lemma_pow2_adds(276, 149);
    lemma_pow2_increases(172, 200);
    lemma_pow2_increases(400, 425);
    lemma_pow2_increases(38, 149);
    lemma_pow2_increases(149, 276);
    lemma_pow2_adds(32, 6);
    let aa = big * big;
    let ar = big * rr;
    assert(pow2(200) <= aa <= pow2(400)) by (nonlinear_arith)
        requires
            aa == big * big,
            pow2(100) <= big <= pow2(200),
            pow2(200) == pow2(100) * pow2(100),
            pow2(400) == pow2(200) * pow2(200),
    ;
    assert(1024 * ar >= aa && 1024 * (aa - ar) >= aa && ar >= 0) by (nonlinear_arith)
        requires
            aa == big * big,
            ar == big * rr,
            1024 * rr >= big,
            1024 * (big - rr) >= big,
            big >= 0,
            rr >= 0,
    ;
    // c = a - r2
    let c = a.difference(r2);
    lemma_difference_error(a, r2);
    let cc = size(c);
    let ac = big * cc;
    assert(0x80_0000 * ac <= 0x80_0002 * (aa - ar) && 0x80_0000 * (aa - ar) <= 0x80_0002 * ac)
        by (nonlinear_arith)
        requires
            0x80_0000 * cc <= 0x80_0002 * (big - rr),
            0x80_0000 * (big - rr) <= 0x80_0002 * cc,
            aa == big * big,
            ar == big * rr,
            ac == big * cc,
            big >= 0,
    ;
    // q = a a, w = a c
    let q = a.product(a);
    let w = a.product(c);
    lemma_product_error(a, a);
    lemma_product_error(a, c);
    assert(0x80_0000 * u == pow2(172));
    lemma_pow2_adds(11, 189);
    lemma_pow2_increases(172, 189);
    assert(2048 * ac >= aa);
    assert(ac >= pow2(172));
    assert(ac <= aa);
    let qu = size(q) * u;
    let wu = size(w) * u;
    assert(within(qu, aa, 2));
    assert(within(wu, ac, 2));
    assert(2048 * (qu - wu) >= aa);
    assert(2048 * (qu - wu) <= 2047 * aa);
    assert((size(q) - size(w)) * u == qu - wu) by (nonlinear_arith)
        requires
            qu == size(q) * u,
            wu == size(w) * u,
    ;
    assert(size(w) < size(q)) by {
        lemma_cancel_positive(size(w), size(q), u);
    }
    // the discriminant
    let disc = q.difference(w);
    assert(disc == aimed_discriminant(a, r2));
    lemma_difference_error(q, w);
    let dd = size(disc);
    lemma_within_scale(dd, size(q) - size(w), 2, u);
    let du = dd * u;
    assert(4096 * du >= aa);
    assert(4096 * du <= 4095 * aa);
    lemma_magnitude_increases(0, disc.ordinal());
    lemma_magnitude_increases(q.ordinal(), 0x7f80_0000);
    // its square root
    let sq = disc.root();
    lemma_root_accuracy(disc);
    let ss = size(sq);
    let s2 = ss * ss;
    assert(8192 * s2 <= 8191 * aa);
    assert(8192 * s2 >= aa);
    lemma_gap_of_squares(big, ss);
    assert(ss < big);
    // the numerator a - sqrt(disc)
    let num = a.difference(sq);
    lemma_difference_error(a, sq);
    let nn = size(num);
    assert(32768 * nn >= big);
    assert(256 * nn <= 255 * big);
    lemma_magnitude_increases(0, a.ordinal());
    let nu = nn * u;
    assert(32768 * nu >= big * u && nu >= 0x80_0000 * big && nu <= pow2(276) * big && 256 * nu
        <= 255 * (big * u)) by (nonlinear_arith)
        requires
            nu == nn * u,
            32768 * nn >= big,
            256 * nn <= 255 * big,
            0 <= nn <= big,
            u >= 0x80_0000 * 32768,
            u <= pow2(276),
            big >= 0,
    ;
    // the root
    let t = num.quotient(a);
    assert(t == aimed_root(a, r2));
    lemma_quotient_error(num, a);
    let tt = size(t);
    let ta = tt * big;
    assert(ta < u * big);
    lemma_cancel_positive(tt, u, big);
    assert(ta > 0);
    assert(tt > 0) by (nonlinear_arith)
        requires
            ta == tt * big,
            ta > 0,
            big > 0,
            tt >= 0,
    ;
    assert(Binary32::one().units() == u);
    assert(Binary32::zero().units() == 0);
}

/// Taking a difference the other way round changes the sign and nothing else.
pub proof fn lemma_back_difference(x: Binary32, y: Binary32)
    requires
        x.is_finite(),
        y.is_finite(),
    ensures
        x.difference(y).ordinal() == y.difference(x).ordinal(),
        x.difference(y).ordinal() <= 0x7f80_0000,
        !x.difference(y).is_zero() ==> x.difference(y).negative() != y.difference(x).negative(),
{
    reveal(Binary32::sum);
    let e = x.units() - y.units();
    assert(x.negation().units() == -x.units());
    assert(y.negation().units() == -y.units());
    if e > 0 {
        lemma_nearest_exists(Exact::ratio(e as nat, 1));
    } else if e < 0 {
        lemma_nearest_exists(Exact::ratio((-e) as nat, 1));
    }
}

/// The product of a finite value with its mirror image is as large as its
/// square, and not positive.
pub proof fn lemma_mirror_product(x: Binary32, y: Binary32)
    requires
        x.is_finite(),
        y.is_finite(),
        x.ordinal() == y.ordinal(),
        !x.is_zero() ==> x.negative() != y.negative(),
    ensures
        x.product(x) == y.product(y),
        !y.product(y).negative(),
        !y.product(y).is_nan(),
        y.product(y) == Binary32::compose(false, x.product(y).ordinal()),
        x.product(y).negative() || x.product(y).is_zero(),
{
    reveal(Binary32::product);
    let q = Exact::ratio(magnitude(x.ordinal()) * magnitude(x.ordinal()), pow2(149));
    lemma_nearest_exists(q);
    lemma_pow2_pos(149);
    if x.is_zero() {
        lemma_magnitude_small();
        assert(q.num == 0) by (nonlinear_arith)
            requires
                q.num == magnitude(x.ordinal()) * magnitude(x.ordinal()),
                magnitude(x.ordinal()) == 0,
        ;
        lemma_zero_nearest(q);
    }
}

/// A vector and its mirror image: components as large, with opposite signs
/// wherever they are not zero.
pub open spec fn mirrors(m: Vec3, d: Vec3) -> bool {
    &&& m.x.is_finite() && m.y.is_finite() && m.z.is_finite()
    &&& d.x.is_finite() && d.y.is_finite() && d.z.is_finite()
    &&& m.x.ordinal() == d.x.ordinal() && (!m.x.is_zero() ==> m.x.negative() != d.x.negative())
    &&& m.y.ordinal() == d.y.ordinal() && (!m.y.is_zero() ==> m.y.negative() != d.y.negative())
    &&& m.z.ordinal() == d.z.ordinal() && (!m.z.is_zero() ==> m.z.negative() != d.z.negative())
}

/// The dot product of a vector with its mirror image is the mirror image of
/// its squared length, which is that of the mirror image too.
pub proof fn lemma_mirror_inner(m: Vec3, d: Vec3)
    requires
        mirrors(m, d),
        d.norm_squared().is_finite(),
    ensures
        !d.norm_squared().negative(),
        m.norm_squared() == d.norm_squared(),
        m.inner(d).ordinal() == d.norm_squared().ordinal(),
        !d.norm_squared().is_zero() ==> m.inner(d).negative(),
{
    let px = d.x.product(d.x);
    let py = d.y.product(d.y);
    let pz = d.z.product(d.z);
    let a1 = px.sum(py);
    lemma_mirror_product(m.x, d.x);
    lemma_mirror_product(m.y, d.y);
    lemma_mirror_product(m.z, d.z);
    lemma_sum_error(px, py);
    lemma_sum_error(a1, pz);
    let tx = m.x.product(d.x);
    let ty = m.y.product(d.y);
    let tz = m.z.product(d.z);
    lemma_mirror_sum(tx, ty, px, py);
    lemma_mirror_sum(tx.sum(ty), tz, a1, pz);
}

/// Two numbers that are not positive add up to the mirror image of the sum
/// of their own mirror images.
proof fn lemma_mirror_sum(tx: Binary32, ty: Binary32, px: Binary32, py: Binary32)
    requires
        px.is_finite() && !px.negative(),
        py.is_finite() && !py.negative(),
        px.sum(py).is_finite() && !px.sum(py).negative(),
        px == Binary32::compose(false, tx.ordinal()),
        py == Binary32::compose(false, ty.ordinal()),
        tx.negative() || tx.is_zero(),
        ty.negative() || ty.is_zero(),
    ensures
        px.sum(py) == Binary32::compose(false, tx.sum(ty).ordinal()),
        tx.sum(ty).is_finite(),
        tx.sum(ty).negative() || tx.sum(ty).is_zero(),
        !tx.sum(ty).is_zero() ==> tx.sum(ty).negative(),
{
    lemma_sum_mirrored(tx, ty);
}

/// For a ray aimed at the centre, the three dot products of the quadratic
/// are one number: `oc . oc` is `d . d`, and `oc . d` is its mirror image.
pub proof fn lemma_aimed_products(sphere: Sphere, ray: Ray)
    requires
        ray.b == sphere.center.minus(ray.a),
        ray.a.x.is_finite() && ray.a.y.is_finite() && ray.a.z.is_finite(),
        sphere.center.x.is_finite() && sphere.center.y.is_finite() && sphere.center.z.is_finite(),
        ray.b.norm_squared().is_finite(),
    ensures
        !ray.b.norm_squared().negative(),
        ray.a.minus(sphere.center).inner(ray.a.minus(sphere.center)) == ray.b.norm_squared(),
        ray.a.minus(sphere.center).inner(ray.b).ordinal() == ray.b.norm_squared().ordinal(),
        !ray.b.norm_squared().is_zero() ==> ray.a.minus(sphere.center).inner(ray.b).negative(),
{
    let d = ray.b;
    let oc = ray.a.minus(sphere.center);
    lemma_back_difference(ray.a.x, sphere.center.x);
    lemma_back_difference(ray.a.y, sphere.center.y);
    lemma_back_difference(ray.a.z, sphere.center.z);
    lemma_finite_components(d);
    lemma_mirror_inner(oc, d);
}

/// A vector of numbers whose squared length is finite has finite components.
pub proof fn lemma_finite_components(d: Vec3)
    requires
        !d.x.is_nan() && !d.y.is_nan() && !d.z.is_nan(),
        d.norm_squared().is_finite(),
    ensures
        d.x.is_finite() && d.y.is_finite() && d.z.is_finite(),
{
    let px = d.x.product(d.x);
    let py = d.y.product(d.y);
    let pz = d.z.product(d.z);
    lemma_square_sign(d.x);
    lemma_square_sign(d.y);
    lemma_square_sign(d.z);
    lemma_sum_error(px, py);
    lemma_sum_error(px.sum(py), pz);
}

/// A ray aimed at the centre of a sphere well apart from its origin hits the
/// sphere at the smaller root, before it reaches the centre.
pub proof fn lemma_aimed_ray_hits(sphere: Sphere, ray: Ray)
    requires
        ray.b == sphere.center.minus(ray.a),
        ray.a.x.is_finite() && ray.a.y.is_finite() && ray.a.z.is_finite(),
        sphere.center.x.is_finite() && sphere.center.y.is_finite() && sphere.center.z.is_finite(),
        sphere.radius.is_finite(),
        well_apart(ray.b.norm_squared(), sphere.radius.product(sphere.radius)),
    ensures
        Binary32::zero().below(sphere.discriminant(ray)),
        Binary32::zero().below(sphere.near_root(ray)),
        sphere.near_root(ray).below(Binary32::one()),
        sphere.crossing(ray, Binary32::zero(), Binary32::one()) == Some(
            sphere.record(ray, sphere.near_root(ray)),
        ),
        sphere.crossing(ray, Binary32::zero(), Binary32 { bits: 0x7f80_0000 }) == Some(
            sphere.record(ray, sphere.near_root(ray)),
        ),
{
    let a = ray.b.norm_squared();
    let r2 = sphere.radius.product(sphere.radius);
    let oc = ray.a.minus(sphere.center);
    let b = oc.inner(ray.b);
    lemma_aimed_products(sphere, ray);
    lemma_aimed_root(a, r2);
    lemma_pow2_pos(100);
    lemma_magnitude_small();
    assert(!a.is_zero());
    assert(b.negation() == a);
    assert(b.product(b) == a.product(a)) by {
        reveal(Binary32::product);
    }
    assert(sphere.discriminant(ray) == aimed_discriminant(a, r2));
    assert(sphere.near_root(ray) == aimed_root(a, r2));
    lemma_landmarks();
    lemma_magnitude_increases(0x3f80_0000, 0x7f80_0000);
}

/// A ray that starts where it is nearest to the centre, further from it than
/// the radius, does not hit the sphere: the direction is at right angles
/// to the offset from the centre, the squared offset is above the squared
/// radius, and so the discriminant is not positive.
pub proof fn lemma_offset_ray_misses(sphere: Sphere, ray: Ray, tmin: Binary32, tmax: Binary32)
    requires
        !ray.b.x.is_nan() && !ray.b.y.is_nan() && !ray.b.z.is_nan(),
        ray.a.minus(sphere.center).inner(ray.b).is_zero(),
        sphere.radius.product(sphere.radius).below(ray.a.minus(sphere.center).norm_squared()),
    ensures
        !Binary32::zero().below(sphere.discriminant(ray)),
        sphere.crossing(ray, tmin, tmax) is None,
{
    let oc = ray.a.minus(sphere.center);
    let a = ray.b.inner(ray.b);
    let b = oc.inner(ray.b);
    let r2 = sphere.radius.product(sphere.radius);
    let c = oc.inner(oc).difference(r2);
    lemma_length_is_a_number(ray.b);
    lemma_square_not_negative(sphere.radius);
    lemma_zero_square(b);
    lemma_above_difference(oc.inner(oc), r2);
    lemma_product_sign(a, c);
    lemma_nothing_less(b.product(b), a.product(c));
}

/// A square is not negative, if a number at all.
proof fn lemma_square_not_negative(x: Binary32)
    ensures
        x.product(x).is_nan() || !x.product(x).negative(),
{
    reveal(Binary32::product);
    lemma_nearest_exists(Exact::ratio(magnitude(x.ordinal()) * magnitude(x.ordinal()), pow2(149)));
}

/// The square of a zero is the positive zero.
proof fn lemma_zero_square(b: Binary32)
    requires
        b.is_zero(),
    ensures
        b.product(b) == Binary32::zero(),
{
    reveal(Binary32::product);
    let q = Exact::ratio(magnitude(0) * magnitude(0), pow2(149));
    lemma_magnitude_small();
    lemma_pow2_pos(149);
    assert(q.num == 0) by (nonlinear_arith)
        requires
            q.num == magnitude(0) * magnitude(0),
            magnitude(0) == 0,
    ;
    lemma_zero_nearest(q);
}

/// Taking a smaller number that is not negative from a larger leaves a
/// number that is not negative.
proof fn lemma_above_difference(x: Binary32, y: Binary32)
    requires
        y.below(x),
        !y.negative(),
    ensures
        !x.difference(y).is_nan(),
        !x.difference(y).negative(),
{
    reveal(Binary32::sum);
    lemma_magnitude_small();
    if x.is_finite() {
        let e = x.units() - y.units();
        lemma_magnitude_increases(x.ordinal(), 0x7f80_0000);
        assert(y.is_finite());
        assert(y.negation().units() == -y.units());
        lemma_nearest_exists(Exact::ratio(e as nat, 1));
    }
}

/// The product of two numbers that are not negative is not negative, if a
/// number at all.
proof fn lemma_product_sign(x: Binary32, y: Binary32)
    requires
        !x.is_nan() && !x.negative(),
        !y.is_nan() && !y.negative(),
    ensures
        x.product(y).is_nan() || !x.product(y).negative(),
{
    reveal(Binary32::product);
    lemma_nearest_exists(Exact::ratio(magnitude(x.ordinal()) * magnitude(y.ordinal()), pow2(149)));
}

/// Nothing less something that is not negative is not above nothing.
proof fn lemma_nothing_less(z: Binary32, w: Binary32)
    requires
        z == Binary32::zero(),
        w.is_nan() || !w.negative(),
    ensures
        !Binary32::zero().below(z.difference(w)),
{
    reveal(Binary32::sum);
    lemma_magnitude_small();
    if w.is_finite() {
        let n = magnitude(w.ordinal());
        assert(w.negation().units() == -n);
        if n > 0 {
            lemma_nearest_exists(Exact::ratio(n, 1));
        }
    }
}

} // verus!
