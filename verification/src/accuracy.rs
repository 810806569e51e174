//! How far rounding carries a result from the exact one.
//!
//! A rounded magnitude lies within half a spacing of the exact quantity,
//! which is one part in `2^24` of it once the result is normal. The bounds
//! here are stated in parts of `2^23`, with room to combine many of them.
use crate::arith::lemma_exact_ordinal;
use crate::bits::lemma_pow2_increases;
use crate::exact::{
    lemma_nearest_at_least, lemma_nearest_at_most, lemma_nearest_exists, scale_down, scale_up,
    Exact,
};
use crate::format::{
    grid_exp, grid_sig, lemma_grid_bounds, lemma_grid_of, lemma_magnitude_increases,
    lemma_magnitude_small, lemma_magnitude_step, magnitude, Binary32,
};
use crate::vec::Vec3;
use vstd::arithmetic::power2::*;
use vstd::prelude::*;

verus! {

/// `a` and `b` agree within `k` parts in `2^23`, each measured by the other.
pub open spec fn within(a: int, b: int, k: int) -> bool {
    0x80_0000 * a <= (0x80_0000 + k) * b && 0x80_0000 * b <= (0x80_0000 + k) * a
}

/// The spacing at ordinal `m`.
pub open spec fn spacing(m: nat) -> nat {
    pow2(grid_exp(m))
}

/// The magnitudes on either side of an ordinal lie one spacing away at
/// most, and from the normal range on a spacing is one part in `2^23`.
pub proof fn lemma_spacing(m: nat)
    ensures
        magnitude(m + 1) == magnitude(m) + spacing(m),
        m > 0 ==> magnitude(m) - spacing(m) <= magnitude((m - 1) as nat) < magnitude(m),
        spacing(m) >= 1,
        m < 0x80_0000 ==> spacing(m) == 1,
        m >= 0x80_0000 ==> 0x80_0000 * spacing(m) <= magnitude(m),
{
    lemma2_to64();
    lemma_magnitude_step(m);
    lemma_grid_bounds(m);
    lemma_pow2_pos(grid_exp(m));
    let g = spacing(m);
    let t = grid_sig(m);
    if m > 0 {
        lemma_magnitude_step((m - 1) as nat);
        lemma_magnitude_increases((m - 1) as nat, m);
        lemma_pow2_increases(grid_exp((m - 1) as nat), grid_exp(m));
    }
    if m >= 0x80_0000 {
        assert(t >= 0x80_0000);
        assert(0x80_0000 * g <= t * g) by (nonlinear_arith)
            requires
                t >= 0x80_0000,
                g >= 0,
        ;
    }
}

/// A ratio lies within half a spacing of the magnitude it rounds to.
pub proof fn lemma_ratio_gap(n: nat, d: nat, m: nat)
    requires
        d > 0,
        Exact::ratio(n, d).is_nearest(m),
        m < 0x7f80_0000,
    ensures
        2 * (magnitude(m) * d) - spacing(m) * d <= 2 * n <= 2 * (magnitude(m) * d) + spacing(m) * d,
{
    let q = Exact::ratio(n, d);
    let big = magnitude(m);
    let g = spacing(m);
    lemma2_to64();
    lemma_spacing(m);
    let up = scale_up(-1);
    let dn = scale_down(-1);
    assert(up == 1 && dn == 2);
    let above = big + magnitude(m + 1);
    assert(q.side(above, -1) <= 0);
    assert(n * dn - (above * up) * d <= 0);
    assert((above * up) * d == 2 * (big * d) + g * d) by (nonlinear_arith)
        requires
            up == 1,
            above == big + big + g,
    ;
    if m > 0 {
        let below = magnitude((m - 1) as nat) + big;
        assert(q.side(below, -1) >= 0);
        assert(n * dn - (below * up) * d >= 0);
        assert((below * up) * d >= 2 * (big * d) - g * d) by (nonlinear_arith)
            requires
                up == 1,
                below >= big + big - g,
                d > 0,
        ;
    } else {
        lemma_magnitude_small();
        assert(big * d == 0) by (nonlinear_arith)
            requires
                big == 0,
        ;
        assert(g * d >= 0) by (nonlinear_arith)
            requires
                g >= 0,
                d >= 0,
        ;
    }
}

/// The error of a rounded ratio: half a unit at most in the subnormal
/// range, one part in `2^24` above it.
pub proof fn lemma_ratio_error(n: nat, d: nat, m: nat)
    requires
        d > 0,
        Exact::ratio(n, d).is_nearest(m),
        m < 0x7f80_0000,
    ensures
        0x100_0000 * (magnitude(m) * d - n) <= 2 * n + 0x80_0000 * d,
        0x100_0000 * (n - magnitude(m) * d) <= 2 * n + 0x80_0000 * d,
        n >= 0x80_0000 * d ==> within((magnitude(m) * d) as int, n as int, 2),
{
    lemma_ratio_gap(n, d, m);
    lemma_spacing(m);
    let md = magnitude(m) * d;
    let gd = spacing(m) * d;
    assert(md >= 0 && gd >= 0) by (nonlinear_arith)
        requires
            md == magnitude(m) * d,
            gd == spacing(m) * d,
    ;
    if m >= 0x80_0000 {
        assert(0x80_0000 * gd <= md) by (nonlinear_arith)
            requires
                0x80_0000 * spacing(m) <= magnitude(m),
                md == magnitude(m) * d,
                gd == spacing(m) * d,
                d > 0,
        ;
    } else {
        assert(gd == d) by (nonlinear_arith)
            requires
                spacing(m) == 1,
                gd == spacing(m) * d,
        ;
    }
}

/// A square root lies within half a spacing of the magnitude it rounds to.
pub proof fn lemma_root_gap(n: nat, m: nat)
    requires
        Exact::square_root(n).is_nearest(m),
        0 < m < 0x7f80_0000,
    ensures
        2 * magnitude(m) >= spacing(m),
        (2 * magnitude(m) - spacing(m)) * (2 * magnitude(m) - spacing(m)) <= 4 * n,
        4 * n <= (2 * magnitude(m) + spacing(m)) * (2 * magnitude(m) + spacing(m)),
{
    let q = Exact::square_root(n);
    let big = magnitude(m);
    let g = spacing(m);
    lemma2_to64();
    lemma_spacing(m);
    let up = scale_up(-1);
    let dn = scale_down(-1);
    assert(up == 1 && dn == 2);
    let above = big + magnitude(m + 1);
    let below = magnitude((m - 1) as nat) + big;
    assert(q.side(above, -1) <= 0);
    assert(q.side(below, -1) >= 0);
    assert(n * (dn * dn) - ((above * up) * (above * up)) * 1 <= 0);
    assert(n * (dn * dn) - ((below * up) * (below * up)) * 1 >= 0);
    assert(n * (dn * dn) == 4 * n) by (nonlinear_arith)
        requires
            dn == 2,
    ;
    let hi = 2 * big + g;
    let lo = 2 * big - g;
    assert(((above * up) * (above * up)) * 1 == hi * hi) by (nonlinear_arith)
        requires
            up == 1,
            above == hi,
    ;
    assert(((below * up) * (below * up)) * 1 >= lo * lo) by (nonlinear_arith)
        requires
            up == 1,
            below >= lo,
            lo >= 0,
    ;
}

/// The square of a rounded square root agrees with the radicand within two
/// parts in `2^23`, from the normal range on.
pub proof fn lemma_root_error(n: nat, m: nat)
    requires
        Exact::square_root(n).is_nearest(m),
        0x80_0000 <= m < 0x7f80_0000,
    ensures
        within((magnitude(m) * magnitude(m)) as int, n as int, 2),
{
    lemma_root_gap(n, m);
    lemma_spacing(m);
    let big = magnitude(m) as int;
    let g = spacing(m) as int;
    let hi = 2 * big + g;
    let lo = 2 * big - g;
    let sq = big * big;
    // both ends, scaled by 2^23, against the magnitude
    assert((0x80_0000 * hi) * (0x80_0000 * hi) <= (0x100_0001 * big) * (0x100_0001 * big))
        by (nonlinear_arith)
        requires
            0 <= 0x80_0000 * hi <= 0x100_0001 * big,
    ;
    assert((0x80_0000 * lo) * (0x80_0000 * lo) >= (0xff_ffff * big) * (0xff_ffff * big))
        by (nonlinear_arith)
        requires
            0x80_0000 * lo >= 0xff_ffff * big,
            big >= 0,
    ;
    assert((0x80_0000 * hi) * (0x80_0000 * hi) == 0x4000_0000_0000 * (hi * hi)) by (nonlinear_arith);
    assert((0x80_0000 * lo) * (0x80_0000 * lo) == 0x4000_0000_0000 * (lo * lo)) by (nonlinear_arith);
    assert((0x100_0001 * big) * (0x100_0001 * big) == 0x1_0000_0200_0001 * sq) by (nonlinear_arith)
        requires
            sq == big * big,
    ;
    assert((0xff_ffff * big) * (0xff_ffff * big) == 0xffff_fe00_0001 * sq) by (nonlinear_arith)
        requires
            sq == big * big,
    ;
    assert(sq >= 0) by (nonlinear_arith)
        requires
            sq == big * big,
    ;
}

/// Two agreements in a row are an agreement.
pub proof fn lemma_within_chain(a: int, b: int, c: int, k: int, j: int)
    requires
        within(a, b, k),
        within(b, c, j),
        0 <= k <= 1000,
        0 <= j <= 1000,
        a >= 0,
        b >= 0,
        c >= 0,
    ensures
        within(a, c, k + j + 1),
{
    let g: int = 0x80_0000;
    assert(g * (g * a) <= (g + k) * ((g + j) * c)) by (nonlinear_arith)
        requires
            g * a <= (g + k) * b,
            g * b <= (g + j) * c,
            g > 0,
            k >= 0,
    ;
    assert(g * (g * c) <= (g + j) * ((g + k) * a)) by (nonlinear_arith)
        requires
            g * c <= (g + j) * b,
            g * b <= (g + k) * a,
            g > 0,
            j >= 0,
    ;
    assert((g + k) * ((g + j) * c) <= g * ((g + k + j + 1) * c)) by (nonlinear_arith)
        requires
            g == 0x80_0000,
            0 <= k <= 1000,
            0 <= j <= 1000,
            c >= 0,
    ;
    assert((g + j) * ((g + k) * a) <= g * ((g + k + j + 1) * a)) by (nonlinear_arith)
        requires
            g == 0x80_0000,
            0 <= k <= 1000,
            0 <= j <= 1000,
            a >= 0,
    ;
    assert(g * a <= (g + k + j + 1) * c) by (nonlinear_arith)
        requires
            g * (g * a) <= g * ((g + k + j + 1) * c),
            g > 0,
    ;
    assert(g * c <= (g + k + j + 1) * a) by (nonlinear_arith)
        requires
            g * (g * c) <= g * ((g + k + j + 1) * a),
            g > 0,
    ;
}

/// An agreement holds of equal multiples.
pub proof fn lemma_within_scale(a: int, b: int, k: int, c: int)
    requires
        within(a, b, k),
        c >= 0,
    ensures
        within(a * c, b * c, k),
{
    let g: int = 0x80_0000;
    assert(g * (a * c) <= (g + k) * (b * c)) by (nonlinear_arith)
        requires
            g * a <= (g + k) * b,
            c >= 0,
    ;
    assert(g * (b * c) <= (g + k) * (a * c)) by (nonlinear_arith)
        requires
            g * b <= (g + k) * a,
            c >= 0,
    ;
}

/// An agreement holds of the squares, a little more widely.
pub proof fn lemma_within_square(a: int, b: int, k: int)
    requires
        within(a, b, k),
        0 <= k <= 400,
        a >= 0,
        b >= 0,
    ensures
        within(a * a, b * b, 2 * k + 1),
{
    lemma_within_scale(a, b, k, a);
    lemma_within_scale(a, b, k, b);
    assert(b * a == a * b) by (nonlinear_arith);
    assert(a * a >= 0 && a * b >= 0 && b * b >= 0) by (nonlinear_arith)
        requires
            a >= 0,
            b >= 0,
    ;
    lemma_within_chain(a * a, a * b, b * b, k, k);
}

/// An agreement of squares holds of what was squared.
pub proof fn lemma_within_root(a: int, b: int, k: int)
    requires
        within(a * a, b * b, k),
        k >= 0,
        a >= 0,
        b >= 0,
    ensures
        within(a, b, k),
{
    let g: int = 0x80_0000;
    assert(g * a <= (g + k) * b) by (nonlinear_arith)
        requires
            g * (a * a) <= (g + k) * (b * b),
            g > 0,
            k >= 0,
            a >= 0,
            b >= 0,
    ;
    assert(g * b <= (g + k) * a) by (nonlinear_arith)
        requires
            g * (b * b) <= (g + k) * (a * a),
            g > 0,
            k >= 0,
            a >= 0,
            b >= 0,
    ;
}

/// The magnitudes of a few landmarks: the least normal-sized whole number,
/// one, a bound on every square root, and the largest finite value.
pub proof fn lemma_landmarks()
    ensures
        magnitude(0x80_0000) == 0x80_0000,
        magnitude(0x3f80_0000) == pow2(149),
        magnitude(0x6000_0000) == pow2(214),
        magnitude(0x7f7f_ffff) >= pow2(276),
{
    lemma2_to64();
    lemma_grid_of(0, 0x80_0000);
    assert(0x80_0000 * pow2(0) == 0x80_0000) by (nonlinear_arith)
        requires
            pow2(0) == 1,
    ;
    lemma_grid_of(126, 0x80_0000);
    assert(0x3f80_0000 == 126 * 0x80_0000 + 0x80_0000);
    lemma_pow2_adds(23, 126);
    lemma_grid_of(191, 0x80_0000);
    assert(0x6000_0000 == 191 * 0x80_0000 + 0x80_0000);
    lemma_pow2_adds(23, 191);
    lemma_grid_of(253, 0xff_ffff);
    assert(0x7f7f_ffff == 253 * 0x80_0000 + 0xff_ffff);
    lemma_pow2_adds(23, 253);
    lemma_pow2_pos(253);
    assert(0xff_ffff * pow2(253) >= 0x80_0000 * pow2(253)) by (nonlinear_arith)
        requires
            pow2(253) > 0,
    ;
}

/// The product of two finite values: a number with the sign of the exact
/// product, finite where that is no larger than `2^127`, and then within half
/// a unit or one part in `2^24` of it.
pub proof fn lemma_product_error(x: Binary32, y: Binary32)
    requires
        x.is_finite(),
        y.is_finite(),
    ensures
        !x.product(y).is_nan(),
        x.product(y).negative() == (x.negative() != y.negative()),
        magnitude(x.ordinal()) * magnitude(y.ordinal()) <= pow2(276) * pow2(149) ==> x.product(
            y,
        ).is_finite(),
        x.product(y).is_finite() ==> {
            let n = magnitude(x.ordinal()) * magnitude(y.ordinal());
            let v = magnitude(x.product(y).ordinal()) * pow2(149);
            &&& 0x100_0000 * (v - n) <= 2 * n + 0x80_0000 * pow2(149)
            &&& 0x100_0000 * (n - v) <= 2 * n + 0x80_0000 * pow2(149)
            &&& n >= 0x80_0000 * pow2(149) ==> within(v as int, n as int, 2)
        },
{
    reveal(Binary32::product);
    let n = magnitude(x.ordinal()) * magnitude(y.ordinal());
    let q = Exact::ratio(n, pow2(149));
    let m = q.nearest();
    lemma_pow2_pos(149);
    lemma2_to64();
    lemma_nearest_exists(q);
    assert(x.product(y).ordinal() == m);
    if n <= pow2(276) * pow2(149) {
        lemma_landmarks();
        let top = magnitude(0x7f7f_ffff);
        assert(scale_up(0) == 1 && scale_down(0) == 1);
        assert(n * 1 - (top * 1) * pow2(149) <= 0) by (nonlinear_arith)
            requires
                n <= pow2(276) * pow2(149),
                top >= pow2(276),
                pow2(149) > 0,
        ;
        assert(q.side(top, 0) <= 0);
        lemma_nearest_at_most(q, m, 0x7f7f_ffff);
    }
    if m < 0x7f80_0000 {
        lemma_ratio_error(n, pow2(149), m);
    }
}

/// The sum of two numbers that are not negative: not negative either,
/// finite only where both are, and then within two parts in `2^23` of the
/// exact sum.
pub proof fn lemma_sum_error(x: Binary32, y: Binary32)
    requires
        !x.is_nan() && !x.negative(),
        !y.is_nan() && !y.negative(),
    ensures
        !x.sum(y).is_nan(),
        !x.sum(y).negative(),
        x.is_finite() && y.is_finite() && magnitude(x.ordinal()) + magnitude(y.ordinal()) <= pow2(
            276,
        ) ==> x.sum(y).is_finite(),
        x.sum(y).is_finite() ==> {
            &&& x.is_finite()
            &&& y.is_finite()
            &&& within(
                magnitude(x.sum(y).ordinal()) as int,
                (magnitude(x.ordinal()) + magnitude(y.ordinal())) as int,
                2,
            )
        },
{
    reveal(Binary32::sum);
    if x.is_finite() && y.is_finite() {
        let n = magnitude(x.ordinal()) + magnitude(y.ordinal());
        assert(x.units() + y.units() == n);
        if n == 0 {
            lemma_magnitude_small();
        } else {
            let q = Exact::ratio(n, 1);
            let m = q.nearest();
            lemma_nearest_exists(q);
            assert(x.sum(y).ordinal() == m);
            if n <= pow2(276) {
                lemma_landmarks();
                let top = magnitude(0x7f7f_ffff);
                lemma2_to64();
                assert(scale_up(0) == 1 && scale_down(0) == 1);
                assert(n * 1 - (top * 1) * 1 <= 0) by (nonlinear_arith)
                    requires
                        n <= top,
                ;
                assert(q.side(top, 0) <= 0);
                lemma_nearest_at_most(q, m, 0x7f7f_ffff);
            }
            if m < 0x7f80_0000 {
                if n >= 0x80_0000 {
                    lemma_ratio_error(n, 1, m);
                    assert(magnitude(m) * 1 == magnitude(m)) by (nonlinear_arith);
                } else {
                    lemma_grid_of(0, n);
                    lemma2_to64();
                    assert(n * pow2(0) == n) by (nonlinear_arith)
                        requires
                            pow2(0) == 1,
                    ;
                    lemma_exact_ordinal(n);
                }
            }
        }
    }
}

/// The difference of two finite numbers that are not negative, the larger
/// first: positive, no larger than the first, and within two parts in
/// `2^23` of the exact difference.
pub proof fn lemma_difference_error(x: Binary32, y: Binary32)
    requires
        x.is_finite() && !x.negative(),
        y.is_finite() && !y.negative(),
        magnitude(x.ordinal()) > magnitude(y.ordinal()),
    ensures
        !x.difference(y).negative(),
        0 < x.difference(y).ordinal() <= x.ordinal(),
        within(
            magnitude(x.difference(y).ordinal()) as int,
            magnitude(x.ordinal()) - magnitude(y.ordinal()),
            2,
        ),
{
    reveal(Binary32::sum);
    lemma2_to64();
    lemma_magnitude_small();
    let n = (magnitude(x.ordinal()) - magnitude(y.ordinal())) as nat;
    let q = Exact::ratio(n, 1);
    let m = q.nearest();
    lemma_nearest_exists(q);
    let back = y.negation();
    assert(back.ordinal() == y.ordinal());
    assert(x.units() + back.units() == n);
    assert(x.difference(y) == Binary32::compose(false, m));
    assert(scale_up(0) == 1 && scale_down(0) == 1);
    let top = magnitude(x.ordinal());
    assert(n * 1 - (top * 1) * 1 <= 0 && n * 1 - (1 * 1) * 1 >= 0) by (nonlinear_arith)
        requires
            1 <= n <= top,
    ;
    assert(q.side(top, 0) <= 0);
    assert(q.side(magnitude(1), 0) >= 0);
    lemma_nearest_at_most(q, m, x.ordinal());
    lemma_nearest_at_least(q, m, 1);
    if n >= 0x80_0000 {
        lemma_ratio_error(n, 1, m);
        assert(magnitude(m) * 1 == magnitude(m)) by (nonlinear_arith);
    } else {
        lemma_grid_of(0, n);
        assert(n * pow2(0) == n) by (nonlinear_arith)
            requires
                pow2(0) == 1,
        ;
        lemma_exact_ordinal(n);
    }
}

/// The quotient of two positive finite values, where it is neither tiny
/// nor huge: finite, and its product with the divisor within two parts in
/// `2^23` of the dividend.
pub proof fn lemma_quotient_error(x: Binary32, y: Binary32)
    requires
        x.is_finite(),
        y.is_finite(),
        !y.is_zero(),
        magnitude(x.ordinal()) * pow2(149) >= 0x80_0000 * magnitude(y.ordinal()),
        magnitude(x.ordinal()) * pow2(149) <= pow2(276) * magnitude(y.ordinal()),
    ensures
        x.quotient(y).is_finite(),
        x.quotient(y).negative() == (x.negative() != y.negative()),
        within(
            (magnitude(x.quotient(y).ordinal()) * magnitude(y.ordinal())) as int,
            (magnitude(x.ordinal()) * pow2(149)) as int,
            2,
        ),
{
    reveal(Binary32::quotient);
    lemma_landmarks();
    lemma2_to64();
    lemma_magnitude_small();
    let d = magnitude(y.ordinal());
    let n = magnitude(x.ordinal()) * pow2(149);
    let q = Exact::ratio(n, d);
    let m = q.nearest();
    lemma_magnitude_increases(0, y.ordinal());
    lemma_nearest_exists(q);
    assert(x.quotient(y).ordinal() == m);
    let top = magnitude(0x7f7f_ffff);
    assert(scale_up(0) == 1 && scale_down(0) == 1);
    assert(n * 1 - (top * 1) * d <= 0) by (nonlinear_arith)
        requires
            n <= pow2(276) * d,
            top >= pow2(276),
            d >= 0,
    ;
    assert(q.side(top, 0) <= 0);
    lemma_nearest_at_most(q, m, 0x7f7f_ffff);
    lemma_ratio_error(n, d, m);
}

/// The sum of two finite numbers that are not positive is not positive, and
/// as large as the sum of their magnitudes.
pub proof fn lemma_sum_mirrored(x: Binary32, y: Binary32)
    requires
        x.is_finite() && (x.negative() || x.is_zero()),
        y.is_finite() && (y.negative() || y.is_zero()),
    ensures
        x.sum(y).ordinal() == Binary32::compose(false, x.ordinal()).sum(
            Binary32::compose(false, y.ordinal()),
        ).ordinal(),
        x.sum(y).negative() || x.sum(y).is_zero(),
        !x.sum(y).is_zero() ==> x.sum(y).negative(),
{
    reveal(Binary32::sum);
    lemma_magnitude_small();
    let n = magnitude(x.ordinal()) + magnitude(y.ordinal());
    let px = Binary32::compose(false, x.ordinal());
    let py = Binary32::compose(false, y.ordinal());
    assert(px.ordinal() == x.ordinal() && py.ordinal() == y.ordinal());
    assert(x.units() + y.units() == -n);
    assert(px.units() + py.units() == n);
    if n > 0 {
        lemma_nearest_exists(Exact::ratio(n, 1));
    }
}

/// The square root of a positive finite value: a value from the normal
/// range, no larger than `2^65`, whose square is within two parts in `2^23`
/// of the radicand.
pub proof fn lemma_root_accuracy(x: Binary32)
    requires
        x.is_finite(),
        !x.negative(),
        !x.is_zero(),
    ensures
        !x.root().negative(),
        0x80_0000 <= x.root().ordinal() <= 0x6000_0000,
        0x80_0000 <= magnitude(x.root().ordinal()) <= pow2(214),
        within(
            (magnitude(x.root().ordinal()) * magnitude(x.root().ordinal())) as int,
            (magnitude(x.ordinal()) * pow2(149)) as int,
            2,
        ),
{
    reveal(Binary32::root);
    lemma_landmarks();
    lemma2_to64();
    let big = magnitude(x.ordinal());
    let n = big * pow2(149);
    let q = Exact::square_root(n);
    let m = q.nearest();
    lemma_nearest_exists(q);
    lemma_magnitude_increases(0, x.ordinal());
    lemma_magnitude_increases(x.ordinal(), 0x7f80_0000);
    lemma_grid_of(254, 0x80_0000);
    assert(0x7f80_0000 == 254 * 0x80_0000 + 0x80_0000);
    lemma_pow2_adds(23, 254);
    lemma_pow2_adds(100, 49);
    lemma_pow2_adds(46, 54);
    lemma_pow2_adds(32, 14);
    lemma_pow2_adds(23, 23);
    lemma_pow2_increases(54, 100);
    lemma_pow2_pos(149);
    assert(pow2(149) <= n < pow2(277) * pow2(149)) by (nonlinear_arith)
        requires
            n == big * pow2(149),
            1 <= big < pow2(277),
            pow2(149) > 0,
    ;
    // at least the least normal-sized whole number
    let low: nat = 0x80_0000;
    lemma_pow2_increases(46, 149);
    assert(pow2(46) == 0x4000_0000_0000);
    assert(scale_up(0) == 1 && scale_down(0) == 1);
    assert(n * (1 * 1) - ((low * 1) * (low * 1)) * 1 >= 0) by (nonlinear_arith)
        requires
            n >= 0x4000_0000_0000,
            low == 0x80_0000,
    ;
    assert(q.side(low, 0) >= 0);
    lemma_nearest_at_least(q, m, 0x80_0000);
    // at most the square root of everything finite
    let high = pow2(214);
    lemma_pow2_adds(214, 214);
    lemma_pow2_adds(277, 149);
    lemma_pow2_increases(426, 428);
    assert(n * (1 * 1) - ((high * 1) * (high * 1)) * 1 <= 0) by (nonlinear_arith)
        requires
            n <= high * high,
    ;
    assert(q.side(high, 0) <= 0);
    lemma_nearest_at_most(q, m, 0x6000_0000);
    assert(x.root().ordinal() == m);
    if m > 0x80_0000 {
        lemma_magnitude_increases(0x80_0000, m);
    }
    if m < 0x6000_0000 {
        lemma_magnitude_increases(m, 0x6000_0000);
    }
    lemma_root_error(n, m);
}

/// The reciprocal of a positive value in the middle of the range: finite,
/// and its product with the value within two parts in `2^23` of one.
pub proof fn lemma_reciprocal_accuracy(y: Binary32)
    requires
        y.is_finite(),
        !y.negative(),
        0x40_0000 <= magnitude(y.ordinal()) <= pow2(214),
    ensures
        y.reciprocal().is_finite(),
        !y.reciprocal().negative(),
        within(
            (magnitude(y.reciprocal().ordinal()) * magnitude(y.ordinal())) as int,
            (pow2(149) * pow2(149)) as int,
            2,
        ),
{
    reveal(Binary32::quotient);
    lemma_landmarks();
    lemma2_to64();
    lemma_magnitude_small();
    let one = Binary32 { bits: 0x3f80_0000 };
    let d = magnitude(y.ordinal());
    let n = pow2(149) * pow2(149);
    let q = Exact::ratio(n, d);
    let m = q.nearest();
    lemma_nearest_exists(q);
    assert(one.ordinal() == 0x3f80_0000 && !one.negative());
    assert(y.ordinal() != 0);
    assert(y.reciprocal().ordinal() == m);
    // finite: the quotient stays below the largest finite value
    let top = magnitude(0x7f7f_ffff);
    lemma_pow2_adds(149, 149);
    lemma_pow2_adds(276, 22);
    lemma_pow2_adds(214, 23);
    lemma_pow2_increases(237, 298);
    assert(scale_up(0) == 1 && scale_down(0) == 1);
    assert(n * 1 - (top * 1) * d <= 0) by (nonlinear_arith)
        requires
            n == pow2(276) * 0x40_0000,
            top >= pow2(276),
            d >= 0x40_0000,
    ;
    assert(q.side(top, 0) <= 0);
    lemma_nearest_at_most(q, m, 0x7f7f_ffff);
    assert(n >= 0x80_0000 * d) by (nonlinear_arith)
        requires
            d <= pow2(214),
            0x80_0000 * pow2(214) <= n,
    ;
    lemma_ratio_error(n, d, m);
}

/// An agreement of equal multiples holds of what was multiplied.
pub proof fn lemma_within_cancel(a: int, b: int, k: int, c: int)
    requires
        within(a * c, b * c, k),
        c > 0,
    ensures
        within(a, b, k),
{
    let g: int = 0x80_0000;
    assert(g * a <= (g + k) * b) by (nonlinear_arith)
        requires
            g * (a * c) <= (g + k) * (b * c),
            c > 0,
    ;
    assert(g * b <= (g + k) * a) by (nonlinear_arith)
        requires
            g * (b * c) <= (g + k) * (a * c),
            c > 0,
    ;
}

/// A number whose square stays below a square stays below its root.
pub proof fn lemma_below_root(e: int, c: int)
    by (nonlinear_arith)
    requires
        e >= 0,
        c >= 0,
        e * e < c * c,
    ensures
        e < c,
{
}

/// What rounding shifts a product by, it shifts the square by little more:
/// where `a` is within half of `u` and one part in `2^23` of `e`, and `e` is
/// no more than `2 u^2`, the squares differ by three parts in `2^23` and a
/// few `u^3`.
pub proof fn lemma_square_drift(a: int, e: int, u: int)
    requires
        a >= 0,
        e >= 0,
        u >= 1,
        0x100_0000 * (a - e) <= 2 * e + 0x80_0000 * u,
        0x100_0000 * (e - a) <= 2 * e + 0x80_0000 * u,
        e <= 2 * (u * u),
    ensures
        0x80_0000 * (a * a - e * e) <= 3 * (e * e) + 0x280_0000 * ((u * u) * u),
        0x80_0000 * (e * e - a * a) <= 3 * (e * e) + 0x280_0000 * ((u * u) * u),
{
    let aa = a * a;
    let ee = e * e;
    let eu = e * u;
    let uu = u * u;
    let uuu = (u * u) * u;
    let a2 = 0x100_0000 * a;
    let x = 0x100_0002 * e;
    let x2 = 0xff_fffe * e;
    let y = 0x80_0000 * u;
    let hi = x + y;
    let lo = x2 - y;
    assert(ee >= 0 && uu >= 1 && uuu >= uu && eu >= 0 && aa >= 0) by (nonlinear_arith)
        requires
            ee == e * e,
            uu == u * u,
            uuu == (u * u) * u,
            eu == e * u,
            aa == a * a,
            e >= 0,
            u >= 1,
    ;
    assert(eu <= 2 * uuu) by (nonlinear_arith)
        requires
            eu == e * u,
            uuu == (u * u) * u,
            e <= 2 * (u * u),
            u >= 1,
    ;
    assert(a2 * a2 == 0x1_0000_0000_0000 * aa) by (nonlinear_arith)
        requires
            a2 == 0x100_0000 * a,
            aa == a * a,
    ;
    assert(x * x == 0x1_0000_0400_0004 * ee) by (nonlinear_arith)
        requires
            x == 0x100_0002 * e,
            ee == e * e,
    ;
    assert(x2 * x2 == 0xffff_fc00_0004 * ee) by (nonlinear_arith)
        requires
            x2 == 0xff_fffe * e,
            ee == e * e,
    ;
    assert(x * y == 0x8000_0100_0000 * eu) by (nonlinear_arith)
        requires
            x == 0x100_0002 * e,
            y == 0x80_0000 * u,
            eu == e * u,
    ;
    assert(x2 * y == 0x7fff_ff00_0000 * eu) by (nonlinear_arith)
        requires
            x2 == 0xff_fffe * e,
            y == 0x80_0000 * u,
            eu == e * u,
    ;
    assert(y * y == 0x4000_0000_0000 * uu) by (nonlinear_arith)
        requires
            y == 0x80_0000 * u,
            uu == u * u,
    ;
    assert(hi * hi == x * x + 2 * (x * y) + y * y) by (nonlinear_arith)
        requires
            hi == x + y,
    ;
    assert(a2 * a2 <= hi * hi) by (nonlinear_arith)
        requires
            0 <= a2 <= hi,
    ;
    if lo >= 0 {
        assert(lo * lo == x2 * x2 - 2 * (x2 * y) + y * y) by (nonlinear_arith)
            requires
                lo == x2 - y,
        ;
        assert(a2 * a2 >= lo * lo) by (nonlinear_arith)
            requires
                a2 >= lo,
                lo >= 0,
        ;
    } else {
        assert(ee <= uu) by (nonlinear_arith)
            requires
                0 <= e <= u,
                ee == e * e,
                uu == u * u,
        ;
    }
}

/// A drift of three parts in `2^23` and a little is five parts at most.
proof fn lemma_within_drift(b: int, w: int, t: int)
    requires
        0x80_0000 * (b - w) <= 3 * w + t,
        0x80_0000 * (w - b) <= 3 * w + t,
        0 <= t <= w,
    ensures
        within(b, w, 5),
{
    assert(0x80_0000 * b <= 0x80_0005 * w);
    assert(0x80_0000 * b >= 0x7f_fffc * w);
    assert(0x80_0005 * b >= 0x80_0000 * w);
}

/// The rounded sum of three rounded squares agrees with the exact sum of
/// squares within eight parts in `2^23`, unless it is tiny.
proof fn lemma_squares_sum(
    sx: int,
    sy: int,
    sz: int,
    px: int,
    py: int,
    pz: int,
    s1: int,
    s: int,
    u: int,
)
    requires
        sx >= 0 && sy >= 0 && sz >= 0 && px >= 0 && py >= 0 && pz >= 0 && s1 >= 0 && s >= 0,
        u >= 0x1_0000_0000_0000_0000,
        0x100_0000 * (px * u - sx) <= 2 * sx + 0x80_0000 * u,
        0x100_0000 * (sx - px * u) <= 2 * sx + 0x80_0000 * u,
        0x100_0000 * (py * u - sy) <= 2 * sy + 0x80_0000 * u,
        0x100_0000 * (sy - py * u) <= 2 * sy + 0x80_0000 * u,
        0x100_0000 * (pz * u - sz) <= 2 * sz + 0x80_0000 * u,
        0x100_0000 * (sz - pz * u) <= 2 * sz + 0x80_0000 * u,
        within(s1, px + py, 2),
        within(s, s1 + pz, 2),
        s >= 0x400_0000 || sx + sy + sz >= 0x100_0000 * u,
    ensures
        within(s * u, sx + sy + sz, 8),
{
    let total = px + py + pz;
    let exact = sx + sy + sz;
    assert(within(s1 + pz, total, 2));
    lemma_within_chain(s, s1 + pz, total, 2, 2);
    lemma_within_scale(s, total, 5, u);
    assert(total * u == px * u + py * u + pz * u) by (nonlinear_arith)
        requires
            total == px + py + pz,
    ;
    let tu = total * u;
    assert(0x100_0000 * (tu - exact) <= 2 * exact + 0x180_0000 * u);
    assert(0x100_0000 * (exact - tu) <= 2 * exact + 0x180_0000 * u);
    if s >= 0x400_0000 {
        assert(total >= 0x200_0000);
        assert(tu >= 0x200_0000 * u) by (nonlinear_arith)
            requires
                tu == total * u,
                total >= 0x200_0000,
                u >= 0,
        ;
    }
    assert(exact >= 0x100_0000 * u);
    assert(within(tu, exact, 2));
    assert(s * u >= 0) by (nonlinear_arith)
        requires
            s >= 0,
            u >= 0,
    ;
    assert(tu >= 0) by (nonlinear_arith)
        requires
            tu == total * u,
            total >= 0,
            u >= 0,
    ;
    lemma_within_chain(s * u, tu, exact, 5, 2);
}

/// The magnitude of a value that is not negative.
pub open spec fn size(x: Binary32) -> int {
    magnitude(x.ordinal()) as int
}

/// The exact sum of the squares of the components, in units of units.
pub open spec fn squares(a: Vec3) -> int {
    size(a.x) * size(a.x) + size(a.y) * size(a.y) + size(a.z) * size(a.z)
}

/// The squared length of a vector of finite numbers is not negative; it is
/// finite where the exact one is no more than `2^126`; and where it is
/// finite and at least `2^-123`, the two agree within eight parts in `2^23`.
pub proof fn lemma_norm_squared_accuracy(a: Vec3)
    requires
        a.x.is_finite(),
        a.y.is_finite(),
        a.z.is_finite(),
    ensures
        !a.norm_squared().is_nan(),
        !a.norm_squared().negative(),
        squares(a) <= pow2(275) * pow2(149) ==> a.norm_squared().is_finite(),
        a.norm_squared().is_finite() && (size(a.norm_squared()) >= pow2(26) || squares(a) >= pow2(
            24,
        ) * pow2(149)) ==> within(size(a.norm_squared()) * pow2(149), squares(a), 8),
{
    let u = pow2(149) as int;
    let px = a.x.product(a.x);
    let py = a.y.product(a.y);
    let pz = a.z.product(a.z);
    let s1 = px.sum(py);
    let s = s1.sum(pz);
    let sx = size(a.x) * size(a.x);
    let sy = size(a.y) * size(a.y);
    let sz = size(a.z) * size(a.z);
    assert(s == a.norm_squared());
    lemma2_to64();
    lemma_pow2_increases(64, 149);
    lemma_pow2_adds(275, 1);
    lemma_pow2_increases(1, 275);
    lemma_product_error(a.x, a.x);
    lemma_product_error(a.y, a.y);
    lemma_product_error(a.z, a.z);
    lemma_sum_error(px, py);
    lemma_sum_error(s1, pz);
    assert(sx >= 0 && sy >= 0 && sz >= 0) by (nonlinear_arith)
        requires
            sx == size(a.x) * size(a.x),
            sy == size(a.y) * size(a.y),
            sz == size(a.z) * size(a.z),
    ;
    if squares(a) <= pow2(275) * pow2(149) {
        let cap = pow2(275) as int;
        assert(pow2(276) * pow2(149) == cap * u + cap * u) by (nonlinear_arith)
            requires
                pow2(276) == 2 * cap,
                u == pow2(149),
        ;
        assert(px.is_finite() && py.is_finite() && pz.is_finite());
        // the rounded squares together stay below twice the cap
        let both = size(px) + size(py);
        assert(both * u == size(px) * u + size(py) * u) by (nonlinear_arith)
            requires
                both == size(px) + size(py),
        ;
        assert(cap * u >= 2 * u) by (nonlinear_arith)
            requires
                cap >= 2,
                u >= 0,
        ;
        assert(pow2(276) * u == cap * u + cap * u);
        assert(both * u <= pow2(276) * u);
        assert(both <= pow2(276)) by (nonlinear_arith)
            requires
                both * u <= pow2(276) * u,
                u > 0,
        ;
        assert(s1.is_finite());
        let all = size(s1) + size(pz);
        assert(all * u == size(s1) * u + size(pz) * u) by (nonlinear_arith)
            requires
                all == size(s1) + size(pz),
        ;
        assert(0x80_0000 * (size(s1) * u) <= 0x80_0002 * (both * u)) by (nonlinear_arith)
            requires
                0x80_0000 * size(s1) <= 0x80_0002 * both,
                u > 0,
        ;
        assert(all * u <= pow2(276) * u);
        assert(all <= pow2(276)) by (nonlinear_arith)
            requires
                all * u <= pow2(276) * u,
                u > 0,
        ;
    }
    if s.is_finite() && (size(s) >= pow2(26) || squares(a) >= pow2(24) * pow2(149)) {
        lemma_squares_sum(sx, sy, sz, size(px), size(py), size(pz), size(s1), size(s), u);
    }
}

/// Scaling a vector by the reciprocal of its length brings its length to
/// one within a hundred-thousandth, provided its components are finite and
/// its squared length is finite and at least `2^-123`.
pub proof fn lemma_unit_length(a: Vec3)
    requires
        a.x.is_finite(),
        a.y.is_finite(),
        a.z.is_finite(),
        a.norm_squared().is_finite(),
        size(a.norm_squared()) >= pow2(26),
    ensures
        a.unit().norm().is_finite(),
        !a.unit().norm().negative(),
        100_000 * (size(a.unit().norm()) - pow2(149)) <= pow2(149),
        100_000 * (pow2(149) - size(a.unit().norm())) <= pow2(149),
{
    let u = pow2(149) as int;
    let uu = u * u;
    let u4 = uu * uu;
    let s = a.norm_squared();
    let l = s.root();
    let inv = l.reciprocal();
    let n = a.unit();
    assert(n == a.scaled(inv));
    let exact = squares(a);
    lemma2_to64();
    lemma_pow2_increases(64, 149);
    lemma_magnitude_small();
    // the length
    lemma_norm_squared_accuracy(a);
    assert(!s.is_zero());
    lemma_root_accuracy(s);
    let big = size(l);
    let su = size(s) * u;
    assert(su >= 0 && exact >= 0 && big * big >= 0) by (nonlinear_arith)
        requires
            su == size(s) * u,
            size(s) >= 0,
            u >= 0,
            exact == size(a.x) * size(a.x) + size(a.y) * size(a.y) + size(a.z) * size(a.z),
    ;
    lemma_within_chain(big * big, su, exact, 2, 8);
    // its reciprocal
    lemma_reciprocal_accuracy(l);
    let small = size(inv);
    let unity = small * big;
    assert(unity >= 0 && uu >= 0) by (nonlinear_arith)
        requires
            unity == small * big,
            small >= 0,
            big >= 0,
            uu == u * u,
    ;
    lemma_within_square(unity, uu, 2);
    let ii = small * small;
    assert(ii >= 0) by (nonlinear_arith)
        requires
            ii == small * small,
    ;
    lemma_within_scale(exact, big * big, 11, ii);
    assert((big * big) * ii == unity * unity) by (nonlinear_arith)
        requires
            ii == small * small,
            unity == small * big,
    ;
    let w = exact * ii;
    assert(w >= 0 && unity * unity >= 0 && u4 >= 0) by (nonlinear_arith)
        requires
            w == exact * ii,
            exact >= 0,
            ii >= 0,
            u4 == uu * uu,
    ;
    lemma_within_chain(w, unity * unity, u4, 11, 5);
    assert(within(w, u4, 17));
    assert(u >= 0x1_0000_0000_0000_0000);
    assert(uu >= 0x1_0000_0000_0000_0000 * u) by (nonlinear_arith)
        requires
            uu == u * u,
            u >= 0x1_0000_0000_0000_0000,
    ;
    let uuu = (u * u) * u;
    assert(u4 == uuu * u && u4 >= 0x1_0000_0000_0000_0000 * uuu && uuu > 0 && u4 == (2 * uu) * (2
        * uu) - 3 * u4) by (nonlinear_arith)
        requires
            u4 == uu * uu,
            uu == u * u,
            uuu == (u * u) * u,
            u >= 0x1_0000_0000_0000_0000,
    ;
    // the scaled components
    let ex = size(a.x) * small;
    let ey = size(a.y) * small;
    let ez = size(a.z) * small;
    assert(ex * ex + ey * ey + ez * ez == w && ex * ex >= 0 && ey * ey >= 0 && ez * ez >= 0 && ex
        >= 0 && ey >= 0 && ez >= 0) by (nonlinear_arith)
        requires
            ex == size(a.x) * small,
            ey == size(a.y) * small,
            ez == size(a.z) * small,
            ii == small * small,
            w == (size(a.x) * size(a.x) + size(a.y) * size(a.y) + size(a.z) * size(a.z)) * ii,
            size(a.x) >= 0,
            size(a.y) >= 0,
            size(a.z) >= 0,
            small >= 0,
    ;
    assert(u4 > 0);
    assert(w < (2 * uu) * (2 * uu));
    lemma_below_root(ex, 2 * uu);
    lemma_below_root(ey, 2 * uu);
    lemma_below_root(ez, 2 * uu);
    lemma_pow2_increases(1, 127);
    lemma_pow2_adds(149, 127);
    lemma_pow2_pos(127);
    assert(2 * uu <= pow2(276) * pow2(149)) by (nonlinear_arith)
        requires
            uu == u * u,
            u == pow2(149),
            pow2(276) == u * pow2(127),
            pow2(127) >= 2,
            u >= 0,
    ;
    lemma_product_error(a.x, inv);
    lemma_product_error(a.y, inv);
    lemma_product_error(a.z, inv);
    assert(n.x.is_finite() && n.y.is_finite() && n.z.is_finite());
    let ax = size(n.x) * u;
    let ay = size(n.y) * u;
    let az = size(n.z) * u;
    assert(ax >= 0 && ay >= 0 && az >= 0) by (nonlinear_arith)
        requires
            ax == size(n.x) * u,
            ay == size(n.y) * u,
            az == size(n.z) * u,
            size(n.x) >= 0,
            size(n.y) >= 0,
            size(n.z) >= 0,
            u >= 0,
    ;
    lemma_square_drift(ax, ex, u);
    lemma_square_drift(ay, ey, u);
    lemma_square_drift(az, ez, u);
    let b = ax * ax + ay * ay + az * az;
    assert(0x80_0000 * (b - w) <= 3 * w + 0x780_0000 * uuu);
    assert(0x80_0000 * (w - b) <= 3 * w + 0x780_0000 * uuu);
    assert(0x80_0000 * u4 <= 0x80_0011 * w);
    assert(0x780_0000 * uuu <= w);
    lemma_within_drift(b, w, 0x780_0000 * uuu);
    assert(b >= 0) by (nonlinear_arith)
        requires
            b == ax * ax + ay * ay + az * az,
    ;
    lemma_within_chain(b, w, u4, 5, 17);
    let exact2 = squares(n);
    let nx = size(n.x) * size(n.x);
    let ny = size(n.y) * size(n.y);
    let nz = size(n.z) * size(n.z);
    assert(ax * ax == nx * uu) by (nonlinear_arith)
        requires
            ax == size(n.x) * u,
            nx == size(n.x) * size(n.x),
            uu == u * u,
    ;
    assert(ay * ay == ny * uu) by (nonlinear_arith)
        requires
            ay == size(n.y) * u,
            ny == size(n.y) * size(n.y),
            uu == u * u,
    ;
    assert(az * az == nz * uu) by (nonlinear_arith)
        requires
            az == size(n.z) * u,
            nz == size(n.z) * size(n.z),
            uu == u * u,
    ;
    assert((nx + ny + nz) * uu == nx * uu + ny * uu + nz * uu) by (nonlinear_arith);
    assert(b == exact2 * uu);
    assert(uu > 0);
    lemma_within_cancel(exact2, uu, 23, uu);
    // the length of the scaled vector
    lemma_pow2_increases(2, 126);
    lemma_pow2_adds(149, 126);
    assert(2 * (pow2(24) * pow2(149)) <= uu) by (nonlinear_arith)
        requires
            uu == u * u,
            u == pow2(149),
            0 < 2 * pow2(24) <= u,
    ;
    assert(4 * uu <= pow2(275) * pow2(149)) by (nonlinear_arith)
        requires
            uu == u * u,
            u == pow2(149),
            pow2(275) == u * pow2(126),
            pow2(126) >= 4,
            u >= 0,
    ;
    lemma_norm_squared_accuracy(n);
    let s2 = n.norm_squared();
    assert(exact2 <= pow2(275) * pow2(149));
    assert(exact2 >= pow2(24) * pow2(149));
    assert(s2.is_finite());
    let su2 = size(s2) * u;
    assert(su2 >= 0 && exact2 >= 0) by (nonlinear_arith)
        requires
            su2 == size(s2) * u,
            size(s2) >= 0,
            u >= 0,
            exact2 == size(n.x) * size(n.x) + size(n.y) * size(n.y) + size(n.z) * size(n.z),
    ;
    lemma_within_chain(su2, exact2, uu, 8, 23);
    assert(size(s2) > 0) by (nonlinear_arith)
        requires
            su2 == size(s2) * u,
            0x80_0000 * uu <= 0x80_0020 * su2,
            uu > 0,
            size(s2) >= 0,
    ;
    assert(!s2.is_zero());
    lemma_root_accuracy(s2);
    let r = size(s2.root());
    assert(r * r >= 0) by (nonlinear_arith);
    lemma_within_chain(r * r, su2, uu, 2, 32);
    lemma_within_root(r, u, 35);
}

} // verus!
