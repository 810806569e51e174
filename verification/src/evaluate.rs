//! Operations whose exact result is representable return it.
//!
//! These are the facts by which a result on given values is worked out:
//! whole numbers add exactly, powers of two scale exactly, one and zero
//! behave as one and zero.
use crate::exact::{lemma_nearest_is, scale_down, scale_up, Exact};
use crate::format::{
    lemma_grid_of, lemma_magnitude_increases, lemma_magnitude_small, magnitude, Binary32,
};
use vstd::arithmetic::power2::*;
use vstd::prelude::*;

verus! {

/// A ratio that is a representable magnitude rounds to it.
pub proof fn lemma_exact_ratio(n: nat, d: nat, m: nat)
    requires
        d > 0,
        m <= 0x7f80_0000,
        n == magnitude(m) * d,
    ensures
        Exact::ratio(n, d).nearest() == m,
{
    let q = Exact::ratio(n, d);
    let a = scale_up(-1);
    let b = scale_down(-1);
    let big = magnitude(m);
    lemma2_to64();
    assert(a == 1 && b == 2);
    if m > 0 {
        lemma_magnitude_increases((m - 1) as nat, m);
        let t = magnitude((m - 1) as nat) + big;
        assert(n * b - (t * a) * d > 0) by (nonlinear_arith)
            requires
                a == 1,
                b == 2,
                n == big * d,
                t < 2 * big,
                d > 0,
        ;
    }
    lemma_magnitude_increases(m, m + 1);
    let t = big + magnitude(m + 1);
    assert(n * b - (t * a) * d < 0) by (nonlinear_arith)
        requires
            a == 1,
            b == 2,
            n == big * d,
            t > 2 * big,
            d > 0,
    ;
    lemma_nearest_is(q, m);
}

/// The square root of the square of a representable magnitude rounds to it.
pub proof fn lemma_exact_root(n: nat, m: nat)
    requires
        m <= 0x7f80_0000,
        n == magnitude(m) * magnitude(m),
    ensures
        Exact::square_root(n).nearest() == m,
{
    let q = Exact::square_root(n);
    let a = scale_up(-1);
    let b = scale_down(-1);
    let big = magnitude(m);
    lemma2_to64();
    assert(a == 1 && b == 2);
    if m > 0 {
        lemma_magnitude_increases((m - 1) as nat, m);
        let t = magnitude((m - 1) as nat) + big;
        assert(n * (b * b) - ((t * a) * (t * a)) * 1 > 0) by (nonlinear_arith)
            requires
                a == 1,
                b == 2,
                n == big * big,
                0 <= t < 2 * big,
        ;
    }
    lemma_magnitude_increases(m, m + 1);
    let t = big + magnitude(m + 1);
    assert(n * (b * b) - ((t * a) * (t * a)) * 1 < 0) by (nonlinear_arith)
        requires
            a == 1,
            b == 2,
            n == big * big,
            t > 2 * big,
            big >= 0,
    ;
    lemma_nearest_is(q, m);
}

/// A sum that is a representable magnitude, and not zero, is returned as it is.
pub proof fn lemma_sum_exact(x: Binary32, y: Binary32, m: nat)
    requires
        x.is_finite(),
        y.is_finite(),
        m <= 0x7f80_0000,
        x.units() + y.units() == magnitude(m) || x.units() + y.units() == -magnitude(m),
        x.units() + y.units() != 0,
    ensures
        x.sum(y) == Binary32::compose(x.units() + y.units() < 0, m),
{
    reveal(Binary32::sum);
    assert(magnitude(m) * 1 == magnitude(m)) by (nonlinear_arith);
    lemma_exact_ratio(magnitude(m), 1, m);
}

/// A product that is a representable magnitude is returned as it is.
pub proof fn lemma_product_exact(x: Binary32, y: Binary32, m: nat)
    requires
        x.is_finite(),
        y.is_finite(),
        m <= 0x7f80_0000,
        magnitude(x.ordinal()) * magnitude(y.ordinal()) == magnitude(m) * pow2(149),
    ensures
        x.product(y) == Binary32::compose(x.negative() != y.negative(), m),
{
    reveal(Binary32::product);
    lemma_pow2_pos(149);
    lemma_exact_ratio(magnitude(x.ordinal()) * magnitude(y.ordinal()), pow2(149), m);
}

/// A quotient that is a representable magnitude is returned as it is.
pub proof fn lemma_quotient_exact(x: Binary32, y: Binary32, m: nat)
    requires
        x.is_finite(),
        y.is_finite(),
        !y.is_zero(),
        m <= 0x7f80_0000,
        magnitude(x.ordinal()) * pow2(149) == magnitude(m) * magnitude(y.ordinal()),
    ensures
        x.quotient(y) == Binary32::compose(x.negative() != y.negative(), m),
{
    reveal(Binary32::quotient);
    lemma_magnitude_increases(0, y.ordinal());
    lemma_exact_ratio(magnitude(x.ordinal()) * pow2(149), magnitude(y.ordinal()), m);
}

/// A square root that is a representable magnitude is returned as it is.
pub proof fn lemma_root_exact(x: Binary32, m: nat)
    requires
        x.is_finite(),
        !x.negative(),
        !x.is_zero(),
        m <= 0x7f80_0000,
        magnitude(x.ordinal()) * pow2(149) == magnitude(m) * magnitude(m),
    ensures
        x.root() == Binary32::compose(false, m),
{
    reveal(Binary32::root);
    lemma_exact_root(magnitude(x.ordinal()) * pow2(149), m);
}

/// One half, one and two, in units.
pub proof fn lemma_small_powers()
    ensures
        2 * magnitude(0x3f00_0000) == pow2(149),
        magnitude(0x3f80_0000) == pow2(149),
        magnitude(0x4000_0000) == 2 * pow2(149),
{
    lemma2_to64();
    lemma_grid_of(125, 0x80_0000);
    assert(0x3f00_0000 == 125 * 0x80_0000 + 0x80_0000);
    lemma_pow2_adds(23, 125);
    lemma_pow2_unfold(149);
    lemma_grid_of(126, 0x80_0000);
    assert(0x3f80_0000 == 126 * 0x80_0000 + 0x80_0000);
    lemma_pow2_adds(23, 126);
    lemma_grid_of(127, 0x80_0000);
    assert(0x4000_0000 == 127 * 0x80_0000 + 0x80_0000);
    lemma_pow2_adds(23, 127);
    lemma_pow2_unfold(150);
}

/// Multiplying by one changes nothing.
pub proof fn lemma_times_one(x: Binary32)
    requires
        x.is_finite(),
    ensures
        x.product(Binary32::one()) == x,
        Binary32::one().product(x) == x,
{
    let one = Binary32::one();
    lemma_small_powers();
    assert(one.ordinal() == 0x3f80_0000 && !one.negative());
    assert(pow2(149) * magnitude(x.ordinal()) == magnitude(x.ordinal()) * pow2(149))
        by (nonlinear_arith);
    lemma_product_exact(x, one, x.ordinal());
    lemma_product_exact(one, x, x.ordinal());
}

/// Multiplying by zero leaves a zero, with the sign of the product.
pub proof fn lemma_times_zero(x: Binary32)
    requires
        x.is_finite(),
    ensures
        x.product(Binary32::zero()) == Binary32::compose(x.negative(), 0),
{
    lemma_magnitude_small();
    assert(magnitude(x.ordinal()) * 0 == 0 * pow2(149)) by (nonlinear_arith);
    lemma_product_exact(x, Binary32::zero(), 0);
}

/// Adding zero changes nothing, but that it turns the negative zero positive.
pub proof fn lemma_plus_zero(x: Binary32)
    requires
        x.is_finite(),
        x.is_zero() ==> !x.negative(),
    ensures
        x.sum(Binary32::zero()) == x,
        Binary32::zero().sum(x) == x,
{
    lemma_magnitude_small();
    if x.is_zero() {
        reveal(Binary32::sum);
    } else {
        lemma_magnitude_increases(0, x.ordinal());
        lemma_sum_exact(x, Binary32::zero(), x.ordinal());
        lemma_sum_exact(Binary32::zero(), x, x.ordinal());
    }
}

} // verus!
