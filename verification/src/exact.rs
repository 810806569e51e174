//! Exact quantities and what it means to round one to the nearest value.
//!
//! Every result of binary32 arithmetic is the representable value nearest to
//! an exact quantity, with ties going to the even ordinal. The exact quantity
//! is a ratio of whole numbers, or the square root of one; it is never
//! computed, only compared with thresholds by cross-multiplication.
use crate::format::{magnitude, lemma_magnitude_increases};
use vstd::arithmetic::mul::*;
use vstd::arithmetic::power2::*;
use vstd::prelude::*;

verus! {

/// A non-negative exact quantity in units of `2^-149`: `num / den`, or its
/// square root where `root` is set.
pub struct Exact {
    pub num: nat,
    pub den: nat,
    pub root: bool,
}

pub open spec fn sign_of(x: int) -> int {
    if x > 0 {
        1
    } else if x < 0 {
        -1
    } else {
        0
    }
}

/// Numerator of `2^ex`.
pub open spec fn scale_up(ex: int) -> nat {
    if ex >= 0 {
        pow2(ex as nat)
    } else {
        1
    }
}

/// Denominator of `2^ex`.
pub open spec fn scale_down(ex: int) -> nat {
    if ex < 0 {
        pow2((-ex) as nat)
    } else {
        1
    }
}

impl Exact {
    pub open spec fn ratio(num: nat, den: nat) -> Exact {
        Exact { num, den, root: false }
    }

    pub open spec fn square_root(num: nat) -> Exact {
        Exact { num, den: 1, root: true }
    }

    pub open spec fn valid(self) -> bool {
        self.den > 0
    }

    /// The sign of the quantity minus `t * 2^ex`.
    pub open spec fn side(self, t: nat, ex: int) -> int {
        let a = t * scale_up(ex);
        let b = scale_down(ex);
        if self.root {
            sign_of(self.num * (b * b) - (a * a) * self.den)
        } else {
            sign_of(self.num * b - a * self.den)
        }
    }

    /// The quantity lies in `[sig * 2^ex, (sig + 1) * 2^ex)`, and above the
    /// lower end exactly when `sticky` is set.
    pub open spec fn bracket(self, sig: nat, ex: int, sticky: bool) -> bool {
        &&& self.side(sig, ex) >= 0
        &&& self.side(sig + 1, ex) < 0
        &&& sticky <==> self.side(sig, ex) > 0
    }

    /// The ordinal `m` denotes the magnitude nearest to the quantity: the
    /// quantity lies between the midpoints on either side of it, and on a
    /// midpoint only where `m` is even. Past the last finite midpoint the
    /// nearest ordinal is that of infinity.
    pub open spec fn is_nearest(self, m: nat) -> bool {
        &&& m <= 0x7f80_0000
        &&& m > 0 ==> {
            let s = self.side(magnitude((m - 1) as nat) + magnitude(m), -1);
            s > 0 || (s == 0 && m % 2 == 0)
        }
        &&& m < 0x7f80_0000 ==> {
            let s = self.side(magnitude(m) + magnitude(m + 1), -1);
            s < 0 || (s == 0 && m % 2 == 0)
        }
    }

    /// The ordinal of the quantity rounded to nearest, ties to even.
    pub open spec fn nearest(self) -> nat {
        choose|m: nat| self.is_nearest(m)
    }
}

/// Powers of two on either side of a fraction cancel.
pub proof fn lemma_scale_split(ex: int, s: nat)
    ensures
        scale_up(ex) * scale_down(ex - s) == pow2(s) * scale_up(ex - s) * scale_down(ex),
        scale_up(ex) > 0,
        scale_down(ex) > 0,
        scale_up(ex - s) > 0,
        scale_down(ex - s) > 0,
        pow2(s) > 0,
{
    lemma_pow2_pos(s);
    if ex >= 0 {
        lemma_pow2_pos(ex as nat);
    } else {
        lemma_pow2_pos((-ex) as nat);
    }
    if ex - s >= 0 {
        lemma_pow2_pos((ex - s) as nat);
        lemma_pow2_adds(s, (ex - s) as nat);
        assert(pow2(ex as nat) == pow2(s) * pow2((ex - s) as nat));
        assert(scale_up(ex) * 1 == pow2(s) * scale_up(ex - s) * 1) by (nonlinear_arith)
            requires
                scale_up(ex) == pow2(s) * scale_up(ex - s),
        ;
    } else if ex >= 0 {
        lemma_pow2_pos((s - ex) as nat);
        lemma_pow2_adds(ex as nat, (s - ex) as nat);
        assert(scale_up(ex) * scale_down(ex - s) == pow2(s) * 1 * 1) by (nonlinear_arith)
            requires
                scale_up(ex) * scale_down(ex - s) == pow2(s),
        ;
    } else {
        lemma_pow2_pos((s - ex) as nat);
        lemma_pow2_adds(s, (-ex) as nat);
        assert(1 * scale_down(ex - s) == pow2(s) * 1 * scale_down(ex)) by (nonlinear_arith)
            requires
                scale_down(ex - s) == pow2(s) * scale_down(ex),
        ;
    }
}

proof fn lemma_sign_scaled(x: int, y: int, c: int, e: int)
    by (nonlinear_arith)
    requires
        c > 0,
        e > 0,
        c * x == e * y,
    ensures
        sign_of(x) == sign_of(y),
{
}

proof fn lemma_sign_ratio(num: int, den: int, a: int, a2: int, d: int, d2: int)
    requires
        a * d2 == a2 * d,
        d > 0,
        d2 > 0,
    ensures
        sign_of(num * d - a * den) == sign_of(num * d2 - a2 * den),
{
    let x = num * d - a * den;
    let y = num * d2 - a2 * den;
    lemma_mul_is_distributive_sub(d2, num * d, a * den);
    lemma_mul_is_distributive_sub(d, num * d2, a2 * den);
    assert(d2 * (num * d) == d * (num * d2)) by (nonlinear_arith);
    assert(d2 * (a * den) == (a * d2) * den) by (nonlinear_arith);
    assert(d * (a2 * den) == (a2 * d) * den) by (nonlinear_arith);
    lemma_sign_scaled(x, y, d2, d);
}

proof fn lemma_sign_root(num: int, den: int, a: int, a2: int, d: int, d2: int)
    requires
        a * d2 == a2 * d,
        d > 0,
        d2 > 0,
    ensures
        sign_of(num * (d * d) - (a * a) * den) == sign_of(num * (d2 * d2) - (a2 * a2) * den),
{
    assert((a * a) * (d2 * d2) == (a * d2) * (a * d2)) by (nonlinear_arith);
    assert((a2 * a2) * (d * d) == (a2 * d) * (a2 * d)) by (nonlinear_arith);
    assert(d * d > 0) by (nonlinear_arith)
        requires
            d > 0,
    ;
    assert(d2 * d2 > 0) by (nonlinear_arith)
        requires
            d2 > 0,
    ;
    lemma_sign_ratio(num, den, a * a, a2 * a2, d * d, d2 * d2);
}

/// A threshold may be written at any finer scale.
pub proof fn lemma_side_shift(q: Exact, t: nat, ex: int, s: nat)
    ensures
        q.side(t, ex) == q.side(t * pow2(s), ex - s),
{
    lemma_scale_split(ex, s);
    let ti = t as int;
    let k = pow2(s) as int;
    let u = scale_up(ex) as int;
    let d = scale_down(ex) as int;
    let u2 = scale_up(ex - s) as int;
    let d2 = scale_down(ex - s) as int;
    let w = k * u2;
    assert((ti * u) * d2 == ti * (u * d2)) by (nonlinear_arith);
    assert((ti * k) * u2 == ti * w) by (nonlinear_arith)
        requires
            w == k * u2,
    ;
    assert((ti * w) * d == ti * (w * d)) by (nonlinear_arith);
    assert((ti * u) * d2 == ((ti * k) * u2) * d);
    if q.root {
        lemma_sign_root(q.num as int, q.den as int, ti * u, (ti * k) * u2, d, d2);
    } else {
        lemma_sign_ratio(q.num as int, q.den as int, ti * u, (ti * k) * u2, d, d2);
    }
}

proof fn lemma_sign_order(num: int, den: int, a1: int, a2: int, b: int)
    by (nonlinear_arith)
    requires
        0 <= a1 <= a2,
        den > 0,
        b > 0,
        num >= 0,
    ensures
        sign_of(num * b - a1 * den) >= sign_of(num * b - a2 * den),
        sign_of(num * (b * b) - (a1 * a1) * den) >= sign_of(num * (b * b) - (a2 * a2) * den),
        a1 < a2 && sign_of(num * b - a1 * den) <= 0 ==> sign_of(num * b - a2 * den) < 0,
        a1 < a2 && sign_of(num * (b * b) - (a1 * a1) * den) <= 0 ==> sign_of(
            num * (b * b) - (a2 * a2) * den,
        ) < 0,
{
    assert(a1 * den <= a2 * den);
    assert(a1 * a1 <= a2 * a2);
    assert((a1 * a1) * den <= (a2 * a2) * den);
    if a1 < a2 {
        assert(a1 * den < a2 * den);
        assert(a1 * a1 < a2 * a2);
        assert((a1 * a1) * den < (a2 * a2) * den);
    }
}

/// A larger threshold at the same scale lies further up.
pub proof fn lemma_side_order(q: Exact, t1: nat, t2: nat, ex: int)
    requires
        q.valid(),
        t1 <= t2,
    ensures
        q.side(t1, ex) >= q.side(t2, ex),
        t1 < t2 && q.side(t1, ex) <= 0 ==> q.side(t2, ex) < 0,
        t1 < t2 && q.side(t2, ex) >= 0 ==> q.side(t1, ex) > 0,
{
    lemma_scale_split(ex, 0);
    let u = scale_up(ex) as int;
    assert(t1 * u <= t2 * u) by (nonlinear_arith)
        requires
            t1 <= t2,
            u > 0,
    ;
    if t1 < t2 {
        assert(t1 * u < t2 * u) by (nonlinear_arith)
            requires
                t1 < t2,
                u > 0,
        ;
    }
    lemma_sign_order(q.num as int, q.den as int, t1 * u, t2 * u, scale_down(ex) as int);
}

/// At most one ordinal is nearest to a quantity.
pub proof fn lemma_nearest_unique(q: Exact, m1: nat, m2: nat)
    requires
        q.valid(),
        q.is_nearest(m1),
        q.is_nearest(m2),
    ensures
        m1 == m2,
{
    if m1 < m2 {
        lemma_nearest_ordered(q, m1, m2);
    } else if m2 < m1 {
        lemma_nearest_ordered(q, m2, m1);
    }
}

proof fn lemma_nearest_ordered(q: Exact, m1: nat, m2: nat)
    requires
        q.valid(),
        q.is_nearest(m1),
        q.is_nearest(m2),
        m1 <= m2,
    ensures
        m1 == m2,
{
    if m1 + 1 < m2 {
        let t1 = magnitude(m1) + magnitude(m1 + 1);
        let t2 = magnitude((m2 - 1) as nat) + magnitude(m2);
        lemma_magnitude_increases(m1 + 1, m2);
        lemma_magnitude_increases(m1, (m2 - 1) as nat);
        lemma_side_order(q, t1, t2, -1);
    }
}

/// Rounding never carries a quantity past a representable magnitude that
/// bounds it from above.
pub proof fn lemma_nearest_at_most(q: Exact, r: nat, m: nat)
    requires
        q.valid(),
        q.is_nearest(r),
        q.side(magnitude(m), 0) <= 0,
    ensures
        r <= m,
{
    if r > m {
        lemma2_to64();
        let bound = magnitude(m);
        let below = magnitude((r - 1) as nat) + magnitude(r);
        lemma_magnitude_increases((r - 1) as nat, r);
        if m < r - 1 {
            lemma_magnitude_increases(m, (r - 1) as nat);
        }
        lemma_side_shift(q, bound, 0, 1);
        assert(bound * pow2(1) == bound + bound) by (nonlinear_arith)
            requires
                pow2(1) == 2,
        ;
        lemma_side_order(q, bound + bound, below, -1);
    }
}

/// Rounding never carries a quantity below a representable magnitude that
/// bounds it from below.
pub proof fn lemma_nearest_at_least(q: Exact, r: nat, m: nat)
    requires
        q.valid(),
        q.is_nearest(r),
        m <= 0x7f80_0000,
        q.side(magnitude(m), 0) >= 0,
    ensures
        r >= m,
{
    if r < m {
        lemma2_to64();
        let bound = magnitude(m);
        let above = magnitude(r) + magnitude(r + 1);
        lemma_magnitude_increases(r, r + 1);
        if r + 1 < m {
            lemma_magnitude_increases(r + 1, m);
        }
        lemma_side_shift(q, bound, 0, 1);
        assert(bound * pow2(1) == bound + bound) by (nonlinear_arith)
            requires
                pow2(1) == 2,
        ;
        lemma_side_order(q, above, bound + bound, -1);
    }
}

/// From an ordinal whose lower midpoint the quantity has passed, the first
/// ordinal whose upper midpoint it has not passed is nearest.
proof fn lemma_nearest_from(q: Exact, m: nat) -> (r: nat)
    requires
        m <= 0x7f80_0000,
        m > 0 ==> {
            let s = q.side(magnitude((m - 1) as nat) + magnitude(m), -1);
            s > 0 || (s == 0 && m % 2 == 0)
        },
    ensures
        q.is_nearest(r),
    decreases 0x7f80_0000 - m,
{
    if m == 0x7f80_0000 {
        m
    } else {
        let s = q.side(magnitude(m) + magnitude(m + 1), -1);
        if s < 0 || (s == 0 && m % 2 == 0) {
            m
        } else {
            lemma_nearest_from(q, m + 1)
        }
    }
}

/// Every quantity has a nearest ordinal, so rounding is defined throughout.
pub proof fn lemma_nearest_exists(q: Exact)
    ensures
        q.is_nearest(q.nearest()),
{
    let r = lemma_nearest_from(q, 0);
}

/// What an exact computation already knows to be nearest is the rounded value.
pub proof fn lemma_nearest_is(q: Exact, m: nat)
    requires
        q.valid(),
        q.is_nearest(m),
    ensures
        q.nearest() == m,
{
    lemma_nearest_unique(q, m, q.nearest());
}

} // verus!
