//! Arithmetic on binary32 values: each operation returns the representable
//! value nearest to the exact result, ties to even, with the special values
//! treated as IEEE 754 prescribes. Every not-a-number result is the one quiet
//! pattern `0x7fc0_0000`.
use crate::bits::{
    isqrt, lemma_bit_length_at_least, lemma_bit_length_bounds, lemma_bit_length_word,
    lemma_pow2_increases, length_of, shift_left, shift_right,
};
use crate::evaluate::lemma_exact_ratio;
use crate::exact::{
    lemma_nearest_exists, lemma_nearest_is, lemma_scale_split, lemma_side_order,
    lemma_side_shift, scale_down, scale_up, Exact,
};
use crate::format::{
    grid_exp, grid_sig, lemma_magnitude_increases, lemma_magnitude_small, magnitude, Binary32,
    INFINITY_ORDINAL, NAN_BITS,
};
use crate::round::{lemma_quotient_between, lemma_rounded_nearest, round_pack};
use vstd::arithmetic::div_mod::*;
use vstd::arithmetic::power2::*;
use vstd::prelude::*;

verus! {

/// Splits an ordinal into significand and spacing exponent.
pub(crate) fn grid(m: u32) -> (r: (u64, i32))
    requires
        m < 0x8000_0000,
    ensures
        r.0 == grid_sig(m as nat),
        r.1 == grid_exp(m as nat),
        r.0 < 0x100_0000,
        0 <= r.1 <= 254,
        r.1 > 0 ==> r.0 >= 0x80_0000,
        magnitude(m as nat) == r.0 * pow2(r.1 as nat),
        r.0 == 0 <==> m == 0,
{
    if m < 0x100_0000 {
        (m as u64, 0)
    } else {
        ((m % 0x80_0000 + 0x80_0000) as u64, (m / 0x80_0000 - 1) as i32)
    }
}

/// A quantity that is nothing rounds to zero.
pub proof fn lemma_zero_nearest(q: Exact)
    requires
        q.valid(),
        q.num == 0,
    ensures
        q.nearest() == 0,
{
    lemma_zero_is_nearest(q);
    lemma_nearest_is(q, 0);
}

/// A threshold that the quantity meets is an exact bracket.
pub proof fn lemma_exact_bracket(q: Exact, sig: nat, ex: int)
    requires
        q.valid(),
        q.side(sig, ex) == 0,
    ensures
        q.bracket(sig, ex, false),
{
    lemma_side_order(q, sig, sig + 1, ex);
}

proof fn lemma_product_bracket(ta: nat, pa: nat, tb: nat, pb: nat)
    ensures
        Exact::ratio((ta * pow2(pa)) * (tb * pow2(pb)), pow2(149)).valid(),
        Exact::ratio((ta * pow2(pa)) * (tb * pow2(pb)), pow2(149)).bracket(
            ta * tb,
            pa + pb - 149,
            false,
        ),
{
    let q = Exact::ratio((ta * pow2(pa)) * (tb * pow2(pb)), pow2(149));
    let e = pa + pb;
    let ga = pow2(pa);
    let gb = pow2(pb);
    lemma_pow2_pos(149);
    lemma_pow2_adds(pa, pb);
    assert((ta * ga) * (tb * gb) == (ta * tb) * (ga * gb)) by (nonlinear_arith);
    assert(q.num == (ta * tb) * pow2(e));
    assert(q.side(q.num, -149) == 0) by {
        assert(q.num * 1 == q.num) by (nonlinear_arith);
    }
    lemma_side_shift(q, ta * tb, e - 149, e);
    lemma_exact_bracket(q, ta * tb, e - 149);
}

proof fn lemma_integer_bracket(v: nat)
    ensures
        Exact::ratio(v * pow2(149), 1).bracket(v, 149, false),
{
    let q = Exact::ratio(v * pow2(149), 1);
    assert(q.side(v, 149) == 0) by {
        assert(q.num * 1 - (v * pow2(149)) * 1 == 0) by (nonlinear_arith)
            requires
                q.num == v * pow2(149),
        ;
    }
    lemma_exact_bracket(q, v, 149);
}

/// A representable magnitude rounds to itself.
pub proof fn lemma_exact_ordinal(m: nat)
    requires
        m <= 0x7f80_0000,
    ensures
        Exact::ratio(magnitude(m), 1).nearest() == m,
{
    assert(magnitude(m) * 1 == magnitude(m)) by (nonlinear_arith);
    lemma_exact_ratio(magnitude(m), 1, m);
}

/// Operands whose exponents are close add exactly in one word.
proof fn lemma_sum_near(tu: nat, pu: nat, tv: nat, pv: nat, same: bool)
    requires
        pu >= pv,
        tu * pow2(pu) >= tv * pow2(pv),
    ensures
        tu * pow2((pu - pv) as nat) >= tv,
        same ==> Exact::ratio(tu * pow2(pu) + tv * pow2(pv), 1).bracket(
            tu * pow2((pu - pv) as nat) + tv,
            pv as int,
            false,
        ),
        !same ==> Exact::ratio((tu * pow2(pu) - tv * pow2(pv)) as nat, 1).bracket(
            (tu * pow2((pu - pv) as nat) - tv) as nat,
            pv as int,
            false,
        ),
        tu * pow2((pu - pv) as nat) == tv <==> tu * pow2(pu) == tv * pow2(pv),
{
    let gd = pow2((pu - pv) as nat);
    let gv = pow2(pv);
    lemma_pow2_adds((pu - pv) as nat, pv);
    lemma_pow2_pos(pv);
    assert(tu * (gd * gv) == (tu * gd) * gv) by (nonlinear_arith);
    assert(tu * gd >= tv && (tu * gd == tv <==> (tu * gd) * gv == tv * gv)) by (nonlinear_arith)
        requires
            (tu * gd) * gv >= tv * gv,
            gv > 0,
    ;
    let hi = tu * gd;
    assert((hi + tv) * gv == hi * gv + tv * gv && (hi - tv) * gv == hi * gv - tv * gv)
        by (nonlinear_arith);
    if same {
        let q = Exact::ratio(tu * pow2(pu) + tv * pow2(pv), 1);
        let sig = hi + tv;
        assert(q.num * 1 - (sig * gv) * 1 == 0) by (nonlinear_arith)
            requires
                q.num == sig * gv,
        ;
        lemma_exact_bracket(q, sig, pv as int);
    } else {
        let q = Exact::ratio((tu * pow2(pu) - tv * pow2(pv)) as nat, 1);
        let sig = (hi - tv) as nat;
        assert(q.num * 1 - (sig * gv) * 1 == 0) by (nonlinear_arith)
            requires
                q.num == sig * gv,
        ;
        lemma_exact_bracket(q, sig, pv as int);
    }
}

/// An operand far below the other only tips the rounding.
proof fn lemma_sum_far(tu: nat, pu: nat, tv: nat, pv: nat, same: bool)
    requires
        pu >= pv + 39,
        0x80_0000 <= tu < 0x100_0000,
        0 < tv < 0x100_0000,
    ensures
        tu * pow2(pu) > tv * pow2(pv),
        same ==> Exact::ratio(tu * pow2(pu) + tv * pow2(pv), 1).bracket(
            tu * 0x4000,
            pu - 14,
            true,
        ),
        !same ==> Exact::ratio((tu * pow2(pu) - tv * pow2(pv)) as nat, 1).bracket(
            (tu * 0x4000 - 1) as nat,
            pu - 14,
            true,
        ),
{
    lemma2_to64();
    let w = pow2((pu - 14) as nat);
    let gv = pow2(pv);
    let big = tu * pow2(pu);
    let small = tv * gv;
    lemma_pow2_adds(14, (pu - 14) as nat);
    lemma_pow2_adds(24, pv);
    lemma_pow2_strictly_increases(24 + pv, (pu - 14) as nat);
    lemma_pow2_pos(pv);
    assert(0 < small < 0x100_0000 * gv) by (nonlinear_arith)
        requires
            small == tv * gv,
            0 < tv < 0x100_0000,
            gv > 0,
    ;
    assert(0 < small < w);
    assert(big == (tu * 0x4000) * w && (tu * 0x4000 + 1) * w == big + w && (tu * 0x4000 - 1) * w
        == big - w && big >= w) by (nonlinear_arith)
        requires
            big == tu * (0x4000 * w),
            tu >= 1,
            w > 0,
    ;
    if same {
        let q = Exact::ratio(big + small, 1);
        let sig = tu * 0x4000;
        assert(q.num * 1 - (sig * w) * 1 > 0 && q.num * 1 - ((sig + 1) * w) * 1 < 0)
            by (nonlinear_arith)
            requires
                q.num == big + small,
                sig * w == big,
                (sig + 1) * w == big + w,
                0 < small < w,
        ;
    } else {
        let q = Exact::ratio((big - small) as nat, 1);
        let sig = (tu * 0x4000 - 1) as nat;
        assert(q.num * 1 - (sig * w) * 1 > 0 && q.num * 1 - ((sig + 1) * w) * 1 < 0)
            by (nonlinear_arith)
            requires
                q.num == big - small,
                sig * w == big - w,
                (sig + 1) * w == big,
                0 < small < w,
        ;
    }
}

/// The quotient of the scaled significands brackets the exact ratio.
proof fn lemma_quotient_bracket(ta: nat, pa: nat, tb: nat, pb: nat, k: nat, qt: nat, rem: nat)
    requires
        tb > 0,
        ta * pow2(k) == qt * tb + rem,
        rem < tb,
    ensures
        Exact::ratio((ta * pow2(pa)) * pow2(149), tb * pow2(pb)).valid(),
        Exact::ratio((ta * pow2(pa)) * pow2(149), tb * pow2(pb)).bracket(
            qt,
            pa + 149 - (pb + k),
            rem != 0,
        ),
{
    let q = Exact::ratio((ta * pow2(pa)) * pow2(149), tb * pow2(pb));
    let ex = pa + 149 - (pb + k);
    let ga = pow2(pa);
    let gb = pow2(pb);
    let gk = pow2(k);
    let up = scale_up(ex);
    let dn = scale_down(ex);
    let x = pow2(pa + 149);
    let y = pow2(pb + k);
    lemma_pow2_pos(pb);
    lemma_pow2_adds(pa, 149);
    lemma_pow2_adds(pb, k);
    lemma_scale_split((pa + 149) as int, pb + k);
    assert(x * dn == y * up) by (nonlinear_arith)
        requires
            x * dn == y * up * 1,
    ;
    assert(tb * gb > 0) by (nonlinear_arith)
        requires
            tb > 0,
            gb > 0,
    ;
    let c = gb * up;
    let m = ta * gk;
    assert(c > 0) by (nonlinear_arith)
        requires
            c == gb * up,
            gb > 0,
            up > 0,
    ;
    // the exact numerator, at the scale of the bracket
    assert(q.num == ta * x) by (nonlinear_arith)
        requires
            q.num == (ta * ga) * pow2(149),
            x == ga * pow2(149),
    ;
    assert(q.num * dn == ta * (x * dn)) by (nonlinear_arith)
        requires
            q.num == ta * x,
    ;
    assert(ta * (y * up) == c * m) by (nonlinear_arith)
        requires
            y == gb * gk,
            c == gb * up,
            m == ta * gk,
    ;
    assert(q.num * dn == c * m);
    assert((qt * up) * q.den == c * (qt * tb) && ((qt + 1) * up) * q.den == c * (qt * tb) + c * tb)
        by (nonlinear_arith)
        requires
            q.den == tb * gb,
            c == gb * up,
    ;
    assert(c * m == c * (qt * tb) + c * rem && (rem > 0 ==> c * rem > 0) && (rem == 0 ==> c * rem
        == 0) && c * rem < c * tb) by (nonlinear_arith)
        requires
            m == qt * tb + rem,
            c > 0,
            0 <= rem < tb,
    ;
}

/// The whole square root of the scaled significand brackets the exact root.
proof fn lemma_root_bracket(t: nat, p: nat, k: nat, ex: nat, r: nat)
    requires
        p + 149 == k + 2 * ex,
        r * r <= t * pow2(k) < (r + 1) * (r + 1),
    ensures
        Exact::square_root((t * pow2(p)) * pow2(149)).bracket(
            r,
            ex as int,
            r * r != t * pow2(k),
        ),
{
    let q = Exact::square_root((t * pow2(p)) * pow2(149));
    let up = pow2(ex);
    let m = t * pow2(k);
    lemma_pow2_pos(ex);
    lemma_pow2_adds(p, 149);
    lemma_pow2_adds(ex, ex);
    lemma_pow2_adds(k, ex + ex);
    assert(q.num == m * (up * up)) by (nonlinear_arith)
        requires
            q.num == (t * pow2(p)) * pow2(149),
            pow2(p) * pow2(149) == pow2(k) * (up * up),
            m == t * pow2(k),
    ;
    assert(up * up > 0) by (nonlinear_arith)
        requires
            up > 0,
    ;
    let uu = up * up;
    assert(((r * up) * (r * up)) * 1 == (r * r) * uu && (((r + 1) * up) * ((r + 1) * up)) * 1 == ((r
        + 1) * (r + 1)) * uu) by (nonlinear_arith)
        requires
            uu == up * up,
    ;
    assert(q.num * (1 * 1) == m * uu) by (nonlinear_arith)
        requires
            q.num == m * uu,
    ;
    let lo = r * r;
    let hi = (r + 1) * (r + 1);
    assert(m * uu - lo * uu >= 0 && (m != lo ==> m * uu - lo * uu > 0) && (m == lo ==> m * uu - lo
        * uu == 0) && m * uu - hi * uu < 0) by (nonlinear_arith)
        requires
            lo <= m < hi,
            uu > 0,
    ;
}

/// Zero is nearest to a quantity that is nothing.
pub proof fn lemma_zero_is_nearest(q: Exact)
    requires
        q.valid(),
        q.num == 0,
    ensures
        q.is_nearest(0),
{
    lemma2_to64();
    lemma_magnitude_small();
    let a = 1 * scale_up(-1);
    let b = scale_down(-1);
    assert(a == 1 && b == 2);
    assert(q.num * b == 0 && q.num * (b * b) == 0 && (a * a) * q.den == q.den && a * q.den
        == q.den) by (nonlinear_arith)
        requires
            q.num == 0,
            a == 1,
    ;
    assert(q.side(1, -1) < 0);
}

/// The square of a number is a number that is not negative, and finite
/// only where the number is.
pub proof fn lemma_square_sign(x: Binary32)
    requires
        !x.is_nan(),
    ensures
        !x.product(x).is_nan(),
        !x.product(x).negative(),
        x.product(x).is_finite() ==> x.is_finite(),
{
    reveal(Binary32::product);
    lemma_nearest_exists(Exact::ratio(magnitude(x.ordinal()) * magnitude(x.ordinal()), pow2(149)));
}

/// The sum of two numbers that are not negative is one too.
pub proof fn lemma_sum_sign(a: Binary32, b: Binary32)
    requires
        !a.is_nan() && !a.negative(),
        !b.is_nan() && !b.negative(),
    ensures
        !a.sum(b).is_nan(),
        !a.sum(b).negative(),
{
    reveal(Binary32::sum);
    let exact = a.units() + b.units();
    if exact > 0 {
        lemma_nearest_exists(Exact::ratio(exact as nat, 1));
    }
}

/// The square root of a number that is not negative is one too.
pub proof fn lemma_root_sign(a: Binary32)
    requires
        !a.is_nan() && !a.negative(),
    ensures
        !a.root().is_nan(),
        !a.root().negative(),
{
    reveal(Binary32::root);
    lemma_nearest_exists(Exact::square_root(magnitude(a.ordinal()) * pow2(149)));
}

/// The sum does not depend on the order of its operands.
pub proof fn lemma_sum_commutes(a: Binary32, b: Binary32)
    ensures
        a.sum(b) == b.sum(a),
{
    reveal(Binary32::sum);
}

/// The product does not depend on the order of its operands.
pub proof fn lemma_product_commutes(a: Binary32, b: Binary32)
    ensures
        a.product(b) == b.product(a),
{
    reveal(Binary32::product);
    assert(magnitude(a.ordinal()) * magnitude(b.ordinal()) == magnitude(b.ordinal()) * magnitude(
        a.ordinal(),
    )) by (nonlinear_arith);
}

impl Binary32 {
    /// The same magnitude with the sign flipped; not-a-number stays as it is.
    pub open spec fn negation(self) -> Binary32 {
        if self.is_nan() {
            Binary32::nan()
        } else {
            Binary32::compose(!self.negative(), self.ordinal())
        }
    }

    /// The product, rounded to nearest.
    #[verifier::opaque]
    pub open spec fn product(self, rhs: Binary32) -> Binary32 {
        let negative = self.negative() != rhs.negative();
        if self.is_nan() || rhs.is_nan() {
            Binary32::nan()
        } else if self.is_infinite() || rhs.is_infinite() {
            if self.is_zero() || rhs.is_zero() {
                Binary32::nan()
            } else {
                Binary32::compose(negative, 0x7f80_0000)
            }
        } else {
            Binary32::compose(
                negative,
                Exact::ratio(
                    magnitude(self.ordinal()) * magnitude(rhs.ordinal()),
                    pow2(149),
                ).nearest(),
            )
        }
    }

    /// The sum, rounded to nearest. An exact zero is positive unless both
    /// operands are negative.
    #[verifier::opaque]
    pub open spec fn sum(self, rhs: Binary32) -> Binary32 {
        if self.is_nan() || rhs.is_nan() {
            Binary32::nan()
        } else if self.is_infinite() || rhs.is_infinite() {
            if self.is_infinite() && rhs.is_infinite() && self.negative() != rhs.negative() {
                Binary32::nan()
            } else if self.is_infinite() {
                self
            } else {
                rhs
            }
        } else {
            let exact = self.units() + rhs.units();
            if exact == 0 {
                Binary32::compose(self.negative() && rhs.negative(), 0)
            } else if exact < 0 {
                Binary32::compose(true, Exact::ratio((-exact) as nat, 1).nearest())
            } else {
                Binary32::compose(false, Exact::ratio(exact as nat, 1).nearest())
            }
        }
    }

    /// The difference, rounded to nearest: the sum with the negated operand.
    pub open spec fn difference(self, rhs: Binary32) -> Binary32 {
        self.sum(rhs.negation())
    }

    /// The quotient, rounded to nearest.
    #[verifier::opaque]
    pub open spec fn quotient(self, rhs: Binary32) -> Binary32 {
        let negative = self.negative() != rhs.negative();
        if self.is_nan() || rhs.is_nan() {
            Binary32::nan()
        } else if self.is_infinite() {
            if rhs.is_infinite() {
                Binary32::nan()
            } else {
                Binary32::compose(negative, 0x7f80_0000)
            }
        } else if rhs.is_infinite() {
            Binary32::compose(negative, 0)
        } else if rhs.is_zero() {
            if self.is_zero() {
                Binary32::nan()
            } else {
                Binary32::compose(negative, 0x7f80_0000)
            }
        } else {
            Binary32::compose(
                negative,
                Exact::ratio(
                    magnitude(self.ordinal()) * pow2(149),
                    magnitude(rhs.ordinal()),
                ).nearest(),
            )
        }
    }

    /// One divided by the value, rounded to nearest.
    pub open spec fn reciprocal(self) -> Binary32 {
        Binary32 { bits: 0x3f80_0000 }.quotient(self)
    }

    /// The square root, rounded to nearest; not a number below zero, and
    /// each zero is its own root.
    #[verifier::opaque]
    pub open spec fn root(self) -> Binary32 {
        if self.is_nan() {
            Binary32::nan()
        } else if self.is_zero() {
            self
        } else if self.negative() {
            Binary32::nan()
        } else if self.is_infinite() {
            self
        } else {
            Binary32::compose(
                false,
                Exact::square_root(magnitude(self.ordinal()) * pow2(149)).nearest(),
            )
        }
    }

    /// The value cut to a whole number and held to the range of a byte:
    /// nothing below zero or for not-a-number, 255 from there upwards.
    pub open spec fn octet(self) -> u8 {
        if self.is_nan() || self.negative() {
            0
        } else if magnitude(self.ordinal()) / pow2(149) >= 255 {
            255
        } else {
            (magnitude(self.ordinal()) / pow2(149)) as u8
        }
    }

    /// The whole number `v`, rounded to nearest.
    #[verifier::opaque]
    pub open spec fn of_integer(v: nat) -> Binary32 {
        Binary32::compose(false, Exact::ratio(v * pow2(149), 1).nearest())
    }

    /// Strictly less, as numbers: false where either side is not a number,
    /// and the two zeros are equal.
    pub open spec fn below(self, rhs: Binary32) -> bool {
        !self.is_nan() && !rhs.is_nan() && self.units() < rhs.units()
    }

    /// Equal as numbers.
    pub open spec fn same(self, rhs: Binary32) -> bool {
        !self.is_nan() && !rhs.is_nan() && self.units() == rhs.units()
    }

    /// Flips the sign.
    pub fn neg(self) -> (r: Binary32)
        ensures
            r == self.negation(),
    {
        let m: u32 = self.rank();
        if m > INFINITY_ORDINAL {
            Binary32 { bits: NAN_BITS }
        } else {
            Binary32::pack(!self.sign(), m)
        }
    }

    /// Adds, rounding to nearest.
    pub fn add(self, rhs: Binary32) -> (r: Binary32)
        ensures
            r == self.sum(rhs),
    {
        reveal(Binary32::sum);
        let ma: u32 = self.rank();
        let mb: u32 = rhs.rank();
        if ma > INFINITY_ORDINAL || mb > INFINITY_ORDINAL {
            return Binary32 { bits: NAN_BITS };
        }
        let sa: bool = self.sign();
        let sb: bool = rhs.sign();
        if ma == INFINITY_ORDINAL {
            if mb == INFINITY_ORDINAL && sa != sb {
                return Binary32 { bits: NAN_BITS };
            }
            return self;
        }
        if mb == INFINITY_ORDINAL {
            return rhs;
        }
        let same: bool = sa == sb;
        let mu: u32 = if ma >= mb { ma } else { mb };
        let mv: u32 = if ma >= mb { mb } else { ma };
        let su: bool = if ma >= mb { sa } else { sb };
        let (tu, pu) = grid(mu);
        let (tv, pv) = grid(mv);
        let ghost big = magnitude(mu as nat);
        let ghost small = magnitude(mv as nat);
        let ghost exact = self.units() + rhs.units();
        proof {
            lemma_magnitude_small();
            if mv < mu {
                lemma_magnitude_increases(mv as nat, mu as nat);
            }
            if mv > 0 {
                lemma_magnitude_increases(0, mv as nat);
            }
            assert(same ==> exact == (if su { -(big + small) } else { (big + small) as int }));
            assert(!same ==> exact == (if su { -(big - small) } else { (big - small) as int }));
        }
        if mv == 0 {
            if mu == 0 {
                return Binary32::pack(sa && sb, 0);
            }
            proof {
                lemma_magnitude_increases(0, mu as nat);
                lemma_exact_ordinal(mu as nat);
            }
            return Binary32::pack(su, mu);
        }
        let d: i32 = pu - pv;
        let sig: u64;
        let ex: i32;
        let sticky: bool;
        if d <= 38 {
            proof {
                lemma_sum_near(tu as nat, pu as nat, tv as nat, pv as nat, same);
                lemma2_to64();
                lemma_pow2_increases(d as nat, 38);
                lemma_pow2_adds(6, 32);
                assert(tu * pow2(d as nat) <= 0x100_0000 * pow2(38)) by (nonlinear_arith)
                    requires
                        tu < 0x100_0000,
                        pow2(d as nat) <= pow2(38),
                ;
            }
            let hi: u64 = shift_left(tu, d as u32);
            if same {
                sig = hi + tv;
            } else {
                sig = hi - tv;
            }
            ex = pv;
            sticky = false;
            if sig == 0 {
                return Binary32::pack(false, 0);
            }
        } else {
            proof {
                lemma_sum_far(tu as nat, pu as nat, tv as nat, pv as nat, same);
                lemma2_to64();
                lemma_bit_length_at_least((tu * 0x4000 - 1) as nat, 24);
            }
            let hi: u64 = tu * 0x4000;
            if same {
                sig = hi;
            } else {
                sig = hi - 1;
            }
            ex = pu - 14;
            sticky = true;
        }
        proof {
            let n: nat = if same { big + small } else { (big - small) as nat };
            let q = Exact::ratio(n, 1);
            lemma_bit_length_word(sig as nat);
            if sticky {
                lemma2_to64();
                lemma_bit_length_at_least(sig as nat, 24);
            }
            lemma_rounded_nearest(q, sig as nat, ex as int, sticky);
            assert(n > 0);
        }
        Binary32::pack(su, round_pack(sig, ex, sticky))
    }

    /// Subtracts, rounding to nearest.
    pub fn sub(self, rhs: Binary32) -> (r: Binary32)
        ensures
            r == self.difference(rhs),
    {
        self.add(rhs.neg())
    }

    /// Multiplies, rounding to nearest.
    pub fn mul(self, rhs: Binary32) -> (r: Binary32)
        ensures
            r == self.product(rhs),
    {
        reveal(Binary32::product);
        let negative: bool = self.sign() != rhs.sign();
        let ma: u32 = self.rank();
        let mb: u32 = rhs.rank();
        if ma > INFINITY_ORDINAL || mb > INFINITY_ORDINAL {
            return Binary32 { bits: NAN_BITS };
        }
        if ma == INFINITY_ORDINAL || mb == INFINITY_ORDINAL {
            if ma == 0 || mb == 0 {
                return Binary32 { bits: NAN_BITS };
            }
            return Binary32::pack(negative, INFINITY_ORDINAL);
        }
        let (ta, pa) = grid(ma);
        let (tb, pb) = grid(mb);
        assert(ta * tb < 0x1_0000_0000_0000) by (nonlinear_arith)
            requires
                ta < 0x100_0000,
                tb < 0x100_0000,
        ;
        let sig: u64 = ta * tb;
        let ex: i32 = pa + pb - 149;
        proof {
            let q = Exact::ratio(magnitude(ma as nat) * magnitude(mb as nat), pow2(149));
            lemma_product_bracket(ta as nat, pa as nat, tb as nat, pb as nat);
            if sig > 0 {
                lemma_bit_length_word(sig as nat);
                lemma_rounded_nearest(q, sig as nat, ex as int, false);
            } else {
                assert(q.num == 0) by (nonlinear_arith)
                    requires
                        q.num == (ta * pow2(pa as nat)) * (tb * pow2(pb as nat)),
                        ta * tb == 0,
                ;
                lemma_zero_nearest(q);
            }
        }
        Binary32::pack(negative, round_pack(sig, ex, false))
    }

    /// Divides, rounding to nearest.
    pub fn div(self, rhs: Binary32) -> (r: Binary32)
        ensures
            r == self.quotient(rhs),
    {
        reveal(Binary32::quotient);
        let negative: bool = self.sign() != rhs.sign();
        let ma: u32 = self.rank();
        let mb: u32 = rhs.rank();
        if ma > INFINITY_ORDINAL || mb > INFINITY_ORDINAL {
            return Binary32 { bits: NAN_BITS };
        }
        if ma == INFINITY_ORDINAL {
            if mb == INFINITY_ORDINAL {
                return Binary32 { bits: NAN_BITS };
            }
            return Binary32::pack(negative, INFINITY_ORDINAL);
        }
        if mb == INFINITY_ORDINAL {
            return Binary32::pack(negative, 0);
        }
        if mb == 0 {
            if ma == 0 {
                return Binary32 { bits: NAN_BITS };
            }
            return Binary32::pack(negative, INFINITY_ORDINAL);
        }
        let (ta, pa) = grid(ma);
        let (tb, pb) = grid(mb);
        let ghost q = Exact::ratio(magnitude(ma as nat) * pow2(149), magnitude(mb as nat));
        if ma == 0 {
            proof {
                lemma_magnitude_increases(0, mb as nat);
                assert(q.num == 0) by (nonlinear_arith)
                    requires
                        q.num == (ta * pow2(pa as nat)) * pow2(149),
                        ta == 0,
                ;
                lemma_zero_nearest(q);
            }
            return Binary32::pack(negative, 0);
        }
        let la: u32 = length_of(ta);
        let lb: u32 = length_of(tb);
        proof {
            lemma2_to64();
            lemma_bit_length_bounds(ta as nat);
            lemma_bit_length_bounds(tb as nat);
            if la > 24 {
                lemma_pow2_increases(24, (la - 1) as nat);
            }
            if lb > 24 {
                lemma_pow2_increases(24, (lb - 1) as nat);
            }
        }
        let k: u32 = 39 + lb - la;
        proof {
            lemma_pow2_adds(la as nat, k as nat);
            lemma_pow2_adds((la - 1) as nat, k as nat);
            lemma_pow2_adds(38, lb as nat);
            lemma_pow2_increases((39 + lb) as nat, 63);
            lemma_pow2_pos(k as nat);
            lemma2_to64_rest();
            assert(pow2((la - 1) as nat) * pow2(k as nat) <= ta * pow2(k as nat) < pow2(la as nat)
                * pow2(k as nat)) by (nonlinear_arith)
                requires
                    pow2((la - 1) as nat) <= ta < pow2(la as nat),
                    pow2(k as nat) > 0,
            ;
        }
        let m: u64 = shift_left(ta, k);
        let qt: u64 = m / tb;
        let rem: u64 = m % tb;
        let ex: i32 = pa + 149 - (pb + k as i32);
        proof {
            lemma_fundamental_div_mod(m as int, tb as int);
            assert(m == qt * tb + rem) by (nonlinear_arith)
                requires
                    m == tb * qt + rem,
            ;
            lemma_quotient_bracket(
                ta as nat,
                pa as nat,
                tb as nat,
                pb as nat,
                k as nat,
                qt as nat,
                rem as nat,
            );
            assert(pow2(38) * tb <= m) by (nonlinear_arith)
                requires
                    tb < pow2(lb as nat),
                    pow2(38) * pow2(lb as nat) <= m,
                    pow2(38) > 0,
            ;
            assert(m < 0x8000_0000_0000_0000 * tb) by (nonlinear_arith)
                requires
                    m < 0x8000_0000_0000_0000,
                    tb >= 1,
            ;
            lemma_quotient_between(m as nat, tb as nat, pow2(38), 0x8000_0000_0000_0000);
            lemma_pow2_increases(24, 38);
            lemma_bit_length_at_least(qt as nat, 24);
            lemma_bit_length_word(qt as nat);
            lemma_rounded_nearest(q, qt as nat, ex as int, rem != 0);
        }
        Binary32::pack(negative, round_pack(qt, ex, rem != 0))
    }

    /// One divided by the value.
    pub fn recip(self) -> (r: Binary32)
        ensures
            r == self.reciprocal(),
    {
        Binary32 { bits: 0x3f80_0000 }.div(self)
    }

    /// Takes the square root, rounding to nearest.
    pub fn sqrt(self) -> (r: Binary32)
        ensures
            r == self.root(),
    {
        reveal(Binary32::root);
        let m: u32 = self.rank();
        if m > INFINITY_ORDINAL {
            return Binary32 { bits: NAN_BITS };
        }
        if m == 0 {
            return self;
        }
        if self.sign() {
            return Binary32 { bits: NAN_BITS };
        }
        if m == INFINITY_ORDINAL {
            return self;
        }
        let (t, p) = grid(m);
        let lt: u32 = length_of(t);
        proof {
            lemma2_to64();
            lemma_bit_length_bounds(t as nat);
            if lt > 24 {
                lemma_pow2_increases(24, (lt - 1) as nat);
            }
        }
        let full: u32 = p as u32 + 149;
        let k0: u32 = 62 - lt;
        let k: u32 = if (full - k0) % 2 == 1 {
            k0 - 1
        } else {
            k0
        };
        let ex: u32 = (full - k) / 2;
        proof {
            lemma_pow2_adds(lt as nat, k as nat);
            lemma_pow2_adds((lt - 1) as nat, k as nat);
            lemma_pow2_increases((lt + k) as nat, 62);
            lemma_pow2_increases(60, (lt - 1 + k) as nat);
            lemma_pow2_pos(k as nat);
            lemma_pow2_adds(30, 30);
            lemma_pow2_adds(31, 31);
            assert(pow2((lt - 1) as nat) * pow2(k as nat) <= t * pow2(k as nat) < pow2(lt as nat)
                * pow2(k as nat)) by (nonlinear_arith)
                requires
                    pow2((lt - 1) as nat) <= t < pow2(lt as nat),
                    pow2(k as nat) > 0,
            ;
        }
        let sq: u64 = shift_left(t, k);
        let r: u64 = isqrt(sq);
        assert(r * r <= sq);
        let exact: bool = r * r == sq;
        proof {
            let q = Exact::square_root(magnitude(m as nat) * pow2(149));
            lemma_root_bracket(t as nat, p as nat, k as nat, ex as nat, r as nat);
            assert(r >= 0x4000_0000) by (nonlinear_arith)
                requires
                    sq < (r + 1) * (r + 1),
                    sq >= 0x4000_0000 * 0x4000_0000,
                    r >= 0,
            ;
            lemma_bit_length_at_least(r as nat, 24);
            lemma_bit_length_word(r as nat);
            lemma_rounded_nearest(q, r as nat, ex as int, !exact);
        }
        Binary32::pack(false, round_pack(r, ex as i32, !exact))
    }

    /// Cuts the value to a byte, as a cast does.
    pub fn to_u8(self) -> (r: u8)
        ensures
            r == self.octet(),
    {
        let m: u32 = self.rank();
        if m > INFINITY_ORDINAL || self.sign() {
            return 0;
        }
        let (t, p) = grid(m);
        proof {
            lemma2_to64();
            lemma_pow2_pos(149);
            lemma_pow2_pos(p as nat);
        }
        if p >= 149 {
            proof {
                let g = pow2((p - 149) as nat);
                lemma_pow2_adds((p - 149) as nat, 149);
                lemma_pow2_pos((p - 149) as nat);
                assert(255 * pow2(149) <= t * pow2(p as nat)) by (nonlinear_arith)
                    requires
                        pow2(p as nat) == g * pow2(149),
                        g >= 1,
                        t >= 255,
                        pow2(149) > 0,
                ;
                let x = t as nat * pow2(p as nat);
                assert(x < (x + 1) * pow2(149)) by (nonlinear_arith)
                    requires
                        pow2(149) >= 1,
                        x >= 0,
                ;
                lemma_quotient_between(x, pow2(149), 255, x + 1);
            }
            return 255;
        }
        let s: u32 = (149 - p) as u32;
        proof {
            lemma_pow2_adds(p as nat, s as nat);
            lemma_pow2_pos(s as nat);
            lemma_div_multiples_vanish_quotient(
                pow2(p as nat) as int,
                t as int,
                pow2(s as nat) as int,
            );
            assert(pow2(p as nat) * t == t * pow2(p as nat)) by (nonlinear_arith);
        }
        if s >= 24 {
            proof {
                lemma_pow2_increases(24, s as nat);
                lemma_basic_div(t as int, pow2(s as nat) as int);
            }
            return 0;
        }
        let v: u64 = shift_right(t, s);
        if v >= 255 {
            255
        } else {
            v as u8
        }
    }

    /// Converts a whole number.
    pub fn from_u32(v: u32) -> (r: Binary32)
        ensures
            r == Binary32::of_integer(v as nat),
    {
        reveal(Binary32::of_integer);
        proof {
            let q = Exact::ratio(v as nat * pow2(149), 1);
            lemma_integer_bracket(v as nat);
            if v > 0 {
                lemma_rounded_nearest(q, v as nat, 149, false);
            } else {
                assert(q.num == 0) by (nonlinear_arith)
                    requires
                        q.num == v * pow2(149),
                        v == 0,
                ;
                lemma_zero_nearest(q);
            }
        }
        Binary32::pack(false, round_pack(v as u64, 149, false))
    }

    /// Whether the value is less than `rhs`.
    pub fn lt(self, rhs: Binary32) -> (r: bool)
        ensures
            r == self.below(rhs),
    {
        let ma: u32 = self.rank();
        let mb: u32 = rhs.rank();
        if ma > INFINITY_ORDINAL || mb > INFINITY_ORDINAL {
            return false;
        }
        proof {
            lemma_magnitude_small();
            if ma > 0 {
                lemma_magnitude_increases(0, ma as nat);
            }
            if mb > 0 {
                lemma_magnitude_increases(0, mb as nat);
            }
            if ma < mb {
                lemma_magnitude_increases(ma as nat, mb as nat);
            }
            if mb < ma {
                lemma_magnitude_increases(mb as nat, ma as nat);
            }
        }
        let sa: bool = self.sign();
        let sb: bool = rhs.sign();
        if sa {
            if sb {
                mb < ma
            } else {
                ma > 0 || mb > 0
            }
        } else {
            if sb {
                false
            } else {
                ma < mb
            }
        }
    }

    /// Whether the value is greater than `rhs`.
    pub fn gt(self, rhs: Binary32) -> (r: bool)
        ensures
            r == rhs.below(self),
    {
        rhs.lt(self)
    }

    /// Whether the value is less than `rhs` or equal to it.
    pub fn le(self, rhs: Binary32) -> (r: bool)
        ensures
            r == (self.below(rhs) || self.same(rhs)),
    {
        let ma: u32 = self.rank();
        let mb: u32 = rhs.rank();
        if ma > INFINITY_ORDINAL || mb > INFINITY_ORDINAL {
            return false;
        }
        !rhs.lt(self)
    }

    /// Whether the value is greater than `rhs` or equal to it.
    pub fn ge(self, rhs: Binary32) -> (r: bool)
        ensures
            r == (rhs.below(self) || rhs.same(self)),
    {
        rhs.le(self)
    }
}

} // verus!
