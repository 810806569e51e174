//! Rounding: from a bracketed quantity to the nearest ordinal.
//!
//! An operation hands over a significand `sig`, an exponent `ex` and a sticky
//! flag that together bracket its exact result. The bracket is coarsened to
//! half the spacing of the binade the result falls in, and the last digit and
//! the residue decide between the two neighbouring ordinals.
use crate::bits::{
    bit_length, divisible, lemma_bit_length_bounds, lemma_pow2_increases, length_of, shift_left,
    shift_right,
};
use crate::exact::{lemma_side_order, lemma_side_shift, Exact};
use crate::format::{
    lemma_grid_of, lemma_magnitude_increases, lemma_magnitude_step, magnitude, INFINITY_ORDINAL,
};
use vstd::arithmetic::div_mod::*;
use vstd::arithmetic::power2::*;
use vstd::prelude::*;

verus! {

/// Binary exponent of the spacing where `sig * 2^ex` falls.
pub open spec fn target_exp(sig: nat, ex: int) -> int {
    let p = bit_length(sig) + ex - 24;
    if p > 0 {
        p
    } else {
        0
    }
}

/// The whole number of half-spacings in `sig * 2^ex`.
pub open spec fn halves(sig: nat, ex: int) -> nat {
    let s = target_exp(sig, ex) - 1 - ex;
    if s >= 0 {
        sig / pow2(s as nat)
    } else {
        sig * pow2((-s) as nat)
    }
}

/// Whether anything is left beyond the whole half-spacings.
pub open spec fn residue(sig: nat, ex: int, sticky: bool) -> bool {
    let s = target_exp(sig, ex) - 1 - ex;
    sticky || (s > 0 && sig % pow2(s as nat) != 0)
}

/// The ordinal chosen for `h` half-spacings at exponent `p`: the grid point
/// below, or the next one when the odd half-spacing and the residue say so.
pub open spec fn pick(p: nat, h: nat, inexact: bool) -> nat {
    let t = h / 2;
    if h % 2 == 1 && (inexact || t % 2 == 1) {
        p * 0x80_0000 + t + 1
    } else {
        p * 0x80_0000 + t
    }
}

/// The ordinal to which a quantity bracketed by `sig`, `ex` and `sticky` rounds.
pub open spec fn rounded(sig: nat, ex: int, sticky: bool) -> nat {
    if sig == 0 {
        0
    } else if target_exp(sig, ex) >= 254 {
        0x7f80_0000
    } else {
        pick(target_exp(sig, ex) as nat, halves(sig, ex), residue(sig, ex, sticky))
    }
}

/// A quotient lies between bounds that the dividend lies between.
pub proof fn lemma_quotient_between(x: nat, k: nat, lo: nat, hi: nat)
    requires
        k > 0,
        lo * k <= x < hi * k,
    ensures
        lo <= x / k < hi,
{
    let q = x / k;
    let r = x % k;
    lemma_fundamental_div_mod(x as int, k as int);
    lemma_mod_bound(x as int, k as int);
    assert(lo <= q < hi) by (nonlinear_arith)
        requires
            x == k * q + r,
            0 <= r < k,
            lo * k <= x < hi * k,
    ;
}

proof fn lemma_product_between(x: nat, k: nat, lo: nat, hi: nat, j: nat)
    by (nonlinear_arith)
    requires
        lo <= x < hi,
        k > 0,
    ensures
        lo * k <= x * k < hi * k,
{
}

/// The half-spacings fit in 25 digits, and fill them in a normal binade.
pub proof fn lemma_halves_bounds(sig: nat, ex: int)
    requires
        sig > 0,
    ensures
        halves(sig, ex) < 0x200_0000,
        target_exp(sig, ex) > 0 ==> halves(sig, ex) >= 0x100_0000,
{
    lemma2_to64();
    lemma_bit_length_bounds(sig);
    let l = bit_length(sig);
    let p = target_exp(sig, ex);
    let s = p - 1 - ex;
    if s >= 0 {
        let k = pow2(s as nat);
        lemma_pow2_pos(s as nat);
        // l <= 25 + s, with equality in a normal binade
        lemma_pow2_increases(l, (25 + s) as nat);
        lemma_pow2_adds(25, s as nat);
        if p > 0 {
            assert(l == 25 + s);
            lemma_pow2_adds(24, s as nat);
            lemma_quotient_between(sig, k, 0x100_0000, 0x200_0000);
        } else {
            lemma_quotient_between(sig, k, 0, 0x200_0000);
        }
    } else {
        let j = (-s) as nat;
        let k = pow2(j);
        lemma_pow2_pos(j);
        // l + j <= 25, with equality in a normal binade
        lemma_pow2_adds(l, j);
        lemma_pow2_increases(l + j, 25);
        lemma_product_between(sig, k, 0, pow2(l), 0);
        if p > 0 {
            assert(l + j == 25);
            lemma_pow2_adds((l - 1) as nat, j);
            lemma_product_between(sig, k, pow2((l - 1) as nat), pow2(l), 0);
        }
    }
}

/// Coarsening keeps the bracket.
pub proof fn lemma_coarsen(q: Exact, sig: nat, ex: int, sticky: bool)
    requires
        q.valid(),
        sig > 0,
        q.bracket(sig, ex, sticky),
        sticky ==> bit_length(sig) >= 25,
    ensures
        q.bracket(halves(sig, ex), target_exp(sig, ex) - 1, residue(sig, ex, sticky)),
{
    let p = target_exp(sig, ex);
    let s = p - 1 - ex;
    let h = halves(sig, ex);
    if s >= 0 {
        let k = pow2(s as nat);
        lemma_pow2_pos(s as nat);
        lemma_fundamental_div_mod(sig as int, k as int);
        lemma_mod_bound(sig as int, k as int);
        let r = sig % k;
        assert(h * k + r == sig && (h + 1) * k == h * k + k) by (nonlinear_arith)
            requires
                sig == k * h + r,
        ;
        lemma_side_shift(q, h, p - 1, s as nat);
        lemma_side_shift(q, h + 1, p - 1, s as nat);
        lemma_side_order(q, h * k, sig, ex);
        lemma_side_order(q, sig + 1, (h + 1) * k, ex);
        if s == 0 {
            lemma2_to64();
            assert(r == 0);
        }
    } else {
        let j = (-s) as nat;
        assert(!sticky);
        lemma_side_shift(q, sig, ex, j);
        lemma_side_order(q, h, h + 1, p - 1);
    }
}

/// The pick is nearest to any quantity that the half-spacings bracket.
pub proof fn lemma_pick_nearest(q: Exact, p: nat, h: nat, inexact: bool)
    requires
        q.valid(),
        q.bracket(h, p - 1, inexact),
        p <= 253,
        h < 0x200_0000,
        p > 0 ==> h >= 0x100_0000,
    ensures
        q.is_nearest(pick(p, h, inexact)),
{
    let t = h / 2;
    let m0 = p * 0x80_0000 + t;
    let g = pow2(p);
    lemma_pow2_pos(p);
    lemma_grid_of(p, t);
    lemma_magnitude_step(m0);
    assert(magnitude(m0) == t * g);
    assert(magnitude(m0 + 1) == t * g + g);
    assert((2 * t) * g == t * g + t * g && (2 * t + 1) * g == t * g + t * g + g && (2 * t + 2) * g
        == t * g + t * g + g + g) by (nonlinear_arith);
    lemma_side_shift(q, 2 * t, p - 1, p);
    lemma_side_shift(q, 2 * t + 1, p - 1, p);
    lemma_side_shift(q, 2 * t + 2, p - 1, p);
    lemma_side_order(q, 2 * t, 2 * t + 1, p - 1);
    let grid = magnitude(m0) + magnitude(m0);
    let mid = magnitude(m0) + magnitude(m0 + 1);
    let next = magnitude(m0 + 1) + magnitude(m0 + 1);
    assert(q.side(grid, -1) == q.side(2 * t, p - 1));
    assert(q.side(mid, -1) == q.side(2 * t + 1, p - 1));
    assert(q.side(next, -1) == q.side(2 * t + 2, p - 1));
    if pick(p, h, inexact) == m0 {
        if m0 > 0 {
            lemma_magnitude_increases((m0 - 1) as nat, m0);
            let below = magnitude((m0 - 1) as nat) + magnitude(m0);
            lemma_side_order(q, below, grid, -1);
        }
    } else {
        lemma_magnitude_increases(m0 + 1, m0 + 2);
        let above = magnitude(m0 + 1) + magnitude(m0 + 2);
        lemma_side_order(q, next, above, -1);
    }
}

/// Past the largest finite binade every quantity rounds to infinity.
pub proof fn lemma_overflow_nearest(q: Exact, sig: nat, ex: int, sticky: bool)
    requires
        q.valid(),
        q.bracket(sig, ex, sticky),
        sig > 0,
        ex >= 0,
        target_exp(sig, ex) >= 254,
    ensures
        q.is_nearest(0x7f80_0000),
{
    let inf: nat = 0x7f80_0000;
    lemma2_to64();
    lemma_bit_length_bounds(sig);
    let l = bit_length(sig);
    let below = magnitude((inf - 1) as nat) + magnitude(inf);
    lemma_magnitude_increases((inf - 1) as nat, inf);
    lemma_grid_of(254, 0x80_0000);
    assert(magnitude(inf) == 0x80_0000 * pow2(254));
    // the bracket's lower end, in half units
    let e = (ex + 1) as nat;
    let low = sig * pow2(e);
    lemma_side_shift(q, sig, ex, e);
    lemma_pow2_adds((l - 1) as nat, e);
    lemma_pow2_increases(278, (l - 1 + e) as nat);
    lemma_pow2_adds(24, 254);
    lemma_pow2_pos(e);
    lemma_product_between(sig, pow2(e), pow2((l - 1) as nat), pow2(l), 0);
    assert(0x100_0000 * pow2(254) == 0x80_0000 * pow2(254) + 0x80_0000 * pow2(254))
        by (nonlinear_arith);
    assert(below < low);
    lemma_side_order(q, below, low, -1);
}

/// Rounding returns the ordinal nearest to the bracketed quantity.
pub proof fn lemma_rounded_nearest(q: Exact, sig: nat, ex: int, sticky: bool)
    requires
        q.valid(),
        q.bracket(sig, ex, sticky),
        sig > 0,
        sticky ==> bit_length(sig) >= 25,
        ex >= 0 || bit_length(sig) + ex < 278,
    ensures
        q.is_nearest(rounded(sig, ex, sticky)),
        q.nearest() == rounded(sig, ex, sticky),
{
    if target_exp(sig, ex) >= 254 {
        lemma_overflow_nearest(q, sig, ex, sticky);
    } else {
        lemma_halves_bounds(sig, ex);
        lemma_coarsen(q, sig, ex, sticky);
        lemma_pick_nearest(
            q,
            target_exp(sig, ex) as nat,
            halves(sig, ex),
            residue(sig, ex, sticky),
        );
    }
    crate::exact::lemma_nearest_is(q, rounded(sig, ex, sticky));
}

/// Rounds the bracket `sig`, `ex`, `sticky` to an ordinal.
pub(crate) fn round_pack(sig: u64, ex: i32, sticky: bool) -> (m: u32)
    requires
        -1000 <= ex <= 1000,
    ensures
        m == rounded(sig as nat, ex as int, sticky),
        m <= 0x7f80_0000,
{
    if sig == 0 {
        return 0;
    }
    let l: i32 = length_of(sig) as i32;
    let raw: i32 = l + ex - 24;
    let p: i32 = if raw > 0 {
        raw
    } else {
        0
    };
    if p >= 254 {
        return INFINITY_ORDINAL;
    }
    let s: i32 = p - 1 - ex;
    proof {
        lemma_halves_bounds(sig as nat, ex as int);
        lemma_bit_length_bounds(sig as nat);
        lemma2_to64();
    }
    let h: u64;
    let inexact: bool;
    if s >= 64 {
        proof {
            lemma_pow2_increases(64, s as nat);
            lemma_pow2_increases(bit_length(sig as nat), 64);
            lemma_basic_div(sig as int, pow2(s as nat) as int);
            lemma_small_mod(sig as nat, pow2(s as nat));
        }
        h = 0;
        inexact = true;
    } else if s >= 0 {
        h = shift_right(sig, s as u32);
        let whole: bool = divisible(sig, s as u32);
        inexact = sticky || !whole;
    } else {
        h = shift_left(sig, (-s) as u32);
        inexact = sticky;
    }
    let t: u64 = h / 2;
    let base: u64 = (p as u64) * 0x80_0000 + t;
    if h % 2 == 1 && (inexact || t % 2 == 1) {
        (base + 1) as u32
    } else {
        base as u32
    }
}

} // verus!
