//! Shifts and digit counts on machine words, stated over powers of two.
use vstd::arithmetic::div_mod::*;
use vstd::arithmetic::power2::*;
use vstd::bits::*;
use vstd::prelude::*;

verus! {

/// The number of binary digits of `x`: the least `l` with `x < 2^l`.
pub open spec fn bit_length(x: nat) -> nat
    decreases x,
{
    if x == 0 {
        0
    } else {
        1 + bit_length(x / 2)
    }
}

/// `x` lies in the binade that its digit count names.
pub proof fn lemma_bit_length_bounds(x: nat)
    ensures
        x < pow2(bit_length(x)),
        x > 0 ==> bit_length(x) >= 1 && pow2((bit_length(x) - 1) as nat) <= x,
    decreases x,
{
    if x == 0 {
        lemma_pow2_pos(0);
    } else {
        lemma_bit_length_bounds(x / 2);
        lemma_pow2_unfold(bit_length(x));
        if x / 2 > 0 {
            lemma_pow2_unfold((bit_length(x) - 1) as nat);
        } else {
            lemma2_to64();
        }
    }
}

/// Powers of two grow with the exponent.
pub proof fn lemma_pow2_increases(a: nat, b: nat)
    requires
        a <= b,
    ensures
        pow2(a) <= pow2(b),
{
    if a < b {
        lemma_pow2_strictly_increases(a, b);
    }
}

/// A number that reaches `2^k` has more than `k` digits.
pub proof fn lemma_bit_length_at_least(x: nat, k: nat)
    requires
        x >= pow2(k),
    ensures
        bit_length(x) > k,
{
    lemma_bit_length_bounds(x);
    if bit_length(x) <= k {
        lemma_pow2_increases(bit_length(x), k);
    }
}

/// A machine word has at most 64 digits.
pub proof fn lemma_bit_length_word(x: nat)
    requires
        x <= u64::MAX,
    ensures
        bit_length(x) <= 64,
{
    lemma_bit_length_bounds(x);
    lemma2_to64();
    if bit_length(x) > 64 {
        lemma_pow2_increases(64, (bit_length(x) - 1) as nat);
    }
}

/// Counts the binary digits of `x`.
pub(crate) fn length_of(x: u64) -> (l: u32)
    ensures
        l == bit_length(x as nat),
        l <= 64,
{
    proof {
        lemma_bit_length_word(x as nat);
    }
    let mut l: u32 = 0;
    let mut y: u64 = x;
    while y > 0
        invariant
            l + bit_length(y as nat) == bit_length(x as nat),
            bit_length(x as nat) <= 64,
        decreases y,
    {
        y = y / 2;
        l = l + 1;
    }
    l
}

/// `x` times `2^k`, where that fits the word.
pub(crate) fn shift_left(x: u64, k: u32) -> (r: u64)
    requires
        k < 64,
        x * pow2(k as nat) <= u64::MAX,
    ensures
        r == x * pow2(k as nat),
{
    let s: u64 = k as u64;
    proof {
        lemma_u64_shl_is_mul(x, s);
    }
    x << s
}

/// The quotient of `x` by `2^k`.
pub(crate) fn shift_right(x: u64, k: u32) -> (r: u64)
    requires
        k < 64,
    ensures
        r == x as nat / pow2(k as nat),
{
    let s: u64 = k as u64;
    proof {
        lemma_u64_shr_is_div(x, s);
    }
    x >> s
}

/// Whether `2^k` divides `x`.
pub(crate) fn divisible(x: u64, k: u32) -> (r: bool)
    requires
        k < 64,
    ensures
        r == (x as nat % pow2(k as nat) == 0),
{
    let q: u64 = shift_right(x, k);
    proof {
        lemma_pow2_pos(k as nat);
        lemma_fundamental_div_mod(x as int, pow2(k as nat) as int);
        lemma_mod_bound(x as int, pow2(k as nat) as int);
        vstd::arithmetic::mul::lemma_mul_is_commutative(q as int, pow2(k as nat) as int);
    }
    let back: u64 = shift_left(q, k);
    back == x
}

/// The whole part of the square root of `x`.
pub(crate) fn isqrt(x: u64) -> (r: u64)
    ensures
        r * r <= x < (r + 1) * (r + 1),
        r < 0x1_0000_0000,
{
    let mut r: u64 = 0;
    let mut i: u32 = 32;
    proof {
        lemma2_to64();
        assert((r + pow2(32)) * (r + pow2(32)) == 0x1_0000_0000_0000_0000) by (nonlinear_arith)
            requires
                r == 0,
                pow2(32) == 0x1_0000_0000,
        ;
    }
    while i > 0
        invariant
            i <= 32,
            r * r <= x,
            x < (r + pow2(i as nat)) * (r + pow2(i as nat)),
            r + pow2(i as nat) <= 0x1_0000_0000,
        decreases i,
    {
        i = i - 1;
        proof {
            lemma_pow2_unfold((i + 1) as nat);
            lemma_pow2_pos(i as nat);
            lemma_pow2_increases(i as nat, 32);
            lemma2_to64();
        }
        let b: u64 = shift_left(1, i);
        let c: u64 = r + b;
        assert(c * c <= 0xffff_ffff * 0xffff_ffff) by (nonlinear_arith)
            requires
                c <= 0xffff_ffff,
        ;
        if c * c <= x {
            r = c;
        }
    }
    proof {
        lemma2_to64();
    }
    r
}

} // verus!
