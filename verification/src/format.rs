//! The binary32 interchange format: how 32 bits denote a number.
//!
//! A finite value is a whole number of units of `2^-149`, the spacing of the
//! subnormal numbers. The 31 low bits of a pattern, read as an integer, are
//! the value's ordinal: its position among the non-negative values, from zero
//! upwards. Ordinals and magnitudes grow together.
use vstd::arithmetic::power2::*;
use vstd::prelude::*;

verus! {

/// Ordinal of infinity, and of the first magnitude that no finite value reaches.
pub const INFINITY_ORDINAL: u32 = 0x7f80_0000;

/// The sign bit.
pub const SIGN_BIT: u32 = 0x8000_0000;

/// The quiet not-a-number that every invalid operation returns.
pub const NAN_BITS: u32 = 0x7fc0_0000;

/// The pattern of one.
pub const ONE: u32 = 0x3f80_0000;

/// The pattern of two.
pub const TWO: u32 = 0x4000_0000;

/// The pattern of one half.
pub const HALF: u32 = 0x3f00_0000;

/// A binary32 value, held as its bit pattern.
#[derive(Clone, Copy, Debug)]
pub struct Binary32 {
    pub bits: u32,
}

/// Binary exponent of the spacing at ordinal `m`, in units.
pub open spec fn grid_exp(m: nat) -> nat {
    if m < 0x100_0000 {
        0
    } else {
        (m / 0x80_0000 - 1) as nat
    }
}

/// The significand at ordinal `m`: the magnitude counted in spacings.
pub open spec fn grid_sig(m: nat) -> nat {
    (m - grid_exp(m) * 0x80_0000) as nat
}

/// The magnitude at ordinal `m`, in units of `2^-149`.
pub open spec fn magnitude(m: nat) -> nat {
    grid_sig(m) * pow2(grid_exp(m))
}

impl Binary32 {
    /// Whether the sign bit is set; it may be, on a zero or on not-a-number.
    pub open spec fn negative(self) -> bool {
        self.bits >= 0x8000_0000
    }

    /// Position of the magnitude among the non-negative values.
    pub open spec fn ordinal(self) -> nat {
        (self.bits % 0x8000_0000) as nat
    }

    /// Not a number: an ordinal past that of infinity.
    pub open spec fn is_nan(self) -> bool {
        self.ordinal() > 0x7f80_0000
    }

    /// Plus or minus infinity.
    pub open spec fn is_infinite(self) -> bool {
        self.ordinal() == 0x7f80_0000
    }

    /// Zero, subnormal or normal.
    pub open spec fn is_finite(self) -> bool {
        self.ordinal() < 0x7f80_0000
    }

    /// Plus or minus zero.
    pub open spec fn is_zero(self) -> bool {
        self.ordinal() == 0
    }

    /// The value in units of `2^-149`; infinity stands at `2^277` units,
    /// the first magnitude past every finite one.
    pub open spec fn units(self) -> int {
        if self.negative() {
            -(magnitude(self.ordinal()) as int)
        } else {
            magnitude(self.ordinal()) as int
        }
    }

    /// The value with the given sign and ordinal.
    pub open spec fn compose(negative: bool, ordinal: nat) -> Binary32 {
        Binary32 {
            bits: if negative {
                (ordinal + 0x8000_0000) as u32
            } else {
                ordinal as u32
            },
        }
    }

    /// The quiet not-a-number that the operations return.
    pub open spec fn nan() -> Binary32 {
        Binary32 { bits: 0x7fc0_0000 }
    }

    /// Plus zero.
    pub open spec fn zero() -> Binary32 {
        Binary32 { bits: 0 }
    }

    /// One.
    pub open spec fn one() -> Binary32 {
        Binary32 { bits: 0x3f80_0000 }
    }

    /// Builds the value from its bit pattern.
    pub fn from_bits(bits: u32) -> (r: Binary32)
        ensures
            r.bits == bits,
    {
        Binary32 { bits }
    }

    /// The bit pattern.
    pub fn to_bits(self) -> (r: u32)
        ensures
            r == self.bits,
    {
        self.bits
    }

    /// Assembles a pattern from sign and ordinal.
    pub fn pack(negative: bool, ordinal: u32) -> (r: Binary32)
        requires
            ordinal < 0x8000_0000,
        ensures
            r == Binary32::compose(negative, ordinal as nat),
            r.negative() == negative,
            r.ordinal() == ordinal,
    {
        if negative {
            Binary32 { bits: ordinal + SIGN_BIT }
        } else {
            Binary32 { bits: ordinal }
        }
    }

    /// Whether the sign bit is set.
    pub fn sign(self) -> (r: bool)
        ensures
            r == self.negative(),
    {
        self.bits >= SIGN_BIT
    }

    /// The ordinal of the magnitude.
    pub fn rank(self) -> (r: u32)
        ensures
            r == self.ordinal(),
            r < 0x8000_0000,
    {
        self.bits % SIGN_BIT
    }
}

/// Zero has no magnitude, and the first ordinal above it has one unit.
pub proof fn lemma_magnitude_small()
    ensures
        magnitude(0) == 0,
        magnitude(1) == 1,
{
    lemma2_to64();
    assert(grid_sig(0) == 0 && grid_exp(0) == 0);
    assert(grid_sig(1) == 1 && grid_exp(1) == 0);
    assert(0 * pow2(0) == 0) by (nonlinear_arith);
    assert(1 * pow2(0) == pow2(0)) by (nonlinear_arith);
}

/// From one ordinal to the next the magnitude grows by one spacing.
pub proof fn lemma_magnitude_step(m: nat)
    ensures
        magnitude(m + 1) == magnitude(m) + pow2(grid_exp(m)),
{
    lemma2_to64();
    let p = grid_exp(m);
    let t = grid_sig(m);
    if m + 1 < 0x100_0000 {
        assert(grid_exp(m + 1) == 0 && p == 0);
        assert(grid_sig(m + 1) == t + 1);
        assert(magnitude(m + 1) == magnitude(m) + pow2(grid_exp(m)));
    } else if m + 1 == 0x100_0000 {
        assert(grid_exp(m + 1) == 1);
        assert(grid_sig(m + 1) == 0x80_0000);
        assert(p == 0 && t == 0xff_ffff);
        assert(magnitude(m + 1) == magnitude(m) + pow2(grid_exp(m)));
    } else {
        assert(p == m / 0x80_0000 - 1);
        if (m + 1) % 0x80_0000 == 0 {
            assert(grid_exp(m + 1) == p + 1);
            assert(t == 0xff_ffff);
            assert(grid_sig(m + 1) == 0x80_0000);
            lemma_pow2_unfold(p + 1);
            assert(0x80_0000 * (2 * pow2(p)) == 0xff_ffff * pow2(p) + pow2(p)) by (nonlinear_arith);
            assert(magnitude(m + 1) == magnitude(m) + pow2(grid_exp(m)));
        } else {
            assert(grid_exp(m + 1) == p);
            assert(grid_sig(m + 1) == t + 1);
            assert((t + 1) * pow2(p) == t * pow2(p) + pow2(p)) by (nonlinear_arith);
            assert(magnitude(m + 1) == magnitude(m) + pow2(grid_exp(m)));
        }
    }
}

/// A larger ordinal denotes a larger magnitude.
pub proof fn lemma_magnitude_increases(a: nat, b: nat)
    requires
        a < b,
    ensures
        magnitude(a) < magnitude(b),
    decreases b - a,
{
    lemma_magnitude_step(a);
    lemma_pow2_pos(grid_exp(a));
    if a + 1 < b {
        lemma_magnitude_increases(a + 1, b);
    }
}

/// The significand of an ordinal stays within its binade.
pub proof fn lemma_grid_bounds(m: nat)
    ensures
        m == grid_exp(m) * 0x80_0000 + grid_sig(m),
        grid_exp(m) == 0 ==> grid_sig(m) < 0x100_0000,
        grid_exp(m) > 0 ==> 0x80_0000 <= grid_sig(m) < 0x100_0000,
{
}

/// An ordinal is determined by the exponent and significand of its grid point.
pub proof fn lemma_grid_of(p: nat, t: nat)
    requires
        t < 0x100_0000,
        p > 0 ==> 0x80_0000 <= t,
    ensures
        grid_exp(p * 0x80_0000 + t) == p,
        grid_sig(p * 0x80_0000 + t) == t,
        magnitude(p * 0x80_0000 + t) == t * pow2(p),
{
}

} // verus!
