//! A finite supply of samples from the unit interval.
//!
//! The renderer draws its jitter and its scattering directions from a
//! sequence fixed in advance, so that an image is a function of the scene and
//! of that sequence. A supply that has run out yields zero.
use crate::arith::{lemma_exact_ordinal, lemma_zero_nearest};
use crate::exact::{lemma_nearest_at_most, lemma_nearest_exists, Exact};
use crate::bits::{bit_length, lemma_bit_length_bounds, lemma_pow2_increases};
use crate::format::{
    lemma_grid_of, lemma_magnitude_increases, lemma_magnitude_small, magnitude, Binary32,
};
use vstd::arithmetic::power2::*;
use vstd::prelude::*;

verus! {

/// The pattern of `2^-24`, the spacing of the samples.
pub const STEP: u32 = 0x3380_0000;

/// The samples not yet drawn, in the order in which they will be.
pub struct Sampler {
    values: Vec<Binary32>,
    position: usize,
}

/// The next sample of a supply: its first value, or zero where none is left.
pub open spec fn first(samples: Seq<Binary32>) -> Binary32 {
    if samples.len() > 0 {
        samples[0]
    } else {
        Binary32::zero()
    }
}

/// What is left of a supply after one draw.
pub open spec fn rest(samples: Seq<Binary32>) -> Seq<Binary32> {
    if samples.len() > 0 {
        samples.skip(1)
    } else {
        samples
    }
}

/// `left` is what remains of `samples` after some draws from its front.
pub open spec fn drawn_from(left: Seq<Binary32>, samples: Seq<Binary32>) -> bool {
    left.len() <= samples.len() && left == samples.skip(samples.len() - left.len())
}

/// Draws after draws are draws.
pub proof fn lemma_drawn_chain(a: Seq<Binary32>, b: Seq<Binary32>, c: Seq<Binary32>)
    requires
        drawn_from(a, b),
        drawn_from(b, c),
    ensures
        drawn_from(a, c),
{
    assert(c.skip(c.len() - b.len()).skip(b.len() - a.len()) =~= c.skip(c.len() - a.len()));
}

/// One draw takes from the front, and nothing is drawn from nothing.
pub proof fn lemma_drawn_rest(samples: Seq<Binary32>)
    ensures
        drawn_from(rest(samples), samples),
        drawn_from(samples, samples),
{
    assert(samples.skip(0) =~= samples);
}

/// The sample that a random word stands for: its upper 24 bits, counted in
/// steps of `2^-24`.
pub open spec fn unit_sample(word: u32) -> Binary32 {
    Binary32::of_integer((word / 256) as nat).product(Binary32 { bits: STEP })
}

/// At least zero and less than one.
pub open spec fn in_unit_interval(x: Binary32) -> bool {
    !x.negative() && x.below(Binary32::one())
}

impl View for Sampler {
    type V = Seq<Binary32>;

    closed spec fn view(&self) -> Seq<Binary32> {
        self.values@.skip(self.position as int)
    }
}

impl Sampler {
    #[verifier::type_invariant]
    spec fn well_formed(self) -> bool {
        self.position <= self.values.len()
    }

    /// A supply that yields `values` in order.
    pub fn new(values: Vec<Binary32>) -> (r: Sampler)
        ensures
            r@ == values@,
    {
        Sampler { values, position: 0 }
    }

    /// How many samples are left.
    pub fn remaining(&self) -> (n: usize)
        ensures
            n == self@.len(),
    {
        proof {
            use_type_invariant(self);
        }
        self.values.len() - self.position
    }

    /// Takes the next sample.
    pub fn draw(&mut self) -> (r: Binary32)
        ensures
            r == first(old(self)@),
            final(self)@ == rest(old(self)@),
            drawn_from(final(self)@, old(self)@),
    {
        proof {
            lemma_drawn_rest(self@);
        }
        proof {
            use_type_invariant(&*self);
        }
        if self.position < self.values.len() {
            let r: Binary32 = self.values[self.position];
            self.position = self.position + 1;
            assert(self.values@.skip(self.position as int) == old(self).values@.skip(
                old(self).position as int,
            ).skip(1));
            r
        } else {
            Binary32 { bits: 0 }
        }
    }

    /// A supply of `count` samples drawn from the thread's random generator.
    pub fn from_entropy(count: usize) -> (r: Sampler)
        ensures
            r@.len() == count,
            forall|i: int| 0 <= i < count ==> in_unit_interval(#[trigger] r@[i]),
    {
        let mut values: Vec<Binary32> = Vec::new();
        let mut i: usize = 0;
        while i < count
            invariant
                i <= count,
                values@.len() == i,
                forall|j: int| 0 <= j < i ==> in_unit_interval(#[trigger] values@[j]),
            decreases count - i,
        {
            let word: u32 = random_word();
            values.push(unit_interval(word));
            i = i + 1;
        }
        Sampler::new(values)
    }
}

/// Calls `rand::random::<u32>()`, which draws a word from the generator of
/// the current thread. Nothing is claimed of the word.
#[verifier::external_body]
fn random_word() -> (r: u32) {
    rand::random::<u32>()
}

/// Every sample that a word stands for lies in the unit interval.
pub proof fn lemma_unit_sample_range(word: u32)
    ensures
        in_unit_interval(unit_sample(word)),
{
    reveal(Binary32::of_integer);
    reveal(Binary32::product);
    let v = (word / 256) as nat;
    let whole = Binary32::of_integer(v);
    let step = Binary32 { bits: STEP };
    lemma2_to64();
    // the whole number is representable, so the conversion is exact
    let q1 = Exact::ratio(v * pow2(149), 1);
    lemma_whole_fits(v);
    let m1 = q1.nearest();
    assert(whole.ordinal() == m1 && !whole.negative());
    // the step is a power of two
    assert(step.ordinal() == 0x3380_0000 && !step.negative());
    lemma_grid_of(102, 0x80_0000);
    assert(0x3380_0000 == 102 * 0x80_0000 + 0x80_0000);
    assert(magnitude(0x3380_0000) == 0x80_0000 * pow2(102));
    lemma_pow2_adds(23, 102);
    // the product stays below one
    let q2 = Exact::ratio(magnitude(m1) * magnitude(0x3380_0000), pow2(149));
    let one: nat = 0x3f80_0000;
    let last: nat = 0x3f7f_ffff;
    lemma_grid_of(125, 0xff_ffff);
    assert(last == 125 * 0x80_0000 + 0xff_ffff);
    assert(magnitude(last) == 0xff_ffff * pow2(125));
    lemma_pow2_pos(149);
    lemma_pow2_adds(125, 24);
    assert(magnitude(m1) * magnitude(0x3380_0000) <= (0xff_ffff * pow2(125)) * pow2(149))
        by (nonlinear_arith)
        requires
            magnitude(m1) == v * pow2(149),
            magnitude(0x3380_0000) == pow2(125),
            v <= 0xff_ffff,
            pow2(149) > 0,
            pow2(125) > 0,
    ;
    assert(q2.side(magnitude(last), 0) <= 0) by {
        assert(q2.num * 1 - (magnitude(last) * 1) * q2.den <= 0) by (nonlinear_arith)
            requires
                q2.num <= magnitude(last) * q2.den,
        ;
    }
    if q2.num == 0 {
        lemma_zero_nearest(q2);
    } else {
        lemma_nearest_exists(q2);
        lemma_nearest_at_most(q2, q2.nearest(), last);
    }
    let r = unit_sample(word);
    assert(r.ordinal() == q2.nearest());
    lemma_magnitude_increases(r.ordinal(), one);
}

/// A whole number of at most 24 digits is a representable magnitude.
proof fn lemma_whole_fits(v: nat)
    requires
        v < 0x100_0000,
    ensures
        Exact::ratio(v * pow2(149), 1).nearest() < 0x7f80_0000,
        magnitude(Exact::ratio(v * pow2(149), 1).nearest()) == v * pow2(149),
{
    let q = Exact::ratio(v * pow2(149), 1);
    if v == 0 {
        assert(q.num == 0) by (nonlinear_arith)
            requires
                q.num == v * pow2(149),
                v == 0,
        ;
        lemma_zero_nearest(q);
        lemma_magnitude_small();
    } else {
        let l = bit_length(v);
        lemma_bit_length_bounds(v);
        lemma2_to64();
        if l > 24 {
            lemma_pow2_increases(24, (l - 1) as nat);
        }
        let j = (24 - l) as nat;
        let t = v * pow2(j);
        let p = (149 - j) as nat;
        lemma_pow2_adds(l, j);
        lemma_pow2_adds((l - 1) as nat, j);
        lemma_pow2_adds(j, p);
        lemma_pow2_pos(j);
        assert(pow2((l - 1) as nat) * pow2(j) <= t < pow2(l) * pow2(j)) by (nonlinear_arith)
            requires
                t == v * pow2(j),
                pow2((l - 1) as nat) <= v < pow2(l),
                pow2(j) > 0,
        ;
        lemma_grid_of(p, t);
        let m = p * 0x80_0000 + t;
        assert(t * pow2(p) == v * pow2(149)) by (nonlinear_arith)
            requires
                t == v * pow2(j),
                pow2(149) == pow2(j) * pow2(p),
        ;
        lemma_exact_ordinal(m);
    }
}

/// Turns a random word into a sample.
pub fn unit_interval(word: u32) -> (r: Binary32)
    ensures
        r == unit_sample(word),
        in_unit_interval(r),
{
    proof {
        lemma_unit_sample_range(word);
    }
    Binary32::from_u32(word / 256).mul(Binary32 { bits: STEP })
}

} // verus!
