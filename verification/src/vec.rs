//! Vectors of three binary32 components.
use crate::arith::{
    lemma_product_commutes, lemma_root_sign, lemma_square_sign, lemma_sum_commutes, lemma_sum_sign,
};
use crate::format::Binary32;
use vstd::prelude::*;
use vstd::std_specs::ops::{AddSpecImpl, DivSpecImpl, MulSpecImpl, NegSpecImpl, SubSpecImpl};

verus! {

/// One of the three components.
#[derive(Clone, Copy, Debug)]
pub enum Axis {
    X,
    Y,
    Z,
}

/// A point, a direction or a colour.
#[derive(Clone, Copy, Debug)]
pub struct Vec3 {
    pub x: Binary32,
    pub y: Binary32,
    pub z: Binary32,
}

impl Vec3 {
    /// The vector of three plus zeros.
    pub open spec fn origin() -> Vec3 {
        Vec3 { x: Binary32::zero(), y: Binary32::zero(), z: Binary32::zero() }
    }

    /// The sum of each pair of components.
    pub open spec fn plus(self, rhs: Vec3) -> Vec3 {
        Vec3 { x: self.x.sum(rhs.x), y: self.y.sum(rhs.y), z: self.z.sum(rhs.z) }
    }

    /// The difference of each pair of components.
    pub open spec fn minus(self, rhs: Vec3) -> Vec3 {
        Vec3 {
            x: self.x.difference(rhs.x),
            y: self.y.difference(rhs.y),
            z: self.z.difference(rhs.z),
        }
    }

    /// The product of each pair of components.
    pub open spec fn times(self, rhs: Vec3) -> Vec3 {
        Vec3 { x: self.x.product(rhs.x), y: self.y.product(rhs.y), z: self.z.product(rhs.z) }
    }

    /// The quotient of each pair of components.
    pub open spec fn over(self, rhs: Vec3) -> Vec3 {
        Vec3 { x: self.x.quotient(rhs.x), y: self.y.quotient(rhs.y), z: self.z.quotient(rhs.z) }
    }

    /// Each component times `k`.
    pub open spec fn scaled(self, k: Binary32) -> Vec3 {
        Vec3 { x: self.x.product(k), y: self.y.product(k), z: self.z.product(k) }
    }

    /// Each component divided by `k`.
    pub open spec fn shrunk(self, k: Binary32) -> Vec3 {
        Vec3 { x: self.x.quotient(k), y: self.y.quotient(k), z: self.z.quotient(k) }
    }

    /// Each component with its sign flipped.
    pub open spec fn negated(self) -> Vec3 {
        Vec3 { x: self.x.negation(), y: self.y.negation(), z: self.z.negation() }
    }

    /// The dot product, summed from the first component on.
    pub open spec fn inner(self, rhs: Vec3) -> Binary32 {
        self.x.product(rhs.x).sum(self.y.product(rhs.y)).sum(self.z.product(rhs.z))
    }

    /// The cross product.
    pub open spec fn outer(self, rhs: Vec3) -> Vec3 {
        Vec3 {
            x: self.y.product(rhs.z).difference(self.z.product(rhs.y)),
            y: self.z.product(rhs.x).difference(self.x.product(rhs.z)),
            z: self.x.product(rhs.y).difference(self.y.product(rhs.x)),
        }
    }

    /// The squared length: the dot product with itself.
    pub open spec fn norm_squared(self) -> Binary32 {
        self.inner(self)
    }

    /// The length: the square root of the squared length.
    pub open spec fn norm(self) -> Binary32 {
        self.norm_squared().root()
    }

    /// The vector scaled by the reciprocal of its length.
    pub open spec fn unit(self) -> Vec3 {
        self.scaled(self.norm().reciprocal())
    }

    /// The component along `axis`.
    pub open spec fn component(self, axis: Axis) -> Binary32 {
        match axis {
            Axis::X => self.x,
            Axis::Y => self.y,
            Axis::Z => self.z,
        }
    }

    /// The vector with one component replaced.
    pub open spec fn with(self, axis: Axis, value: Binary32) -> Vec3 {
        match axis {
            Axis::X => Vec3 { x: value, ..self },
            Axis::Y => Vec3 { y: value, ..self },
            Axis::Z => Vec3 { z: value, ..self },
        }
    }

    pub fn new(x: Binary32, y: Binary32, z: Binary32) -> (r: Vec3)
        ensures
            r == (Vec3 { x, y, z }),
    {
        Vec3 { x, y, z }
    }

    pub fn x(&self) -> (r: Binary32)
        ensures
            r == self.x,
    {
        self.x
    }

    pub fn y(&self) -> (r: Binary32)
        ensures
            r == self.y,
    {
        self.y
    }

    pub fn z(&self) -> (r: Binary32)
        ensures
            r == self.z,
    {
        self.z
    }

    /// The red channel of a colour.
    pub fn r(&self) -> (r: Binary32)
        ensures
            r == self.x,
    {
        self.x
    }

    /// The green channel of a colour.
    pub fn g(&self) -> (r: Binary32)
        ensures
            r == self.y,
    {
        self.y
    }

    /// The blue channel of a colour.
    pub fn b(&self) -> (r: Binary32)
        ensures
            r == self.z,
    {
        self.z
    }

    pub fn index(&self, axis: Axis) -> (r: &Binary32)
        ensures
            *r == self.component(axis),
    {
        match axis {
            Axis::X => &self.x,
            Axis::Y => &self.y,
            Axis::Z => &self.z,
        }
    }

    pub fn index_mut(&mut self, axis: Axis) -> (r: &mut Binary32)
        ensures
            *r == old(self).component(axis),
            *final(self) == old(self).with(axis, *final(r)),
    {
        match axis {
            Axis::X => &mut self.x,
            Axis::Y => &mut self.y,
            Axis::Z => &mut self.z,
        }
    }

    pub fn len_sqrd(&self) -> (r: Binary32)
        ensures
            r == self.norm_squared(),
    {
        self.x.mul(self.x).add(self.y.mul(self.y)).add(self.z.mul(self.z))
    }

    pub fn len(&self) -> (r: Binary32)
        ensures
            r == self.norm(),
    {
        self.len_sqrd().sqrt()
    }

    pub fn normalize(&self) -> (r: Vec3)
        ensures
            r == self.unit(),
    {
        let inv_len: Binary32 = self.len().recip();
        Vec3 { x: self.x.mul(inv_len), y: self.y.mul(inv_len), z: self.z.mul(inv_len) }
    }

    pub fn dot(&self, rhs: Vec3) -> (r: Binary32)
        ensures
            r == self.inner(rhs),
    {
        self.x.mul(rhs.x).add(self.y.mul(rhs.y)).add(self.z.mul(rhs.z))
    }

    pub fn cross(&self, rhs: Vec3) -> (r: Vec3)
        ensures
            r == self.outer(rhs),
    {
        Vec3 {
            x: self.y.mul(rhs.z).sub(self.z.mul(rhs.y)),
            y: self.z.mul(rhs.x).sub(self.x.mul(rhs.z)),
            z: self.x.mul(rhs.y).sub(self.y.mul(rhs.x)),
        }
    }

    pub fn add_assign(&mut self, rhs: Vec3)
        ensures
            *final(self) == old(self).plus(rhs),
    {
        self.x = self.x.add(rhs.x);
        self.y = self.y.add(rhs.y);
        self.z = self.z.add(rhs.z);
    }

    pub fn sub_assign(&mut self, rhs: Vec3)
        ensures
            *final(self) == old(self).minus(rhs),
    {
        self.x = self.x.sub(rhs.x);
        self.y = self.y.sub(rhs.y);
        self.z = self.z.sub(rhs.z);
    }

    /// Multiplies each component by that of `rhs`.
    pub fn mul_assign(&mut self, rhs: Vec3)
        ensures
            *final(self) == old(self).times(rhs),
    {
        self.x = self.x.mul(rhs.x);
        self.y = self.y.mul(rhs.y);
        self.z = self.z.mul(rhs.z);
    }

    /// Multiplies each component by `k`.
    pub fn scale_assign(&mut self, k: Binary32)
        ensures
            *final(self) == old(self).scaled(k),
    {
        self.x = self.x.mul(k);
        self.y = self.y.mul(k);
        self.z = self.z.mul(k);
    }

    /// Divides each component by `k`.
    pub fn div_assign(&mut self, k: Binary32)
        ensures
            *final(self) == old(self).shrunk(k),
    {
        self.x = self.x.div(k);
        self.y = self.y.div(k);
        self.z = self.z.div(k);
    }
}

impl Default for Vec3 {
    fn default() -> (r: Vec3)
        ensures
            r == Vec3::origin(),
    {
        Vec3 { x: Binary32 { bits: 0 }, y: Binary32 { bits: 0 }, z: Binary32 { bits: 0 } }
    }
}

impl core::ops::Add for Vec3 {
    type Output = Vec3;

    fn add(self, rhs: Vec3) -> (r: Vec3) {
        Vec3 { x: self.x.add(rhs.x), y: self.y.add(rhs.y), z: self.z.add(rhs.z) }
    }
}

impl AddSpecImpl for Vec3 {
    open spec fn obeys_add_spec() -> bool {
        true
    }

    open spec fn add_req(self, rhs: Vec3) -> bool {
        true
    }

    open spec fn add_spec(self, rhs: Vec3) -> Vec3 {
        self.plus(rhs)
    }
}

impl core::ops::Sub for Vec3 {
    type Output = Vec3;

    fn sub(self, rhs: Vec3) -> (r: Vec3) {
        Vec3 { x: self.x.sub(rhs.x), y: self.y.sub(rhs.y), z: self.z.sub(rhs.z) }
    }
}

impl SubSpecImpl for Vec3 {
    open spec fn obeys_sub_spec() -> bool {
        true
    }

    open spec fn sub_req(self, rhs: Vec3) -> bool {
        true
    }

    open spec fn sub_spec(self, rhs: Vec3) -> Vec3 {
        self.minus(rhs)
    }
}

impl core::ops::Mul for Vec3 {
    type Output = Vec3;

    fn mul(self, rhs: Vec3) -> (r: Vec3) {
        Vec3 { x: self.x.mul(rhs.x), y: self.y.mul(rhs.y), z: self.z.mul(rhs.z) }
    }
}

impl MulSpecImpl for Vec3 {
    open spec fn obeys_mul_spec() -> bool {
        true
    }

    open spec fn mul_req(self, rhs: Vec3) -> bool {
        true
    }

    open spec fn mul_spec(self, rhs: Vec3) -> Vec3 {
        self.times(rhs)
    }
}

impl core::ops::Mul<Binary32> for Vec3 {
    type Output = Vec3;

    fn mul(self, rhs: Binary32) -> (r: Vec3) {
        Vec3 { x: self.x.mul(rhs), y: self.y.mul(rhs), z: self.z.mul(rhs) }
    }
}

impl MulSpecImpl<Binary32> for Vec3 {
    open spec fn obeys_mul_spec() -> bool {
        true
    }

    open spec fn mul_req(self, rhs: Binary32) -> bool {
        true
    }

    open spec fn mul_spec(self, rhs: Binary32) -> Vec3 {
        self.scaled(rhs)
    }
}

impl core::ops::Mul<Vec3> for Binary32 {
    type Output = Vec3;

    fn mul(self, rhs: Vec3) -> (r: Vec3) {
        Vec3 { x: rhs.x.mul(self), y: rhs.y.mul(self), z: rhs.z.mul(self) }
    }
}

impl MulSpecImpl<Vec3> for Binary32 {
    open spec fn obeys_mul_spec() -> bool {
        true
    }

    open spec fn mul_req(self, rhs: Vec3) -> bool {
        true
    }

    open spec fn mul_spec(self, rhs: Vec3) -> Vec3 {
        rhs.scaled(self)
    }
}

impl core::ops::Div for Vec3 {
    type Output = Vec3;

    fn div(self, rhs: Vec3) -> (r: Vec3) {
        Vec3 { x: self.x.div(rhs.x), y: self.y.div(rhs.y), z: self.z.div(rhs.z) }
    }
}

impl DivSpecImpl for Vec3 {
    open spec fn obeys_div_spec() -> bool {
        true
    }

    open spec fn div_req(self, rhs: Vec3) -> bool {
        true
    }

    open spec fn div_spec(self, rhs: Vec3) -> Vec3 {
        self.over(rhs)
    }
}

impl core::ops::Div<Binary32> for Vec3 {
    type Output = Vec3;

    fn div(self, rhs: Binary32) -> (r: Vec3) {
        Vec3 { x: self.x.div(rhs), y: self.y.div(rhs), z: self.z.div(rhs) }
    }
}

impl DivSpecImpl<Binary32> for Vec3 {
    open spec fn obeys_div_spec() -> bool {
        true
    }

    open spec fn div_req(self, rhs: Binary32) -> bool {
        true
    }

    open spec fn div_spec(self, rhs: Binary32) -> Vec3 {
        self.shrunk(rhs)
    }
}

impl core::ops::Neg for Vec3 {
    type Output = Vec3;

    fn neg(self) -> (r: Vec3) {
        Vec3 { x: self.x.neg(), y: self.y.neg(), z: self.z.neg() }
    }
}

impl NegSpecImpl for Vec3 {
    open spec fn obeys_neg_spec() -> bool {
        true
    }

    open spec fn neg_req(self) -> bool {
        true
    }

    open spec fn neg_spec(self) -> Vec3 {
        self.negated()
    }
}

/// Adding two vectors gives the same vector in either order.
pub proof fn lemma_plus_commutes(a: Vec3, b: Vec3)
    ensures
        a.plus(b) == b.plus(a),
{
    lemma_sum_commutes(a.x, b.x);
    lemma_sum_commutes(a.y, b.y);
    lemma_sum_commutes(a.z, b.z);
}

/// The length of a vector of numbers is a number, and not negative.
pub proof fn lemma_length_is_a_number(a: Vec3)
    requires
        !a.x.is_nan(),
        !a.y.is_nan(),
        !a.z.is_nan(),
    ensures
        !a.norm_squared().is_nan() && !a.norm_squared().negative(),
        !a.norm().is_nan() && !a.norm().negative(),
{
    lemma_square_sign(a.x);
    lemma_square_sign(a.y);
    lemma_square_sign(a.z);
    lemma_sum_sign(a.x.product(a.x), a.y.product(a.y));
    lemma_sum_sign(a.x.product(a.x).sum(a.y.product(a.y)), a.z.product(a.z));
    lemma_root_sign(a.norm_squared());
}

/// The dot product is the same in either order.
pub proof fn lemma_inner_commutes(a: Vec3, b: Vec3)
    ensures
        a.inner(b) == b.inner(a),
{
    lemma_product_commutes(a.x, b.x);
    lemma_product_commutes(a.y, b.y);
    lemma_product_commutes(a.z, b.z);
}

} // verus!
