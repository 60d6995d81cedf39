//! What a polynomial asks of its coefficients: a prime field of scalars and a group over it.

use crate::field::{dot, field_div};
use crate::types::Error;
use fastcrypto::traits::AllowedRng;
use vstd::prelude::*;

verus! {

/// An element of a prime field, the integers modulo `modulus()`.
///
/// The modulus is wider than 128 bits, so that every `u128` stands for itself.
pub trait FieldElement: Copy + Sized {
    /// The number of elements of the field.
    spec fn modulus() -> int;

    /// The residue that the element stands for.
    spec fn value(&self) -> int;

    /// The modulus does not fit in 128 bits.
    proof fn lemma_modulus_wide()
        ensures
            Self::modulus() > u128::MAX,
    ;

    /// The residue is at least zero and below the modulus.
    proof fn lemma_value_range(&self)
        ensures
            0 <= self.value() < Self::modulus(),
    ;

    /// The multiplicative identity.
    fn one() -> (r: Self)
        ensures
            r.value() == 1,
    ;

    /// The element that the integer `x` stands for.
    fn from_u128(x: u128) -> (r: Self)
        ensures
            r.value() == x,
    ;

    /// The product of two elements. A field has no zero divisors.
    fn times(self, rhs: Self) -> (r: Self)
        ensures
            r.value() == (self.value() * rhs.value()) % Self::modulus(),
            self.value() != 0 && rhs.value() != 0 ==> r.value() != 0,
    ;

    /// The additive inverse.
    fn negated(self) -> (r: Self)
        ensures
            r.value() == (-self.value()) % Self::modulus(),
    ;

    /// The quotient, which exists unless the divisor is zero.
    fn divided_by(self, rhs: Self) -> (r: Result<Self, Error>)
        ensures
            r is Ok <==> rhs.value() != 0,
            r matches Ok(c) ==> c.value() == field_div(
                self.value(),
                rhs.value(),
                Self::modulus(),
            ),
            r matches Err(e) ==> e == Error::InvalidInput,
    ;

    /// A fresh element, drawn from `rng`.
    fn rand<R: AllowedRng>(rng: &mut R) -> Self;
}

/// An element of a cyclic group whose order is the modulus of its scalar field.
///
/// The group is written additively. Every element is a multiple of the generator, and
/// `log()` says which: contracts speak of elements through it.
///
/// A type may hold more values than the group has elements: a point of a curve that lies
/// outside the subgroup of prime order is such a value. `member()` tells the elements of
/// the group from those. The arithmetic takes every value by the part of it that lies in
/// the group, and `log()` is the logarithm of that part; two values that are not both
/// members may differ and still have the same logarithm.
pub trait GroupElement: Copy + Sized {
    /// The field that the group's elements are multiplied by.
    type ScalarType: FieldElement;

    /// Whether the value is an element of the group.
    spec fn member(&self) -> bool;

    /// The discrete logarithm to the base `generator()` of the part of the value that
    /// lies in the group: of the value itself, if it is a member.
    spec fn log(&self) -> int;

    /// The logarithm is at least zero and below the order of the group.
    proof fn lemma_log_range(&self)
        ensures
            0 <= self.log() < <Self::ScalarType as FieldElement>::modulus(),
    ;

    /// The identity of the group.
    fn zero() -> (r: Self)
        ensures
            r.log() == 0,
            r.member(),
    ;

    /// The generator of the group.
    fn generator() -> (r: Self)
        ensures
            r.log() == 1,
            r.member(),
    ;

    /// The sum of two elements.
    fn plus(self, rhs: Self) -> (r: Self)
        ensures
            r.log() == (self.log() + rhs.log()) % <Self::ScalarType as FieldElement>::modulus(),
            self.member() && rhs.member() ==> r.member(),
    ;

    /// The element multiplied by a scalar.
    fn scaled(self, s: Self::ScalarType) -> (r: Self)
        ensures
            r.log() == (self.log() * s.value()) % <Self::ScalarType as FieldElement>::modulus(),
            self.member() ==> r.member(),
    ;

    /// Whether two values are the same. Values that are the same have the same
    /// logarithm, and two members with the same logarithm are the same.
    fn same(&self, rhs: &Self) -> (b: bool)
        ensures
            b ==> self.log() == rhs.log(),
            self.member() && rhs.member() ==> b == (self.log() == rhs.log()),
    ;
}

/// A scalar field seen as a group over itself: its generator is one, so that the discrete
/// logarithm of a scalar is the scalar.
pub trait ScalarGroup: FieldElement + GroupElement<ScalarType = Self> {
    /// As an element of the group, a scalar is that multiple of one.
    proof fn lemma_log_is_value(&self)
        ensures
            self.log() == self.value(),
    ;

    /// Every scalar is an element of the group.
    proof fn lemma_scalar_is_member(&self)
        ensures
            self.member(),
    ;
}

/// The residues of a sequence of scalars.
pub open spec fn values<S: FieldElement>(s: Seq<S>) -> Seq<int> {
    Seq::new(s.len(), |i: int| s[i].value())
}

/// The discrete logarithms of a sequence of group elements.
pub open spec fn logs<C: GroupElement>(s: Seq<C>) -> Seq<int> {
    Seq::new(s.len(), |i: int| s[i].log())
}

/// Every entry of the sequence is an element of the group.
pub open spec fn all_members<C: GroupElement>(s: Seq<C>) -> bool {
    forall|i: int| 0 <= i < s.len() ==> (#[trigger] s[i]).member()
}

/// A group with a fast way to add up many scaled elements at once.
pub trait MultiScalarMul: GroupElement {
    /// The sum of the points, each multiplied by the scalar in its place. It is refused
    /// when the two slices differ in length or are empty.
    fn multi_scalar_mul(scalars: &[Self::ScalarType], points: &[Self]) -> (r: Result<Self, Error>)
        ensures
            r is Ok <==> (scalars@.len() == points@.len() && scalars@.len() > 0),
            r matches Ok(p) ==> p.log() == dot(values(scalars@), logs(points@))
                % <Self::ScalarType as FieldElement>::modulus(),
            r matches Ok(p) ==> (all_members(points@) ==> p.member()),
            r matches Err(e) ==> e == Error::InvalidInput,
    ;
}

} // verus!
