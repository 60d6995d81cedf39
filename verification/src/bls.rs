//! The scalar field and the two source groups of BLS12-381, as the `fastcrypto` crate
//! provides them.
//!
//! The arithmetic is `fastcrypto`'s. Its contracts here are taken on trust: they say what the
//! operations compute in terms of the integer that a scalar stands for and of the discrete
//! logarithm of a point.
//!
//! A value of a point type is a point of the curve, and need not lie in the group of prime
//! order: a decoding that leaves out the subgroup test hands out others. The contracts hold
//! of every point. They speak of the part of a point that lies in the group, and promise
//! that equal logarithms mean equal points only where both points lie in it.

use crate::algebra::{
    all_members, logs, values, FieldElement, GroupElement, MultiScalarMul, ScalarGroup,
};
use crate::field::{
    dot, field_div, field_inv, lemma_residue_of_negation, lemma_residue_of_product,
    lemma_residue_of_residue, lemma_residue_of_small, lemma_residue_of_sum,
};
use crate::types::Error;
use fastcrypto::traits::AllowedRng;
use vstd::prelude::*;

verus! {

/// `fastcrypto`'s scalar of BLS12-381, of which nothing is seen but through the
/// functions below.
#[verifier::external_type_specification]
#[verifier::external_body]
pub struct ExScalar(fastcrypto::groups::bls12381::Scalar);

/// `fastcrypto`'s point of the first group of BLS12-381.
#[verifier::external_type_specification]
#[verifier::external_body]
pub struct ExG1Element(fastcrypto::groups::bls12381::G1Element);

/// `fastcrypto`'s point of the second group of BLS12-381.
#[verifier::external_type_specification]
#[verifier::external_body]
pub struct ExG2Element(fastcrypto::groups::bls12381::G2Element);

/// `fastcrypto`'s error, which the operations here turn into this crate's own.
#[verifier::external_type_specification]
#[verifier::external_body]
pub struct ExFastCryptoError(fastcrypto::error::FastCryptoError);

/// The order of the BLS12-381 groups, a prime of 255 bits.
pub open spec fn scalar_field_order() -> int {
    0x73eda753299d7d483339d80809a1d805int * 0x1_0000_0000_0000_0000int
        * 0x1_0000_0000_0000_0000int + 0x53bda402fffe5bfeffffffff00000001int
}

/// The integer from zero up to the field order that a scalar stands for.
pub uninterp spec fn scalar_value(s: fastcrypto::groups::bls12381::Scalar) -> int;

/// Whether a point of the first curve lies in the first group, the subgroup of prime order.
/// Decoding that leaves out the subgroup test can give a point that does not.
pub uninterp spec fn g1_member(p: fastcrypto::groups::bls12381::G1Element) -> bool;

/// The multiple of the generator, from zero up to the group's order, that the part of a
/// point in the first group is. Every point of the curve is the sum of a point of the
/// group and a point whose order divides the cofactor, in one way.
pub uninterp spec fn g1_log(p: fastcrypto::groups::bls12381::G1Element) -> int;

/// Whether a point of the second curve lies in the second group, the subgroup of prime order.
/// Decoding that leaves out the subgroup test can give a point that does not.
pub uninterp spec fn g2_member(p: fastcrypto::groups::bls12381::G2Element) -> bool;

/// The multiple of the generator, from zero up to the group's order, that the part of a
/// point in the second group is. Every point of the curve is the sum of a point of the
/// group and a point whose order divides the cofactor, in one way.
pub uninterp spec fn g2_log(p: fastcrypto::groups::bls12381::G2Element) -> int;

/// The integers that a sequence of scalars stands for.
pub open spec fn scalar_values(s: Seq<fastcrypto::groups::bls12381::Scalar>) -> Seq<int> {
    Seq::new(s.len(), |i: int| scalar_value(s[i]) % scalar_field_order())
}

/// Every point of the sequence lies in the first group.
pub open spec fn g1_members(s: Seq<fastcrypto::groups::bls12381::G1Element>) -> bool {
    forall|i: int| 0 <= i < s.len() ==> g1_member(#[trigger] s[i])
}

/// The discrete logarithms of a sequence of points of the first group.
pub open spec fn g1_logs(s: Seq<fastcrypto::groups::bls12381::G1Element>) -> Seq<int> {
    Seq::new(s.len(), |i: int| g1_log(s[i]) % scalar_field_order())
}

/// Every point of the sequence lies in the second group.
pub open spec fn g2_members(s: Seq<fastcrypto::groups::bls12381::G2Element>) -> bool {
    forall|i: int| 0 <= i < s.len() ==> g2_member(#[trigger] s[i])
}

/// The discrete logarithms of a sequence of points of the second group.
pub open spec fn g2_logs(s: Seq<fastcrypto::groups::bls12381::G2Element>) -> Seq<int> {
    Seq::new(s.len(), |i: int| g2_log(s[i]) % scalar_field_order())
}

/// `Scalar::zero()` is the scalar zero.
#[verifier::external_body]
fn scalar_zero() -> (r: fastcrypto::groups::bls12381::Scalar)
    ensures
        scalar_value(r) == 0,
{
    <fastcrypto::groups::bls12381::Scalar as fastcrypto::groups::GroupElement>::zero()
}

/// `Scalar::generator()` is the scalar one.
#[verifier::external_body]
fn scalar_one() -> (r: fastcrypto::groups::bls12381::Scalar)
    ensures
        scalar_value(r) == 1,
{
    <fastcrypto::groups::bls12381::Scalar as fastcrypto::groups::GroupElement>::generator()
}

/// `Scalar::from(u128)` is the scalar of that integer, which is below the field order.
#[verifier::external_body]
fn scalar_from_u128(x: u128) -> (r: fastcrypto::groups::bls12381::Scalar)
    ensures
        scalar_value(r) == x,
{
    fastcrypto::groups::bls12381::Scalar::from(x)
}

/// `Scalar + Scalar` is the sum modulo the field order.
#[verifier::external_body]
fn scalar_add(
    a: fastcrypto::groups::bls12381::Scalar,
    b: fastcrypto::groups::bls12381::Scalar,
) -> (r: fastcrypto::groups::bls12381::Scalar)
    ensures
        scalar_value(r) == (scalar_value(a) + scalar_value(b)) % scalar_field_order(),
{
    a + b
}

/// `Scalar * Scalar` is the product modulo the field order. The order is prime, so the
/// product is zero only if a factor is.
#[verifier::external_body]
fn scalar_mul(
    a: fastcrypto::groups::bls12381::Scalar,
    b: fastcrypto::groups::bls12381::Scalar,
) -> (r: fastcrypto::groups::bls12381::Scalar)
    ensures
        scalar_value(r) == (scalar_value(a) * scalar_value(b)) % scalar_field_order(),
        scalar_value(a) % scalar_field_order() != 0 && scalar_value(b) % scalar_field_order()
            != 0 ==> scalar_value(r) != 0,
{
    a * b
}

/// `-Scalar` is the additive inverse modulo the field order.
#[verifier::external_body]
fn scalar_neg(a: fastcrypto::groups::bls12381::Scalar) -> (r: fastcrypto::groups::bls12381::Scalar)
    ensures
        scalar_value(r) == (-scalar_value(a)) % scalar_field_order(),
{
    -a
}

/// `Scalar / Scalar` fails on the divisor zero and on no other. Else it is the dividend
/// times the inverse of the divisor, modulo the field order.
#[verifier::external_body]
fn scalar_div(
    a: fastcrypto::groups::bls12381::Scalar,
    b: fastcrypto::groups::bls12381::Scalar,
) -> (r: Result<fastcrypto::groups::bls12381::Scalar, fastcrypto::error::FastCryptoError>)
    ensures
        r is Ok <==> scalar_value(b) % scalar_field_order() != 0,
        r matches Ok(c) ==> scalar_value(c) == field_div(
            scalar_value(a),
            scalar_value(b),
            scalar_field_order(),
        ),
{
    a / b
}

/// `Scalar == Scalar` holds of two scalars that stand for the same integer.
#[verifier::external_body]
fn scalar_eq(
    a: &fastcrypto::groups::bls12381::Scalar,
    b: &fastcrypto::groups::bls12381::Scalar,
) -> (r: bool)
    ensures
        r == (scalar_value(*a) % scalar_field_order() == scalar_value(*b) % scalar_field_order()),
{
    a == b
}

/// `Scalar::rand` draws a scalar from `rng`. Nothing is said of which.
#[verifier::external_body]
fn scalar_rand<R: AllowedRng>(rng: &mut R) -> (r: fastcrypto::groups::bls12381::Scalar) {
    <fastcrypto::groups::bls12381::Scalar as fastcrypto::groups::Scalar>::rand(rng)
}

/// `G1Element::zero()` is the identity, the zeroth multiple of the generator.
#[verifier::external_body]
fn g1_zero() -> (r: fastcrypto::groups::bls12381::G1Element)
    ensures
        g1_log(r) == 0,
        g1_member(r),
{
    <fastcrypto::groups::bls12381::G1Element as fastcrypto::groups::GroupElement>::zero()
}

/// `G1Element::generator()` is the generator of the group.
#[verifier::external_body]
fn g1_generator() -> (r: fastcrypto::groups::bls12381::G1Element)
    ensures
        g1_log(r) == 1,
        g1_member(r),
{
    <fastcrypto::groups::bls12381::G1Element as fastcrypto::groups::GroupElement>::generator()
}

/// `G1Element + G1Element` adds the points, and so the logarithms of their parts in the
/// group, modulo its order. The sum of two points of the group is one.
#[verifier::external_body]
fn g1_add(
    a: fastcrypto::groups::bls12381::G1Element,
    b: fastcrypto::groups::bls12381::G1Element,
) -> (r: fastcrypto::groups::bls12381::G1Element)
    ensures
        g1_log(r) == (g1_log(a) + g1_log(b)) % scalar_field_order(),
        g1_member(a) && g1_member(b) ==> g1_member(r),
{
    a + b
}

/// `G1Element * Scalar` multiplies the point, and so the logarithm of its part in the
/// group, by the scalar. A multiple of a point of the group is one.
#[verifier::external_body]
fn g1_mul(
    a: fastcrypto::groups::bls12381::G1Element,
    s: fastcrypto::groups::bls12381::Scalar,
) -> (r: fastcrypto::groups::bls12381::G1Element)
    ensures
        g1_log(r) == (g1_log(a) * scalar_value(s)) % scalar_field_order(),
        g1_member(a) ==> g1_member(r),
{
    a * s
}

/// `G1Element == G1Element` holds of two values that are the same point of the curve.
/// The same point has the same logarithm, and two points of the group with the same
/// logarithm are the same point.
#[verifier::external_body]
fn g1_eq(
    a: &fastcrypto::groups::bls12381::G1Element,
    b: &fastcrypto::groups::bls12381::G1Element,
) -> (r: bool)
    ensures
        r ==> g1_log(*a) % scalar_field_order() == g1_log(*b) % scalar_field_order(),
        g1_member(*a) && g1_member(*b) ==> r == (g1_log(*a) % scalar_field_order() == g1_log(
            *b,
        ) % scalar_field_order()),
{
    a == b
}

/// `G1Element::multi_scalar_mul` fails when the slices differ in length or are empty, and
/// then only. Else it is the sum of the points, each multiplied by its scalar, which is a
/// point of the group if all of them are.
#[verifier::external_body]
fn g1_multi_scalar_mul(
    scalars: &[fastcrypto::groups::bls12381::Scalar],
    points: &[fastcrypto::groups::bls12381::G1Element],
) -> (r: Result<fastcrypto::groups::bls12381::G1Element, fastcrypto::error::FastCryptoError>)
    ensures
        r is Ok <==> (scalars@.len() == points@.len() && scalars@.len() > 0),
        r matches Ok(p) ==> g1_log(p) == dot(scalar_values(scalars@), g1_logs(points@))
            % scalar_field_order(),
        r matches Ok(p) ==> (g1_members(points@) ==> g1_member(p)),
{
    <fastcrypto::groups::bls12381::G1Element as fastcrypto::groups::MultiScalarMul>
        ::multi_scalar_mul(scalars, points)
}

/// `G2Element::zero()` is the identity, the zeroth multiple of the generator.
#[verifier::external_body]
fn g2_zero() -> (r: fastcrypto::groups::bls12381::G2Element)
    ensures
        g2_log(r) == 0,
        g2_member(r),
{
    <fastcrypto::groups::bls12381::G2Element as fastcrypto::groups::GroupElement>::zero()
}

/// `G2Element::generator()` is the generator of the group.
#[verifier::external_body]
fn g2_generator() -> (r: fastcrypto::groups::bls12381::G2Element)
    ensures
        g2_log(r) == 1,
        g2_member(r),
{
    <fastcrypto::groups::bls12381::G2Element as fastcrypto::groups::GroupElement>::generator()
}

/// `G2Element + G2Element` adds the points, and so the logarithms of their parts in the
/// group, modulo its order. The sum of two points of the group is one.
#[verifier::external_body]
fn g2_add(
    a: fastcrypto::groups::bls12381::G2Element,
    b: fastcrypto::groups::bls12381::G2Element,
) -> (r: fastcrypto::groups::bls12381::G2Element)
    ensures
        g2_log(r) == (g2_log(a) + g2_log(b)) % scalar_field_order(),
        g2_member(a) && g2_member(b) ==> g2_member(r),
{
    a + b
}

/// `G2Element * Scalar` multiplies the point, and so the logarithm of its part in the
/// group, by the scalar. A multiple of a point of the group is one.
#[verifier::external_body]
fn g2_mul(
    a: fastcrypto::groups::bls12381::G2Element,
    s: fastcrypto::groups::bls12381::Scalar,
) -> (r: fastcrypto::groups::bls12381::G2Element)
    ensures
        g2_log(r) == (g2_log(a) * scalar_value(s)) % scalar_field_order(),
        g2_member(a) ==> g2_member(r),
{
    a * s
}

/// `G2Element == G2Element` holds of two values that are the same point of the curve.
/// The same point has the same logarithm, and two points of the group with the same
/// logarithm are the same point.
#[verifier::external_body]
fn g2_eq(
    a: &fastcrypto::groups::bls12381::G2Element,
    b: &fastcrypto::groups::bls12381::G2Element,
) -> (r: bool)
    ensures
        r ==> g2_log(*a) % scalar_field_order() == g2_log(*b) % scalar_field_order(),
        g2_member(*a) && g2_member(*b) ==> r == (g2_log(*a) % scalar_field_order() == g2_log(
            *b,
        ) % scalar_field_order()),
{
    a == b
}

/// `G2Element::multi_scalar_mul` fails when the slices differ in length or are empty, and
/// then only. Else it is the sum of the points, each multiplied by its scalar, which is a
/// point of the group if all of them are.
#[verifier::external_body]
fn g2_multi_scalar_mul(
    scalars: &[fastcrypto::groups::bls12381::Scalar],
    points: &[fastcrypto::groups::bls12381::G2Element],
) -> (r: Result<fastcrypto::groups::bls12381::G2Element, fastcrypto::error::FastCryptoError>)
    ensures
        r is Ok <==> (scalars@.len() == points@.len() && scalars@.len() > 0),
        r matches Ok(p) ==> g2_log(p) == dot(scalar_values(scalars@), g2_logs(points@))
            % scalar_field_order(),
        r matches Ok(p) ==> (g2_members(points@) ==> g2_member(p)),
{
    <fastcrypto::groups::bls12381::G2Element as fastcrypto::groups::MultiScalarMul>
        ::multi_scalar_mul(scalars, points)
}

/// The field order is positive and wider than 128 bits.
pub proof fn lemma_order_wide()
    ensures
        scalar_field_order() > u128::MAX,
{
    assert(0x73eda753299d7d483339d80809a1d805int * 0x1_0000_0000_0000_0000int
        * 0x1_0000_0000_0000_0000int >= 0x1_0000_0000_0000_0000int * 0x1_0000_0000_0000_0000int)
        by (nonlinear_arith);
}

impl FieldElement for fastcrypto::groups::bls12381::Scalar {
    open spec fn modulus() -> int {
        scalar_field_order()
    }

    open spec fn value(&self) -> int {
        scalar_value(*self) % scalar_field_order()
    }

    proof fn lemma_modulus_wide() {
        lemma_order_wide();
    }

    proof fn lemma_value_range(&self) {
        lemma_order_wide();
        lemma_residue_of_residue(scalar_value(*self), scalar_field_order());
    }

    fn one() -> (r: Self) {
        proof {
            lemma_order_wide();
            lemma_residue_of_small(1, scalar_field_order());
        }
        scalar_one()
    }

    fn from_u128(x: u128) -> (r: Self) {
        proof {
            lemma_order_wide();
            lemma_residue_of_small(x as int, scalar_field_order());
        }
        scalar_from_u128(x)
    }

    fn times(self, rhs: Self) -> (r: Self) {
        proof {
            lemma_order_wide();
            lemma_residue_of_product(scalar_value(self), scalar_value(rhs), scalar_field_order());
            lemma_residue_of_small(0, scalar_field_order());
        }
        scalar_mul(self, rhs)
    }

    fn negated(self) -> (r: Self) {
        proof {
            lemma_order_wide();
            lemma_residue_of_negation(scalar_value(self), scalar_field_order());
        }
        scalar_neg(self)
    }

    fn divided_by(self, rhs: Self) -> (r: Result<Self, Error>) {
        proof {
            lemma_order_wide();
            let q = scalar_field_order();
            let inv = field_inv(scalar_value(rhs), q);
            lemma_residue_of_residue(scalar_value(rhs), q);
            assert(field_inv(scalar_value(rhs) % q, q) == inv);
            lemma_residue_of_product(scalar_value(self), inv, q);
        }
        match scalar_div(self, rhs) {
            Ok(c) => Ok(c),
            Err(_) => Err(Error::InvalidInput),
        }
    }

    fn rand<R: AllowedRng>(rng: &mut R) -> Self {
        scalar_rand(rng)
    }
}

impl GroupElement for fastcrypto::groups::bls12381::Scalar {
    type ScalarType = fastcrypto::groups::bls12381::Scalar;

    open spec fn member(&self) -> bool {
        true
    }

    open spec fn log(&self) -> int {
        scalar_value(*self) % scalar_field_order()
    }

    proof fn lemma_log_range(&self) {
        lemma_order_wide();
        lemma_residue_of_residue(scalar_value(*self), scalar_field_order());
    }

    fn zero() -> (r: Self) {
        proof {
            lemma_order_wide();
            lemma_residue_of_small(0, scalar_field_order());
        }
        scalar_zero()
    }

    fn generator() -> (r: Self) {
        proof {
            lemma_order_wide();
            lemma_residue_of_small(1, scalar_field_order());
        }
        scalar_one()
    }

    fn plus(self, rhs: Self) -> (r: Self) {
        proof {
            lemma_order_wide();
            lemma_residue_of_sum(scalar_value(self), scalar_value(rhs), scalar_field_order());
        }
        scalar_add(self, rhs)
    }

    fn scaled(self, s: Self::ScalarType) -> (r: Self) {
        proof {
            lemma_order_wide();
            lemma_residue_of_product(scalar_value(self), scalar_value(s), scalar_field_order());
        }
        scalar_mul(self, s)
    }

    fn same(&self, rhs: &Self) -> (b: bool) {
        scalar_eq(self, rhs)
    }
}

impl ScalarGroup for fastcrypto::groups::bls12381::Scalar {
    proof fn lemma_log_is_value(&self) {
    }

    proof fn lemma_scalar_is_member(&self) {
    }
}

impl GroupElement for fastcrypto::groups::bls12381::G1Element {
    type ScalarType = fastcrypto::groups::bls12381::Scalar;

    open spec fn member(&self) -> bool {
        g1_member(*self)
    }

    open spec fn log(&self) -> int {
        g1_log(*self) % scalar_field_order()
    }

    proof fn lemma_log_range(&self) {
        lemma_order_wide();
        lemma_residue_of_residue(g1_log(*self), scalar_field_order());
    }

    fn zero() -> (r: Self) {
        proof {
            lemma_order_wide();
            lemma_residue_of_small(0, scalar_field_order());
        }
        g1_zero()
    }

    fn generator() -> (r: Self) {
        proof {
            lemma_order_wide();
            lemma_residue_of_small(1, scalar_field_order());
        }
        g1_generator()
    }

    fn plus(self, rhs: Self) -> (r: Self) {
        proof {
            lemma_order_wide();
            lemma_residue_of_sum(g1_log(self), g1_log(rhs), scalar_field_order());
        }
        g1_add(self, rhs)
    }

    fn scaled(self, s: Self::ScalarType) -> (r: Self) {
        proof {
            lemma_order_wide();
            lemma_residue_of_product(g1_log(self), scalar_value(s), scalar_field_order());
        }
        g1_mul(self, s)
    }

    fn same(&self, rhs: &Self) -> (b: bool) {
        g1_eq(self, rhs)
    }
}

impl MultiScalarMul for fastcrypto::groups::bls12381::G1Element {
    fn multi_scalar_mul(scalars: &[Self::ScalarType], points: &[Self]) -> (r: Result<Self, Error>) {
        proof {
            lemma_order_wide();
            assert(scalar_values(scalars@) =~= values(scalars@));
            assert(g1_logs(points@) =~= logs(points@));
            assert(all_members(points@) ==> g1_members(points@)) by {
                if all_members(points@) {
                    assert forall|i: int| 0 <= i < points@.len() implies g1_member(
                        #[trigger] points@[i],
                    ) by {
                        assert(points@[i].member());
                    }
                }
            }
            lemma_residue_of_residue(
                dot(scalar_values(scalars@), g1_logs(points@)),
                scalar_field_order(),
            );
        }
        match g1_multi_scalar_mul(scalars, points) {
            Ok(p) => Ok(p),
            Err(_) => Err(Error::InvalidInput),
        }
    }
}

impl GroupElement for fastcrypto::groups::bls12381::G2Element {
    type ScalarType = fastcrypto::groups::bls12381::Scalar;

    open spec fn member(&self) -> bool {
        g2_member(*self)
    }

    open spec fn log(&self) -> int {
        g2_log(*self) % scalar_field_order()
    }

    proof fn lemma_log_range(&self) {
        lemma_order_wide();
        lemma_residue_of_residue(g2_log(*self), scalar_field_order());
    }

    fn zero() -> (r: Self) {
        proof {
            lemma_order_wide();
            lemma_residue_of_small(0, scalar_field_order());
        }
        g2_zero()
    }

    fn generator() -> (r: Self) {
        proof {
            lemma_order_wide();
            lemma_residue_of_small(1, scalar_field_order());
        }
        g2_generator()
    }

    fn plus(self, rhs: Self) -> (r: Self) {
        proof {
            lemma_order_wide();
            lemma_residue_of_sum(g2_log(self), g2_log(rhs), scalar_field_order());
        }
        g2_add(self, rhs)
    }

    fn scaled(self, s: Self::ScalarType) -> (r: Self) {
        proof {
            lemma_order_wide();
            lemma_residue_of_product(g2_log(self), scalar_value(s), scalar_field_order());
        }
        g2_mul(self, s)
    }

    fn same(&self, rhs: &Self) -> (b: bool) {
        g2_eq(self, rhs)
    }
}

impl MultiScalarMul for fastcrypto::groups::bls12381::G2Element {
    fn multi_scalar_mul(scalars: &[Self::ScalarType], points: &[Self]) -> (r: Result<Self, Error>) {
        proof {
            lemma_order_wide();
            assert(scalar_values(scalars@) =~= values(scalars@));
            assert(g2_logs(points@) =~= logs(points@));
            assert(all_members(points@) ==> g2_members(points@)) by {
                if all_members(points@) {
                    assert forall|i: int| 0 <= i < points@.len() implies g2_member(
                        #[trigger] points@[i],
                    ) by {
                        assert(points@[i].member());
                    }
                }
            }
            lemma_residue_of_residue(
                dot(scalar_values(scalars@), g2_logs(points@)),
                scalar_field_order(),
            );
        }
        match g2_multi_scalar_mul(scalars, points) {
            Ok(p) => Ok(p),
            Err(_) => Err(Error::InvalidInput),
        }
    }
}

} // verus!
