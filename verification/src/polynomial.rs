//! Polynomials with coefficients in a group, their evaluation and the recovery of their
//! constant term from evaluations.

use crate::algebra::{
    all_members, logs, values, FieldElement, GroupElement, MultiScalarMul, ScalarGroup,
};
use crate::bits::{bit_length, lemma_product_fits};
use crate::field::{
    dot, is_prime, lemma_field_div_residues, lemma_negation_nonzero, lemma_residue_of_negation,
    lemma_residue_of_product, lemma_residue_of_residue, lemma_residue_of_small,
    lemma_residue_of_sum, lemma_scaled_congruence,
};
use crate::interpolation::{lemma_round_trip, valid_points};
use crate::lagrange::{
    denominator, differences, interpolate_at_zero, lagrange_coefficient, lagrange_coefficients,
    lemma_differences_take, lemma_map_of_permutation, lemma_order_invariance,
    lemma_product_push, lemma_signed_product, lemma_threshold_one, magnitude, points,
    poly_eval, product,
};
use crate::types::{Error, Eval, ShareIndex};
use fastcrypto::traits::AllowedRng;
use std::collections::HashSet;
use vstd::prelude::*;

verus! {

/// The order of the group of `C`, which is the modulus of its scalar field.
pub open spec fn order<C: GroupElement>() -> int {
    <C::ScalarType as FieldElement>::modulus()
}

/// The indices of a sequence of evaluations, as integers.
pub open spec fn indices<A>(shares: Seq<Eval<A>>) -> Seq<int> {
    Seq::new(shares.len(), |i: int| shares[i].index.value())
}

/// The discrete logarithms of the values of a sequence of evaluations.
pub open spec fn share_logs<C: GroupElement>(shares: Seq<Eval<C>>) -> Seq<int> {
    Seq::new(shares.len(), |i: int| shares[i].value.log())
}

/// The value of every evaluation of the sequence is an element of the group.
pub open spec fn share_members<C: GroupElement>(shares: Seq<Eval<C>>) -> bool {
    forall|k: int| 0 <= k < shares.len() ==> (#[trigger] shares[k]).value.member()
}

/// A sequence of machine integers as mathematical ones.
pub open spec fn ints(v: Seq<u128>) -> Seq<int> {
    Seq::new(v.len(), |i: int| v[i] as int)
}

/// What the recovery of the constant term owes for the threshold `t` and the shares
/// `shares`: a refusal unless there are `t` shares with no index twice, and else the
/// value whose discrete logarithm is the interpolation at zero, which is an element of
/// the group if the values of all shares are.
pub open spec fn recovered<C: GroupElement>(
    t: u32,
    shares: Seq<Eval<C>>,
    r: Result<C, Error>,
) -> bool {
    match r {
        Ok(c) => {
            &&& indices(shares).no_duplicates()
            &&& shares.len() == t
            &&& c.log() == interpolate_at_zero(order::<C>(), indices(shares), share_logs(shares))
            &&& share_members(shares) ==> c.member()
        },
        Err(e) => {
            &&& e == Error::InvalidInput
            &&& !(indices(shares).no_duplicates() && shares.len() == t)
        },
    }
}

/// The discrete logarithm of the value of `p` at the point `i`.
pub open spec fn evaluation<C: GroupElement>(p: Poly<C>, i: ShareIndex) -> int {
    poly_eval(logs(p@), i.value()) % order::<C>()
}

/// `public` is the commitment to `private`: it has as many coefficients, and each is the
/// element of the group that is the generator multiplied by the coefficient of `private`
/// in its place.
pub open spec fn commits<S: FieldElement, P: GroupElement<ScalarType = S>>(
    private: Poly<S>,
    public: Poly<P>,
) -> bool {
    &&& public@.len() == private@.len()
    &&& forall|k: int|
        0 <= k < private@.len() ==> (#[trigger] public@[k]).log() == private@[k].value()
    &&& all_members(public@)
}

/// What the verification of the private share `share` against the commitment `p` at the
/// point `idx` owes: a share that is accepted is the value of the commitment, by its
/// logarithm; and where the coefficients of the commitment are elements of the group,
/// the share that is its value is accepted.
pub open spec fn share_checked<C: GroupElement>(
    p: Poly<C>,
    idx: ShareIndex,
    share: C::ScalarType,
    r: Result<(), Error>,
) -> bool {
    &&& r is Ok ==> evaluation(p, idx) == share.value()
    &&& all_members(p@) ==> (r is Ok <==> evaluation(p, idx) == share.value())
    &&& r matches Err(e) ==> e == Error::InvalidInput
}

/// The discrete logarithm of the coefficient of `x^i` in the polynomial with the
/// coefficients `c`, which is zero from the length of `c` on.
pub open spec fn coefficient_log<C: GroupElement>(c: Seq<C>, i: int) -> int {
    if 0 <= i < c.len() {
        c[i].log()
    } else {
        0
    }
}

/// `sum` is what becomes of the coefficients `a` when the coefficients `b` are added to
/// them: as long as the longer of the two, with the sum of the two coefficients in each
/// place that `b` has, and the coefficient of `a` itself in the others. Where all
/// coefficients of `a` and `b` are elements of the group, those of `sum` are.
pub open spec fn added<C: GroupElement>(a: Seq<C>, b: Seq<C>, sum: Seq<C>) -> bool {
    &&& sum.len() == if a.len() < b.len() {
        b.len()
    } else {
        a.len()
    }
    &&& forall|i: int|
        0 <= i < b.len() ==> (#[trigger] sum[i]).log() == (coefficient_log(a, i) + b[i].log())
            % order::<C>()
    &&& forall|i: int| b.len() <= i < a.len() ==> #[trigger] sum[i] == a[i]
    &&& all_members(a) && all_members(b) ==> all_members(sum)
}

/// The product of two integers, computed in 128 bits where it fits.
pub enum FastProduct<S> {
    /// The product itself.
    Native(u128),
    /// The first factor as a scalar, and the second factor as it was.
    Lifted(S, u128),
}

/// A polynomial `c[0] + c[1] x + ... + c[d] x^d` with coefficients in `C` and a scalar for
/// the variable. It has at least one coefficient.
#[derive(Debug, PartialEq, Eq)]
pub struct Poly<C>(Vec<C>);

/// A polynomial with scalar coefficients, whose constant term is the shared secret.
pub type PrivatePoly<C> = Poly<<C as GroupElement>::ScalarType>;

/// A polynomial with group elements for coefficients, the commitment to a private one.
pub type PublicPoly<C> = Poly<C>;

impl<C> View for Poly<C> {
    type V = Seq<C>;

    closed spec fn view(&self) -> Seq<C> {
        self.0@
    }
}

impl<C: Clone> Clone for Poly<C> {
    fn clone(&self) -> (r: Self)
        ensures
            r@.len() == self@.len(),
            forall|i: int| 0 <= i < self@.len() ==> cloned::<C>(#[trigger] self@[i], r@[i]),
    {
        proof {
            use_type_invariant(self);
        }
        Poly(self.0.clone())
    }
}

impl<C> Poly<C> {
    #[verifier::type_invariant]
    spec fn well_formed(self) -> bool {
        1 <= self.0@.len() <= 0x1_0000_0000
    }

    /// The polynomial with the coefficients `c`, lowest degree first.
    pub fn from(c: Vec<C>) -> (r: Self)
        requires
            1 <= c@.len() <= 0x1_0000_0000,
        ensures
            r@ == c@,
    {
        Poly(c)
    }

    /// A copy of the polynomial, with the same coefficients.
    pub fn copied(&self) -> (r: Self) where C: Copy
        ensures
            r@ == self@,
    {
        proof {
            use_type_invariant(self);
        }
        let mut coefficients: Vec<C> = Vec::with_capacity(self.0.len());
        let mut k: usize = 0;
        while k < self.0.len()
            invariant
                k <= self.0@.len(),
                coefficients@ == self.0@.take(k as int),
            decreases self.0@.len() - k,
        {
            coefficients.push(self.0[k]);
            proof {
                assert(self.0@.take(k as int + 1) =~= self.0@.take(k as int).push(
                    self.0@[k as int],
                ));
            }
            k += 1;
        }
        proof {
            assert(self.0@.take(self.0@.len() as int) =~= self.0@);
        }
        Poly(coefficients)
    }

    /// The degree of the polynomial: one less than the number of its coefficients.
    pub fn degree(&self) -> (d: u32)
        ensures
            d == self@.len() - 1,
    {
        proof {
            use_type_invariant(self);
        }
        (self.0.len() - 1) as u32
    }
}

impl<C: GroupElement> Poly<C> {
    /// The polynomial whose one coefficient is the identity of the group.
    pub fn zero() -> (r: Self)
        ensures
            r@.len() == 1,
            r@[0].log() == 0,
            r@[0].member(),
    {
        let mut c: Vec<C> = Vec::new();
        c.push(C::zero());
        Poly(c)
    }

    /// Adds `other` to the polynomial, coefficient by coefficient. A polynomial shorter
    /// than `other` is first filled up with identities; a leading coefficient that
    /// becomes the identity stays.
    pub fn add(&mut self, other: &Self)
        ensures
            added(old(self)@, other@, final(self)@),
    {
        proof {
            use_type_invariant(&*self);
            use_type_invariant(other);
        }
        let n = self.0.len();
        let m = other.0.len();
        let len = if n < m {
            m
        } else {
            n
        };
        let mut sums: Vec<C> = Vec::with_capacity(len);
        let mut i: usize = 0;
        while i < len
            invariant
                n == self.0@.len(),
                m == other.0@.len(),
                len == if n < m {
                    m
                } else {
                    n
                },
                i <= len,
                sums@.len() == i,
                forall|j: int|
                    0 <= j < i && j < m ==> (#[trigger] sums@[j]).log() == ((if j < n {
                        self.0@[j].log()
                    } else {
                        0
                    }) + other.0@[j].log()) % order::<C>(),
                forall|j: int| m <= j < i ==> #[trigger] sums@[j] == self.0@[j],
                all_members(self.0@) && all_members(other.0@) ==> all_members(sums@),
            decreases len - i,
        {
            let ghost earlier = sums@;
            if i < m {
                let a = if i < n {
                    self.0[i]
                } else {
                    C::zero()
                };
                sums.push(a.plus(other.0[i]));
            } else {
                sums.push(self.0[i]);
            }
            proof {
                if all_members(self.0@) && all_members(other.0@) {
                    assert forall|j: int| 0 <= j < sums@.len() implies (
                    #[trigger] sums@[j]).member() by {
                        if j < i {
                            assert(sums@[j] == earlier[j]);
                        } else if i < m {
                            assert(other.0@[i as int].member());
                            if i < n {
                                assert(self.0@[i as int].member());
                            }
                        } else {
                            assert(self.0@[i as int].member());
                        }
                    }
                }
            }
            i += 1;
        }
        self.0 = sums;
    }

    /// The value of the polynomial at the point `i`, by Horner's rule.
    pub fn eval(&self, i: ShareIndex) -> (r: Eval<C>)
        ensures
            r.index == i,
            r.value.log() == evaluation(*self, i),
            all_members(self@) ==> r.value.member(),
    {
        proof {
            use_type_invariant(self);
            <C::ScalarType as FieldElement>::lemma_modulus_wide();
        }
        let xi = C::ScalarType::from_u128(i.get() as u128);
        let mut acc = C::zero();
        let mut k: usize = self.0.len();
        let ghost c = logs(self@);
        let ghost x = i.value();
        let ghost q = order::<C>();
        proof {
            assert(c.skip(k as int).len() == 0);
            lemma_residue_of_small(0, q);
        }
        while k > 0
            invariant
                k <= self.0@.len(),
                c == logs(self@),
                x == i.value(),
                xi.value() == x,
                q == order::<C>(),
                q > 0,
                acc.log() == poly_eval(c.skip(k as int), x) % q,
                all_members(self.0@) ==> acc.member(),
            decreases k,
        {
            k -= 1;
            proof {
                if all_members(self.0@) {
                    assert(self.0@[k as int].member());
                }
            }
            acc = acc.scaled(xi).plus(self.0[k]);
            proof {
                let rest = poly_eval(c.skip(k as int + 1), x);
                assert(c.skip(k as int).skip(1) =~= c.skip(k as int + 1));
                assert(c.skip(k as int)[0] == self@[k as int].log());
                assert(poly_eval(c.skip(k as int), x) == self@[k as int].log() + x * rest);
                // the accumulator was congruent to `rest`, and is now scaled and shifted
                lemma_residue_of_product(rest, x, q);
                lemma_residue_of_sum(rest * x, self@[k as int].log(), q);
                lemma_residue_of_sum((rest * x) % q, self@[k as int].log(), q);
                lemma_residue_of_residue(rest * x, q);
                assert(rest * x == x * rest) by (nonlinear_arith);
            }
        }
        proof {
            assert(c.skip(0) =~= c);
        }
        Eval { index: i, value: acc }
    }

    /// Multiplies in 128 bits if the product fits: that is, if the digits of the two
    /// factors number at most 128 together. Otherwise the first factor becomes a scalar
    /// and the second is handed back.
    pub fn fast_mult(x: u128, y: u128) -> (r: FastProduct<C::ScalarType>)
        ensures
            match r {
                FastProduct::Native(p) => bit_length(x) + bit_length(y) <= 128 && p == x * y,
                FastProduct::Lifted(s, rest) => bit_length(x) + bit_length(y) > 128 && s.value()
                    == x && rest == y,
            },
    {
        if x.leading_zeros() >= 128 - y.leading_zeros() {
            proof {
                lemma_product_fits(x, y);
            }
            FastProduct::Native(x * y)
        } else {
            FastProduct::Lifted(C::ScalarType::from_u128(x), y)
        }
    }

    /// The indices of the shares as integers, unless one occurs twice.
    fn distinct_indices(shares: &[Eval<C>]) -> (r: Option<Vec<u128>>)
        ensures
            r is Some <==> indices(shares@).no_duplicates(),
            r matches Some(v) ==> ints(v@) == indices(shares@) && forall|j: int|
                0 <= j < v@.len() ==> 1 <= #[trigger] v@[j] <= 0xffff,
    {
        broadcast use vstd::std_specs::hash::group_hash_axioms;

        let mut seen: HashSet<u16> = HashSet::new();
        let mut found: Vec<u128> = Vec::with_capacity(shares.len());
        let mut k: usize = 0;
        while k < shares.len()
            invariant
                k <= shares@.len(),
                found@.len() == k,
                forall|j: int|
                    0 <= j < k ==> #[trigger] found@[j] == shares@[j].index.value() && 1
                        <= found@[j] <= 0xffff,
                forall|j: int| 0 <= j < k ==> seen@.contains(#[trigger] found@[j] as u16),
                forall|v: u16|
                    seen@.contains(v) ==> exists|j: int|
                        0 <= j < k && #[trigger] found@[j] == v,
                forall|a: int, b: int|
                    0 <= a < b < k ==> #[trigger] found@[a] != #[trigger] found@[b],
            decreases shares@.len() - k,
        {
            let index = shares[k].index.get();
            if !seen.insert(index) {
                proof {
                    let j = choose|j: int| 0 <= j < k && #[trigger] found@[j] == index;
                    assert(indices(shares@)[j] == indices(shares@)[k as int]);
                }
                return None;
            }
            let ghost earlier = found@;
            let ghost known = seen@.remove(index);
            found.push(index as u128);
            proof {
                assert forall|v: u16| seen@.contains(v) implies exists|j: int|
                    0 <= j < k + 1 && #[trigger] found@[j] == v by {
                    if v == index {
                        assert(found@[k as int] == v);
                    } else {
                        assert(known.contains(v));
                        let j = choose|j: int| 0 <= j < k && #[trigger] earlier[j] == v;
                        assert(found@[j] == v);
                    }
                }
            }
            k += 1;
        }
        proof {
            assert(ints(found@) =~= indices(shares@));
            assert forall|a: int, b: int|
                0 <= a < shares@.len() && 0 <= b < shares@.len() && a != b implies indices(
                shares@,
            )[a] != indices(shares@)[b] by {
                if a < b {
                    assert(found@[a] != found@[b]);
                } else {
                    assert(found@[b] != found@[a]);
                }
            }
        }
        Some(found)
    }

    /// The product of the points `xs`, as a scalar.
    fn numerator_of(xs: &Vec<u128>) -> (r: C::ScalarType)
        ensures
            r.value() == product(ints(xs@)) % order::<C>(),
    {
        let ghost q = order::<C>();
        proof {
            <C::ScalarType as FieldElement>::lemma_modulus_wide();
            lemma_residue_of_small(1, q);
            assert(ints(xs@).take(0) =~= Seq::<int>::empty());
        }
        let mut acc = C::ScalarType::one();
        let mut k: usize = 0;
        while k < xs.len()
            invariant
                k <= xs@.len(),
                q == order::<C>(),
                q > 0,
                acc.value() == product(ints(xs@).take(k as int)) % q,
            decreases xs@.len() - k,
        {
            let ghost before = product(ints(xs@).take(k as int));
            acc = acc.times(C::ScalarType::from_u128(xs[k]));
            proof {
                assert(ints(xs@).take(k as int + 1) =~= ints(xs@).take(k as int).push(
                    xs@[k as int] as int,
                ));
                lemma_product_push(ints(xs@).take(k as int), xs@[k as int] as int);
                lemma_residue_of_product(before, xs@[k as int] as int, q);
            }
            k += 1;
        }
        proof {
            assert(ints(xs@).take(xs@.len() as int) =~= ints(xs@));
        }
        acc
    }

    /// The denominator of the Lagrange coefficient of the point `xs[i]`, as a scalar. It
    /// is not zero.
    ///
    /// The distances to the other points are multiplied in 128 bits for as long as the
    /// product fits, and their sign is kept apart.
    fn denominator_of(xs: &Vec<u128>, i: usize) -> (r: C::ScalarType)
        requires
            i < xs@.len(),
            forall|j: int| 0 <= j < xs@.len() ==> 1 <= #[trigger] xs@[j] <= 0xffff,
        ensures
            r.value() == denominator(ints(xs@), xs@[i as int] as int) % order::<C>(),
            r.value() != 0,
    {
        let ghost q = order::<C>();
        let ghost points = ints(xs@);
        let x = xs[i];
        proof {
            <C::ScalarType as FieldElement>::lemma_modulus_wide();
            assert(points.take(0) =~= Seq::<int>::empty());
            assert(differences(points.take(0), x as int) =~= Seq::<int>::empty());
            assert(x * 1 == x);
        }
        let mut negative = false;
        let mut acc = C::ScalarType::from_u128(x);
        let mut remaining: u128 = 1;
        let mut k: usize = 0;
        let ghost mut p: int = 1;
        while k < xs.len()
            invariant
                k <= xs@.len(),
                q == order::<C>(),
                q > u128::MAX,
                points == ints(xs@),
                i < xs@.len(),
                x == xs@[i as int],
                1 <= x <= 0xffff,
                forall|j: int| 0 <= j < xs@.len() ==> 1 <= #[trigger] xs@[j] <= 0xffff,
                p == product(differences(points.take(k as int), x as int)),
                p != 0,
                negative == (p < 0),
                remaining >= 1,
                acc.value() != 0,
                (acc.value() * remaining) % q == (x * magnitude(p)) % q,
            decreases xs@.len() - k,
        {
            let y = xs[k];
            proof {
                lemma_differences_take(points, k as int, x as int);
                lemma_product_push(
                    differences(points.take(k as int), x as int),
                    if y == x {
                        1
                    } else {
                        y - x
                    },
                );
            }
            if y != x {
                let diff = if x > y {
                    negative = !negative;
                    x - y
                } else {
                    y - x
                };
                let ghost d = y - x;
                proof {
                    lemma_signed_product(p, d);
                    assert(magnitude(d) == diff);
                    // the target moves from x * |p| to x * |p| * diff
                    lemma_scaled_congruence(
                        acc.value() * remaining,
                        x * magnitude(p),
                        diff as int,
                        q,
                    );
                    assert(x * magnitude(p) * diff == x * magnitude(p * d)) by (nonlinear_arith)
                        requires
                            magnitude(p * d) == magnitude(p) * diff,
                    ;
                }
                match Self::fast_mult(remaining, diff) {
                    FastProduct::Native(whole) => {
                        proof {
                            assert(acc.value() * whole == acc.value() * remaining * diff)
                                by (nonlinear_arith)
                                requires
                                    whole == remaining * diff,
                            ;
                            assert(whole >= 1) by (nonlinear_arith)
                                requires
                                    whole == remaining * diff,
                                    remaining >= 1,
                                    diff >= 1,
                            ;
                        }
                        remaining = whole;
                    },
                    FastProduct::Lifted(lifted, rest) => {
                        let ghost before = acc.value();
                        acc = acc.times(lifted);
                        proof {
                            lemma_residue_of_product(before * remaining, diff as int, q);
                        }
                        remaining = rest;
                    },
                }
                proof {
                    p = p * d;
                }
            } else {
                proof {
                    assert(p * 1 == p);
                }
            }
            k += 1;
        }
        proof {
            assert(points.take(xs@.len() as int) =~= points);
        }
        let mut result = acc.times(C::ScalarType::from_u128(remaining));
        if negative {
            proof {
                <C::ScalarType as FieldElement>::lemma_value_range(&result);
                lemma_residue_of_small(result.value(), q);
                lemma_negation_nonzero(result.value(), q);
                lemma_residue_of_residue(x * magnitude(p), q);
                lemma_residue_of_negation(x * magnitude(p), q);
                assert(-(x * magnitude(p)) == x * p) by (nonlinear_arith)
                    requires
                        magnitude(p) == -p,
                ;
            }
            result = result.negated();
        }
        result
    }

    /// The Lagrange coefficients at zero of the shares' points, in the order of the
    /// shares.
    ///
    /// They are refused unless there are exactly `t` shares and no index occurs twice.
    pub fn get_lagrange_coefficients_for_c0(t: u32, shares: &[Eval<C>]) -> (r: Result<
        Vec<C::ScalarType>,
        Error,
    >)
        ensures
            r is Ok <==> (indices(shares@).no_duplicates() && shares@.len() == t),
            r matches Ok(c) ==> values(c@) == lagrange_coefficients(
                order::<C>(),
                indices(shares@),
            ),
            r matches Err(e) ==> e == Error::InvalidInput,
    {
        let points = match Self::distinct_indices(shares) {
            Some(points) => points,
            None => {
                return Err(Error::InvalidInput);
            },
        };
        proof {
            assert(ints(points@).len() == points@.len());
            assert(indices(shares@).len() == shares@.len());
        }
        if points.len() != t as usize {
            return Err(Error::InvalidInput);
        }
        let ghost q = order::<C>();
        let ghost xs = indices(shares@);
        proof {
            <C::ScalarType as FieldElement>::lemma_modulus_wide();
        }
        let full_numerator = Self::numerator_of(&points);
        let mut coeffs: Vec<C::ScalarType> = Vec::new();
        let mut i: usize = 0;
        while i < points.len()
            invariant
                i <= points@.len(),
                points@.len() == shares@.len(),
                q == order::<C>(),
                q > 0,
                xs == indices(shares@),
                ints(points@) == xs,
                forall|j: int| 0 <= j < points@.len() ==> 1 <= #[trigger] points@[j] <= 0xffff,
                full_numerator.value() == product(xs) % q,
                coeffs@.len() == i,
                forall|j: int|
                    0 <= j < i ==> (#[trigger] coeffs@[j]).value() == lagrange_coefficient(
                        q,
                        xs,
                        xs[j],
                    ),
            decreases points@.len() - i,
        {
            let divisor = Self::denominator_of(&points, i);
            proof {
                assert(xs[i as int] == points@[i as int]);
                lemma_field_div_residues(product(xs), denominator(xs, xs[i as int]), q);
            }
            match full_numerator.divided_by(divisor) {
                Ok(coeff) => {
                    coeffs.push(coeff);
                },
                Err(e) => {
                    return Err(e);
                },
            }
            i += 1;
        }
        proof {
            assert(values(coeffs@) =~= lagrange_coefficients(q, xs));
        }
        Ok(coeffs)
    }

    /// The constant term of the polynomial of degree below `t` that passes through the
    /// shares: the sum of their values, each multiplied by its Lagrange coefficient.
    ///
    /// The shares are refused unless there are exactly `t` of them and no index occurs
    /// twice. Whether they lie on one polynomial is not looked at.
    pub fn recover_c0(t: u32, shares: &[Eval<C>]) -> (r: Result<C, Error>)
        ensures
            recovered(t, shares@, r),
    {
        let coeffs = match Self::get_lagrange_coefficients_for_c0(t, shares) {
            Ok(coeffs) => coeffs,
            Err(e) => {
                return Err(e);
            },
        };
        let ghost q = order::<C>();
        let ghost weights = values(coeffs@);
        let ghost ys = share_logs(shares@);
        proof {
            <C::ScalarType as FieldElement>::lemma_modulus_wide();
            lemma_residue_of_small(0, q);
            assert(weights.len() == shares@.len());
            assert(weights.take(0) =~= Seq::<int>::empty());
        }
        let mut acc = C::zero();
        let mut i: usize = 0;
        while i < shares.len()
            invariant
                i <= shares@.len(),
                coeffs@.len() == shares@.len(),
                q == order::<C>(),
                q > 0,
                weights == values(coeffs@),
                ys == share_logs(shares@),
                acc.log() == dot(weights.take(i as int), ys.take(i as int)) % q,
                share_members(shares@) ==> acc.member(),
            decreases shares@.len() - i,
        {
            let ghost before = dot(weights.take(i as int), ys.take(i as int));
            proof {
                if share_members(shares@) {
                    assert(shares@[i as int].value.member());
                }
            }
            acc = acc.plus(shares[i].value.scaled(coeffs[i]));
            proof {
                let w = weights[i as int];
                let y = ys[i as int];
                assert(weights.take(i as int + 1).drop_last() =~= weights.take(i as int));
                assert(ys.take(i as int + 1).drop_last() =~= ys.take(i as int));
                assert(dot(weights.take(i as int + 1), ys.take(i as int + 1)) == before + w * y);
                assert(y * w == w * y) by (nonlinear_arith);
                lemma_residue_of_sum(before, w * y, q);
                lemma_residue_of_sum(before % q, (w * y) % q, q);
                lemma_residue_of_residue(before, q);
                lemma_residue_of_residue(w * y, q);
            }
            i += 1;
        }
        proof {
            assert(weights.take(shares@.len() as int) =~= weights);
            assert(ys.take(shares@.len() as int) =~= ys);
        }
        Ok(acc)
    }

    /// Checks a private share against the polynomial, which is the commitment to the
    /// polynomial that was shared: the share is accepted if and only if the generator
    /// multiplied by it is the value of the commitment at `idx`.
    ///
    /// A share that is accepted is the value of the commitment, by its logarithm. Where
    /// the coefficients of the commitment are elements of the group, as those that
    /// `commit` gives are, the share that is its value is accepted too.
    pub fn verify_share(&self, idx: ShareIndex, share: &C::ScalarType) -> (r: Result<(), Error>)
        ensures
            share_checked(*self, idx, *share, r),
    {
        proof {
            <C::ScalarType as FieldElement>::lemma_modulus_wide();
            <C::ScalarType as FieldElement>::lemma_value_range(share);
            lemma_residue_of_small(share.value(), order::<C>());
            assert(1 * share.value() == share.value());
        }
        let e = C::generator().scaled(*share);
        let pub_eval = self.eval(idx);
        if pub_eval.value.same(&e) {
            Ok(())
        } else {
            Err(Error::InvalidInput)
        }
    }

    /// The constant term of the polynomial.
    pub fn c0(&self) -> (c: &C)
        ensures
            *c == self@[0],
    {
        proof {
            use_type_invariant(self);
        }
        &self.0[0]
    }

    /// The coefficients of the polynomial, lowest degree first.
    pub fn as_vec(&self) -> (v: &Vec<C>)
        ensures
            v@ == self@,
            v@.len() >= 1,
    {
        proof {
            use_type_invariant(self);
        }
        &self.0
    }
}

impl<C: FieldElement> Poly<C> {
    /// A polynomial of the given degree whose coefficients are drawn from `rng`, one
    /// after the other from the constant term up. The threshold of the sharing is one
    /// more than the degree.
    pub fn rand<R: AllowedRng>(degree: u32, rng: &mut R) -> (r: Self)
        ensures
            r@.len() == degree + 1,
    {
        let mut coeffs: Vec<C> = Vec::new();
        let mut k: u64 = 0;
        while k <= degree as u64
            invariant
                k <= degree + 1,
                coeffs@.len() == k,
            decreases degree + 1 - k,
        {
            coeffs.push(C::rand(rng));
            k += 1;
        }
        Poly(coeffs)
    }

    /// The commitment to the polynomial over the group `P`: the generator multiplied by
    /// each coefficient, in the same order.
    pub fn commit<P: GroupElement<ScalarType = C>>(&self) -> (r: Poly<P>)
        ensures
            commits(*self, r),
    {
        proof {
            use_type_invariant(self);
            C::lemma_modulus_wide();
        }
        let mut commits: Vec<P> = Vec::with_capacity(self.0.len());
        let mut k: usize = 0;
        while k < self.0.len()
            invariant
                k <= self.0@.len(),
                commits@.len() == k,
                C::modulus() > 0,
                forall|i: int| 0 <= i < k ==> (#[trigger] commits@[i]).log() == self.0@[i].value(),
                all_members(commits@),
            decreases self.0@.len() - k,
        {
            proof {
                self.0@[k as int].lemma_value_range();
                lemma_residue_of_small(self.0@[k as int].value(), C::modulus());
                assert(1 * self.0@[k as int].value() == self.0@[k as int].value());
            }
            commits.push(P::generator().scaled(self.0[k]));
            k += 1;
        }
        Poly(commits)
    }
}

impl<C: MultiScalarMul> Poly<C> {
    /// The same as `recover_c0`, with the weighted sum left to the group's own
    /// multi-scalar multiplication.
    pub fn recover_c0_msm(t: u32, shares: &[Eval<C>]) -> (r: Result<C, Error>)
        ensures
            recovered(t, shares@, r),
    {
        let coeffs = match Self::get_lagrange_coefficients_for_c0(t, shares) {
            Ok(coeffs) => coeffs,
            Err(e) => {
                return Err(e);
            },
        };
        let mut plain_shares: Vec<C> = Vec::with_capacity(shares.len());
        let mut i: usize = 0;
        while i < shares.len()
            invariant
                i <= shares@.len(),
                plain_shares@.len() == i,
                forall|j: int| 0 <= j < i ==> #[trigger] plain_shares@[j] == shares@[j].value,
            decreases shares@.len() - i,
        {
            plain_shares.push(shares[i].value);
            i += 1;
        }
        proof {
            assert(values(coeffs@).len() == shares@.len());
            assert(logs(plain_shares@) =~= share_logs(shares@));
            if share_members(shares@) {
                assert forall|j: int| 0 <= j < plain_shares@.len() implies (
                #[trigger] plain_shares@[j]).member() by {
                    assert(shares@[j].value.member());
                }
            }
            <C::ScalarType as FieldElement>::lemma_modulus_wide();
            lemma_residue_of_small(0, order::<C>());
        }
        match C::multi_scalar_mul(coeffs.as_slice(), plain_shares.as_slice()) {
            Ok(sum) => Ok(sum),
            // there is no share at all, and the sum of nothing is the identity
            Err(_) => Ok(C::zero()),
        }
    }
}

/// In every place, the sum of two polynomials has the sum of their coefficients, a
/// missing coefficient counting as the identity.
pub proof fn lemma_added_coefficients<C: GroupElement>(a: Seq<C>, b: Seq<C>, sum: Seq<C>, i: int)
    requires
        added(a, b, sum),
    ensures
        coefficient_log(sum, i) == (coefficient_log(a, i) + coefficient_log(b, i)) % order::<C>(),
{
    let q = order::<C>();
    <C::ScalarType as FieldElement>::lemma_modulus_wide();
    lemma_residue_of_small(0, q);
    if b.len() <= i < a.len() {
        a[i].lemma_log_range();
        lemma_residue_of_small(a[i].log(), q);
    }
}

/// Addition of polynomials is commutative: the two sums have the same coefficients, as
/// elements of the group.
pub proof fn lemma_add_commutes<C: GroupElement>(a: Seq<C>, b: Seq<C>, ab: Seq<C>, ba: Seq<C>)
    requires
        added(a, b, ab),
        added(b, a, ba),
    ensures
        logs(ab) == logs(ba),
{
    assert forall|i: int| 0 <= i < ab.len() implies logs(ab)[i] == logs(ba)[i] by {
        lemma_added_coefficients(a, b, ab, i);
        lemma_added_coefficients(b, a, ba, i);
    }
    assert(logs(ab) =~= logs(ba));
}

/// Addition of polynomials is associative: adding `c` to the sum of `a` and `b` gives
/// the same coefficients, as elements of the group, as adding the sum of `b` and `c`
/// to `a`.
pub proof fn lemma_add_associates<C: GroupElement>(
    a: Seq<C>,
    b: Seq<C>,
    c: Seq<C>,
    ab: Seq<C>,
    bc: Seq<C>,
    left: Seq<C>,
    right: Seq<C>,
)
    requires
        added(a, b, ab),
        added(ab, c, left),
        added(b, c, bc),
        added(a, bc, right),
    ensures
        logs(left) == logs(right),
{
    let q = order::<C>();
    <C::ScalarType as FieldElement>::lemma_modulus_wide();
    assert forall|i: int| 0 <= i < left.len() implies logs(left)[i] == logs(right)[i] by {
        lemma_added_coefficients(a, b, ab, i);
        lemma_added_coefficients(ab, c, left, i);
        lemma_added_coefficients(b, c, bc, i);
        lemma_added_coefficients(a, bc, right, i);
        let x = coefficient_log(a, i);
        let y = coefficient_log(b, i);
        let z = coefficient_log(c, i);
        lemma_residue_of_sum(x + y, z, q);
        lemma_residue_of_sum((x + y) % q, z, q);
        lemma_residue_of_residue(x + y, q);
        lemma_residue_of_sum(x, y + z, q);
        lemma_residue_of_sum(x, (y + z) % q, q);
        lemma_residue_of_residue(y + z, q);
    }
    assert(logs(left) =~= logs(right));
}

/// The commitment evaluates to the committed evaluation: at every point, the value of the
/// commitment is the generator multiplied by the value of the private polynomial, so its
/// discrete logarithm is that value.
pub proof fn lemma_commitment_consistency<S: ScalarGroup, P: GroupElement<ScalarType = S>>(
    private: Poly<S>,
    public: Poly<P>,
    i: ShareIndex,
)
    requires
        commits(private, public),
    ensures
        evaluation(public, i) == evaluation(private, i),
        evaluation(public, i) == (1 * evaluation(private, i)) % order::<P>(),
{
    assert(logs(public@) =~= logs(private@)) by {
        assert forall|k: int| 0 <= k < private@.len() implies logs(public@)[k] == logs(
            private@,
        )[k] by {
            private@[k].lemma_log_is_value();
        }
    }
    S::lemma_modulus_wide();
    lemma_residue_of_residue(poly_eval(logs(private@), i.value()), order::<P>());
    assert(1 * evaluation(private, i) == evaluation(private, i));
}

/// The round trip: over a group of prime order, the shares that a polynomial gives at
/// distinct points, as many as the threshold and at least as many as the polynomial has
/// coefficients, are accepted, and what is recovered from them has the logarithm of the
/// constant term of the polynomial.
pub proof fn lemma_recovery_of_evaluations<C: GroupElement>(
    p: Poly<C>,
    t: u32,
    shares: Seq<Eval<C>>,
    r: Result<C, Error>,
)
    requires
        is_prime(order::<C>()),
        p@.len() <= shares.len(),
        shares.len() == t,
        indices(shares).no_duplicates(),
        forall|k: int|
            0 <= k < shares.len() ==> (#[trigger] shares[k]).value.log() == evaluation(
                p,
                shares[k].index,
            ),
        recovered(t, shares, r),
    ensures
        r is Ok,
        r->Ok_0.log() == coefficient_log(p@, 0),
{
    let q = order::<C>();
    let xs = indices(shares);
    let ys = share_logs(shares);
    <C::ScalarType as FieldElement>::lemma_modulus_wide();
    assert forall|i: int| 0 <= i < xs.len() implies 0 < #[trigger] xs[i] < q by {
        shares[i].index.lemma_value_bound();
    }
    assert(valid_points(q, xs));
    lemma_round_trip(q, logs(p@), xs, ys);
    if p@.len() == 0 {
        lemma_residue_of_small(0, q);
    } else {
        p@[0].lemma_log_range();
        lemma_residue_of_small(p@[0].log(), q);
    }
}

/// With the threshold one, over a group of prime order, the one share is accepted and
/// its value is what is recovered.
pub proof fn lemma_recovery_of_one_share<C: GroupElement>(share: Eval<C>, r: Result<C, Error>)
    requires
        is_prime(order::<C>()),
        recovered(1, seq![share], r),
    ensures
        r is Ok,
        r->Ok_0.log() == share.value.log(),
{
    let q = order::<C>();
    let shares = seq![share];
    <C::ScalarType as FieldElement>::lemma_modulus_wide();
    share.index.lemma_value_bound();
    share.value.lemma_log_range();
    assert(indices(shares) =~= seq![share.index.value()]);
    assert(share_logs(shares) =~= seq![share.value.log()]);
    lemma_threshold_one(q, share.index.value(), share.value.log());
}

/// The order of the shares does not matter: for the same shares in another order,
/// recovery gives a refusal again, or the same element of the group again.
pub proof fn lemma_recovery_in_any_order<C: GroupElement>(
    t: u32,
    a: Seq<Eval<C>>,
    b: Seq<Eval<C>>,
    ra: Result<C, Error>,
    rb: Result<C, Error>,
)
    requires
        a.to_multiset() == b.to_multiset(),
        recovered(t, a, ra),
        recovered(t, b, rb),
    ensures
        ra is Ok <==> rb is Ok,
        ra is Ok ==> ra->Ok_0.log() == rb->Ok_0.log(),
        ra is Err ==> ra == rb,
{
    broadcast use vstd::seq_lib::group_to_multiset_ensures;

    assert(a.len() == b.len()) by {
        assert(a.to_multiset().len() == a.len());
        assert(b.to_multiset().len() == b.len());
    }
    let point = |s: Eval<C>| s.index.value();
    lemma_map_of_permutation(a, b, point);
    assert(Seq::new(a.len(), |i: int| point(a[i])) =~= indices(a));
    assert(Seq::new(b.len(), |i: int| point(b[i])) =~= indices(b));
    if indices(a).no_duplicates() {
        indices(a).lemma_multiset_has_no_duplicates();
        indices(b).lemma_multiset_has_no_duplicates_conv();
    }
    if indices(b).no_duplicates() {
        indices(b).lemma_multiset_has_no_duplicates();
        indices(a).lemma_multiset_has_no_duplicates_conv();
    }
    let pair = |s: Eval<C>| (s.index.value(), s.value.log());
    lemma_map_of_permutation(a, b, pair);
    assert(Seq::new(a.len(), |i: int| pair(a[i])) =~= points(indices(a), share_logs(a)));
    assert(Seq::new(b.len(), |i: int| pair(b[i])) =~= points(indices(b), share_logs(b)));
    lemma_order_invariance(
        order::<C>(),
        indices(a),
        share_logs(a),
        indices(b),
        share_logs(b),
    );
}

/// Verification against a commitment accepts the share of the committed polynomial and
/// no other: the share is accepted if and only if it is the value of the private
/// polynomial at the point.
pub proof fn lemma_share_of_commitment<S: ScalarGroup, P: GroupElement<ScalarType = S>>(
    private: Poly<S>,
    public: Poly<P>,
    idx: ShareIndex,
    share: S,
    r: Result<(), Error>,
)
    requires
        commits(private, public),
        share_checked(public, idx, share, r),
    ensures
        r is Ok <==> share.value() == evaluation(private, idx),
{
    lemma_commitment_consistency(private, public, idx);
}

/// The plain recovery and the one by multi-scalar multiplication agree: two results that
/// meet the contract of recovery for the same threshold and shares are both refusals, or
/// are both the same element of the group.
pub proof fn lemma_recovery_is_determined<C: GroupElement>(
    t: u32,
    shares: Seq<Eval<C>>,
    plain: Result<C, Error>,
    msm: Result<C, Error>,
)
    requires
        recovered(t, shares, plain),
        recovered(t, shares, msm),
    ensures
        plain is Ok <==> msm is Ok,
        plain is Ok ==> plain->Ok_0.log() == msm->Ok_0.log(),
        plain is Err ==> plain == msm,
{
}

} // verus!
