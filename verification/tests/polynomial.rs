use fastcrypto::groups::bls12381::{G1Element, G2Element, Scalar};
use rand::rngs::StdRng;
use rand::SeedableRng;
use tbls_poly::algebra::{FieldElement, GroupElement, MultiScalarMul};
use tbls_poly::polynomial::{FastProduct, Poly};
use tbls_poly::types::{Error, Eval, ShareIndex};

fn index(n: u16) -> ShareIndex {
    ShareIndex::new(n).unwrap()
}

fn scalar(n: u128) -> Scalar {
    Scalar::from(n)
}

fn scalar_poly(coefficients: &[u128]) -> Poly<Scalar> {
    Poly::from(coefficients.iter().map(|c| scalar(*c)).collect())
}

fn shares_at(poly: &Poly<Scalar>, at: &[u16]) -> Vec<Eval<Scalar>> {
    at.iter().map(|i| poly.eval(index(*i))).collect()
}

fn rng(seed: u8) -> StdRng {
    StdRng::from_seed([seed; 32])
}

#[test]
fn share_index_is_never_zero() {
    assert!(ShareIndex::new(0).is_none());
    assert_eq!(ShareIndex::new(1).unwrap().get(), 1);
    assert_eq!(ShareIndex::new(65535).unwrap().get(), 65535);
}

#[test]
fn degree_is_one_less_than_the_number_of_coefficients() {
    assert_eq!(scalar_poly(&[5]).degree(), 0);
    assert_eq!(scalar_poly(&[5, 0, 2]).degree(), 2);
    assert_eq!(Poly::<Scalar>::rand(4, &mut rng(1)).degree(), 4);
    assert_eq!(Poly::<Scalar>::rand(0, &mut rng(1)).degree(), 0);
}

#[test]
fn zero_has_one_coefficient_the_identity() {
    let zero = Poly::<G1Element>::zero();
    assert_eq!(zero.degree(), 0);
    assert_eq!(zero.as_vec().len(), 1);
    assert_eq!(*zero.c0(), <G1Element as GroupElement>::zero());
    assert_eq!(*Poly::<Scalar>::zero().c0(), scalar(0));
}

#[test]
fn accessors_give_the_coefficients_back() {
    let poly = scalar_poly(&[7, 3, 9]);
    assert_eq!(*poly.c0(), scalar(7));
    assert_eq!(poly.as_vec(), &vec![scalar(7), scalar(3), scalar(9)]);
}

#[test]
fn add_sums_coefficient_by_coefficient() {
    let mut a = scalar_poly(&[1, 2, 3]);
    a.add(&scalar_poly(&[10, 20, 30]));
    assert_eq!(a.as_vec(), &vec![scalar(11), scalar(22), scalar(33)]);
}

#[test]
fn add_pads_the_shorter_polynomial() {
    let mut a = scalar_poly(&[1]);
    a.add(&scalar_poly(&[10, 20, 30]));
    assert_eq!(a.as_vec(), &vec![scalar(11), scalar(20), scalar(30)]);
    assert_eq!(a.degree(), 2);

    let mut b = scalar_poly(&[1, 2, 3]);
    b.add(&scalar_poly(&[10]));
    assert_eq!(b.as_vec(), &vec![scalar(11), scalar(2), scalar(3)]);
}

#[test]
fn add_keeps_a_leading_coefficient_that_cancels() {
    let mut a = scalar_poly(&[1, 5]);
    let minus_five = scalar(5).negated();
    a.add(&Poly::from(vec![scalar(1), minus_five]));
    assert_eq!(a.degree(), 1);
    assert_eq!(a.as_vec(), &vec![scalar(2), scalar(0)]);
}

#[test]
fn add_to_zero_is_the_other_polynomial() {
    let mut a = Poly::<Scalar>::zero();
    let other = Poly::<Scalar>::rand(3, &mut rng(2));
    a.add(&other);
    assert_eq!(a, other);
}

#[test]
fn eval_follows_horner() {
    // 7 + 3x + 2x^2
    let poly = scalar_poly(&[7, 3, 2]);
    let at_one = poly.eval(index(1));
    assert_eq!(at_one.index, index(1));
    assert_eq!(at_one.value, scalar(12));
    assert_eq!(poly.eval(index(2)).value, scalar(21));
    assert_eq!(poly.eval(index(10)).value, scalar(237));
    assert_eq!(poly.eval(index(65535)).value, scalar(7 + 3 * 65535 + 2 * 65535 * 65535));
}

#[test]
fn eval_of_a_constant_is_the_constant() {
    let poly = scalar_poly(&[42]);
    assert_eq!(poly.eval(index(1)).value, scalar(42));
    assert_eq!(poly.eval(index(999)).value, scalar(42));
}

#[test]
fn eval_over_the_group_scales_the_generator() {
    let g = <G1Element as GroupElement>::generator();
    let poly: Poly<G1Element> = Poly::from(vec![g.scaled(scalar(7)), g.scaled(scalar(3))]);
    assert_eq!(poly.eval(index(2)).value, g.scaled(scalar(13)));
}

#[test]
fn fast_mult_multiplies_where_the_product_fits() {
    match Poly::<G1Element>::fast_mult(6, 7) {
        FastProduct::Native(p) => assert_eq!(p, 42),
        FastProduct::Lifted(_, _) => panic!("6 * 7 fits"),
    }
    match Poly::<G1Element>::fast_mult(1u128 << 63, 1u128 << 63) {
        FastProduct::Native(p) => assert_eq!(p, 1u128 << 126),
        FastProduct::Lifted(_, _) => panic!("64 and 64 digits fit"),
    }
    match Poly::<G1Element>::fast_mult(0, u128::MAX) {
        FastProduct::Native(p) => assert_eq!(p, 0),
        FastProduct::Lifted(_, _) => panic!("zero has no digits"),
    }
    match Poly::<G1Element>::fast_mult(u128::MAX, 1) {
        FastProduct::Native(_) => panic!("128 and 1 digits do not fit"),
        FastProduct::Lifted(s, rest) => {
            assert_eq!(s, scalar(u128::MAX));
            assert_eq!(rest, 1);
        },
    }
}

#[test]
fn fast_mult_lifts_where_the_product_may_not_fit() {
    match Poly::<G1Element>::fast_mult(1u128 << 64, 1u128 << 64) {
        FastProduct::Native(_) => panic!("65 and 65 digits do not fit"),
        FastProduct::Lifted(s, rest) => {
            assert_eq!(s, scalar(1u128 << 64));
            assert_eq!(rest, 1u128 << 64);
        },
    }
    match Poly::<G1Element>::fast_mult(u128::MAX, 3) {
        FastProduct::Native(_) => panic!("128 and 2 digits do not fit"),
        FastProduct::Lifted(s, rest) => {
            assert_eq!(s, scalar(u128::MAX));
            assert_eq!(rest, 3);
        },
    }
}

#[test]
fn lagrange_coefficients_of_two_points() {
    // points 1 and 2: 2 / (2 - 1) and 1 / (1 - 2)
    let shares = shares_at(&scalar_poly(&[7, 3]), &[1, 2]);
    let coeffs = Poly::<Scalar>::get_lagrange_coefficients_for_c0(2, &shares).unwrap();
    assert_eq!(coeffs, vec![scalar(2), scalar(1).negated()]);
}

#[test]
fn lagrange_coefficients_of_three_points() {
    let shares = shares_at(&scalar_poly(&[1, 1, 1]), &[1, 2, 3]);
    let coeffs = Poly::<Scalar>::get_lagrange_coefficients_for_c0(3, &shares).unwrap();
    assert_eq!(coeffs, vec![scalar(3), scalar(3).negated(), scalar(1)]);
}

#[test]
fn lagrange_coefficients_follow_the_order_of_the_shares() {
    let shares = shares_at(&scalar_poly(&[1, 1, 1]), &[3, 1, 2]);
    let coeffs = Poly::<Scalar>::get_lagrange_coefficients_for_c0(3, &shares).unwrap();
    assert_eq!(coeffs, vec![scalar(1), scalar(3), scalar(3).negated()]);
}

#[test]
fn lagrange_coefficients_add_up_to_one() {
    let at = [60000u16, 3, 41234, 17, 65535, 1, 30000, 9999, 52000, 2, 47, 61001];
    let shares = shares_at(&scalar_poly(&[1]), &at);
    let coeffs = Poly::<Scalar>::get_lagrange_coefficients_for_c0(12, &shares).unwrap();
    let sum = coeffs.iter().fold(scalar(0), |acc, c| acc.plus(*c));
    assert_eq!(sum, scalar(1));
}

#[test]
fn threshold_one_has_the_coefficient_one() {
    let shares = vec![Eval { index: index(5), value: scalar(1234) }];
    let coeffs = Poly::<Scalar>::get_lagrange_coefficients_for_c0(1, &shares).unwrap();
    assert_eq!(coeffs, vec![<Scalar as FieldElement>::one()]);
    assert_eq!(Poly::<Scalar>::recover_c0(1, &shares), Ok(scalar(1234)));
}

#[test]
fn worked_example_of_degree_one() {
    let poly = scalar_poly(&[7, 3]);
    let shares = shares_at(&poly, &[1, 2]);
    assert_eq!(shares[0], Eval { index: index(1), value: scalar(10) });
    assert_eq!(shares[1], Eval { index: index(2), value: scalar(13) });
    assert_eq!(Poly::<Scalar>::recover_c0(2, &shares), Ok(scalar(7)));
}

#[test]
fn round_trip_recovers_the_constant_term() {
    for degree in 0..6u32 {
        let poly = Poly::<Scalar>::rand(degree, &mut rng(degree as u8));
        let at: Vec<u16> = (0..=degree as u16).map(|k| 7 * k + 1).collect();
        let shares = shares_at(&poly, &at);
        assert_eq!(Poly::<Scalar>::recover_c0(degree + 1, &shares), Ok(*poly.c0()));
    }
}

#[test]
fn round_trip_with_large_and_scattered_indices() {
    let at = [60000u16, 3, 41234, 17, 65535, 1, 30000, 9999, 52000, 2, 47, 61001];
    let poly = Poly::<Scalar>::rand(11, &mut rng(9));
    let shares = shares_at(&poly, &at);
    assert_eq!(Poly::<Scalar>::recover_c0(12, &shares), Ok(*poly.c0()));
}

#[test]
fn round_trip_over_the_group() {
    let private = Poly::<Scalar>::rand(3, &mut rng(3));
    let public: Poly<G1Element> = private.commit();
    let shares: Vec<Eval<G1Element>> =
        [4u16, 1, 9, 2].iter().map(|i| public.eval(index(*i))).collect();
    assert_eq!(Poly::<G1Element>::recover_c0(4, &shares), Ok(*public.c0()));
}

#[test]
fn recovery_does_not_depend_on_the_order_of_the_shares() {
    let poly = Poly::<Scalar>::rand(2, &mut rng(4));
    let a = shares_at(&poly, &[1, 2, 3]);
    let orders: [[usize; 3]; 6] =
        [[0, 1, 2], [0, 2, 1], [1, 0, 2], [1, 2, 0], [2, 0, 1], [2, 1, 0]];
    for order in orders {
        let shares: Vec<Eval<Scalar>> = order.iter().map(|k| a[*k]).collect();
        assert_eq!(Poly::<Scalar>::recover_c0(3, &shares), Ok(*poly.c0()));
    }
}

#[test]
fn recovery_of_inconsistent_shares_is_still_order_independent() {
    let a = Eval { index: index(3), value: scalar(100) };
    let b = Eval { index: index(8), value: scalar(5) };
    let c = Eval { index: index(20), value: scalar(77) };
    let first = Poly::<Scalar>::recover_c0(3, &[a, b, c]).unwrap();
    assert_eq!(Poly::<Scalar>::recover_c0(3, &[c, a, b]), Ok(first));
    assert_eq!(Poly::<Scalar>::recover_c0(3, &[b, c, a]), Ok(first));
}

#[test]
fn repeated_index_is_refused() {
    let poly = scalar_poly(&[7, 3, 1]);
    for at in [[1u16, 1, 2], [1, 2, 1], [2, 1, 1], [5, 5, 5]] {
        let shares = shares_at(&poly, &at);
        assert_eq!(Poly::<Scalar>::recover_c0(3, &shares), Err(Error::InvalidInput));
        assert_eq!(
            Poly::<Scalar>::get_lagrange_coefficients_for_c0(3, &shares),
            Err(Error::InvalidInput)
        );
    }
}

#[test]
fn repeated_index_is_refused_whatever_the_threshold() {
    let shares = shares_at(&scalar_poly(&[7, 3, 1]), &[1, 2, 1]);
    assert_eq!(Poly::<Scalar>::recover_c0(2, &shares), Err(Error::InvalidInput));
}

#[test]
fn wrong_number_of_shares_is_refused() {
    let poly = scalar_poly(&[7, 3, 1]);
    let fewer = shares_at(&poly, &[1, 2]);
    let more = shares_at(&poly, &[1, 2, 3, 4]);
    assert_eq!(Poly::<Scalar>::recover_c0(3, &fewer), Err(Error::InvalidInput));
    assert_eq!(Poly::<Scalar>::recover_c0(3, &more), Err(Error::InvalidInput));
    assert_eq!(Poly::<G1Element>::recover_c0_msm(1, &[]), Err(Error::InvalidInput));
    assert_eq!(Poly::<Scalar>::recover_c0(0, &fewer), Err(Error::InvalidInput));
}

#[test]
fn no_shares_and_threshold_zero_give_the_identity() {
    assert_eq!(Poly::<Scalar>::recover_c0(0, &[]), Ok(scalar(0)));
    assert_eq!(
        Poly::<G1Element>::recover_c0_msm(0, &[]),
        Ok(<G1Element as GroupElement>::zero())
    );
    assert_eq!(Poly::<Scalar>::get_lagrange_coefficients_for_c0(0, &[]), Ok(vec![]));
}

#[test]
fn commit_multiplies_the_generator_by_each_coefficient() {
    let private = scalar_poly(&[7, 3, 0]);
    let public: Poly<G1Element> = private.commit();
    let g = <G1Element as GroupElement>::generator();
    assert_eq!(public.degree(), 2);
    assert_eq!(
        public.as_vec(),
        &vec![g.scaled(scalar(7)), g.scaled(scalar(3)), <G1Element as GroupElement>::zero()]
    );
}

#[test]
fn commitment_evaluates_to_the_committed_evaluation() {
    let private = Poly::<Scalar>::rand(4, &mut rng(5));
    let public: Poly<G1Element> = private.commit();
    let g = <G1Element as GroupElement>::generator();
    for i in [1u16, 2, 3, 77, 65535] {
        assert_eq!(public.eval(index(i)).value, g.scaled(private.eval(index(i)).value));
    }
}

#[test]
fn verify_share_accepts_the_share_and_no_other() {
    let private = Poly::<Scalar>::rand(3, &mut rng(6));
    let public: Poly<G1Element> = private.commit();
    let share = private.eval(index(5)).value;
    assert_eq!(public.verify_share(index(5), &share), Ok(()));
    assert_eq!(public.verify_share(index(6), &share), Err(Error::InvalidInput));
    assert_eq!(public.verify_share(index(5), &scalar(0)), Err(Error::InvalidInput));
    assert_eq!(public.verify_share(index(5), &scalar(1)), Err(Error::InvalidInput));
    assert_eq!(public.verify_share(index(5), &share.negated()), Err(Error::InvalidInput));
    assert_eq!(
        public.verify_share(index(5), &share.plus(scalar(1))),
        Err(Error::InvalidInput)
    );
}

#[test]
fn recover_c0_msm_agrees_with_recover_c0() {
    let private = Poly::<Scalar>::rand(5, &mut rng(7));
    let public: Poly<G1Element> = private.commit();
    let shares: Vec<Eval<G1Element>> =
        [11u16, 2, 300, 4, 65535, 6].iter().map(|i| public.eval(index(*i))).collect();
    let plain = Poly::<G1Element>::recover_c0(6, &shares);
    assert_eq!(Poly::<G1Element>::recover_c0_msm(6, &shares), plain);
    assert_eq!(plain, Ok(*public.c0()));
    let repeated = [shares[0], shares[0]];
    assert_eq!(Poly::<G1Element>::recover_c0_msm(2, &repeated), Err(Error::InvalidInput));
    assert_eq!(Poly::<G1Element>::recover_c0_msm(5, &shares), Err(Error::InvalidInput));
}

#[test]
fn rand_depends_on_the_generator_alone() {
    let a = Poly::<Scalar>::rand(3, &mut rng(8));
    let b = Poly::<Scalar>::rand(3, &mut rng(8));
    let c = Poly::<Scalar>::rand(3, &mut rng(9));
    assert_eq!(a, b);
    assert_ne!(a, c);
    assert_ne!(a.as_vec()[0], a.as_vec()[1]);
}

#[test]
fn copied_has_the_same_coefficients() {
    let a = Poly::<Scalar>::rand(3, &mut rng(8));
    let b = a.copied();
    assert_eq!(b, a);
    assert_eq!(b.as_vec(), a.as_vec());
    let public: Poly<G1Element> = a.commit();
    assert_eq!(public.copied(), public);
}

#[test]
fn verify_share_accepts_exactly_the_committed_evaluation() {
    let private = scalar_poly(&[7, 3]);
    let public: Poly<G2Element> = private.commit();
    assert_eq!(public.verify_share(index(2), &scalar(13)), Ok(()));
    assert_eq!(public.verify_share(index(2), &scalar(12)), Err(Error::InvalidInput));
    assert_eq!(public.verify_share(index(2), &scalar(14)), Err(Error::InvalidInput));
    let mut sum = public.copied();
    sum.add(&public);
    assert_eq!(sum.verify_share(index(2), &scalar(26)), Ok(()));
    assert_eq!(sum.verify_share(index(2), &scalar(13)), Err(Error::InvalidInput));
}

#[test]
fn clone_is_equal() {
    let a = Poly::<Scalar>::rand(3, &mut rng(8));
    assert_eq!(a.clone(), a);
}

#[test]
fn scalar_arithmetic() {
    let one = <Scalar as FieldElement>::one();
    assert_eq!(one, scalar(1));
    assert_eq!(<Scalar as GroupElement>::zero(), scalar(0));
    assert_eq!(<Scalar as GroupElement>::generator(), scalar(1));
    assert_eq!(<Scalar as FieldElement>::from_u128(42), scalar(42));
    assert_eq!(scalar(6).times(scalar(7)), scalar(42));
    assert_eq!(scalar(6).plus(scalar(7)), scalar(13));
    assert_eq!(scalar(6).scaled(scalar(7)), scalar(42));
    assert_eq!(scalar(6).negated().plus(scalar(6)), scalar(0));
    assert_ne!(scalar(6).negated(), scalar(6));
    assert_eq!(scalar(42).divided_by(scalar(7)), Ok(scalar(6)));
    assert_eq!(scalar(42).divided_by(scalar(0)), Err(Error::InvalidInput));
    assert_eq!(scalar(1).divided_by(scalar(3)).unwrap().times(scalar(3)), scalar(1));
    assert!(scalar(5).same(&scalar(5)));
    assert!(!scalar(5).same(&scalar(6)));
}

#[test]
fn group_arithmetic() {
    let g = <G1Element as GroupElement>::generator();
    let zero = <G1Element as GroupElement>::zero();
    assert_ne!(g, zero);
    assert_eq!(g.plus(zero), g);
    assert_eq!(g.plus(g), g.scaled(scalar(2)));
    assert_ne!(g.plus(g), g);
    assert_eq!(g.scaled(scalar(0)), zero);
    assert_eq!(g.scaled(scalar(3)).scaled(scalar(5)), g.scaled(scalar(15)));
    assert!(g.same(&g));
    assert!(!g.same(&zero));
    assert!(g.plus(g).same(&g.scaled(scalar(2))));
}

#[test]
fn multi_scalar_mul_sums_the_scaled_points() {
    let g = <G1Element as GroupElement>::generator();
    let points = [g, g.scaled(scalar(2)), g.scaled(scalar(5))];
    let scalars = [scalar(3), scalar(4), scalar(6)];
    assert_eq!(
        <G1Element as MultiScalarMul>::multi_scalar_mul(&scalars, &points),
        Ok(g.scaled(scalar(41)))
    );
    assert_eq!(
        <G1Element as MultiScalarMul>::multi_scalar_mul(&scalars[..2], &points),
        Err(Error::InvalidInput)
    );
    assert_eq!(
        <G1Element as MultiScalarMul>::multi_scalar_mul(&[], &[]),
        Err(Error::InvalidInput)
    );
}

#[test]
fn second_group_arithmetic() {
    let g = <G2Element as GroupElement>::generator();
    let zero = <G2Element as GroupElement>::zero();
    assert_ne!(g, zero);
    assert_eq!(g.plus(zero), g);
    assert_eq!(g.plus(g), g.scaled(scalar(2)));
    assert_ne!(g.plus(g), g);
    assert_eq!(g.scaled(scalar(0)), zero);
    assert_eq!(g.scaled(scalar(3)).scaled(scalar(5)), g.scaled(scalar(15)));
    assert!(g.same(&g));
    assert!(!g.same(&zero));
    let points = [g, g.scaled(scalar(2)), g.scaled(scalar(5))];
    let scalars = [scalar(3), scalar(4), scalar(6)];
    assert_eq!(
        <G2Element as MultiScalarMul>::multi_scalar_mul(&scalars, &points),
        Ok(g.scaled(scalar(41)))
    );
    assert_eq!(
        <G2Element as MultiScalarMul>::multi_scalar_mul(&scalars, &points[..1]),
        Err(Error::InvalidInput)
    );
}

#[test]
fn round_trip_over_the_second_group() {
    let private = Poly::<Scalar>::rand(2, &mut rng(11));
    let public: Poly<G2Element> = private.commit();
    let shares: Vec<Eval<G2Element>> =
        [7u16, 1, 300].iter().map(|i| public.eval(index(*i))).collect();
    assert_eq!(Poly::<G2Element>::recover_c0(3, &shares), Ok(*public.c0()));
    assert_eq!(Poly::<G2Element>::recover_c0_msm(3, &shares), Ok(*public.c0()));
    let share = private.eval(index(7)).value;
    assert_eq!(public.verify_share(index(7), &share), Ok(()));
    assert_eq!(public.verify_share(index(8), &share), Err(Error::InvalidInput));
}

#[test]
fn many_shares_leave_the_native_width() {
    // with forty points the product of the distances no longer fits in 128 bits
    let at: Vec<u16> = (0..40u16).map(|k| 1500 * k + 13).collect();
    let poly = Poly::<Scalar>::rand(39, &mut rng(12));
    let shares = shares_at(&poly, &at);
    assert_eq!(Poly::<Scalar>::recover_c0(40, &shares), Ok(*poly.c0()));
    let mut reversed = shares.clone();
    reversed.reverse();
    assert_eq!(Poly::<Scalar>::recover_c0(40, &reversed), Ok(*poly.c0()));
}
