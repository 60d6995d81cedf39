//! Why interpolation at zero recovers the constant term: the Lagrange coefficients of
//! distinct points add up to one, and they undo the evaluation of every polynomial whose
//! degree is below the number of points.

use crate::field::{
    dot, is_prime, lemma_cancel, lemma_field_div, lemma_nonzero_product,
    lemma_residue_of_product, lemma_residue_of_small, lemma_residue_of_sum,
};
use crate::lagrange::{
    denominator, differences, interpolate_at_zero, lagrange_coefficient, lagrange_coefficients,
    lemma_threshold_one, poly_eval, product,
};
use vstd::arithmetic::div_mod::*;
use vstd::prelude::*;

verus! {

/// The sum of the entries of `s`.
pub open spec fn sum(s: Seq<int>) -> int
    decreases s.len(),
{
    if s.len() == 0 {
        0
    } else {
        sum(s.drop_last()) + s.last()
    }
}

/// The points `xs` are nonzero residues modulo `q`, and no two of them are the same.
pub open spec fn valid_points(q: int, xs: Seq<int>) -> bool {
    &&& xs.no_duplicates()
    &&& forall|i: int| 0 <= i < xs.len() ==> 0 < #[trigger] xs[i] < q
}

/// The quotient of the polynomial `c` by `x - a`: its coefficients, lowest degree first.
pub open spec fn quotient(c: Seq<int>, a: int) -> Seq<int>
    decreases c.len(),
{
    if c.len() <= 1 {
        Seq::empty()
    } else {
        seq![poly_eval(c.skip(1), a)] + quotient(c.skip(1), a)
    }
}

/// Congruences may be added up with integer weights.
proof fn lemma_congruent_combination(
    x1: int,
    x2: int,
    y1: int,
    y2: int,
    alpha: int,
    beta: int,
    q: int,
)
    requires
        q > 0,
        x1 % q == x2 % q,
        y1 % q == y2 % q,
    ensures
        (alpha * x1 + beta * y1) % q == (alpha * x2 + beta * y2) % q,
{
    lemma_residue_of_product(alpha, x1, q);
    lemma_residue_of_product(alpha, x2, q);
    lemma_residue_of_product(beta, y1, q);
    lemma_residue_of_product(beta, y2, q);
    lemma_residue_of_sum(alpha * x1, beta * y1, q);
    lemma_residue_of_sum(alpha * x2, beta * y2, q);
}

/// A nonzero integer that is smaller than `q` in size is no multiple of `q`.
proof fn lemma_small_nonzero(d: int, q: int)
    requires
        d != 0,
        -q < d < q,
    ensures
        d % q != 0,
{
    if d > 0 {
        lemma_small_mod(d as nat, q as nat);
    } else {
        lemma_mod_add_multiples_vanish(d, q);
        lemma_small_mod((q + d) as nat, q as nat);
    }
}

/// The product of a sequence, taken from its first entry.
proof fn lemma_product_front(s: Seq<int>)
    requires
        s.len() >= 1,
    ensures
        product(s) == s[0] * product(s.skip(1)),
    decreases s.len(),
{
    if s.len() == 1 {
        assert(s.drop_last() =~= Seq::<int>::empty());
        assert(s.skip(1) =~= Seq::<int>::empty());
        assert(product(s.drop_last()) == 1);
        assert(product(s.skip(1)) == 1);
        assert(1 * s[0] == s[0] * 1);
    } else {
        let front = s.drop_last();
        lemma_product_front(front);
        assert(s.skip(1).drop_last() =~= front.skip(1));
        let rest = product(front.skip(1));
        assert(product(s.skip(1)) == rest * s.last());
        assert((s[0] * rest) * s.last() == s[0] * (rest * s.last())) by (nonlinear_arith);
    }
}

/// The sum of a sequence, taken from its first entry.
proof fn lemma_sum_front(s: Seq<int>)
    requires
        s.len() >= 1,
    ensures
        sum(s) == s[0] + sum(s.skip(1)),
    decreases s.len(),
{
    if s.len() == 1 {
        assert(s.drop_last() =~= Seq::<int>::empty());
        assert(s.skip(1) =~= Seq::<int>::empty());
        assert(sum(s.drop_last()) == 0);
        assert(sum(s.skip(1)) == 0);
    } else {
        let front = s.drop_last();
        lemma_sum_front(front);
        assert(s.skip(1).drop_last() =~= front.skip(1));
    }
}

/// The sum of a sequence of multiples is the multiple of the sum.
proof fn lemma_sum_scale(s: Seq<int>, c: int)
    ensures
        sum(Seq::new(s.len(), |i: int| c * s[i])) == c * sum(s),
    decreases s.len(),
{
    let scaled = Seq::new(s.len(), |i: int| c * s[i]);
    if s.len() == 0 {
        assert(c * 0 == 0);
    } else {
        let front = s.drop_last();
        lemma_sum_scale(front, c);
        assert(scaled.drop_last() =~= Seq::new(front.len(), |i: int| c * front[i]));
        assert(c * sum(front) + c * s.last() == c * (sum(front) + s.last()))
            by (nonlinear_arith);
    }
}

/// Entries that are congruent to a combination of the entries of two other sequences add
/// up to the same combination of their sums.
proof fn lemma_sum_combination(
    t: Seq<int>,
    b: Seq<int>,
    c: Seq<int>,
    alpha: int,
    beta: int,
    q: int,
)
    requires
        q > 0,
        t.len() == b.len(),
        t.len() == c.len(),
        forall|i: int|
            0 <= i < t.len() ==> #[trigger] t[i] % q == (alpha * b[i] + beta * c[i]) % q,
    ensures
        sum(t) % q == (alpha * sum(b) + beta * sum(c)) % q,
    decreases t.len(),
{
    if t.len() == 0 {
        assert(alpha * 0 + beta * 0 == 0);
    } else {
        lemma_sum_combination(t.drop_last(), b.drop_last(), c.drop_last(), alpha, beta, q);
        let st = sum(t.drop_last());
        let sb = sum(b.drop_last());
        let sc = sum(c.drop_last());
        assert(t.last() == t[t.len() - 1]);
        lemma_congruent_combination(
            st,
            alpha * sb + beta * sc,
            t.last(),
            alpha * b.last() + beta * c.last(),
            1,
            1,
            q,
        );
        assert(1 * (alpha * sb + beta * sc) + 1 * (alpha * b.last() + beta * c.last()) == alpha
            * (sb + b.last()) + beta * (sc + c.last())) by (nonlinear_arith);
        assert(1 * st + 1 * t.last() == st + t.last());
    }
}

/// The sum of products, place by place, is the sum of the sequence of the products.
proof fn lemma_dot_is_sum(a: Seq<int>, b: Seq<int>)
    requires
        a.len() == b.len(),
    ensures
        dot(a, b) == sum(Seq::new(a.len(), |i: int| a[i] * b[i])),
    decreases a.len(),
{
    if a.len() > 0 {
        let terms = Seq::new(a.len(), |i: int| a[i] * b[i]);
        let fa = a.drop_last();
        let fb = b.drop_last();
        lemma_dot_is_sum(fa, fb);
        assert(terms.drop_last() =~= Seq::new(fa.len(), |i: int| fa[i] * fb[i]));
    }
}

/// Modulo a prime, a product of nonzero residues is not zero.
proof fn lemma_product_nonzero(q: int, s: Seq<int>)
    requires
        is_prime(q),
        forall|i: int| 0 <= i < s.len() ==> #[trigger] s[i] % q != 0,
    ensures
        product(s) % q != 0,
    decreases s.len(),
{
    if s.len() == 0 {
        lemma_small_mod(1, q as nat);
    } else {
        lemma_product_nonzero(q, s.drop_last());
        assert(s.last() == s[s.len() - 1]);
        lemma_nonzero_product(product(s.drop_last()), s.last(), q);
    }
}

/// Modulo a prime, the denominator of a Lagrange coefficient is not zero.
proof fn lemma_denominator_nonzero(q: int, xs: Seq<int>, x: int)
    requires
        is_prime(q),
        forall|i: int| 0 <= i < xs.len() ==> 0 < #[trigger] xs[i] < q,
        0 < x < q,
    ensures
        denominator(xs, x) % q != 0,
{
    let d = differences(xs, x);
    assert forall|j: int| 0 <= j < d.len() implies #[trigger] d[j] % q != 0 by {
        assert(0 < xs[j] < q);
        lemma_small_nonzero(d[j], q);
    }
    lemma_product_nonzero(q, d);
    lemma_small_nonzero(x, q);
    lemma_nonzero_product(x, product(d), q);
}

/// Modulo a prime, a Lagrange coefficient is a residue, and its product with its
/// denominator is congruent to the product of the points.
proof fn lemma_coefficient(q: int, xs: Seq<int>, x: int)
    requires
        is_prime(q),
        forall|i: int| 0 <= i < xs.len() ==> 0 < #[trigger] xs[i] < q,
        0 < x < q,
    ensures
        0 <= lagrange_coefficient(q, xs, x) < q,
        (lagrange_coefficient(q, xs, x) * denominator(xs, x)) % q == product(xs) % q,
{
    lemma_denominator_nonzero(q, xs, x);
    lemma_field_div(product(xs), denominator(xs, x), q);
}

/// How a quotient changes when its dividend is multiplied by `r` and its divisor by `e`.
proof fn lemma_step(q: int, n: int, d: int, r: int, e: int, lam1: int, lam2: int)
    requires
        is_prime(q),
        d % q != 0,
        (lam1 * d) % q == n % q,
        (lam2 * (d * e)) % q == (n * r) % q,
    ensures
        (r * lam1) % q == (lam2 * e) % q,
{
    lemma_congruent_combination(lam1 * d, n, 0, 0, r, 0, q);
    assert(r * (lam1 * d) + 0 * 0 == (r * lam1) * d) by (nonlinear_arith);
    assert(r * n + 0 * 0 == n * r) by (nonlinear_arith);
    assert(lam2 * (d * e) == (lam2 * e) * d) by (nonlinear_arith);
    lemma_cancel(r * lam1, lam2 * e, d, q);
}

/// The Lagrange coefficient of a point among all points but the last, against its
/// coefficient among all of them.
proof fn lemma_without_last(q: int, xs: Seq<int>, x: int)
    requires
        is_prime(q),
        xs.len() >= 1,
        forall|i: int| 0 <= i < xs.len() ==> 0 < #[trigger] xs[i] < q,
        0 < x < q,
        x != xs.last(),
    ensures
        (xs.last() * lagrange_coefficient(q, xs.drop_last(), x)) % q == (lagrange_coefficient(
            q,
            xs,
            x,
        ) * (xs.last() - x)) % q,
{
    let rest = xs.drop_last();
    let b = xs.last();
    assert(differences(xs, x).drop_last() =~= differences(rest, x));
    assert(differences(xs, x).last() == b - x);
    let pd = product(differences(rest, x));
    assert(product(differences(xs, x)) == pd * (b - x));
    assert(denominator(xs, x) == denominator(rest, x) * (b - x)) by {
        assert(x * (pd * (b - x)) == (x * pd) * (b - x)) by (nonlinear_arith);
    }
    assert(product(xs) == product(rest) * b);
    lemma_coefficient(q, rest, x);
    lemma_coefficient(q, xs, x);
    lemma_denominator_nonzero(q, rest, x);
    lemma_step(
        q,
        product(rest),
        denominator(rest, x),
        b,
        b - x,
        lagrange_coefficient(q, rest, x),
        lagrange_coefficient(q, xs, x),
    );
}

/// The Lagrange coefficient of a point among all points but the first, against its
/// coefficient among all of them.
proof fn lemma_without_first(q: int, xs: Seq<int>, x: int)
    requires
        is_prime(q),
        xs.len() >= 1,
        forall|i: int| 0 <= i < xs.len() ==> 0 < #[trigger] xs[i] < q,
        0 < x < q,
        x != xs[0],
    ensures
        (xs[0] * lagrange_coefficient(q, xs.skip(1), x)) % q == (lagrange_coefficient(q, xs, x)
            * (xs[0] - x)) % q,
{
    let rest = xs.skip(1);
    let a = xs[0];
    assert(differences(xs, x).skip(1) =~= differences(rest, x));
    assert(differences(xs, x)[0] == a - x);
    let pd = product(differences(rest, x));
    lemma_product_front(differences(xs, x));
    lemma_product_front(xs);
    assert(denominator(xs, x) == denominator(rest, x) * (a - x)) by {
        assert(x * ((a - x) * pd) == (x * pd) * (a - x)) by (nonlinear_arith);
    }
    assert(product(xs) == product(rest) * a) by {
        assert(a * product(rest) == product(rest) * a) by (nonlinear_arith);
    }
    assert forall|i: int| 0 <= i < rest.len() implies 0 < #[trigger] rest[i] < q by {
        assert(rest[i] == xs[i + 1]);
    }
    lemma_coefficient(q, rest, x);
    lemma_coefficient(q, xs, x);
    lemma_denominator_nonzero(q, rest, x);
    lemma_step(
        q,
        product(rest),
        denominator(rest, x),
        a,
        a - x,
        lagrange_coefficient(q, rest, x),
        lagrange_coefficient(q, xs, x),
    );
}

/// Division of a polynomial by `x - a`: the polynomial is its value at `a` plus `x - a`
/// times the quotient, which has one coefficient less.
proof fn lemma_quotient(c: Seq<int>, a: int, x: int)
    ensures
        poly_eval(c, x) == poly_eval(c, a) + (x - a) * poly_eval(quotient(c, a), x),
        quotient(c, a).len() == if c.len() == 0 {
            0
        } else {
            c.len() - 1
        },
    decreases c.len(),
{
    let g = quotient(c, a);
    if c.len() == 0 {
        assert((x - a) * 0 == 0);
    } else if c.len() == 1 {
        assert(c.skip(1).len() == 0);
        assert(poly_eval(c.skip(1), x) == 0);
        assert(poly_eval(c.skip(1), a) == 0);
        assert(x * 0 == 0 && a * 0 == 0 && (x - a) * 0 == 0);
    } else {
        let c1 = c.skip(1);
        let g1 = quotient(c1, a);
        lemma_quotient(c1, a, x);
        assert(g.skip(1) =~= g1);
        assert(g[0] == poly_eval(c1, a));
        let fa = poly_eval(c1, a);
        let fx = poly_eval(c1, x);
        let gx = poly_eval(g1, x);
        assert(poly_eval(g, x) == fa + x * gx);
        assert(c[0] + x * fx == (c[0] + a * fa) + (x - a) * (fa + x * gx)) by (nonlinear_arith)
            requires
                fx == fa + (x - a) * gx,
        ;
    }
}

/// The sum of products does not change modulo `q` when the second factors are replaced
/// by congruent ones.
proof fn lemma_dot_congruent(a: Seq<int>, b1: Seq<int>, b2: Seq<int>, q: int)
    requires
        q > 0,
        a.len() == b1.len(),
        a.len() == b2.len(),
        forall|i: int| 0 <= i < a.len() ==> #[trigger] b1[i] % q == b2[i] % q,
    ensures
        dot(a, b1) % q == dot(a, b2) % q,
    decreases a.len(),
{
    if a.len() > 0 {
        lemma_dot_congruent(a.drop_last(), b1.drop_last(), b2.drop_last(), q);
        assert(b1.last() == b1[a.len() - 1]);
        assert(b2.last() == b2[a.len() - 1]);
        lemma_congruent_combination(
            dot(a.drop_last(), b1.drop_last()),
            dot(a.drop_last(), b2.drop_last()),
            b1.last(),
            b2.last(),
            1,
            a.last(),
            q,
        );
        assert(1 * dot(a.drop_last(), b1.drop_last()) == dot(a.drop_last(), b1.drop_last()));
        assert(1 * dot(a.drop_last(), b2.drop_last()) == dot(a.drop_last(), b2.drop_last()));
    }
}

/// Points that are valid stay valid without the first and without the last of them.
proof fn lemma_valid_points_shorter(q: int, xs: Seq<int>)
    requires
        valid_points(q, xs),
        xs.len() >= 1,
    ensures
        valid_points(q, xs.skip(1)),
        valid_points(q, xs.drop_last()),
{
    let f = xs.skip(1);
    let l = xs.drop_last();
    assert forall|i: int, j: int| 0 <= i < f.len() && 0 <= j < f.len() && i != j implies f[i]
        != f[j] by {
        assert(f[i] == xs[i + 1] && f[j] == xs[j + 1]);
    }
    assert forall|i: int| 0 <= i < f.len() implies 0 < #[trigger] f[i] < q by {
        assert(f[i] == xs[i + 1]);
    }
    assert forall|i: int, j: int| 0 <= i < l.len() && 0 <= j < l.len() && i != j implies l[i]
        != l[j] by {
        assert(l[i] == xs[i] && l[j] == xs[j]);
    }
    assert forall|i: int| 0 <= i < l.len() implies 0 < #[trigger] l[i] < q by {
        assert(l[i] == xs[i]);
    }
}

/// Modulo a prime, the Lagrange coefficients of valid points add up to one.
pub proof fn lemma_coefficients_sum_to_one(q: int, xs: Seq<int>)
    requires
        is_prime(q),
        valid_points(q, xs),
        xs.len() >= 1,
    ensures
        sum(lagrange_coefficients(q, xs)) % q == 1,
    decreases xs.len(),
{
    let t = xs.len() as int;
    let lam = lagrange_coefficients(q, xs);
    lemma_small_mod(1, q as nat);
    if t == 1 {
        assert(xs =~= seq![xs[0]]);
        lemma_threshold_one(q, xs[0], 0);
        assert(lam.drop_last() =~= Seq::<int>::empty());
        assert(sum(lam.drop_last()) == 0);
        assert(sum(lam) == 0 + 1);
    } else {
        let a = xs[0];
        let b = xs.last();
        let first_off = xs.skip(1);
        let last_off = xs.drop_last();
        lemma_valid_points_shorter(q, xs);
        lemma_coefficients_sum_to_one(q, first_off);
        lemma_coefficients_sum_to_one(q, last_off);
        let lf = lagrange_coefficients(q, first_off);
        let ll = lagrange_coefficients(q, last_off);
        let tt = Seq::new(t as nat, |i: int| (a - b) * lam[i]);
        let bb = Seq::new(
            t as nat,
            |i: int|
                if i >= 1 {
                    lf[i - 1]
                } else {
                    0
                },
        );
        let cc = Seq::new(
            t as nat,
            |i: int|
                if i < t - 1 {
                    ll[i]
                } else {
                    0
                },
        );
        assert forall|i: int| 0 <= i < t implies #[trigger] tt[i] % q == (a * bb[i] + (-b)
            * cc[i]) % q by {
            let x = xs[i];
            let l = lagrange_coefficient(q, xs, x);
            assert(lam[i] == l);
            assert(0 < x < q);
            if i == 0 {
                lemma_without_last(q, xs, x);
                let l0 = lagrange_coefficient(q, last_off, x);
                assert(last_off[0] == x);
                assert(ll[0] == l0);
                lemma_congruent_combination(l * (b - a), b * l0, 0, 0, -1, 0, q);
                assert((-1) * (l * (b - a)) + 0 * 0 == (a - b) * l) by (nonlinear_arith);
                assert((-1) * (b * l0) + 0 * 0 == a * 0 + (-b) * l0) by (nonlinear_arith);
            } else if i == t - 1 {
                lemma_without_first(q, xs, x);
                let l1 = lagrange_coefficient(q, first_off, x);
                assert(first_off[t - 2] == x);
                assert(lf[t - 2] == l1);
                assert((a - b) * l == l * (a - b)) by (nonlinear_arith);
                assert(a * l1 + (-b) * 0 == a * l1) by (nonlinear_arith);
            } else {
                lemma_without_last(q, xs, x);
                lemma_without_first(q, xs, x);
                let l0 = lagrange_coefficient(q, last_off, x);
                let l1 = lagrange_coefficient(q, first_off, x);
                assert(last_off[i] == x);
                assert(first_off[i - 1] == x);
                assert(ll[i] == l0);
                assert(lf[i - 1] == l1);
                lemma_congruent_combination(a * l1, l * (a - x), b * l0, l * (b - x), 1, -1, q);
                assert(1 * (a * l1) + (-1) * (b * l0) == a * l1 + (-b) * l0) by (nonlinear_arith);
                assert(1 * (l * (a - x)) + (-1) * (l * (b - x)) == (a - b) * l)
                    by (nonlinear_arith);
            }
        }
        lemma_sum_combination(tt, bb, cc, a, -b, q);
        lemma_sum_scale(lam, a - b);
        assert(tt =~= Seq::new(lam.len(), |i: int| (a - b) * lam[i]));
        lemma_sum_front(bb);
        assert(bb.skip(1) =~= lf);
        assert(cc.drop_last() =~= ll);
        assert(sum(bb) == sum(lf));
        assert(sum(cc) == sum(ll));
        lemma_congruent_combination(sum(lf), 1, sum(ll), 1, a, -b, q);
        assert(a * 1 + (-b) * 1 == 1 * (a - b)) by (nonlinear_arith);
        assert((a - b) * sum(lam) == sum(lam) * (a - b)) by (nonlinear_arith);
        assert(a != b);
        lemma_small_nonzero(a - b, q);
        lemma_cancel(sum(lam), 1, a - b, q);
    }
}

/// The values of the polynomial `c` at the points `xs`.
pub open spec fn evaluations(c: Seq<int>, xs: Seq<int>) -> Seq<int> {
    Seq::new(xs.len(), |i: int| poly_eval(c, xs[i]))
}

/// Modulo a prime, the Lagrange coefficients of valid points turn the values of a
/// polynomial with no more coefficients than there are points into its value at zero.
pub proof fn lemma_interpolation(q: int, xs: Seq<int>, c: Seq<int>)
    requires
        is_prime(q),
        valid_points(q, xs),
        c.len() <= xs.len(),
    ensures
        dot(lagrange_coefficients(q, xs), evaluations(c, xs)) % q == poly_eval(c, 0) % q,
    decreases xs.len(),
{
    let t = xs.len() as int;
    let lam = lagrange_coefficients(q, xs);
    let ev = evaluations(c, xs);
    if t == 0 {
        assert(c.len() == 0);
    } else {
        let a = xs.last();
        let rest = xs.drop_last();
        let g = quotient(c, a);
        let fa = poly_eval(c, a);
        let g0 = poly_eval(g, 0);
        lemma_quotient(c, a, 0);
        lemma_valid_points_shorter(q, xs);
        lemma_interpolation(q, rest, g);
        lemma_coefficients_sum_to_one(q, xs);
        lemma_small_mod(1, q as nat);
        let lr = lagrange_coefficients(q, rest);
        let eg = evaluations(g, rest);
        let m = t - 1;
        let tt = Seq::new(m as nat, |i: int| lam[i] * ev[i]);
        let bb = lam.drop_last();
        let cc = Seq::new(m as nat, |i: int| lr[i] * eg[i]);
        lemma_dot_is_sum(lam.drop_last(), ev.drop_last());
        assert(tt =~= Seq::new(
            lam.drop_last().len(),
            |i: int| lam.drop_last()[i] * ev.drop_last()[i],
        ));
        lemma_dot_is_sum(lr, eg);
        assert(cc =~= Seq::new(lr.len(), |i: int| lr[i] * eg[i]));
        assert forall|i: int| 0 <= i < m implies #[trigger] tt[i] % q == (fa * bb[i] + (-a)
            * cc[i]) % q by {
            let x = xs[i];
            let l = lagrange_coefficient(q, xs, x);
            let l0 = lagrange_coefficient(q, rest, x);
            let gx = poly_eval(g, x);
            assert(0 < x < q);
            assert(rest[i] == x);
            assert(lam[i] == l && lr[i] == l0 && eg[i] == gx && bb[i] == l);
            lemma_quotient(c, a, x);
            lemma_without_last(q, xs, x);
            lemma_congruent_combination(l, l, l * (a - x), a * l0, fa, -gx, q);
            assert(fa * l + (-gx) * (l * (a - x)) == l * (fa + (x - a) * gx))
                by (nonlinear_arith);
            assert(fa * l + (-gx) * (a * l0) == fa * l + (-a) * (l0 * gx))
                by (nonlinear_arith);
        }
        lemma_sum_combination(tt, bb, cc, fa, -a, q);
        let sum_t = sum(tt);
        let sum_b = sum(bb);
        let sum_c = sum(cc);
        let last = lam.last();
        assert(ev.last() == fa);
        assert(dot(lam, ev) == sum_t + last * fa);
        assert(sum(lam) == sum_b + last);
        lemma_congruent_combination(
            sum_t,
            fa * sum_b + (-a) * sum_c,
            last * fa,
            last * fa,
            1,
            1,
            q,
        );
        assert(1 * sum_t + 1 * (last * fa) == dot(lam, ev));
        assert(1 * (fa * sum_b + (-a) * sum_c) + 1 * (last * fa) == fa * (sum_b + last) + (-a)
            * sum_c) by (nonlinear_arith);
        lemma_congruent_combination(sum(lam), 1, sum_c, g0, fa, -a, q);
        assert(fa * 1 + (-a) * g0 == fa + (0 - a) * g0) by (nonlinear_arith);
    }
}

/// The round trip: modulo a prime, interpolating at zero the values that a polynomial
/// takes at valid points, at least as many as it has coefficients, gives its value at
/// zero, which is its constant term.
pub proof fn lemma_round_trip(q: int, c: Seq<int>, xs: Seq<int>, ys: Seq<int>)
    requires
        is_prime(q),
        valid_points(q, xs),
        c.len() <= xs.len(),
        ys.len() == xs.len(),
        forall|i: int| 0 <= i < xs.len() ==> #[trigger] ys[i] == poly_eval(c, xs[i]) % q,
    ensures
        interpolate_at_zero(q, xs, ys) == poly_eval(c, 0) % q,
        c.len() >= 1 ==> interpolate_at_zero(q, xs, ys) == c[0] % q,
{
    let lam = lagrange_coefficients(q, xs);
    let ev = evaluations(c, xs);
    lemma_interpolation(q, xs, c);
    assert forall|i: int| 0 <= i < lam.len() implies #[trigger] ys[i] % q == ev[i] % q by {
        lemma_mod_twice(poly_eval(c, xs[i]), q);
    }
    lemma_dot_congruent(lam, ys, ev, q);
    if c.len() >= 1 {
        assert(poly_eval(c, 0) == c[0]) by {
            assert(0 * poly_eval(c.skip(1), 0) == 0);
        }
    }
}

} // verus!
