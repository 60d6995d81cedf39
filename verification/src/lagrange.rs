//! What evaluation and interpolation compute, over the integers and modulo a prime.

use crate::field::{
    dot, field_div, is_prime, lemma_dot_push, lemma_field_inv, lemma_residue_of_small,
};
use vstd::arithmetic::div_mod::*;
use vstd::multiset::Multiset;
use vstd::seq_lib::*;
use vstd::prelude::*;

verus! {

/// The value at `x` of the polynomial with the coefficients `c`, lowest degree first.
pub open spec fn poly_eval(c: Seq<int>, x: int) -> int
    decreases c.len(),
{
    if c.len() == 0 {
        0
    } else {
        c[0] + x * poly_eval(c.skip(1), x)
    }
}

/// The product of the entries of `s`.
pub open spec fn product(s: Seq<int>) -> int
    decreases s.len(),
{
    if s.len() == 0 {
        1
    } else {
        product(s.drop_last()) * s.last()
    }
}

/// The distance from `x` to each entry of `xs`, with one in the place of `x` itself.
pub open spec fn differences(xs: Seq<int>, x: int) -> Seq<int> {
    Seq::new(
        xs.len(),
        |j: int|
            if xs[j] == x {
                1
            } else {
                xs[j] - x
            },
    )
}

/// The denominator of the Lagrange coefficient of the point `x` among the points `xs`:
/// `x` times the distances from `x` to the other points.
pub open spec fn denominator(xs: Seq<int>, x: int) -> int {
    x * product(differences(xs, x))
}

/// The Lagrange coefficient at zero of the point `x` among the points `xs`, modulo `q`:
/// the product of the other points, divided by the product of their distances from `x`.
pub open spec fn lagrange_coefficient(q: int, xs: Seq<int>, x: int) -> int {
    field_div(product(xs), denominator(xs, x), q)
}

/// The Lagrange coefficients at zero of the points `xs`, in their order.
pub open spec fn lagrange_coefficients(q: int, xs: Seq<int>) -> Seq<int> {
    Seq::new(xs.len(), |i: int| lagrange_coefficient(q, xs, xs[i]))
}

/// The value at zero, modulo `q`, of the polynomial of lowest degree that takes the
/// values `ys` at the points `xs`.
pub open spec fn interpolate_at_zero(q: int, xs: Seq<int>, ys: Seq<int>) -> int {
    dot(lagrange_coefficients(q, xs), ys) % q
}

/// The size of an integer without its sign.
pub open spec fn magnitude(p: int) -> int {
    if p < 0 {
        -p
    } else {
        p
    }
}

/// The product of a sequence with one more entry.
pub proof fn lemma_product_push(s: Seq<int>, v: int)
    ensures
        product(s.push(v)) == product(s) * v,
{
    assert(s.push(v).drop_last() =~= s);
}

/// The distances over one more point.
pub proof fn lemma_differences_take(xs: Seq<int>, k: int, x: int)
    requires
        0 <= k < xs.len(),
    ensures
        differences(xs.take(k + 1), x) == differences(xs.take(k), x).push(
            if xs[k] == x {
                1
            } else {
                xs[k] - x
            },
        ),
{
    assert(differences(xs.take(k + 1), x) =~= differences(xs.take(k), x).push(
        if xs[k] == x {
            1
        } else {
            xs[k] - x
        },
    ));
}

/// The sign and the size of a product by a nonzero factor.
pub proof fn lemma_signed_product(p: int, d: int)
    requires
        p != 0,
        d != 0,
    ensures
        p * d != 0,
        (p * d < 0) == ((p < 0) != (d < 0)),
        magnitude(p * d) == magnitude(p) * magnitude(d),
{
    assert(p * d != 0 && ((p * d < 0) == ((p < 0) != (d < 0)))) by (nonlinear_arith)
        requires
            p != 0,
            d != 0,
    ;
    assert((-p) * d == -(p * d) && p * (-d) == -(p * d) && (-p) * (-d) == p * d)
        by (nonlinear_arith);
}

/// The points `xs` paired with the values `ys`.
pub open spec fn points(xs: Seq<int>, ys: Seq<int>) -> Seq<(int, int)> {
    Seq::new(xs.len(), |i: int| (xs[i], ys[i]))
}

/// Folding a sequence of pairs by multiplying with `g` of each first component gives the
/// product of those.
proof fn lemma_fold_product(
    pairs: Seq<(int, int)>,
    g: spec_fn(int) -> int,
    f: spec_fn(int, (int, int)) -> int,
)
    requires
        forall|b: int, p: (int, int)| #[trigger] f(b, p) == b * g(p.0),
    ensures
        pairs.fold_left(1, f) == product(Seq::new(pairs.len(), |i: int| g(pairs[i].0))),
    decreases pairs.len(),
{
    if pairs.len() > 0 {
        let all = Seq::new(pairs.len(), |i: int| g(pairs[i].0));
        let front = pairs.drop_last();
        lemma_fold_product(front, g, f);
        assert(all.drop_last() =~= Seq::new(front.len(), |i: int| g(front[i].0)));
    }
}

/// Folding a sequence of pairs by adding `w` of each first component times the second
/// gives the sum of those products.
proof fn lemma_fold_dot(
    pairs: Seq<(int, int)>,
    w: spec_fn(int) -> int,
    f: spec_fn(int, (int, int)) -> int,
)
    requires
        forall|b: int, p: (int, int)| #[trigger] f(b, p) == b + w(p.0) * p.1,
    ensures
        pairs.fold_left(0, f) == dot(
            Seq::new(pairs.len(), |i: int| w(pairs[i].0)),
            Seq::new(pairs.len(), |i: int| pairs[i].1),
        ),
    decreases pairs.len(),
{
    if pairs.len() > 0 {
        let weights = Seq::new(pairs.len(), |i: int| w(pairs[i].0));
        let values = Seq::new(pairs.len(), |i: int| pairs[i].1);
        let front = pairs.drop_last();
        lemma_fold_dot(front, w, f);
        assert(weights.drop_last() =~= Seq::new(front.len(), |i: int| w(front[i].0)));
        assert(values.drop_last() =~= Seq::new(front.len(), |i: int| front[i].1));
    }
}

/// The product of `g` over the points does not depend on the order of the pairs.
proof fn lemma_product_of_permutation(
    xs1: Seq<int>,
    ys1: Seq<int>,
    xs2: Seq<int>,
    ys2: Seq<int>,
    g: spec_fn(int) -> int,
)
    requires
        points(xs1, ys1).to_multiset() == points(xs2, ys2).to_multiset(),
    ensures
        product(Seq::new(xs1.len(), |i: int| g(xs1[i]))) == product(
            Seq::new(xs2.len(), |i: int| g(xs2[i])),
        ),
{
    let f = |b: int, p: (int, int)| b * g(p.0);
    let first = points(xs1, ys1);
    let second = points(xs2, ys2);
    assert forall|x: (int, int), y: (int, int), v: int| #[trigger]
        f(f(v, x), y) == f(f(v, y), x) by {
        assert(v * g(x.0) * g(y.0) == v * g(y.0) * g(x.0)) by (nonlinear_arith);
    }
    lemma_fold_left_permutation(first, second, f, 1);
    lemma_fold_product(first, g, f);
    lemma_fold_product(second, g, f);
    assert(Seq::new(first.len(), |i: int| g(first[i].0)) =~= Seq::new(
        xs1.len(),
        |i: int| g(xs1[i]),
    ));
    assert(Seq::new(second.len(), |i: int| g(second[i].0)) =~= Seq::new(
        xs2.len(),
        |i: int| g(xs2[i]),
    ));
}

/// Folding a sequence by inserting `f` of each entry into a multiset collects the
/// entries of the mapped sequence.
proof fn lemma_fold_collects<A, B>(
    s: Seq<A>,
    f: spec_fn(A) -> B,
    g: spec_fn(Multiset<B>, A) -> Multiset<B>,
)
    requires
        forall|m: Multiset<B>, a: A| #[trigger] g(m, a) == m.insert(f(a)),
    ensures
        s.fold_left(Multiset::<B>::empty(), g) == Seq::new(s.len(), |i: int| f(s[i])).to_multiset(),
    decreases s.len(),
{
    broadcast use vstd::seq_lib::group_to_multiset_ensures;

    let mapped = Seq::new(s.len(), |i: int| f(s[i]));
    if s.len() == 0 {
        assert(mapped.to_multiset() =~= Multiset::<B>::empty());
    } else {
        let front = s.drop_last();
        let mapped_front = Seq::new(front.len(), |i: int| f(front[i]));
        lemma_fold_collects(front, f, g);
        assert(mapped =~= mapped_front.push(f(s.last())));
        to_multiset_build(mapped_front, f(s.last()));
    }
}

/// Two sequences with the same entries, in whatever order, still have the same entries
/// after a function was applied to each.
pub proof fn lemma_map_of_permutation<A, B>(s1: Seq<A>, s2: Seq<A>, f: spec_fn(A) -> B)
    requires
        s1.to_multiset() == s2.to_multiset(),
    ensures
        Seq::new(s1.len(), |i: int| f(s1[i])).to_multiset() == Seq::new(
            s2.len(),
            |i: int| f(s2[i]),
        ).to_multiset(),
{
    let g = |m: Multiset<B>, a: A| m.insert(f(a));
    assert forall|x: A, y: A, v: Multiset<B>| #[trigger] g(g(v, x), y) == g(g(v, y), x) by {
        broadcast use vstd::multiset::group_multiset_axioms;

        assert(v.insert(f(x)).insert(f(y)) =~= v.insert(f(y)).insert(f(x)));
    }
    lemma_fold_left_permutation(s1, s2, g, Multiset::<B>::empty());
    lemma_fold_collects(s1, f, g);
    lemma_fold_collects(s2, f, g);
}

/// Interpolation does not depend on the order of the shares: the same pairs of a point
/// and a value, in any order, give the same value at zero.
pub proof fn lemma_order_invariance(
    q: int,
    xs1: Seq<int>,
    ys1: Seq<int>,
    xs2: Seq<int>,
    ys2: Seq<int>,
)
    requires
        xs1.len() == ys1.len(),
        xs2.len() == ys2.len(),
        points(xs1, ys1).to_multiset() == points(xs2, ys2).to_multiset(),
    ensures
        interpolate_at_zero(q, xs1, ys1) == interpolate_at_zero(q, xs2, ys2),
{
    let first = points(xs1, ys1);
    let second = points(xs2, ys2);
    // the numerator
    let same = |v: int| v;
    lemma_product_of_permutation(xs1, ys1, xs2, ys2, same);
    assert(Seq::new(xs1.len(), |i: int| same(xs1[i])) =~= xs1);
    assert(Seq::new(xs2.len(), |i: int| same(xs2[i])) =~= xs2);
    // the denominator of every point
    assert forall|x: int| lagrange_coefficient(q, xs1, x) == lagrange_coefficient(q, xs2, x) by {
        let distance = |v: int|
            if v == x {
                1
            } else {
                v - x
            };
        lemma_product_of_permutation(xs1, ys1, xs2, ys2, distance);
        assert(Seq::new(xs1.len(), |i: int| distance(xs1[i])) =~= differences(xs1, x));
        assert(Seq::new(xs2.len(), |i: int| distance(xs2[i])) =~= differences(xs2, x));
    }
    // the weighted sum
    let w = |x: int| lagrange_coefficient(q, xs1, x);
    let f = |b: int, p: (int, int)| b + w(p.0) * p.1;
    assert forall|x: (int, int), y: (int, int), v: int| #[trigger]
        f(f(v, x), y) == f(f(v, y), x) by {
    }
    lemma_fold_left_permutation(first, second, f, 0);
    lemma_fold_dot(first, w, f);
    lemma_fold_dot(second, w, f);
    assert(Seq::new(first.len(), |i: int| w(first[i].0)) =~= lagrange_coefficients(q, xs1));
    assert(Seq::new(second.len(), |i: int| w(second[i].0)) =~= lagrange_coefficients(q, xs2));
    assert(Seq::new(first.len(), |i: int| first[i].1) =~= ys1);
    assert(Seq::new(second.len(), |i: int| second[i].1) =~= ys2);
}

/// With the threshold one, the one Lagrange coefficient is the multiplicative identity,
/// and interpolation gives the value of the one share back.
pub proof fn lemma_threshold_one(q: int, x: int, y: int)
    requires
        is_prime(q),
        0 < x < q,
        0 <= y < q,
    ensures
        lagrange_coefficients(q, seq![x]) == seq![1int],
        interpolate_at_zero(q, seq![x], seq![y]) == y,
{
    let xs = seq![x];
    let none = Seq::<int>::empty();
    assert(xs =~= none.push(x));
    lemma_product_push(none, x);
    assert(product(xs) == 1 * x);
    assert(differences(xs, x) =~= none.push(1));
    lemma_product_push(none, 1);
    assert(product(xs) == x);
    assert(denominator(xs, x) == x) by {
        assert(x * (1 * 1) == x);
    }
    lemma_residue_of_small(x, q);
    lemma_field_inv(x, q);
    assert(lagrange_coefficient(q, xs, x) == 1);
    assert(lagrange_coefficients(q, xs) =~= seq![1int]);
    assert(seq![1int] =~= none.push(1));
    assert(seq![y] =~= none.push(y));
    lemma_dot_push(none, none, 1, y);
    assert(dot(seq![1int], seq![y]) == 0 + 1 * y);
    lemma_residue_of_small(y, q);
}

} // verus!
