//! Arithmetic of the integers modulo a prime, as far as interpolation needs it.

use vstd::arithmetic::div_mod::*;
use vstd::prelude::*;

verus! {

/// `q` is a prime number.
pub open spec fn is_prime(q: int) -> bool {
    &&& q >= 2
    &&& forall|d: int| 1 < d < q ==> #[trigger] (q % d) != 0
}

/// The inverse modulo `q` of the residue `r`: the residue whose product with `r` is
/// congruent to one.
pub open spec fn residue_inv(r: int, q: int) -> int {
    choose|c: int| 0 <= c < q && #[trigger] ((c * r) % q) == 1
}

/// The inverse of `b` modulo `q`, which depends on the residue of `b` alone.
pub open spec fn field_inv(b: int, q: int) -> int {
    residue_inv(b % q, q)
}

/// The quotient of `a` by `b` modulo `q`.
pub open spec fn field_div(a: int, b: int, q: int) -> int {
    (a * field_inv(b, q)) % q
}

/// The sum of the products of the entries of `a` with those of `b`, place by place.
pub open spec fn dot(a: Seq<int>, b: Seq<int>) -> int
    recommends
        a.len() == b.len(),
    decreases a.len(),
{
    if a.len() == 0 || b.len() == 0 {
        0
    } else {
        dot(a.drop_last(), b.drop_last()) + a.last() * b.last()
    }
}

/// The sum of products over sequences with one more entry each.
pub proof fn lemma_dot_push(a: Seq<int>, b: Seq<int>, u: int, v: int)
    ensures
        dot(a.push(u), b.push(v)) == dot(a, b) + u * v,
{
    assert(a.push(u).drop_last() =~= a);
    assert(b.push(v).drop_last() =~= b);
}

/// Reducing twice is reducing once.
pub proof fn lemma_residue_of_residue(x: int, q: int)
    requires
        q > 0,
    ensures
        (x % q) % q == x % q,
        0 <= x % q < q,
{
    lemma_mod_twice(x, q);
    lemma_mod_bound(x, q);
}

/// A sum may be reduced before or after adding.
pub proof fn lemma_residue_of_sum(a: int, b: int, q: int)
    requires
        q > 0,
    ensures
        ((a + b) % q) % q == ((a % q) + (b % q)) % q,
        (a + b) % q == ((a % q) + (b % q)) % q,
{
    lemma_add_mod_noop(a, b, q);
    lemma_mod_twice(a + b, q);
}

/// A product may be reduced before or after multiplying.
pub proof fn lemma_residue_of_product(a: int, b: int, q: int)
    requires
        q > 0,
    ensures
        ((a * b) % q) % q == ((a % q) * (b % q)) % q,
        (a * b) % q == ((a % q) * (b % q)) % q,
        (a * b) % q == (a * (b % q)) % q,
        (a * b) % q == ((a % q) * b) % q,
{
    lemma_mul_mod_noop_general(a, b, q);
    lemma_mod_twice(a * b, q);
}

/// A negation may be reduced before or after negating.
pub proof fn lemma_residue_of_negation(a: int, q: int)
    requires
        q > 0,
    ensures
        ((-a) % q) % q == (-(a % q)) % q,
        (-a) % q == (-(a % q)) % q,
{
    lemma_sub_mod_noop(0, a, q);
    lemma_small_mod(0, q as nat);
    lemma_mod_twice(-a, q);
    assert(0 - a == -a);
    assert(0 - (a % q) == -(a % q));
}

/// A residue stands for itself.
pub proof fn lemma_residue_of_small(x: int, q: int)
    requires
        0 <= x < q,
    ensures
        x % q == x,
{
    lemma_small_mod(x as nat, q as nat);
}

/// Congruent integers stay congruent when both are multiplied by the same factor.
pub proof fn lemma_scaled_congruence(a: int, b: int, d: int, q: int)
    requires
        q > 0,
        a % q == b % q,
    ensures
        (a * d) % q == (b * d) % q,
{
    lemma_residue_of_product(a, d, q);
    lemma_residue_of_product(b, d, q);
}

/// The negation of a nonzero residue is not zero.
pub proof fn lemma_negation_nonzero(v: int, q: int)
    requires
        q > 0,
        v % q != 0,
    ensures
        (-v) % q != 0,
{
    if (-v) % q == 0 {
        lemma_residue_of_negation(-v, q);
        assert(-(-v) == v);
        lemma_small_mod(0, q as nat);
    }
}

/// A quotient depends on the residues of the dividend and of the divisor alone.
pub proof fn lemma_field_div_residues(a: int, b: int, q: int)
    requires
        q > 0,
    ensures
        field_div(a % q, b % q, q) == field_div(a, b, q),
{
    lemma_residue_of_residue(b, q);
    lemma_residue_of_product(a, field_inv(b, q), q);
}

/// Modulo a prime, every nonzero residue has an inverse.
pub proof fn lemma_residue_inverse_exists(r: int, q: int)
    requires
        is_prime(q),
        0 < r < q,
    ensures
        exists|c: int| 0 <= c < q && #[trigger] ((c * r) % q) == 1,
    decreases r,
{
    if r == 1 {
        lemma_small_mod(1, q as nat);
        assert(1 * 1 == 1);
        assert(0 <= 1 < q && ((1 * r) % q) == 1);
    } else {
        // q == k * r + s with 0 < s < r, and an inverse of s gives one of r
        let s = q % r;
        let k = q / r;
        lemma_fundamental_div_mod(q, r);
        lemma_mod_bound(q, r);
        lemma_residue_inverse_exists(s, q);
        let cs = choose|c: int| 0 <= c < q && #[trigger] ((c * s) % q) == 1;
        let c = (-(cs * k)) % q;
        lemma_mod_bound(-(cs * k), q);
        lemma_residue_of_product(-(cs * k), r, q);
        assert((-(cs * k)) * r == q * (-cs) + cs * s) by (nonlinear_arith)
            requires
                q == r * k + s,
        ;
        lemma_mod_multiples_vanish(-cs, cs * s, q);
        assert(0 <= c < q && ((c * r) % q) == 1);
    }
}

/// Modulo a prime, the inverse of a nonzero residue is a residue whose product with it is
/// congruent to one.
pub proof fn lemma_field_inv(b: int, q: int)
    requires
        is_prime(q),
        b % q != 0,
    ensures
        0 <= field_inv(b, q) < q,
        (field_inv(b, q) * b) % q == 1,
        (b * field_inv(b, q)) % q == 1,
{
    lemma_mod_bound(b, q);
    lemma_residue_inverse_exists(b % q, q);
    lemma_residue_of_product(field_inv(b, q), b, q);
    assert(field_inv(b, q) * b == b * field_inv(b, q)) by (nonlinear_arith);
}

/// Modulo a prime, a nonzero factor can be cancelled from a congruence.
pub proof fn lemma_cancel(a: int, b: int, d: int, q: int)
    requires
        is_prime(q),
        d % q != 0,
        (a * d) % q == (b * d) % q,
    ensures
        a % q == b % q,
{
    let inv = field_inv(d, q);
    lemma_field_inv(d, q);
    lemma_scaled_congruence(a * d, b * d, inv, q);
    assert(a * d * inv == a * (d * inv) && b * d * inv == b * (d * inv)) by (nonlinear_arith);
    lemma_residue_of_product(a, d * inv, q);
    lemma_residue_of_product(b, d * inv, q);
    assert(a * 1 == a && b * 1 == b);
}

/// Modulo a prime, a product of nonzero residues is not zero.
pub proof fn lemma_nonzero_product(a: int, b: int, q: int)
    requires
        is_prime(q),
        a % q != 0,
        b % q != 0,
    ensures
        (a * b) % q != 0,
{
    if (a * b) % q == 0 {
        assert(0 * b == 0);
        lemma_small_mod(0, q as nat);
        lemma_cancel(a, 0, b, q);
    }
}

/// Modulo a prime, a quotient times its divisor is congruent to the dividend.
pub proof fn lemma_field_div(a: int, b: int, q: int)
    requires
        is_prime(q),
        b % q != 0,
    ensures
        0 <= field_div(a, b, q) < q,
        (field_div(a, b, q) * b) % q == a % q,
{
    let inv = field_inv(b, q);
    lemma_field_inv(b, q);
    lemma_mod_bound(a * inv, q);
    lemma_residue_of_product(a * inv, b, q);
    assert(a * inv * b == a * (inv * b)) by (nonlinear_arith);
    lemma_residue_of_product(a, inv * b, q);
    assert(a * 1 == a);
}

} // verus!
