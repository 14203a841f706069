//! Algebraic laws of the field operations.
use crate::fermat::{is_prime, lemma_fermat_little};
use crate::field::{neg_exponent, FieldElement};
use crate::wide::{lemma_of_nat_value, lemma_word_value, U256};
use vstd::arithmetic::div_mod::{
    lemma_fundamental_div_mod, lemma_mod_bound, lemma_mod_self_0, lemma_mul_mod_noop,
    lemma_mul_mod_noop_left, lemma_mul_mod_noop_right, lemma_small_mod, lemma_sub_mod_noop,
};
use vstd::arithmetic::power::{
    lemma1_pow, lemma_pow1, lemma_pow_adds, lemma_pow_mod_noop, lemma_pow_multiplies, pow,
};
use vstd::prelude::*;

verus! {

/// The element `1` of the field of order `p`.
pub open spec fn one(p: U256) -> FieldElement {
    FieldElement { number: U256 { hi: 0, lo: 1 }, prime: p }
}

/// The element that `x` names in the field of order `p` is well formed, and
/// its number is `x mod p`.
pub proof fn lemma_of_canonical(x: int, p: U256)
    requires
        p.value() > 0,
    ensures
        FieldElement::of(x, p).wf(),
        FieldElement::of(x, p).number.value() == x % (p.value() as int),
{
    lemma_mod_bound(x, p.value() as int);
    lemma_word_value(p);
    lemma_of_nat_value((x % (p.value() as int)) as nat);
}

/// A well-formed element is the element its number names.
proof fn lemma_of_residue(a: FieldElement, x: int)
    requires
        a.wf(),
        x % (a.prime.value() as int) == a.number.value(),
    ensures
        FieldElement::of(x, a.prime) == a,
{
    lemma_word_value(a.number);
}

/// Subtracting the element that was added gives back the first element:
/// `(a + b) - b == a`.
pub proof fn lemma_add_sub_round_trip(a: FieldElement, b: FieldElement)
    requires
        a.wf(),
        b.wf(),
        a.prime == b.prime,
    ensures
        a.sum(b).difference(b) == a,
{
    let p = a.prime.value() as int;
    let x = a.number.value() as int;
    let y = b.number.value() as int;
    lemma_of_canonical(x + y, a.prime);
    lemma_sub_mod_noop(x + y, y, p);
    lemma_small_mod(b.number.value(), a.prime.value());
    lemma_small_mod(a.number.value(), a.prime.value());
    lemma_of_residue(a, a.sum(b).number.value() - y);
}

/// For a prime `p` and `0 < b < p`: `(c * b^(p - 2)) * b == c (mod p)` for a
/// residue `c`.
proof fn lemma_inverse_cancels(p: nat, c: nat, b: nat)
    requires
        is_prime(p),
        c < p,
        0 < b < p,
    ensures
        (c * pow(b as int, (p - 2) as nat) * b) % (p as int) == c,
{
    let q = pow(b as int, (p - 2) as nat);
    let f = pow(b as int, (p - 1) as nat);
    lemma_pow1(b as int);
    lemma_pow_adds(b as int, (p - 2) as nat, 1);
    assert(c * q * b == c * f) by (nonlinear_arith)
        requires
            f == q * b,
    ;
    lemma_fermat_little(p, b);
    lemma_mul_mod_noop_right(c as int, f, p as int);
    lemma_small_mod(c, p);
}

/// Fermat's little theorem on field elements: `a^(p - 1) == 1` for every
/// nonzero `a` of a field of prime order `p`.
pub proof fn lemma_pow_order_minus_one(a: FieldElement)
    requires
        a.wf(),
        is_prime(a.prime.value()),
        a.number.value() != 0,
    ensures
        a.power((a.prime.value() - 1) as nat) == one(a.prime),
{
    lemma_fermat_little(a.prime.value(), a.number.value());
    lemma_of_residue(one(a.prime), pow(a.number.value() as int, (a.prime.value() - 1) as nat));
}

/// Dividing by `b` and multiplying by `b` cancel: `(a / b) * b == a` for
/// every nonzero `b` of a field of prime order.
pub proof fn lemma_div_mul_round_trip(a: FieldElement, b: FieldElement)
    requires
        a.wf(),
        b.wf(),
        a.prime == b.prime,
        is_prime(a.prime.value()),
        b.number.value() != 0,
    ensures
        a.quotient(b).product(b) == a,
{
    let p = a.prime.value() as int;
    let x = a.number.value() as int;
    let y = b.number.value() as int;
    let q = pow(y, (a.prime.value() - 2) as nat);
    lemma_of_canonical(q, a.prime);
    lemma_of_canonical(x * (q % p), a.prime);
    lemma_mul_mod_noop_right(x, q, p);
    lemma_mul_mod_noop_left(x * q, y, p);
    lemma_inverse_cancels(a.prime.value(), a.number.value(), b.number.value());
    lemma_of_residue(a, a.quotient(b).number.value() * y);
}

/// Multiplying by `b` and dividing by `b` cancel: `(a * b) / b == a` for
/// every nonzero `b` of a field of prime order.
pub proof fn lemma_mul_div_round_trip(a: FieldElement, b: FieldElement)
    requires
        a.wf(),
        b.wf(),
        a.prime == b.prime,
        is_prime(a.prime.value()),
        b.number.value() != 0,
    ensures
        a.product(b).quotient(b) == a,
{
    let p = a.prime.value() as int;
    let x = a.number.value() as int;
    let y = b.number.value() as int;
    let q = pow(y, (a.prime.value() - 2) as nat);
    lemma_of_canonical(q, a.prime);
    lemma_of_canonical(x * y, a.prime);
    lemma_mul_mod_noop(x * y, q, p);
    assert(x * y * q == x * q * y) by (nonlinear_arith);
    lemma_inverse_cancels(a.prime.value(), a.number.value(), b.number.value());
    lemma_of_residue(a, a.product(b).number.value() * (q % p));
}

/// A negative power undoes the positive power of the same exponent:
/// `a^e * a^(-e) == 1` for every nonzero `a` of a field of prime order, where
/// `a^(-e)` is `a` raised to `neg_exponent(e, p)`.
pub proof fn lemma_neg_pow_inverts_pow(a: FieldElement, e: nat)
    requires
        a.wf(),
        is_prime(a.prime.value()),
        a.number.value() != 0,
    ensures
        a.power(e).product(a.power(neg_exponent(e, a.prime.value()))) == one(a.prime),
{
    let p = a.prime.value() as int;
    let m = (a.prime.value() - 1) as nat;
    let n = neg_exponent(e, a.prime.value());
    let x = a.number.value() as int;
    lemma_fundamental_div_mod(e as int, m as int);
    if e % m == 0 {
        lemma_mod_self_0(m as int);
    } else {
        lemma_small_mod((m - e % m) as nat, m);
    }
    let k: nat = if e % m == 0 {
        e / m
    } else {
        e / m + 1
    };
    assert(e + n == m * k) by (nonlinear_arith)
        requires
            e == m * (e / m) + e % m,
            0 <= e % m < m,
            n == if e % m == 0 { 0 } else { (m - e % m) as int },
            k == if e % m == 0 { e / m } else { e / m + 1 },
    {
    }
    lemma_pow_adds(x, e, n);
    lemma_pow_multiplies(x, m, k);
    lemma_fermat_little(a.prime.value(), a.number.value());
    lemma_pow_mod_noop(pow(x, m), k, p);
    lemma1_pow(k);
    lemma_small_mod(1, p as nat);
    lemma_of_canonical(pow(x, e), a.prime);
    lemma_of_canonical(pow(x, n), a.prime);
    lemma_mul_mod_noop(pow(x, e), pow(x, n), p);
    lemma_of_residue(
        one(a.prime),
        (a.power(e).number.value() * a.power(n).number.value()) as int,
    );
}

} // verus!
