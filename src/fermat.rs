//! Fermat's little theorem, by way of the binomial theorem modulo a prime.
use vstd::arithmetic::div_mod::{
    lemma_add_mod_noop, lemma_fundamental_div_mod, lemma_mod_multiples_basic,
    lemma_mul_mod_noop_left, lemma_small_mod, lemma_sub_mod_noop,
};
use vstd::arithmetic::power::{lemma0_pow, lemma_pow1, lemma_pow_adds, lemma_pow_positive, pow};
use vstd::prelude::*;

verus! {

/// `p` is a prime number: greater than one, with no divisor strictly between
/// one and itself.
pub open spec fn is_prime(p: nat) -> bool {
    p > 1 && forall|d: nat| 1 < d < p ==> #[trigger] (p % d) != 0
}

/// Euclid's lemma: a prime that divides `k * x`, with `0 < k < p`, divides `x`.
pub proof fn lemma_prime_divides_factor(p: nat, k: nat, x: nat)
    requires
        is_prime(p),
        0 < k < p,
        (k * x) % p == 0,
    ensures
        x % p == 0,
    decreases k,
{
    if k == 1 {
        assert(k * x == x) by (nonlinear_arith)
            requires
                k == 1,
        ;
    } else {
        let q = p / k;
        let r = p % k;
        lemma_fundamental_div_mod(p as int, k as int);
        assert(r != 0);
        let t = (k * x) / p;
        lemma_fundamental_div_mod((k * x) as int, p as int);
        let u = x - q * t;
        assert(r * x == p * u) by (nonlinear_arith)
            requires
                p == k * q + r,
                k * x == p * t,
                u == x - q * t,
        ;
        assert(u >= 0) by (nonlinear_arith)
            requires
                r * x == p * u,
                r > 0,
                p > 0,
                x >= 0,
        ;
        lemma_mod_multiples_basic(u, p as int);
        assert((r * x) % p == 0) by {
            assert(r * x == u * p) by (nonlinear_arith)
                requires
                    r * x == p * u,
            ;
        }
        lemma_prime_divides_factor(p, r as nat, x);
    }
}

/// The binomial coefficient `n choose k`, by Pascal's rule.
pub open spec fn binom(n: nat, k: nat) -> nat
    decreases n,
{
    if k == 0 {
        1
    } else if n == 0 {
        0
    } else {
        binom((n - 1) as nat, (k - 1) as nat) + binom((n - 1) as nat, k)
    }
}

proof fn lemma_binom_above(n: nat, k: nat)
    requires
        k > n,
    ensures
        binom(n, k) == 0,
    decreases n,
{
    if n > 0 {
        lemma_binom_above((n - 1) as nat, (k - 1) as nat);
        lemma_binom_above((n - 1) as nat, k);
    }
}

proof fn lemma_binom_diagonal(n: nat)
    ensures
        binom(n, n) == 1,
    decreases n,
{
    if n > 0 {
        lemma_binom_diagonal((n - 1) as nat);
        lemma_binom_above((n - 1) as nat, n);
    }
}

/// `k * (n choose k) == n * ((n - 1) choose (k - 1))`.
proof fn lemma_binom_absorption(n: nat, k: nat)
    requires
        n >= 1,
        k >= 1,
    ensures
        k * binom(n, k) == n * binom((n - 1) as nat, (k - 1) as nat),
    decreases n,
{
    let a = binom((n - 1) as nat, (k - 1) as nat);
    let b = binom((n - 1) as nat, k);
    if n == 1 {
        if k > 1 {
            lemma_binom_above(0, (k - 1) as nat);
        }
        lemma_binom_above(0, k);
        assert(k * binom(n, k) == n * a) by (nonlinear_arith)
            requires
                binom(n, k) == a + b,
                b == 0,
                n == 1,
                k == 1 || a == 0,
        ;
    } else {
        lemma_binom_absorption((n - 1) as nat, k);
        let c = binom((n - 2) as nat, (k - 1) as nat);
        if k == 1 {
            assert(k * binom(n, k) == n * a) by (nonlinear_arith)
                requires
                    binom(n, k) == a + b,
                    k * b == (n - 1) * c,
                    a == 1,
                    c == 1,
                    k == 1,
            ;
        } else {
            lemma_binom_absorption((n - 1) as nat, (k - 1) as nat);
            let d = binom((n - 2) as nat, (k - 2) as nat);
            assert(k * binom(n, k) == n * a) by (nonlinear_arith)
                requires
                    binom(n, k) == a + b,
                    k * b == (n - 1) * c,
                    (k - 1) * a == (n - 1) * d,
                    a == d + c,
            ;
        }
    }
}

/// A prime divides every binomial coefficient `p choose k` with `0 < k < p`.
proof fn lemma_prime_divides_binom(p: nat, k: nat)
    requires
        is_prime(p),
        0 < k < p,
    ensures
        binom(p, k) % p == 0,
{
    let c = binom((p - 1) as nat, (k - 1) as nat);
    lemma_binom_absorption(p, k);
    lemma_mod_multiples_basic(c as int, p as int);
    assert(k * binom(p, k) == c * p) by (nonlinear_arith)
        requires
            k * binom(p, k) == p * c,
    ;
    lemma_prime_divides_factor(p, k, binom(p, k));
}

/// `sum of (n choose i) * x^i` over `0 <= i <= k`.
pub open spec fn binom_sum(n: nat, k: nat, x: int) -> int
    decreases k,
{
    binom(n, k) * pow(x, k) + if k == 0 {
        0
    } else {
        binom_sum(n, (k - 1) as nat, x)
    }
}

/// Pascal's rule, lifted to the partial sums of the binomial expansion.
proof fn lemma_binom_sum_step(n: nat, k: nat, x: int)
    requires
        k >= 1,
    ensures
        binom_sum(n + 1, k, x) == binom_sum(n, k, x) + x * binom_sum(n, (k - 1) as nat, x),
    decreases k,
{
    reveal(pow);
    let xk = pow(x, k);
    let xk1 = pow(x, (k - 1) as nat);
    assert(xk == x * xk1);
    let a = binom(n, (k - 1) as nat);
    let b = binom(n, k);
    assert(binom(n + 1, k) == a + b);
    if k == 1 {
        assert(binom_sum(n + 1, 0, x) == 1);
        assert(binom_sum(n, 0, x) == 1);
        assert(a == 1);
        assert(xk1 == 1);
        assert(binom_sum(n + 1, k, x) == binom_sum(n, k, x) + x * binom_sum(n, 0, x))
            by (nonlinear_arith)
            requires
                binom_sum(n + 1, k, x) == (a + b) * xk + 1,
                binom_sum(n, k, x) == b * xk + 1,
                binom_sum(n, 0, x) == 1,
                xk == x * xk1,
                xk1 == 1,
                a == 1,
        ;
    } else {
        lemma_binom_sum_step(n, (k - 1) as nat, x);
        let s1 = binom_sum(n, (k - 1) as nat, x);
        let s2 = binom_sum(n, (k - 2) as nat, x);
        assert(s1 == a * xk1 + s2);
        assert(binom_sum(n + 1, k, x) == binom_sum(n, k, x) + x * s1) by (nonlinear_arith)
            requires
                binom_sum(n + 1, k, x) == (a + b) * xk + binom_sum(n + 1, (k - 1) as nat, x),
                binom_sum(n + 1, (k - 1) as nat, x) == s1 + x * s2,
                binom_sum(n, k, x) == b * xk + s1,
                s1 == a * xk1 + s2,
                xk == x * xk1,
        ;
    }
}

/// The binomial theorem for `(x + 1)^n`.
proof fn lemma_binomial_theorem(n: nat, x: int)
    ensures
        pow(x + 1, n) == binom_sum(n, n, x),
    decreases n,
{
    reveal(pow);
    if n == 0 {
    } else {
        let m = (n - 1) as nat;
        lemma_binomial_theorem(m, x);
        lemma_binom_sum_step(m, n, x);
        lemma_binom_above(m, n);
        let s = binom_sum(m, m, x);
        assert(binom_sum(m, n, x) == s);
        assert(pow(x + 1, n) == binom_sum(n, n, x)) by (nonlinear_arith)
            requires
                pow(x + 1, n) == (x + 1) * pow(x + 1, m),
                pow(x + 1, m) == s,
                binom_sum(n, n, x) == s + x * s,
        ;
    }
}

/// Modulo a prime, the binomial expansion of `(x + 1)^p` without its last
/// term leaves only the constant `1`.
proof fn lemma_binom_sum_mod_prime(p: nat, k: nat, x: int)
    requires
        is_prime(p),
        k < p,
    ensures
        binom_sum(p, k, x) % (p as int) == 1,
    decreases k,
{
    reveal(pow);
    if k == 0 {
        lemma_small_mod(1, p);
    } else {
        lemma_binom_sum_mod_prime(p, (k - 1) as nat, x);
        lemma_prime_divides_binom(p, k);
        let c = binom(p, k) as int;
        lemma_mul_mod_noop_left(c, pow(x, k), p as int);
        lemma_small_mod(0, p);
        lemma_add_mod_noop(c * pow(x, k), binom_sum(p, (k - 1) as nat, x), p as int);
        lemma_small_mod(1, p);
    }
}

/// The freshman's dream modulo a prime: `(x + 1)^p == x^p + 1 (mod p)`.
proof fn lemma_pow_prime_successor(p: nat, x: int)
    requires
        is_prime(p),
    ensures
        pow(x + 1, p) % (p as int) == (pow(x, p) + 1) % (p as int),
{
    reveal(pow);
    lemma_binomial_theorem(p, x);
    lemma_binom_diagonal(p);
    lemma_binom_sum_mod_prime(p, (p - 1) as nat, x);
    let rest = binom_sum(p, (p - 1) as nat, x);
    assert(binom_sum(p, p, x) == pow(x, p) + rest);
    lemma_add_mod_noop(pow(x, p), rest, p as int);
    lemma_add_mod_noop(pow(x, p), 1, p as int);
    lemma_small_mod(1, p);
}

/// `x^p == x (mod p)` for a prime `p` and every natural `x`.
pub proof fn lemma_pow_prime_congruent(p: nat, x: nat)
    requires
        is_prime(p),
    ensures
        pow(x as int, p) % (p as int) == x % p,
    decreases x,
{
    if x == 0 {
        lemma0_pow(p);
    } else {
        let y = (x - 1) as nat;
        lemma_pow_prime_congruent(p, y);
        lemma_pow_prime_successor(p, y as int);
        lemma_add_mod_noop(pow(y as int, p), 1, p as int);
        lemma_add_mod_noop(y as int, 1, p as int);
    }
}

/// Fermat's little theorem: `a^(p - 1) == 1 (mod p)` for a prime `p` and
/// `0 < a < p`.
pub proof fn lemma_fermat_little(p: nat, a: nat)
    requires
        is_prime(p),
        0 < a < p,
    ensures
        pow(a as int, (p - 1) as nat) % (p as int) == 1,
{
    let y = pow(a as int, (p - 1) as nat);
    lemma_pow_positive(a as int, (p - 1) as nat);
    lemma_pow1(a as int);
    lemma_pow_adds(a as int, 1, (p - 1) as nat);
    lemma_pow_prime_congruent(p, a);
    let ay = pow(a as int, p);
    assert(ay == a * y);
    lemma_small_mod(a, p);
    lemma_sub_mod_noop(ay, a as int, p as int);
    lemma_small_mod(0, p);
    assert(a * (y - 1) == ay - a) by (nonlinear_arith)
        requires
            ay == a * y,
    ;
    lemma_prime_divides_factor(p, a, (y - 1) as nat);
    lemma_add_mod_noop(y - 1, 1, p as int);
    lemma_small_mod(1, p);
}

} // verus!
