//! Overflow-free modular arithmetic on 256-bit residues.
use crate::wide::{lemma_word_value, U256};
use vstd::arithmetic::div_mod::{
    lemma_add_mod_noop, lemma_fundamental_div_mod_converse, lemma_mul_mod_noop,
    lemma_mul_mod_noop_left, lemma_small_mod,
};
use vstd::arithmetic::power::{lemma_pow0, lemma_pow1, lemma_pow_adds, pow};
use vstd::prelude::*;

verus! {

/// `1 mod p`, for `p > 0`.
fn unit_mod(p: U256) -> (r: U256)
    requires
        p.value() > 0,
    ensures
        r.value() < p.value(),
        r.value() == 1int % (p.value() as int),
{
    let one = U256::from_u128(1);
    if one.lt(&p) {
        proof {
            lemma_small_mod(1, p.value());
        }
        one
    } else {
        U256::from_u128(0)
    }
}

/// `(a + b) mod p` for residues `a, b < p`, without leaving 256 bits.
pub fn add_mod(a: U256, b: U256, p: U256) -> (r: U256)
    requires
        a.value() < p.value(),
        b.value() < p.value(),
    ensures
        r.value() < p.value(),
        r.value() == (a.value() + b.value()) as int % (p.value() as int),
{
    let gap = p.sub(b);
    if !a.lt(&gap) {
        proof {
            lemma_fundamental_div_mod_converse(
                (a.value() + b.value()) as int,
                p.value() as int,
                1,
                a.value() - gap.value(),
            );
        }
        a.sub(gap)
    } else {
        proof {
            lemma_word_value(p);
            lemma_small_mod((a.value() + b.value()) as nat, p.value());
        }
        a.add(b)
    }
}

/// `(a - b) mod p` (the canonical representative) for residues `a, b < p`.
pub fn sub_mod(a: U256, b: U256, p: U256) -> (r: U256)
    requires
        a.value() < p.value(),
        b.value() < p.value(),
    ensures
        r.value() < p.value(),
        r.value() == (a.value() - b.value()) % (p.value() as int),
{
    if !a.lt(&b) {
        proof {
            lemma_small_mod((a.value() - b.value()) as nat, p.value());
        }
        a.sub(b)
    } else {
        proof {
            lemma_word_value(p);
            lemma_fundamental_div_mod_converse(
                a.value() - b.value(),
                p.value() as int,
                -1,
                a.value() + p.value() - b.value(),
            );
        }
        a.add(p.sub(b))
    }
}

/// `(a * b) mod p` for a residue `a < p` and any `b`, by doubling and adding.
pub fn mul_mod(a: U256, b: U256, p: U256) -> (r: U256)
    requires
        a.value() < p.value(),
    ensures
        r.value() < p.value(),
        r.value() == (a.value() * b.value()) as int % (p.value() as int),
    decreases b.value(),
{
    if b.is_zero() {
        proof {
            lemma_small_mod(0, p.value());
            assert(a.value() * b.value() == 0nat) by (nonlinear_arith)
                requires
                    b.value() == 0,
            ;
        }
        U256::from_u128(0)
    } else {
        let half = b.half();
        let h = mul_mod(a, half, p);
        let d = add_mod(h, h, p);
        let ghost x: int = (a.value() * half.value()) as int;
        let ghost bv = b.value() as int;
        let ghost av = a.value() as int;
        proof {
            lemma_add_mod_noop(x, x, p.value() as int);
            assert(av * bv == x + x + av * (bv % 2)) by (nonlinear_arith)
                requires
                    x == av * (bv / 2),
                    bv == 2 * (bv / 2) + bv % 2,
            ;
            assert(av * (bv % 2) == if bv % 2 == 1 { av } else { 0 }) by (nonlinear_arith)
                requires
                    bv % 2 == 0 || bv % 2 == 1,
            ;
        }
        if b.is_odd() {
            proof {
                lemma_add_mod_noop(x + x, av, p.value() as int);
                lemma_small_mod(a.value(), p.value());
            }
            add_mod(d, a, p)
        } else {
            d
        }
    }
}

/// `a^e mod p` for a residue `a < p`, by repeated squaring.
pub fn pow_mod(a: U256, e: U256, p: U256) -> (r: U256)
    requires
        a.value() < p.value(),
    ensures
        r.value() < p.value(),
        r.value() == pow(a.value() as int, e.value()) % (p.value() as int),
    decreases e.value(),
{
    if e.is_zero() {
        proof {
            lemma_pow0(a.value() as int);
        }
        unit_mod(p)
    } else {
        let half = e.half();
        let h = pow_mod(a, half, p);
        let s = mul_mod(h, h, p);
        let ghost x = pow(a.value() as int, half.value());
        proof {
            lemma_pow_adds(a.value() as int, half.value(), half.value());
            lemma_mul_mod_noop(x, x, p.value() as int);
        }
        if e.is_odd() {
            proof {
                lemma_pow1(a.value() as int);
                lemma_pow_adds(a.value() as int, 2 * half.value(), 1);
                lemma_mul_mod_noop_left(x * x, a.value() as int, p.value() as int);
            }
            mul_mod(s, a, p)
        } else {
            s
        }
    }
}

/// `a mod m` for any word `a` and `m > 0`.
pub fn rem(a: U256, m: U256) -> (r: U256)
    requires
        m.value() > 0,
    ensures
        r.value() == (a.value() as int) % (m.value() as int),
{
    let unit = unit_mod(m);
    proof {
        lemma_mul_mod_noop_left(1, a.value() as int, m.value() as int);
    }
    mul_mod(unit, a, m)
}

} // verus!
