//! Decimal rendering of unsigned integers.
use crate::wide::{lemma_word_value, U256};
use vstd::arithmetic::div_mod::{lemma_fundamental_div_mod, lemma_fundamental_div_mod_converse};
use vstd::prelude::*;
use vstd::string::StringExecFns;

verus! {

/// The character of the decimal digit `d < 10`.
pub open spec fn digit_char(d: nat) -> char {
    seq!['0', '1', '2', '3', '4', '5', '6', '7', '8', '9'][d as int]
}

/// The decimal digits of `n`, most significant first, without leading zeros
/// (`0` is written as one digit).
pub open spec fn decimal(n: nat) -> Seq<char>
    decreases n,
{
    if n < 10 {
        seq![digit_char(n)]
    } else {
        decimal(n / 10) + seq![digit_char(n % 10)]
    }
}

fn digit_str(d: u8) -> (r: &'static str)
    requires
        d < 10,
    ensures
        r@ == seq![digit_char(d as nat)],
{
    proof {
        reveal_strlit("0");
        reveal_strlit("1");
        reveal_strlit("2");
        reveal_strlit("3");
        reveal_strlit("4");
        reveal_strlit("5");
        reveal_strlit("6");
        reveal_strlit("7");
        reveal_strlit("8");
        reveal_strlit("9");
    }
    let r = if d == 0 {
        "0"
    } else if d == 1 {
        "1"
    } else if d == 2 {
        "2"
    } else if d == 3 {
        "3"
    } else if d == 4 {
        "4"
    } else if d == 5 {
        "5"
    } else if d == 6 {
        "6"
    } else if d == 7 {
        "7"
    } else if d == 8 {
        "8"
    } else {
        "9"
    };
    assert(r@ =~= seq![digit_char(d as nat)]);
    r
}

/// `(n / 10, n % 10)`, by halving.
fn div_rem_ten(n: U256) -> (r: (U256, u8))
    ensures
        r.0.value() == n.value() / 10,
        r.1 as nat == n.value() % 10,
    decreases n.value(),
{
    if n.is_zero() {
        return (U256::from_u128(0), 0);
    }
    let (q, r) = div_rem_ten(n.half());
    let bit: u8 = if n.is_odd() {
        1
    } else {
        0
    };
    let twice = 2 * r + bit;
    proof {
        lemma_word_value(n);
        lemma_fundamental_div_mod(n.value() as int, 2);
        lemma_fundamental_div_mod((n.value() / 2) as int, 10);
    }
    let ghost nv = n.value() as int;
    let ghost qv = q.value() as int;
    let q2 = q.add(q);
    if twice >= 10 {
        let q3 = q2.add(U256::from_u128(1));
        proof {
            lemma_fundamental_div_mod_converse(nv, 10, 2 * qv + 1, (twice - 10) as int);
        }
        (q3, twice - 10)
    } else {
        proof {
            lemma_fundamental_div_mod_converse(nv, 10, 2 * qv, twice as int);
        }
        (q2, twice)
    }
}

/// `n` written in decimal.
pub fn decimal_string(n: U256) -> (r: String)
    ensures
        r@ == decimal(n.value()),
    decreases n.value(),
{
    let (q, d) = div_rem_ten(n);
    if q.is_zero() {
        String::from_str(digit_str(d))
    } else {
        let mut s = decimal_string(q);
        s.append(digit_str(d));
        s
    }
}

} // verus!
