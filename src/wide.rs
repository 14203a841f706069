//! Unsigned 256-bit words, held as two 128-bit halves.
use vstd::arithmetic::div_mod::lemma_fundamental_div_mod_converse;
use vstd::prelude::*;

verus! {

/// `2^128`, the weight of the high half.
#[verifier::inline]
pub open spec fn half_base() -> nat {
    u128::MAX as nat + 1
}

/// `2^256`, one more than the largest word.
#[verifier::inline]
pub open spec fn word_base() -> nat {
    half_base() * half_base()
}

/// The word `hi * 2^128 + lo`.
#[derive(Debug, Clone, Copy, PartialEq, Eq, Structural)]
pub struct U256 {
    pub hi: u128,
    pub lo: u128,
}

impl U256 {
    /// The number the word stands for.
    pub open spec fn value(self) -> nat {
        self.hi as nat * half_base() + self.lo as nat
    }

    /// The word that stands for `n < 2^256`.
    pub open spec fn of_nat(n: nat) -> U256 {
        U256 { hi: (n / half_base()) as u128, lo: (n % half_base()) as u128 }
    }

    /// The word of a 128-bit number.
    pub fn from_u128(x: u128) -> (r: U256)
        ensures
            r == (U256 { hi: 0, lo: x }),
            r.value() == x,
    {
        U256 { hi: 0, lo: x }
    }

    /// `self < other`.
    #[verifier::nonlinear]
    pub fn lt(&self, other: &U256) -> (r: bool)
        ensures
            r == (self.value() < other.value()),
    {
        self.hi < other.hi || (self.hi == other.hi && self.lo < other.lo)
    }

    /// `self == 0`.
    #[verifier::nonlinear]
    pub fn is_zero(&self) -> (r: bool)
        ensures
            r == (self.value() == 0),
    {
        self.hi == 0 && self.lo == 0
    }

    /// `self` is odd.
    #[verifier::nonlinear]
    pub fn is_odd(&self) -> (r: bool)
        ensures
            r == (self.value() % 2 == 1),
    {
        let ghost h = self.hi * half_base();
        assert(h % 2 == 0) by {
            lemma_fundamental_div_mod_converse(h, 2, self.hi * (half_base() / 2), 0);
        }
        self.lo % 2 == 1
    }

    /// `self + other`, for a sum below `2^256`.
    #[verifier::nonlinear]
    pub fn add(self, other: U256) -> (r: U256)
        requires
            self.value() + other.value() < word_base(),
        ensures
            r.value() == self.value() + other.value(),
    {
        if self.lo <= u128::MAX - other.lo {
            U256 { hi: self.hi + other.hi, lo: self.lo + other.lo }
        } else {
            U256 { hi: self.hi + other.hi + 1, lo: self.lo - (u128::MAX - other.lo) - 1 }
        }
    }

    /// `self - other`, for `other <= self`.
    #[verifier::nonlinear]
    pub fn sub(self, other: U256) -> (r: U256)
        requires
            other.value() <= self.value(),
        ensures
            r.value() == self.value() - other.value(),
    {
        if self.lo >= other.lo {
            U256 { hi: self.hi - other.hi, lo: self.lo - other.lo }
        } else {
            U256 { hi: self.hi - other.hi - 1, lo: self.lo + (u128::MAX - other.lo) + 1 }
        }
    }

    /// `self / 2`, rounded down.
    #[verifier::nonlinear]
    pub fn half(self) -> (r: U256)
        ensures
            r.value() == self.value() / 2,
    {
        let top: u128 = if self.hi % 2 == 1 {
            0x8000_0000_0000_0000_0000_0000_0000_0000
        } else {
            0
        };
        let r = U256 { hi: self.hi / 2, lo: self.lo / 2 + top };
        proof {
            lemma_fundamental_div_mod_converse(
                self.value() as int,
                2,
                r.value() as int,
                (self.lo % 2) as int,
            );
        }
        r
    }
}

/// Every word is below `2^256`, and it is the word of its value.
#[verifier::nonlinear]
pub proof fn lemma_word_value(w: U256)
    ensures
        w.value() < word_base(),
        U256::of_nat(w.value()) == w,
{
    lemma_fundamental_div_mod_converse(w.value() as int, half_base() as int, w.hi as int, w.lo as int);
}

/// The word of `n < 2^256` stands for `n`.
#[verifier::nonlinear]
pub proof fn lemma_of_nat_value(n: nat)
    requires
        n < word_base(),
    ensures
        U256::of_nat(n).value() == n,
{
    vstd::arithmetic::div_mod::lemma_fundamental_div_mod(n as int, half_base() as int);
    vstd::arithmetic::div_mod::lemma_div_is_ordered(n as int, word_base() as int, half_base() as int);
    vstd::arithmetic::div_mod::lemma_div_by_multiple(half_base() as int, half_base() as int);
}

/// A number below `2^128` is held in the low half alone.
#[verifier::nonlinear]
pub proof fn lemma_of_nat_small(n: nat)
    requires
        n < half_base(),
    ensures
        U256::of_nat(n) == (U256 { hi: 0, lo: n as u128 }),
{
    vstd::arithmetic::div_mod::lemma_small_mod(n, half_base());
    vstd::arithmetic::div_mod::lemma_basic_div(n as int, half_base() as int);
}

} // verus!
