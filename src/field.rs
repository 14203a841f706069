//! Elements of a prime field: a residue bound to its modulus.
use crate::decimal::{decimal, decimal_string};
use crate::modular::{add_mod, mul_mod, pow_mod, rem, sub_mod};
use crate::wide::{lemma_word_value, U256};
use vstd::arithmetic::div_mod::{
    lemma_fundamental_div_mod_converse, lemma_mod_self_0, lemma_mul_mod_noop_right,
    lemma_small_mod, lemma_sub_mod_noop,
};
use vstd::arithmetic::power::pow;
use vstd::prelude::*;
use vstd::string::StringExecFns;

verus! {

/// The binary operation that was attempted on two elements.
#[derive(Debug, Clone, Copy, PartialEq, Eq, Structural)]
pub enum Operation {
    Add,
    Sub,
    Mul,
    Div,
}

/// Why a field operation produced no element.
#[derive(Debug, Clone, Copy, PartialEq, Eq, Structural)]
pub enum FieldError {
    /// The value does not lie in `[0, prime)`.
    OutOfRange { value: U256, prime: U256 },
    /// The two operands belong to fields of different order.
    FieldMismatch { op: Operation },
    /// The divisor is the zero element.
    DivisionByZero,
}

impl Operation {
    /// The verb that names the operation in messages.
    pub open spec fn verb_spec(self) -> Seq<char> {
        match self {
            Operation::Add => "add"@,
            Operation::Sub => "subtract"@,
            Operation::Mul => "multiply"@,
            Operation::Div => "divide"@,
        }
    }

    /// The verb that names the operation in messages.
    pub fn verb(&self) -> (r: &'static str)
        ensures
            r@ == self.verb_spec(),
    {
        match self {
            Operation::Add => "add",
            Operation::Sub => "subtract",
            Operation::Mul => "multiply",
            Operation::Div => "divide",
        }
    }
}

impl FieldError {
    /// The text that describes the error.
    pub open spec fn message_spec(self) -> Seq<char> {
        match self {
            FieldError::OutOfRange { value, prime } => decimal(value.value())
                + " not in field range [0, "@ + decimal(prime.value()) + ")"@,
            FieldError::FieldMismatch { op } => "Cannot "@ + op.verb_spec()
                + " two elements in different fields"@,
            FieldError::DivisionByZero => "Cannot divide by the zero element"@,
        }
    }

    /// A human-readable description: the offending value and the bound for
    /// `OutOfRange`, the attempted operation for `FieldMismatch`.
    pub fn message(&self) -> (r: String)
        ensures
            r@ == self.message_spec(),
    {
        match self {
            FieldError::OutOfRange { value, prime } => {
                let mut s = decimal_string(*value);
                s.append(" not in field range [0, ");
                s.append(decimal_string(*prime).as_str());
                s.append(")");
                s
            },
            FieldError::FieldMismatch { op } => {
                let mut s = String::from_str("Cannot ");
                s.append(op.verb());
                s.append(" two elements in different fields");
                s
            },
            FieldError::DivisionByZero => String::from_str("Cannot divide by the zero element"),
        }
    }
}

/// A residue `number` of the field of order `prime`.
///
/// Well-formed elements satisfy `number < prime`; every constructor and every
/// operation of this type produces only well-formed elements. The modulus is
/// meant to be prime: the inverse and exponent identities rely on it.
#[derive(Debug, Clone, Copy, PartialEq, Eq, Structural)]
pub struct FieldElement {
    pub number: U256,
    pub prime: U256,
}

/// The positive exponent that stands for the exponent `-e` in a field of
/// order `p`: `((p - 1) - e mod (p - 1)) mod (p - 1)`, and `0` in the trivial
/// ring of order `1`.
pub open spec fn neg_exponent(e: nat, p: nat) -> nat {
    if p <= 1 {
        0
    } else {
        let m: int = p - 1;
        ((m - (e as int) % m) % m) as nat
    }
}

impl FieldElement {
    /// The element invariant: the number is a canonical residue.
    pub open spec fn wf(self) -> bool {
        self.number.value() < self.prime.value()
    }

    /// The element of the field of order `p` that `x` is congruent to.
    pub open spec fn of(x: int, p: U256) -> Self {
        FieldElement { number: U256::of_nat((x % (p.value() as int)) as nat), prime: p }
    }

    /// The sum of two elements of the field of `self`.
    pub open spec fn sum(self, other: Self) -> Self {
        Self::of(self.number.value() + other.number.value() as int, self.prime)
    }

    /// The difference of two elements of the field of `self`.
    pub open spec fn difference(self, other: Self) -> Self {
        Self::of(self.number.value() - other.number.value(), self.prime)
    }

    /// The product of two elements of the field of `self`.
    pub open spec fn product(self, other: Self) -> Self {
        Self::of(self.number.value() * other.number.value() as int, self.prime)
    }

    /// `self` raised to the natural power `e`.
    pub open spec fn power(self, e: nat) -> Self {
        Self::of(pow(self.number.value() as int, e), self.prime)
    }

    /// `self` times the Fermat inverse `other^(prime - 2)` of `other`.
    pub open spec fn quotient(self, other: Self) -> Self {
        self.product(other.power((self.prime.value() - 2) as nat))
    }

    /// `self` added to itself `k` times, negated for a negative `k`.
    pub open spec fn scaled(self, k: int) -> Self {
        Self::of(self.number.value() * k, self.prime)
    }

    /// The element `number` of the field of order `prime`, or `OutOfRange`
    /// when `number >= prime`.
    pub fn new(number: U256, prime: U256) -> (r: Result<Self, FieldError>)
        ensures
            r is Ok <==> number.value() < prime.value(),
            r matches Ok(e) ==> e.number == number && e.prime == prime && e.wf(),
            r matches Err(err) ==> err == (FieldError::OutOfRange { value: number, prime }),
    {
        if !number.lt(&prime) {
            Err(FieldError::OutOfRange { value: number, prime })
        } else {
            Ok(FieldElement { number, prime })
        }
    }

    /// `self + other`; `FieldMismatch` when the moduli differ.
    pub fn add(self, other: Self) -> (r: Result<Self, FieldError>)
        requires
            self.wf(),
            other.wf(),
        ensures
            self.prime == other.prime ==> r == Ok::<Self, FieldError>(self.sum(other)),
            self.prime != other.prime ==> r == Err::<Self, FieldError>(
                FieldError::FieldMismatch { op: Operation::Add },
            ),
            r matches Ok(e) ==> e.wf(),
    {
        if self.prime != other.prime {
            Err(FieldError::FieldMismatch { op: Operation::Add })
        } else {
            let r = add_mod(self.number, other.number, self.prime);
            proof {
                lemma_word_value(r);
            }
            Self::new(r, self.prime)
        }
    }

    /// `self - other`, as the canonical residue; `FieldMismatch` when the
    /// moduli differ.
    pub fn sub(self, other: Self) -> (r: Result<Self, FieldError>)
        requires
            self.wf(),
            other.wf(),
        ensures
            self.prime == other.prime ==> r == Ok::<Self, FieldError>(self.difference(other)),
            self.prime != other.prime ==> r == Err::<Self, FieldError>(
                FieldError::FieldMismatch { op: Operation::Sub },
            ),
            r matches Ok(e) ==> e.wf(),
    {
        if self.prime != other.prime {
            Err(FieldError::FieldMismatch { op: Operation::Sub })
        } else {
            let r = sub_mod(self.number, other.number, self.prime);
            proof {
                lemma_word_value(r);
            }
            Self::new(r, self.prime)
        }
    }

    /// `self * other`; `FieldMismatch` when the moduli differ.
    pub fn mul(self, other: Self) -> (r: Result<Self, FieldError>)
        requires
            self.wf(),
            other.wf(),
        ensures
            self.prime == other.prime ==> r == Ok::<Self, FieldError>(self.product(other)),
            self.prime != other.prime ==> r == Err::<Self, FieldError>(
                FieldError::FieldMismatch { op: Operation::Mul },
            ),
            r matches Ok(e) ==> e.wf(),
    {
        if self.prime != other.prime {
            Err(FieldError::FieldMismatch { op: Operation::Mul })
        } else {
            let r = mul_mod(self.number, other.number, self.prime);
            proof {
                lemma_word_value(r);
            }
            Self::new(r, self.prime)
        }
    }

    /// `self` raised to `exponent`.
    pub fn pow(self, exponent: U256) -> (r: Result<Self, FieldError>)
        requires
            self.wf(),
        ensures
            r == Ok::<Self, FieldError>(self.power(exponent.value())),
            r matches Ok(e) ==> e.wf(),
    {
        let r = pow_mod(self.number, exponent, self.prime);
        proof {
            lemma_word_value(r);
        }
        Self::new(r, self.prime)
    }

    /// `self` raised to `-exponent`, through the exponent
    /// `neg_exponent(exponent, prime)`, which agrees with it by Fermat's little
    /// theorem for a prime modulus and a nonzero base.
    pub fn neg_pow(self, exponent: U256) -> (r: Result<Self, FieldError>)
        requires
            self.wf(),
        ensures
            r == Ok::<Self, FieldError>(
                self.power(neg_exponent(exponent.value(), self.prime.value())),
            ),
            r matches Ok(e) ==> e.wf(),
    {
        let zero = U256::from_u128(0);
        let modulo = self.prime.sub(U256::from_u128(1));
        let n = if modulo.is_zero() {
            zero
        } else {
            let r = rem(exponent, modulo);
            if r.is_zero() {
                proof {
                    lemma_mod_self_0(modulo.value() as int);
                }
                zero
            } else {
                proof {
                    lemma_small_mod((modulo.value() - r.value()) as nat, modulo.value());
                }
                modulo.sub(r)
            }
        };
        self.pow(n)
    }

    /// `self / other`, as `self * other^(prime - 2)`; `FieldMismatch` when the
    /// moduli differ, else `DivisionByZero` when `other` is zero.
    pub fn div(self, other: Self) -> (r: Result<Self, FieldError>)
        requires
            self.wf(),
            other.wf(),
        ensures
            self.prime == other.prime && other.number.value() != 0 ==> r == Ok::<Self, FieldError>(
                self.quotient(other),
            ),
            self.prime != other.prime ==> r == Err::<Self, FieldError>(
                FieldError::FieldMismatch { op: Operation::Div },
            ),
            self.prime == other.prime && other.number.value() == 0 ==> r == Err::<Self, FieldError>(
                FieldError::DivisionByZero,
            ),
            r matches Ok(e) ==> e.wf(),
    {
        if self.prime != other.prime {
            return Err(FieldError::FieldMismatch { op: Operation::Div });
        }
        if other.number.is_zero() {
            return Err(FieldError::DivisionByZero);
        }
        let inverse = match other.pow(self.prime.sub(U256::from_u128(2))) {
            Ok(e) => e,
            Err(err) => return Err(err),
        };
        proof {
            lemma_mul_mod_noop_right(
                self.number.value() as int,
                pow(other.number.value() as int, (self.prime.value() - 2) as nat),
                self.prime.value() as int,
            );
        }
        self.mul(inverse)
    }

    /// The scalar multiple `scalar * self`, for a signed scalar.
    pub fn scalar_mul(self, scalar: i64) -> (r: Result<Self, FieldError>)
        requires
            self.wf(),
        ensures
            r == Ok::<Self, FieldError>(self.scaled(scalar as int)),
            r matches Ok(e) ==> e.wf(),
    {
        let p = self.prime;
        if scalar >= 0 {
            let r = mul_mod(self.number, U256::from_u128(scalar as u128), p);
            proof {
                lemma_word_value(r);
            }
            Self::new(r, p)
        } else {
            let magnitude = U256::from_u128((-(scalar as i128)) as u128);
            let m = mul_mod(self.number, magnitude, p);
            let ghost prod: int = self.number.value() * magnitude.value() as int;
            proof {
                assert(self.number.value() * scalar == 0 - prod) by (nonlinear_arith)
                    requires
                        magnitude.value() == -scalar,
                        prod == self.number.value() * magnitude.value(),
                ;
                lemma_sub_mod_noop(0, prod, p.value() as int);
                lemma_small_mod(0, p.value());
            }
            let r = if m.is_zero() {
                U256::from_u128(0)
            } else {
                proof {
                    lemma_fundamental_div_mod_converse(
                        0 - m.value(),
                        p.value() as int,
                        -1,
                        p.value() - m.value(),
                    );
                }
                p.sub(m)
            };
            proof {
                lemma_word_value(r);
            }
            Self::new(r, p)
        }
    }
}

} // verus!
