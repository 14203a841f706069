use prime_field::field::{FieldElement, FieldError, Operation};
use prime_field::wide::U256;

const P: u128 = 31;
// The largest prime below 2^128.
const BIG: u128 = 340282366920938463463374607431768211297;

fn el(number: u128, prime: u128) -> FieldElement {
    FieldElement::new(U256::from_u128(number), U256::from_u128(prime)).unwrap()
}

#[test]
fn construction_rejects_the_modulus_itself() {
    assert_eq!(
        FieldElement::new(U256::from_u128(31), U256::from_u128(31)),
        Err(FieldError::OutOfRange { value: U256::from_u128(31), prime: U256::from_u128(31) })
    );
    assert_eq!(FieldElement::new(U256::from_u128(30), U256::from_u128(31)), Ok(el(30, 31)));
    assert_eq!(
        FieldElement::new(U256::from_u128(0), U256::from_u128(0)),
        Err(FieldError::OutOfRange { value: U256::from_u128(0), prime: U256::from_u128(0) })
    );
}

#[test]
fn division_by_zero_is_reported() {
    assert_eq!(el(3, P).div(el(0, P)), Err(FieldError::DivisionByZero));
}

#[test]
fn mismatch_is_reported_before_division_by_zero() {
    assert_eq!(
        el(3, 31).div(el(0, 37)),
        Err(FieldError::FieldMismatch { op: Operation::Div })
    );
}

#[test]
fn every_nonzero_element_to_order_minus_one_is_one() {
    for n in 1..P {
        assert_eq!(el(n, P).pow(U256::from_u128(P - 1)), Ok(el(1, P)));
    }
}

#[test]
fn division_then_multiplication_restores_dividend() {
    for a in 0..P {
        for b in 1..P {
            let q = el(a, P).div(el(b, P)).unwrap();
            assert_eq!(q.mul(el(b, P)), Ok(el(a, P)));
        }
    }
}

#[test]
fn addition_and_multiplication_round_trips() {
    for a in 0..P {
        for b in 0..P {
            let s = el(a, P).add(el(b, P)).unwrap();
            assert_eq!(s.sub(el(b, P)), Ok(el(a, P)));
            if b != 0 {
                let m = el(a, P).mul(el(b, P)).unwrap();
                assert_eq!(m.div(el(b, P)), Ok(el(a, P)));
            }
        }
    }
}

#[test]
fn zero_exponent_gives_one() {
    assert_eq!(el(0, P).pow(U256::from_u128(0)), Ok(el(1, P)));
    assert_eq!(el(17, P).pow(U256::from_u128(0)), Ok(el(1, P)));
    assert_eq!(el(17, P).neg_pow(U256::from_u128(0)), Ok(el(1, P)));
    assert_eq!(el(17, P).neg_pow(U256::from_u128(30)), Ok(el(1, P)));
}

#[test]
fn negative_power_inverts_positive_power() {
    for n in 1..P {
        for e in 0..70u128 {
            let up = el(n, P).pow(U256::from_u128(e)).unwrap();
            let down = el(n, P).neg_pow(U256::from_u128(e)).unwrap();
            assert_eq!(up.mul(down), Ok(el(1, P)));
        }
    }
}

#[test]
fn trivial_ring_has_only_zero() {
    assert_eq!(el(0, 1).neg_pow(U256::from_u128(5)), Ok(el(0, 1)));
    assert_eq!(el(0, 1).pow(U256::from_u128(0)), Ok(el(0, 1)));
}

#[test]
fn scalar_multiple_of_modulus_gives_zero() {
    assert_eq!(el(11, P).scalar_mul(-31), Ok(el(0, P)));
    assert_eq!(el(11, P).scalar_mul(62), Ok(el(0, P)));
    assert_eq!(el(0, P).scalar_mul(-4), Ok(el(0, P)));
}

#[test]
fn scalar_multiplication_at_the_ends_of_i64() {
    assert_eq!(
        el(BIG - 2, BIG).scalar_mul(i64::MIN),
        Ok(el(18446744073709551616, BIG))
    );
    assert_eq!(
        el(BIG - 2, BIG).scalar_mul(i64::MAX),
        Ok(el(340282366920938463444927863358058659683, BIG))
    );
}

#[test]
fn arithmetic_near_the_top_of_u128() {
    let a = el(BIG - 2, BIG);
    let b = el(BIG - 3, BIG);
    assert_eq!(a.add(b), Ok(el(BIG - 5, BIG)));
    assert_eq!(a.mul(b), Ok(el(6, BIG)));
    assert_eq!(b.sub(a), Ok(el(BIG - 1, BIG)));
    assert_eq!(
        a.div(b),
        Ok(el(113427455640312821154458202477256070433, BIG))
    );
    assert_eq!(a.pow(U256::from_u128(BIG - 1)), Ok(el(1, BIG)));
    assert_eq!(
        a.pow(U256::from_u128(12345678901234567890)),
        Ok(el(79581171136183194601603654465705739598, BIG))
    );
}

#[test]
fn messages_name_the_value_the_bound_and_the_operation() {
    let err = FieldElement::new(U256::from_u128(7), U256::from_u128(3)).unwrap_err();
    assert_eq!(err.message(), "7 not in field range [0, 3)");
    let err = FieldElement::new(U256::from_u128(BIG), U256::from_u128(10)).unwrap_err();
    assert_eq!(
        err.message(),
        "340282366920938463463374607431768211297 not in field range [0, 10)"
    );
    let err = el(2, 31).sub(el(2, 32)).unwrap_err();
    assert_eq!(err.message(), "Cannot subtract two elements in different fields");
    let err = el(2, 31).div(el(2, 32)).unwrap_err();
    assert_eq!(err.message(), "Cannot divide two elements in different fields");
    assert_eq!(
        FieldError::DivisionByZero.message(),
        "Cannot divide by the zero element"
    );
    assert_eq!(Operation::Mul.verb(), "multiply");
    assert_eq!(Operation::Add.verb(), "add");
}

// The order of the secp256k1 base field, 2^256 - 2^32 - 977.
const SECP_HI: u128 = 340282366920938463463374607431768211455;
const SECP_LO: u128 = 340282366920938463463374607427473243183;

fn secp() -> U256 {
    U256 { hi: SECP_HI, lo: SECP_LO }
}

fn wide_el(hi: u128, lo: u128) -> FieldElement {
    FieldElement::new(U256 { hi, lo }, secp()).unwrap()
}

#[test]
fn arithmetic_on_a_256_bit_prime() {
    let a = wide_el(SECP_HI, SECP_LO - 2);
    let b = wide_el(SECP_HI, SECP_LO - 3);
    assert_eq!(a.add(b), Ok(wide_el(SECP_HI, SECP_LO - 5)));
    assert_eq!(a.mul(b), Ok(wide_el(0, 6)));
    assert_eq!(b.sub(a), Ok(wide_el(SECP_HI, SECP_LO - 1)));
    assert_eq!(
        a.div(b),
        Ok(wide_el(
            113427455640312821154458202477256070485,
            113427455640312821154458202475824414395
        ))
    );
    assert_eq!(
        FieldElement::new(secp(), secp()),
        Err(FieldError::OutOfRange { value: secp(), prime: secp() })
    );
}

#[test]
fn powers_on_a_256_bit_prime() {
    let g = wide_el(
        161825202758953104525843685720298294023,
        3468390537006497937951914270391801752,
    );
    assert_eq!(
        g.mul(g),
        Ok(wide_el(
            177207409080246126384793028434932869789,
            302259858135677197589219614166151920713
        ))
    );
    let e = U256 { hi: 1 << 72, lo: 12345 };
    assert_eq!(
        g.pow(e),
        Ok(wide_el(
            327316049976199038277524570731995452141,
            285034366031434393498140291969666008502
        ))
    );
    assert_eq!(
        g.neg_pow(U256::from_u128(5)),
        Ok(wide_el(
            80299079487210114312296255418084385992,
            317816433509543826708440691794896403693
        ))
    );
    assert_eq!(g.pow(U256 { hi: SECP_HI, lo: SECP_LO - 1 }), Ok(wide_el(0, 1)));
    assert_eq!(
        g.scalar_mul(-7),
        Ok(wide_el(
            228353048371082122172592629684984787662,
            316003633161892977897711207521845726100
        ))
    );
    let three = wide_el(0, 3);
    assert_eq!(
        g.div(three),
        Ok(wide_el(
            53941734252984368175281228573432764674,
            114583585819314987133775507234053337736
        ))
    );
    assert_eq!(g.div(three).unwrap().mul(three), Ok(g));
}

#[test]
fn message_of_a_256_bit_value() {
    let err = FieldElement::new(secp(), secp()).unwrap_err();
    assert_eq!(
        err.message(),
        "115792089237316195423570985008687907853269984665640564039457584007908834671663 \
         not in field range [0, \
         115792089237316195423570985008687907853269984665640564039457584007908834671663)"
    );
}

#[test]
fn word_operations() {
    let max = U256 { hi: u128::MAX, lo: u128::MAX };
    let one = U256::from_u128(1);
    assert_eq!(max.sub(one).add(one), max);
    assert_eq!(U256::from_u128(u128::MAX).add(one), U256 { hi: 1, lo: 0 });
    assert_eq!(U256 { hi: 1, lo: 0 }.sub(one), U256::from_u128(u128::MAX));
    assert_eq!(U256 { hi: 3, lo: 4 }.half(), U256 { hi: 1, lo: (1 << 127) + 2 });
    assert!(max.is_odd());
    assert!(!U256 { hi: 1, lo: 0 }.is_odd());
    assert!(U256::from_u128(0).is_zero());
    assert!(!U256 { hi: 1, lo: 0 }.is_zero());
    assert!(U256 { hi: 0, lo: u128::MAX }.lt(&U256 { hi: 1, lo: 0 }));
    assert!(!U256 { hi: 1, lo: 0 }.lt(&U256 { hi: 0, lo: u128::MAX }));
}
