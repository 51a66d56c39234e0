use arena_contracts::chain::{must_pay, BlockInfo, Coin, Duration, Expiration, PaymentError, Timestamp};
use arena_contracts::math::{checked_mul_floor, Decimal, MathError};

const ONE: u128 = 1_000_000_000_000_000_000;

#[test]
fn decimal_arithmetic() {
    assert_eq!(Decimal::percent(15).atomics, 150_000_000_000_000_000);
    assert_eq!(Decimal::checked_from_ratio(1, 4).unwrap().atomics, ONE / 4);
    assert_eq!(Decimal::checked_from_ratio(1, 0).unwrap_err(), MathError::DivideByZero);
    let half = Decimal { atomics: ONE / 2 };
    assert_eq!(half.checked_mul(Decimal::percent(10)).unwrap().atomics, ONE / 20);
    assert_eq!(half.checked_div(Decimal::percent(25)).unwrap().atomics, 2 * ONE);
    assert_eq!(half.checked_div(Decimal::zero()).unwrap_err(), MathError::DivideByZero);
    assert_eq!(Decimal { atomics: u128::MAX }.checked_mul(Decimal { atomics: 2 * ONE }).unwrap_err(), MathError::Overflow);
    assert_eq!(half.checked_add(half).unwrap(), Decimal::one());
    assert_eq!(Decimal::zero().checked_sub(half).unwrap_err(), MathError::Overflow);
}

#[test]
fn scaling_amounts_rounds_down() {
    assert_eq!(checked_mul_floor(1_000, Decimal::percent(33)).unwrap(), 330);
    assert_eq!(checked_mul_floor(7, Decimal { atomics: ONE / 2 }).unwrap(), 3);
    assert_eq!(checked_mul_floor(u128::MAX, Decimal { atomics: 2 * ONE }).unwrap_err(), MathError::Overflow);
}

#[test]
fn payments_and_expirations() {
    let coin = |d: &str, a: u128| Coin { denom: d.to_string(), amount: a };
    assert_eq!(must_pay(&vec![coin("ujuno", 5)], &"ujuno".to_string()).unwrap(), 5);
    assert_eq!(must_pay(&vec![], &"ujuno".to_string()).unwrap_err(), PaymentError::NoFunds);
    assert_eq!(
        must_pay(&vec![coin("a", 1), coin("b", 1)], &"a".to_string()).unwrap_err(),
        PaymentError::MultipleDenoms
    );
    assert_eq!(
        must_pay(&vec![coin("a", 1)], &"b".to_string()).unwrap_err(),
        PaymentError::MissingDenom("b".to_string())
    );
    let block = BlockInfo { height: 10, time: Timestamp { nanos: 5_000_000_000 } };
    assert!(Expiration::AtHeight(10).is_expired(&block));
    assert!(!Expiration::AtHeight(11).is_expired(&block));
    assert!(!Expiration::Never.is_expired(&block));
    assert_eq!(Duration::Height(5).after(&block), Expiration::AtHeight(15));
    assert_eq!(Duration::Time(2).after(&block), Expiration::AtTime(Timestamp { nanos: 7_000_000_000 }));
}
