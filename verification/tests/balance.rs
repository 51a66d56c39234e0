use arena_contracts::balance::{Balance, BalanceError};
use arena_contracts::math::Decimal;

fn balance(native: &[(&str, u128)], cw20: &[(&str, u128)], nfts: &[(&str, &str)]) -> Balance {
    let mut b = Balance::empty();
    for (k, a) in native {
        b.native.set(k.to_string(), *a);
    }
    for (k, a) in cw20 {
        b.cw20.set(k.to_string(), *a);
    }
    for (c, t) in nfts {
        b.cw721.insert(c.to_string(), t.to_string());
    }
    b
}

#[test]
fn adding_then_taking_off_gives_back_the_balance() {
    let a = balance(&[("ujuno", 10)], &[("token", 3)], &[("nft", "1")]);
    let b = balance(&[("ujuno", 5), ("uatom", 2)], &[], &[("nft", "2")]);
    let sum = a.checked_add(&b).unwrap();
    assert_eq!(sum.native.get(&"ujuno".to_string()), 15);
    assert_eq!(sum.native.get(&"uatom".to_string()), 2);
    assert_eq!(sum.cw721.entries.len(), 2);
    let back = sum.checked_sub(&b).unwrap();
    assert_eq!(back.native.get(&"ujuno".to_string()), 10);
    assert_eq!(back.native.get(&"uatom".to_string()), 0);
    assert_eq!(back.cw20.get(&"token".to_string()), 3);
    assert!(back.cw721.find(&"nft".to_string(), &"1".to_string()).is_some());
    assert!(back.cw721.find(&"nft".to_string(), &"2".to_string()).is_none());
    // The sum does not depend on the order.
    let other = b.checked_add(&a).unwrap();
    assert_eq!(other.native.get(&"ujuno".to_string()), 15);
}

#[test]
fn taking_off_more_than_held_fails() {
    let a = balance(&[("ujuno", 1)], &[], &[]);
    let b = balance(&[("ujuno", 2)], &[], &[]);
    assert_eq!(a.checked_sub(&b).unwrap_err(), BalanceError::Insufficient);
    let nft = balance(&[], &[], &[("nft", "1")]);
    assert_eq!(a.checked_sub(&nft).unwrap_err(), BalanceError::Insufficient);
    let big = balance(&[("ujuno", u128::MAX)], &[], &[]);
    assert_eq!(big.checked_add(&a).unwrap_err(), BalanceError::Overflow);
}

#[test]
fn what_is_left_of_a_due_is_empty_exactly_when_paid() {
    let due = balance(&[("ujuno", 100)], &[], &[("nft", "1")]);
    let part = balance(&[("ujuno", 60)], &[], &[]);
    let rest = due.difference_to(&part);
    assert_eq!(rest.native.get(&"ujuno".to_string()), 40);
    assert!(!rest.is_empty());
    let all = balance(&[("ujuno", 150)], &[], &[("nft", "1")]);
    assert!(due.difference_to(&all).is_empty());
}

#[test]
fn scaling_keeps_no_tokens_and_rounds_down() {
    let b = balance(&[("ujuno", 99)], &[("token", 10)], &[("nft", "1")]);
    let scaled = b.checked_mul_floor(Decimal::percent(50)).unwrap();
    assert_eq!(scaled.native.get(&"ujuno".to_string()), 49);
    assert_eq!(scaled.cw20.get(&"token".to_string()), 5);
    assert!(scaled.cw721.is_empty());
}
