use arena_contracts::agon::{validate_agon_tax, AgonError, AgonEscrow, AgonRuleset, AgonRulesets};
use arena_contracts::balance::Balance;
use arena_contracts::math::{Decimal, MathError};

const CREATOR: &str = "creator";

fn native(amount: u128) -> Balance {
    let mut b = Balance::empty();
    b.native.set("ujuno".to_string(), amount);
    b
}

fn dec(atomics: u128) -> Decimal {
    Decimal { atomics }
}

#[test]
fn test_lock() {
    let mut escrow = AgonEscrow::new(CREATOR.to_string());

    assert!(escrow.lock(&CREATOR.to_string(), true).is_ok());
    assert_eq!(escrow.withdraw(&CREATOR.to_string()).unwrap_err(), AgonError::Locked);

    assert!(escrow.lock(&CREATOR.to_string(), false).is_ok());
    assert!(escrow.withdraw(&CREATOR.to_string()).is_ok());
}

#[test]
fn test_set_distribution() {
    let mut escrow = AgonEscrow::new(CREATOR.to_string());
    let distribution = vec![
        ("addr1".to_string(), dec(50)),
        ("addr2".to_string(), dec(30)),
        ("addr3".to_string(), dec(20)),
    ];
    escrow.set_distribution(&"user1".to_string(), distribution);
    let stored = escrow.distribution(&"user1".to_string()).unwrap();
    assert_eq!(stored.get(&"addr2".to_string()), Some(&dec(30)));
    assert_eq!(stored.entries.len(), 3);
}

#[test]
fn only_the_admin_locks() {
    let mut escrow = AgonEscrow::new(CREATOR.to_string());
    assert_eq!(escrow.lock(&"other".to_string(), true).unwrap_err(), AgonError::NotAdmin);
    assert!(!escrow.is_locked);
}

#[test]
fn deposits_count_against_dues_and_refunds_reduce_the_total() {
    let mut escrow = AgonEscrow::new(CREATOR.to_string());
    let user = "user".to_string();
    assert!(escrow.receive(&user, &native(100)).is_ok());
    // A first deposit without a due records an empty due, so a second one
    // exceeds it.
    assert_eq!(
        escrow.receive(&user, &native(1)).unwrap_err(),
        AgonError::Balance(arena_contracts::balance::BalanceError::Insufficient)
    );
    assert_eq!(escrow.total_balance.native.get(&"ujuno".to_string()), 100);

    let refunds = escrow.withdraw(&user).unwrap();
    assert_eq!(refunds.len(), 1);
    assert_eq!(refunds[0].balance.native.get(&"ujuno".to_string()), 100);
    assert!(escrow.total_balance.is_empty());
}

#[test]
fn presets_hand_shares_on() {
    let mut escrow = AgonEscrow::new(CREATOR.to_string());
    let one = 1_000_000_000_000_000_000u128;
    // "team" hands its share on to a and b, 3 : 1.
    escrow.set_distribution(&"team".to_string(), vec![("a".to_string(), dec(3 * one)), ("b".to_string(), dec(one))]);
    let input = vec![("solo".to_string(), dec(one / 2)), ("team".to_string(), dec(one / 2))];
    let out = escrow.apply_preset_distribution(&input).unwrap();
    assert_eq!(out.get(&"solo".to_string()), Some(&dec(one / 2)));
    assert_eq!(out.get(&"a".to_string()), Some(&dec(375_000_000_000_000_000)));
    assert_eq!(out.get(&"b".to_string()), Some(&dec(125_000_000_000_000_000)));
    assert!(out.get(&"team".to_string()).is_none());
}

#[test]
fn a_preset_without_weight_cannot_be_applied() {
    let mut escrow = AgonEscrow::new(CREATOR.to_string());
    escrow.set_distribution(&"team".to_string(), vec![("a".to_string(), dec(0))]);
    let r = escrow.apply_preset_distribution(&vec![("team".to_string(), dec(1))]);
    assert_eq!(r.unwrap_err(), AgonError::Math(MathError::DivideByZero));
}

#[test]
fn distributable_balance_needs_the_total_stake() {
    let escrow = AgonEscrow::new(CREATOR.to_string());
    assert_eq!(escrow.distributable_balance().unwrap_err(), AgonError::TotalStakeNotFound);
}

#[test]
fn wager_tax_may_be_one_whole() {
    assert!(validate_agon_tax(dec(1_000_000_000_000_000_000)).is_ok());
    assert_eq!(validate_agon_tax(dec(1_000_000_000_000_000_001)).unwrap_err(), AgonError::TaxAboveOne);
}

#[test]
fn wager_rulesets_count_from_the_current_count() {
    let mut r = AgonRulesets::new();
    let rs = |d: &str| AgonRuleset { rules: vec![], description: d.to_string(), is_enabled: true };
    assert_eq!(r.update_rulesets(vec![rs("a"), rs("b")], &vec![]).unwrap(), 2);
    assert_eq!(r.rulesets.get(0).unwrap().description, "a");
    assert_eq!(r.rulesets.get(1).unwrap().description, "b");
    assert_eq!(r.update_rulesets(vec![], &vec![1]).unwrap(), 2);
    assert!(!r.rulesets.get(1).unwrap().is_enabled);
    assert_eq!(r.update_rulesets(vec![rs("c")], &vec![7]).unwrap_err(), AgonError::RulesetNotFound { id: 7 });
    assert_eq!(r.count, 2);
}
