use arena_contracts::balance::Balance;
use arena_contracts::distribution::{
    apply_layered_fees, equal_distribution, pass_on, route_entry, Distribution, FeeInformation, MemberPercentage, Route,
};
use arena_contracts::math::Decimal;
use arena_contracts::member_balances::MemberBalance;

fn native(amount: u128) -> Balance {
    let mut b = Balance::empty();
    b.native.set("juno".to_string(), amount);
    b
}

fn share(addr: &str, percent: u64) -> MemberPercentage {
    MemberPercentage { addr: addr.to_string(), percentage: Decimal::percent(percent) }
}

fn juno(b: &Balance) -> u128 {
    b.native.get(&"juno".to_string())
}

#[test]
fn split_rounds_down_and_leaves_the_rest_to_the_remainder() {
    let total = native(10_000);
    let d = Distribution {
        member_percentages: vec![share("user1", 70), share("user2", 20), share("user3", 10)],
        remainder_addr: "dao".to_string(),
    };
    let out = total.split(&d).unwrap();
    assert_eq!(out.len(), 4);
    assert_eq!(juno(&out[0].balance), 7_000);
    assert_eq!(juno(&out[1].balance), 2_000);
    assert_eq!(juno(&out[2].balance), 1_000);
    assert_eq!(out[3].addr, "dao");
    assert_eq!(juno(&out[3].balance), 0);

    // Thirds of 100 leave one to the remainder.
    let third = Decimal { atomics: 333_333_333_333_333_333 };
    let d = Distribution {
        member_percentages: vec![
            MemberPercentage { addr: "a".to_string(), percentage: third },
            MemberPercentage { addr: "b".to_string(), percentage: third },
            MemberPercentage { addr: "c".to_string(), percentage: third },
        ],
        remainder_addr: "r".to_string(),
    };
    let out = native(100).split(&d).unwrap();
    let parts: Vec<u128> = out.iter().map(|m| juno(&m.balance)).collect();
    assert_eq!(parts, vec![33, 33, 33, 1]);
}

#[test]
fn shares_above_the_whole_cannot_be_split() {
    let d = Distribution {
        member_percentages: vec![share("a", 60), share("b", 60)],
        remainder_addr: "r".to_string(),
    };
    assert!(native(100).split(&d).is_err());
}

#[test]
fn layered_fees_take_their_tax_of_what_is_left() {
    let mut total = native(100_000);
    let fees = vec![
        FeeInformation { tax: Decimal::percent(15), receiver: "arena".to_string(), cw20_msg: None, cw721_msg: None },
        FeeInformation { tax: Decimal::percent(10), receiver: "host".to_string(), cw20_msg: None, cw721_msg: None },
    ];
    let (payouts, positions) = apply_layered_fees(&mut total, &fees).unwrap();
    assert_eq!(payouts.len(), 2);
    assert_eq!(positions, vec![0, 1]);
    assert_eq!(payouts[0].addr, "arena");
    assert_eq!(juno(&payouts[0].balance), 15_000);
    assert_eq!(juno(&payouts[1].balance), 8_500);
    assert_eq!(juno(&total), 76_500);
}

#[test]
fn fees_that_come_to_nothing_pay_nothing() {
    let mut total = native(1_000);
    let fees = vec![
        FeeInformation { tax: Decimal::percent(0), receiver: "free".to_string(), cw20_msg: None, cw721_msg: None },
        FeeInformation { tax: Decimal::percent(50), receiver: "half".to_string(), cw20_msg: None, cw721_msg: None },
        FeeInformation { tax: Decimal { atomics: 1 }, receiver: "dust".to_string(), cw20_msg: None, cw721_msg: None },
    ];
    let (payouts, positions) = apply_layered_fees(&mut total, &fees).unwrap();
    // Only the fee that takes something is paid; the others are skipped.
    assert_eq!(payouts.len(), 1);
    assert_eq!(positions, vec![1]);
    assert_eq!(payouts[0].addr, "half");
    assert_eq!(juno(&payouts[0].balance), 500);
    assert_eq!(juno(&total), 500);
}

#[test]
fn equal_shares_and_routes() {
    let members = vec!["a".to_string(), "b".to_string(), "c".to_string()];
    let d = equal_distribution(&members, &"dao".to_string());
    assert_eq!(d.member_percentages.len(), 3);
    assert_eq!(d.member_percentages[1].percentage.atomics, 333_333_333_333_333_333);
    assert_eq!(d.remainder_addr, "dao");

    match route_entry(&"dao".to_string(), None, Some(members.clone()), 30) {
        Route::Split(d) => assert_eq!(d.member_percentages.len(), 3),
        Route::Direct => panic!("a DAO with members splits"),
    }
    assert!(matches!(route_entry(&"user".to_string(), None, None, 30), Route::Direct));
    // A member list that reached the limit is not split.
    assert!(matches!(route_entry(&"dao".to_string(), None, Some(members), 3), Route::Direct));
    let preset = Distribution { member_percentages: vec![share("x", 100)], remainder_addr: "p".to_string() };
    match route_entry(&"team".to_string(), Some(preset), None, 30) {
        Route::Split(d) => assert_eq!(d.remainder_addr, "p"),
        Route::Direct => panic!("a preset splits"),
    }
}

#[test]
fn a_share_reaches_its_holders_in_full() {
    // Credited directly: the share itself.
    let direct = pass_on(MemberBalance { addr: "user".to_string(), balance: native(1_001) }, &Route::Direct).unwrap();
    assert_eq!(direct.len(), 1);
    assert_eq!(direct[0].addr, "user");
    assert_eq!(juno(&direct[0].balance), 1_001);
    // Split among a DAO's three members, the DAO taking the remainder.
    let members = vec!["a".to_string(), "b".to_string(), "c".to_string()];
    let route = route_entry(&"dao".to_string(), None, Some(members), 30);
    let parts = pass_on(MemberBalance { addr: "dao".to_string(), balance: native(1_001) }, &route).unwrap();
    assert_eq!(parts.len(), 4);
    let amounts: Vec<u128> = parts.iter().map(|p| juno(&p.balance)).collect();
    assert_eq!(amounts, vec![333, 333, 333, 2]);
    assert_eq!(amounts.iter().sum::<u128>(), 1_001);
    assert_eq!(parts[3].addr, "dao");
    // A split that asks for more than the share is refused.
    let greedy = Distribution { member_percentages: vec![share("a", 80), share("b", 30)], remainder_addr: "dao".to_string() };
    assert!(pass_on(MemberBalance { addr: "dao".to_string(), balance: native(100) }, &Route::Split(greedy)).is_err());
}
