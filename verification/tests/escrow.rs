use arena_contracts::amount_map::AmountMap;
use arena_contracts::balance::Balance;
use arena_contracts::distribution::{equal_distribution, Distribution, FeeInformation, MemberPercentage, Route};
use arena_contracts::math::Decimal;
use arena_contracts::escrow::{migration_plan, Escrow, EscrowError};
use arena_contracts::member_balances::MemberBalance;
use arena_contracts::nft_set::NftSet;

fn native(denom: &str, amount: u128) -> Balance {
    let mut b = Balance::empty();
    b.native.set(denom.to_string(), amount);
    b
}

fn member(addr: &str, balance: Balance) -> MemberBalance {
    MemberBalance { addr: addr.to_string(), balance }
}

#[test]
fn test_instantiate_and_query_state() {
    let creator = "creator".to_string();
    let member1 = "member1".to_string();
    let member2 = "member2".to_string();

    let mut cw20 = AmountMap::new();
    cw20.set("cw20_token".to_string(), 500);
    let mut cw721 = NftSet::new();
    cw721.insert("cw721_contract".to_string(), "token1".to_string());
    let mut first = native("uatom", 1000);
    first.cw20 = cw20;
    first.cw721 = cw721;

    let dues = vec![member(&member1, first), member(&member2, native("uatom", 2000))];
    let escrow = Escrow::instantiate(&creator, &dues, false).unwrap();

    assert!(!escrow.is_locked);
    assert!(!escrow.is_fully_funded());
    assert!(!escrow.is_funded(&member1));

    let due = escrow.dues.get(&member1);
    assert_eq!(due.native.get(&"uatom".to_string()), 1000);
    assert_eq!(due.cw20.get(&"cw20_token".to_string()), 500);
    assert_eq!(due.cw721.entries.len(), 1);
    assert!(due.cw721.find(&"cw721_contract".to_string(), &"token1".to_string()).is_some());

    let due = escrow.dues.get(&member2);
    assert_eq!(due.native.get(&"uatom".to_string()), 2000);
    assert!(due.cw20.is_empty());
    assert!(due.cw721.is_empty());
}

#[test]
fn test_query_dues_pagination() {
    let creator = "creator".to_string();
    let dues = vec![
        member("member1", native("uatom", 1000)),
        member("member2", native("uatom", 2000)),
        member("member3", native("uatom", 3000)),
    ];
    let escrow = Escrow::instantiate(&creator, &dues, false).unwrap();

    let dues_list = escrow.dues_page(None, 2);
    assert_eq!(dues_list.len(), 2);
    for member_due in dues_list {
        let amount = member_due.balance.native.get(&"uatom".to_string());
        assert!(amount > 0);
    }

    // Without a limit the page holds up to the pagination default, which
    // is above three.
    let initial_dues = escrow.initial_dues_page(None, 10);
    assert_eq!(initial_dues.len(), 3);
}

#[test]
fn pages_run_in_address_order_after_the_start() {
    let dues = vec![
        member("carol", native("uatom", 3)),
        member("alice", native("uatom", 1)),
        member("bob", native("uatom", 2)),
    ];
    let escrow = Escrow::instantiate(&"c".to_string(), &dues, false).unwrap();
    let page = escrow.dues_page(None, 10);
    let names: Vec<&str> = page.iter().map(|m| m.addr.as_str()).collect();
    assert_eq!(names, vec!["alice", "bob", "carol"]);
    let page = escrow.dues_page(Some(&"alice".to_string()), 1);
    assert_eq!(page.len(), 1);
    assert_eq!(page[0].addr, "bob");
    assert!(escrow.balances_page(None, 10).is_empty());
}

fn cw20(token: &str, amount: u128) -> Balance {
    let mut b = Balance::empty();
    b.cw20.set(token.to_string(), amount);
    b
}

fn nft(contract: &str, token_id: &str) -> Balance {
    let mut b = Balance::empty();
    b.cw721.insert(contract.to_string(), token_id.to_string());
    b
}

#[test]
fn pages_take_native_holders_before_cw20_and_cw721_holders() {
    let dues = vec![
        member("amy", nft("nfts", "1")),
        member("bea", cw20("token", 5)),
        member("zed", native("uatom", 1)),
        member("yan", native("uatom", 2)),
    ];
    let escrow = Escrow::instantiate(&"c".to_string(), &dues, false).unwrap();
    let names = |page: Vec<&MemberBalance>| page.iter().map(|m| m.addr.clone()).collect::<Vec<String>>();
    // The native holders come first in the scan, though their addresses are last.
    assert_eq!(names(escrow.dues_page(None, 1)), vec!["yan"]);
    assert_eq!(names(escrow.dues_page(None, 2)), vec!["yan", "zed"]);
    // Then the cw20 holder, then the cw721 holder; the page is listed by address.
    assert_eq!(names(escrow.dues_page(None, 3)), vec!["bea", "yan", "zed"]);
    assert_eq!(names(escrow.dues_page(None, 4)), vec!["amy", "bea", "yan", "zed"]);
    // The start bounds addresses, not the scan.
    assert_eq!(names(escrow.dues_page(Some(&"yan".to_string()), 1)), vec!["zed"]);
    assert_eq!(names(escrow.dues_page(Some(&"b".to_string()), 2)), vec!["yan", "zed"]);
}

#[test]
fn pages_scan_shorter_addresses_first() {
    let dues = vec![member("aa", native("uatom", 1)), member("z", native("uatom", 2))];
    let escrow = Escrow::instantiate(&"c".to_string(), &dues, false).unwrap();
    let page = escrow.dues_page(None, 1);
    assert_eq!(page.len(), 1);
    assert_eq!(page[0].addr, "z");
    let page = escrow.dues_page(None, 2);
    assert_eq!(page[0].addr, "aa");
    assert_eq!(page[1].addr, "z");
}

#[test]
fn a_zero_limit_pages_everything() {
    let dues = vec![
        member("a", native("uatom", 1)),
        member("b", native("uatom", 2)),
        member("c", cw20("token", 3)),
    ];
    let escrow = Escrow::instantiate(&"c".to_string(), &dues, false).unwrap();
    assert_eq!(escrow.dues_page(None, 0).len(), 3);
    assert_eq!(escrow.dues_page(Some(&"a".to_string()), 0).len(), 2);
}

#[test]
fn escrow_without_dues_is_refused() {
    assert_eq!(Escrow::instantiate(&"c".to_string(), &vec![], false).unwrap_err(), EscrowError::NoneDue);
    assert_eq!(Escrow::instantiate(&"c".to_string(), &vec![], true).unwrap_err(), EscrowError::NoneDue);
    // The enrollment flag has no effect.
    let e = Escrow::instantiate(&"enrollment".to_string(), &vec![member("a", native("uatom", 1))], true).unwrap();
    assert!(!e.is_locked);
    assert_eq!(e.enrollment_contract, None);
}

#[test]
fn enrollment_refunds_need_the_enrollment_contract_as_owner() {
    let dues = vec![member("a", native("ujuno", 100))];
    let mut e = Escrow::instantiate(&"enrollment".to_string(), &dues, false).unwrap();
    e.receive(&"enrollment".to_string(), &native("ujuno", 300)).unwrap();
    let fee = arena_contracts::chain::Coin { denom: "ujuno".to_string(), amount: 100 };
    let addrs = vec!["x".to_string(), "y".to_string()];
    assert_eq!(e.enrollment_withdraw(&"enrollment".to_string(), &addrs, &fee).unwrap_err(), EscrowError::Unauthorized);
    e.enrollment_contract = Some("enrollment".to_string());
    let sends = e.enrollment_withdraw(&"enrollment".to_string(), &addrs, &fee).unwrap();
    assert_eq!(sends.len(), 2);
    assert_eq!(e.balances.get(&"enrollment".to_string()).native.get(&"ujuno".to_string()), 100);
    assert_eq!(e.total.native.get(&"ujuno".to_string()), 100);
}

#[test]
fn duplicate_dues_are_refused() {
    let dues = vec![member("a", native("uatom", 1)), member("a", native("uatom", 2))];
    assert_eq!(Escrow::instantiate(&"c".to_string(), &dues, false).unwrap_err(), EscrowError::DuplicateDue);
}

#[test]
fn paying_every_due_locks_and_asks_to_activate() {
    let dues = vec![member("a", native("uatom", 100)), member("b", native("uatom", 50))];
    let mut e = Escrow::instantiate(&"owner".to_string(), &dues, false).unwrap();

    // A partial payment reduces the due.
    let o = e.receive(&"a".to_string(), &native("uatom", 40)).unwrap();
    assert!(o.activate.is_none());
    assert_eq!(e.dues.get(&"a".to_string()).native.get(&"uatom".to_string()), 60);

    let o = e.receive(&"a".to_string(), &native("uatom", 60)).unwrap();
    assert!(o.activate.is_none());
    assert!(e.is_funded(&"a".to_string()));
    assert!(!e.is_locked);

    let o = e.receive(&"b".to_string(), &native("uatom", 70)).unwrap();
    assert_eq!(o.activate, Some("owner".to_string()));
    assert!(e.is_locked);
    assert!(e.is_fully_funded());
    assert_eq!(e.total.native.get(&"uatom".to_string()), 170);

    // Locked: no withdrawal.
    assert_eq!(e.withdraw(&"a".to_string()).unwrap_err(), EscrowError::Locked);
}

#[test]
fn empty_deposits_are_refused() {
    let dues = vec![member("a", native("uatom", 100))];
    let mut e = Escrow::instantiate(&"owner".to_string(), &dues, false).unwrap();
    assert_eq!(e.receive(&"a".to_string(), &Balance::empty()).unwrap_err(), EscrowError::EmptyBalance);
}

#[test]
fn withdrawing_restores_the_initial_due() {
    let dues = vec![member("a", native("uatom", 100)), member("b", native("uatom", 50))];
    let mut e = Escrow::instantiate(&"owner".to_string(), &dues, false).unwrap();
    e.receive(&"a".to_string(), &native("uatom", 100)).unwrap();
    assert!(e.is_funded(&"a".to_string()));

    let paid = e.withdraw(&"a".to_string()).unwrap();
    assert_eq!(paid.native.get(&"uatom".to_string()), 100);
    assert!(!e.is_funded(&"a".to_string()));
    assert_eq!(e.dues.get(&"a".to_string()).native.get(&"uatom".to_string()), 100);
    assert!(e.total.is_empty());

    // Nothing left to withdraw.
    assert!(e.withdraw(&"a".to_string()).unwrap().is_empty());
}

#[test]
fn lock_is_for_the_owner() {
    let dues = vec![member("a", native("uatom", 100))];
    let mut e = Escrow::instantiate(&"owner".to_string(), &dues, false).unwrap();
    assert_eq!(e.lock(&"a".to_string(), true, None).unwrap_err(), EscrowError::NotOwner);
    assert!(e.lock(&"owner".to_string(), true, None).is_ok());
    assert!(e.is_locked);
}

#[test]
fn escrow_migration_plans() {
    let p = migration_plan(1, 8);
    assert!(p.from_v1_8 && !p.from_v2_0);
    let p = migration_plan(2, 0);
    assert!(!p.from_v1_8 && p.from_v2_0);
    let p = migration_plan(2, 1);
    assert!(!p.from_v1_8 && !p.from_v2_0);
}

#[test]
fn total_stays_the_sum_of_what_members_hold() {
    let dues = vec![member("a", native("uatom", 100)), member("b", native("uatom", 100))];
    let mut e = Escrow::instantiate(&"owner".to_string(), &dues, false).unwrap();
    e.receive(&"a".to_string(), &native("uatom", 30)).unwrap();
    let mut both = native("uatom", 20);
    both.cw20.set("token".to_string(), 7);
    e.receive(&"b".to_string(), &both).unwrap();
    e.receive(&"a".to_string(), &cw20("token", 5)).unwrap();
    let held = |e: &Escrow, denom: &str, cw20: bool| -> u128 {
        e.balances
            .entries
            .iter()
            .map(|m| if cw20 { m.balance.cw20.get(&denom.to_string()) } else { m.balance.native.get(&denom.to_string()) })
            .sum()
    };
    assert_eq!(e.total.native.get(&"uatom".to_string()), 50);
    assert_eq!(held(&e, "uatom", false), 50);
    assert_eq!(e.total.cw20.get(&"token".to_string()), 12);
    assert_eq!(held(&e, "token", true), 12);
    e.withdraw(&"a".to_string()).unwrap();
    assert_eq!(e.total.native.get(&"uatom".to_string()), 20);
    assert_eq!(held(&e, "uatom", false), 20);
    assert_eq!(e.total.cw20.get(&"token".to_string()), 7);
    assert_eq!(held(&e, "token", true), 7);
}

fn fee(tax: u64, receiver: &str) -> FeeInformation {
    FeeInformation { tax: Decimal::percent(tax), receiver: receiver.to_string(), cw20_msg: None, cw721_msg: None }
}

fn juno_of(b: &Balance) -> u128 {
    b.native.get(&"juno".to_string())
}

/// Funds an escrow with 10,000 juno from each of two members and plans and
/// settles its distribution.
fn distribute(fees: Vec<FeeInformation>, distribution: Distribution) -> (Escrow, Vec<MemberBalance>) {
    let dues = vec![member("user1", native("juno", 10_000)), member("user2", native("juno", 10_000))];
    let mut e = Escrow::instantiate(&"competition".to_string(), &dues, false).unwrap();
    e.receive(&"user1".to_string(), &native("juno", 10_000)).unwrap();
    let o = e.receive(&"user2".to_string(), &native("juno", 10_000)).unwrap();
    assert_eq!(o.activate, Some("competition".to_string()));
    let plan = e.plan_distribution(&"competition".to_string(), &fees, &distribution, true).unwrap().unwrap();
    let payouts: Vec<MemberBalance> =
        plan.fee_payouts.iter().map(|p| member(&p.addr, native("juno", juno_of(&p.balance)))).collect();
    let routes = plan.splits.iter().map(|_| Route::Direct).collect();
    e.settle_distribution(plan, &routes).unwrap();
    (e, payouts)
}

#[test]
fn test_additional_layered_fees() {
    // The arena tax of 15%, then 5% for user3, then 5% for user4; all five
    // members tied, so each has a fifth, the remainder going to user4.
    let fees = vec![fee(15, "arena"), fee(5, "user3"), fee(5, "user4")];
    let users = ["user1", "user2", "user3", "user4", "user5"];
    let fifth = Decimal::percent(20);
    let distribution = Distribution {
        member_percentages: users
            .iter()
            .map(|u| MemberPercentage { addr: u.to_string(), percentage: fifth })
            .collect(),
        remainder_addr: "user4".to_string(),
    };
    let (e, payouts) = distribute(fees, distribution);
    // 20000 * .85 * .05 and 20000 * .85 * .95 * .05.
    assert_eq!(juno_of(&payouts[1].balance), 850);
    assert_eq!(juno_of(&payouts[2].balance), 807);
    assert_eq!(juno_of(&e.balances.get(&"user4".to_string())), 3071);
    for u in ["user1", "user2", "user3", "user5"] {
        assert_eq!(juno_of(&e.balances.get(&u.to_string())), 3068);
    }
}

#[test]
fn test_competition_draw() {
    // A draw: no distribution is given, so the members share equally.
    let members = vec!["user1".to_string(), "user2".to_string()];
    let distribution = equal_distribution(&members, &members[0]);
    let (e, payouts) = distribute(vec![fee(15, "arena")], distribution);
    assert_eq!(juno_of(&payouts[0].balance), 3_000);
    assert_eq!(juno_of(&e.balances.get(&"user1".to_string())), 8_500);
    assert_eq!(juno_of(&e.balances.get(&"user2".to_string())), 8_500);
}

fn two_way(first: u64, second: u64, remainder: &str) -> Distribution {
    Distribution {
        member_percentages: vec![
            MemberPercentage { addr: "user1".to_string(), percentage: Decimal::percent(first) },
            MemberPercentage { addr: "user2".to_string(), percentage: Decimal::percent(second) },
        ],
        remainder_addr: remainder.to_string(),
    }
}

#[test]
fn test_preset_distribution() {
    // 20,000 is 17,000 after the 15% tax; the result gives .25 to user1 and
    // .75 to user2, and each passes its share on by its preset: user1's
    // .25/.75 (remainder user1), user2's .5/.5 (remainder user2).
    let dues = vec![member("user1", native("juno", 10_000)), member("user2", native("juno", 10_000))];
    let mut e = Escrow::instantiate(&"competition".to_string(), &dues, false).unwrap();
    e.receive(&"user1".to_string(), &native("juno", 10_000)).unwrap();
    e.receive(&"user2".to_string(), &native("juno", 10_000)).unwrap();
    let plan = e
        .plan_distribution(&"competition".to_string(), &vec![fee(15, "arena")], &two_way(25, 75, "user1"), true)
        .unwrap()
        .unwrap();
    let preset = |addr: &str| if addr == "user1" { two_way(25, 75, "user1") } else { two_way(50, 50, "user2") };
    let routes: Vec<Route> = plan
        .splits
        .iter()
        .map(|s| arena_contracts::distribution::route_entry(&s.addr, Some(preset(&s.addr)), None, 30))
        .collect();
    e.settle_distribution(plan, &routes).unwrap();
    let page = e.balances_page(None, 10);
    assert_eq!(page[0].addr, "user1");
    assert_eq!(juno_of(&page[0].balance), 7_438);
    assert_eq!(page[1].addr, "user2");
    assert_eq!(juno_of(&page[1].balance), 9_562);
}

#[test]
fn a_distribution_leaves_the_members_the_total_less_the_fees() {
    let users = ["user1", "user2", "user3"];
    let distribution = Distribution {
        member_percentages: users
            .iter()
            .map(|u| MemberPercentage { addr: u.to_string(), percentage: Decimal::percent(30) })
            .collect(),
        remainder_addr: "user1".to_string(),
    };
    let (e, payouts) = distribute(vec![fee(15, "arena"), fee(5, "user3")], distribution);
    let fees: u128 = payouts.iter().map(|p| juno_of(&p.balance)).sum();
    let held: u128 = users.iter().map(|u| juno_of(&e.balances.get(&u.to_string()))).sum();
    assert_eq!(fees, 3_000 + 850);
    assert_eq!(held + fees, 20_000);
    assert_eq!(juno_of(&e.total), held);
    assert!(!e.is_locked);
}

#[test]
fn a_deposit_is_taken_back_whole() {
    let dues = vec![member("user1", native("juno", 100)), member("user2", native("juno", 100))];
    let mut e = Escrow::instantiate(&"competition".to_string(), &dues, false).unwrap();
    let user1 = "user1".to_string();
    let user3 = "user3".to_string();
    e.receive(&user1, &native("juno", 100)).unwrap();
    // A stranger deposits and takes it back.
    let mut deposit = native("juno", 40);
    deposit.cw20.set("token".to_string(), 7);
    e.receive(&user3, &deposit).unwrap();
    assert_eq!(juno_of(&e.total), 140);
    let back = e.withdraw(&user3).unwrap();
    assert_eq!(juno_of(&back), 40);
    assert_eq!(back.cw20.get(&"token".to_string()), 7);
    assert_eq!(juno_of(&e.total), 100);
    assert_eq!(e.total.cw20.get(&"token".to_string()), 0);
    assert!(e.balances.get(&user3).is_empty());
    // A member who withdraws owes the initial due again.
    let back = e.withdraw(&user1).unwrap();
    assert_eq!(juno_of(&back), 100);
    assert_eq!(juno_of(&e.total), 0);
    assert_eq!(juno_of(&e.dues.get(&user1)), 100);
}

fn ratio(numerator: u128, denominator: u128) -> Decimal {
    Decimal::checked_from_ratio(numerator, denominator).unwrap()
}

fn shares(list: &[(&str, Decimal)], remainder: &str) -> Distribution {
    Distribution {
        member_percentages: list.iter().map(|(a, p)| MemberPercentage { addr: a.to_string(), percentage: *p }).collect(),
        remainder_addr: remainder.to_string(),
    }
}

#[test]
fn test_create_competition() {
    // A wager between two users of 10k juno each; the arena takes 15% and
    // the winner the rest.
    let (e, payouts) = distribute(vec![fee(15, "dao")], shares(&[("user1", Decimal::one())], "dao"));
    assert_eq!(payouts[0].addr, "dao");
    assert_eq!(juno_of(&payouts[0].balance), 3_000);
    assert_eq!(juno_of(&e.balances.get(&"user1".to_string())), 17_000);
    assert_eq!(juno_of(&e.balances.get(&"user2".to_string())), 0);
}

#[test]
fn test_distributions() {
    // The league's standings, as shares of what the 15% arena tax leaves of
    // the 20k juno staked.
    let tax = || vec![fee(15, "arena")];
    // Everyone tied: a fifth each.
    let users = ["user1", "user2", "user3", "user4", "user5"];
    let fifths: Vec<(&str, Decimal)> = users.iter().map(|u| (*u, ratio(20, 100))).collect();
    let (e, _) = distribute(tax(), shares(&fifths, "dao"));
    for u in users {
        assert_eq!(juno_of(&e.balances.get(&u.to_string())), 3400);
    }
    // Two tied first take 75% between them, the second 25%.
    let (e, _) = distribute(
        tax(),
        shares(&[("user1", ratio(375, 1000)), ("user2", ratio(375, 1000)), ("user3", ratio(25, 100))], "dao"),
    );
    assert_eq!(juno_of(&e.balances.get(&"user1".to_string())), 6375);
    assert_eq!(juno_of(&e.balances.get(&"user2".to_string())), 6375);
    assert_eq!(juno_of(&e.balances.get(&"user3".to_string())), 4250);
    // First 70%, second 20%, two tied third 5% each.
    let (e, _) = distribute(
        tax(),
        shares(
            &[("user1", ratio(70, 100)), ("user2", ratio(20, 100)), ("user3", ratio(5, 100)), ("user4", ratio(5, 100))],
            "dao",
        ),
    );
    assert_eq!(juno_of(&e.balances.get(&"user1".to_string())), 11900);
    assert_eq!(juno_of(&e.balances.get(&"user2".to_string())), 3400);
    assert_eq!(juno_of(&e.balances.get(&"user3".to_string())), 850);
    assert_eq!(juno_of(&e.balances.get(&"user4".to_string())), 850);
    // First 75%, two tied second 12.5% each.
    let (e, _) = distribute(
        tax(),
        shares(&[("user2", ratio(75, 100)), ("user1", ratio(125, 1000)), ("user4", ratio(125, 1000))], "dao"),
    );
    assert_eq!(juno_of(&e.balances.get(&"user2".to_string())), 12750);
    assert_eq!(juno_of(&e.balances.get(&"user1".to_string())), 2125);
    assert_eq!(juno_of(&e.balances.get(&"user4".to_string())), 2125);
}

#[test]
fn any_repeated_due_is_refused() {
    // The first listing holds nothing; the address is still listed twice.
    let dues = vec![member("user1", Balance::empty()), member("user2", native("juno", 5)), member("user1", native("juno", 5))];
    assert_eq!(Escrow::instantiate(&"competition".to_string(), &dues, false).unwrap_err(), EscrowError::DuplicateDue);
}
