use arena_contracts::chain::{BlockInfo, Coin, Duration, Expiration, Timestamp};
use arena_contracts::fundraise::{Fundraise, FundraiseError, FundraiseState, InstantiateMsg};

fn coin(amount: u128, denom: &str) -> Coin {
    Coin { denom: denom.to_string(), amount }
}

fn start_block() -> BlockInfo {
    BlockInfo { height: 12345, time: Timestamp { nanos: 1_571_797_419_879_305_533 } }
}

fn at_height(block: &BlockInfo, plus: u64) -> BlockInfo {
    BlockInfo { height: block.height + plus, time: block.time }
}

fn users() -> Vec<String> {
    (0..10).map(|i| format!("user{}", i)).collect()
}

/// Fundraise 1m arena for 10k usdc up to 100k usdc, starting at block + 10
/// and lasting 100 blocks.
fn setup(block: &BlockInfo) -> Fundraise {
    let msg = InstantiateMsg {
        fundraise: coin(1_000_000, "arena"),
        deposit_denom: "usdc".to_string(),
        soft_cap: 10_000,
        hard_cap: Some(100_000),
        start: Some(Expiration::AtHeight(12355)),
        duration: Duration::Height(100),
        recipient: "dao".to_string(),
    };
    Fundraise::instantiate(block, &vec![coin(1_000_000, "arena")], msg).unwrap()
}

#[test]
fn test_success() {
    let block = start_block();
    let mut fundraise = setup(&block);
    let users = users();
    let deposit = vec![coin(5_000, "usdc")];

    // Not started yet.
    assert!(fundraise.deposit(&block, &users[0], &deposit).is_err());

    let block = at_height(&block, 20);
    for user in &users {
        assert!(fundraise.deposit(&block, user, &deposit).is_ok());
    }

    let block = at_height(&block, 10_000);
    // Expired.
    assert!(fundraise.deposit(&block, &users[0], &deposit).is_err());

    let expired = fundraise.expire(&block);
    assert!(expired.is_ok());
    let expired = expired.unwrap();
    assert_eq!(expired.state, FundraiseState::Successful);
    // The recipient receives 10 * 5k usdc.
    assert_eq!(expired.payout.to_address, "dao");
    assert_eq!(expired.payout.coin.denom, "usdc");
    assert_eq!(expired.payout.coin.amount, 50_000u128);

    let withdrawn = fundraise.withdraw(&users[0]);
    assert!(withdrawn.is_ok());
    let withdrawn = withdrawn.unwrap();
    // 1m / 10 arena.
    assert_eq!(withdrawn.payout.to_address, "user0");
    assert_eq!(withdrawn.payout.coin.denom, "arena");
    assert_eq!(withdrawn.payout.coin.amount, 100_000u128);
}

#[test]
fn test_failure() {
    let block = at_height(&start_block(), 20);
    let mut fundraise = setup(&start_block());
    let users = users();
    let mut wallet: u128 = 10_000;

    // Not ended.
    assert_eq!(fundraise.expire(&block).unwrap_err(), FundraiseError::NotExpired);

    // One deposit, below the soft cap.
    assert!(fundraise.deposit(&block, &users[0], &vec![coin(5_000, "usdc")]).is_ok());
    wallet -= 5_000;

    let block = at_height(&block, 1_000);
    let expired = fundraise.expire(&block).unwrap();
    assert_eq!(expired.state, FundraiseState::Failed);
    // The offered tokens go back to the recipient.
    assert_eq!(expired.payout.to_address, "dao");
    assert_eq!(expired.payout.coin.denom, "arena");
    assert_eq!(expired.payout.coin.amount, 1_000_000u128);

    let withdrawn = fundraise.withdraw(&users[0]).unwrap();
    assert_eq!(withdrawn.payout.coin.denom, "usdc");
    wallet += withdrawn.payout.coin.amount;
    // 5k deposit back + 5k kept.
    assert_eq!(wallet, 10_000u128);
}

#[test]
fn deposits_stop_at_the_hard_cap() {
    let block = at_height(&start_block(), 20);
    let mut fundraise = setup(&start_block());
    let alice = "alice".to_string();
    let bob = "bob".to_string();
    assert_eq!(fundraise.deposit(&block, &alice, &vec![coin(60_000, "usdc")]).unwrap().total_deposited, 60_000);
    // Past the cap: refused, nothing changes.
    assert_eq!(
        fundraise.deposit(&block, &bob, &vec![coin(40_001, "usdc")]).unwrap_err(),
        FundraiseError::HardCapExceeded { hard_cap: 100_000 }
    );
    assert_eq!(fundraise.total_deposited, 60_000);
    assert_eq!(fundraise.deposit_of(&bob), None);
    // Up to the cap exactly: accepted.
    assert_eq!(fundraise.deposit(&block, &bob, &vec![coin(40_000, "usdc")]).unwrap().total_deposited, 100_000);
    assert_eq!(
        fundraise.deposit(&block, &alice, &vec![coin(1, "usdc")]).unwrap_err(),
        FundraiseError::HardCapExceeded { hard_cap: 100_000 }
    );
}
