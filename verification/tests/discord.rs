use arena_contracts::chain::Coin;
use arena_contracts::discord::{DiscordConnection, DiscordError, DiscordIdentity, DiscordProfile};

fn profile(user_id: u64, name: &str) -> DiscordProfile {
    DiscordProfile { user_id, username: name.to_string(), avatar_hash: None, connections: None }
}

fn registry() -> DiscordIdentity {
    DiscordIdentity::new("owner".to_string(), Coin { denom: "ujuno".to_string(), amount: 1_000 })
}

#[test]
fn first_profile_of_a_new_user_earns_the_faucet() {
    let mut d = registry();
    let faucet = d.set_profile("addr1".to_string(), profile(7, "alice"));
    assert_eq!(faucet, Some(Coin { denom: "ujuno".to_string(), amount: 1_000 }));
    // Paid only to an empty wallet.
    assert_eq!(DiscordIdentity::faucet_payment(faucet.clone(), 0), faucet);
    assert_eq!(DiscordIdentity::faucet_payment(faucet, 5), None);

    // Same address again: no faucet.
    assert_eq!(d.set_profile("addr1".to_string(), profile(7, "alice")), None);
    // Another address for the same discord user: no faucet.
    assert_eq!(d.set_profile("addr2".to_string(), profile(7, "alice")), None);
    // A new user on a new address: faucet.
    assert!(d.set_profile("addr3".to_string(), profile(8, "bob")).is_some());

    // In descending address order.
    assert_eq!(d.connected_wallets(7), vec!["addr2".to_string(), "addr1".to_string()]);
    assert_eq!(d.connected_wallets(8), vec!["addr3".to_string()]);
    assert!(d.connected_wallets(9).is_empty());
    assert_eq!(d.discord_profile(&"addr3".to_string()).unwrap().username, "bob");
}

#[test]
fn connections_follow_the_discord_user() {
    let mut d = registry();
    assert_eq!(
        d.set_connections(&"addr1".to_string(), vec![]).unwrap_err(),
        DiscordError::ProfileNotFound
    );
    d.set_profile("addr1".to_string(), profile(7, "alice"));
    d.set_profile("addr2".to_string(), profile(7, "alice"));
    let conns = vec![DiscordConnection { key: "twitter".to_string(), username: "@alice".to_string() }];
    assert!(d.set_connections(&"addr1".to_string(), conns).is_ok());
    // Visible from the other address of the same user.
    let seen = d.discord_connections(&"addr2".to_string()).unwrap().unwrap();
    assert_eq!(seen.len(), 1);
    assert_eq!(seen[0].username, "@alice");
    d.set_profile("addr3".to_string(), profile(9, "carol"));
    assert!(d.discord_connections(&"addr3".to_string()).unwrap().is_none());
    assert!(d.discord_connections(&"nobody".to_string()).is_err());
}

#[test]
fn only_the_owner_administers() {
    let d = registry();
    let me = "contract".to_string();
    assert!(d.authorize(&"owner".to_string(), &me, false).is_ok());
    assert!(d.authorize(&me, &me, false).is_ok());
    assert!(d.authorize(&"someone".to_string(), &me, true).is_ok());
    assert_eq!(d.authorize(&"someone".to_string(), &me, false).unwrap_err(), DiscordError::NotOwner);
}
