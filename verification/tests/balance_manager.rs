use arena_contracts::balance::Balance;
use arena_contracts::balance_manager::TotalBalanceManager;

fn native(pairs: &[(&str, u128)]) -> Balance {
    let mut b = Balance::empty();
    for (d, a) in pairs {
        b.native.set(d.to_string(), *a);
    }
    b
}

#[test]
fn saving_overwrites_only_the_saved_keys() {
    let mut m = TotalBalanceManager::new();
    m.save(&native(&[("ujuno", 10), ("uatom", 5)]));
    m.save(&native(&[("ujuno", 3)]));
    let b = m.load();
    assert_eq!(b.native.get(&"ujuno".to_string()), 3);
    // A key the second balance lacks keeps its record.
    assert_eq!(b.native.get(&"uatom".to_string()), 5);
}

#[test]
fn clearing_then_saving_loads_back_the_saved_balance() {
    let mut m = TotalBalanceManager::new();
    m.save(&native(&[("ujuno", 10), ("uatom", 5)]));
    m.clear();
    m.save(&native(&[("ujuno", 3)]));
    let b = m.load();
    assert_eq!(b.native.get(&"ujuno".to_string()), 3);
    assert_eq!(b.native.get(&"uatom".to_string()), 0);
    assert_eq!(b.native.entries.len(), 1);
}
