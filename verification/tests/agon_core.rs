use arena_contracts::agon_core::{wager_result_options, AgonCore, AgonCoreError, ReplyOutcome, Wager, WagerStatus, WinnerOption};
use arena_contracts::chain::Expiration;

/// A protobuf instantiation response for `addr`, with optional data.
fn response(addr: &str, data: Option<&[u8]>) -> Vec<u8> {
    let mut out: Vec<u8> = vec![0x0a, addr.len() as u8];
    out.extend_from_slice(addr.as_bytes());
    if let Some(d) = data {
        out.push(0x12);
        out.push(d.len() as u8);
        out.extend_from_slice(d);
    }
    out
}

fn pending_wager(core_addr: &str) -> Wager {
    Wager {
        dao: core_addr.to_string(),
        escrow: core_addr.to_string(),
        status: WagerStatus::Pending,
        expiration: Expiration::Never,
        rules: vec!["best of three".to_string()],
        ruleset: None,
    }
}

#[test]
fn module_replies_register_and_count_the_module() {
    let mut core = AgonCore::new();
    let me = "core".to_string();
    let ok = Ok(Some(response("module1", Some(b"{}"))));
    assert_eq!(
        core.reply(1, &me, &ok),
        Ok(ReplyOutcome::ModuleRegistered { addr: "module1".to_string(), callback_data: Some(b"{}".to_vec()) })
    );
    assert_eq!(core.modules_count, 1);
    assert_eq!(core.modules.get(&"module1".to_string()).unwrap().addr, "module1");
    // The same module again is counted again.
    core.reply(1, &me, &ok).unwrap();
    assert_eq!(core.modules_count, 2);
    // A full count refuses the module and changes nothing.
    core.modules_count = u128::MAX;
    assert_eq!(core.reply(1, &me, &Ok(Some(response("module2", None)))), Err(AgonCoreError::Overflow));
    assert!(core.modules.get(&"module2".to_string()).is_none());
}

#[test]
fn unreadable_or_failed_replies_are_refused() {
    let mut core = AgonCore::new();
    let me = "core".to_string();
    assert_eq!(core.reply(4, &me, &Ok(Some(response("m", None)))), Err(AgonCoreError::UnknownReplyId { id: 4 }));
    assert_eq!(
        core.reply(1, &me, &Err("out of gas".to_string())),
        Err(AgonCoreError::ReplyFailed { error: "out of gas".to_string() })
    );
    assert_eq!(core.reply(1, &me, &Ok(None)), Err(AgonCoreError::MissingReplyData));
    assert_eq!(core.reply(1, &me, &Ok(Some(vec![0xff]))), Err(AgonCoreError::InvalidReplyData));
    assert_eq!(core.modules_count, 0);
}

#[test]
fn dao_and_escrow_replies_fill_in_the_pending_wager() {
    let mut core = AgonCore::new();
    let me = "core".to_string();
    // No wager pending.
    assert_eq!(core.reply(2, &me, &Ok(Some(response("dao1", None)))), Err(AgonCoreError::UnknownWagerId { id: 0 }));
    assert_eq!(core.reply(3, &me, &Ok(Some(response("escrow1", None)))), Err(AgonCoreError::NoPendingWager));
    // A pending wager that is gone.
    core.temp_wager = Some(7);
    assert_eq!(core.reply(2, &me, &Ok(Some(response("dao1", None)))), Err(AgonCoreError::UnknownWagerId { id: 7 }));
    core.wagers.insert(7, pending_wager("core"));
    assert_eq!(
        core.reply(2, &me, &Ok(Some(response("dao1", None)))),
        Ok(ReplyOutcome::DaoSet { wager_id: 7, dao: "dao1".to_string() })
    );
    assert_eq!(
        core.reply(3, &me, &Ok(Some(response("escrow1", None)))),
        Ok(ReplyOutcome::EscrowSet { wager_id: 7, escrow: "escrow1".to_string() })
    );
    let w = core.wagers.get(7).unwrap();
    assert_eq!(w.dao, "dao1");
    assert_eq!(w.escrow, "escrow1");
    assert_eq!(w.status, WagerStatus::Pending);
    // Once set, another DAO or escrow is refused.
    assert_eq!(core.reply(2, &me, &Ok(Some(response("dao2", None)))), Err(AgonCoreError::Unauthorized));
    assert_eq!(core.reply(3, &me, &Ok(Some(response("escrow2", None)))), Err(AgonCoreError::Unauthorized));
    assert_eq!(core.wagers.get(7).unwrap().dao, "dao1");
}

#[test]
fn a_settled_wager_becomes_inactive() {
    let mut core = AgonCore::new();
    let me = "core".to_string();
    assert_eq!(core.reply(5, &me, &Ok(Some(response("c", None)))), Err(AgonCoreError::NoPendingWager));
    core.temp_wager = Some(1);
    core.wagers.insert(1, pending_wager("core"));
    assert_eq!(core.reply(5, &me, &Ok(Some(response("c", None)))), Ok(ReplyOutcome::WagerInactive { wager_id: 1 }));
    assert_eq!(core.wagers.get(1).unwrap().status, WagerStatus::Inactive);
}

#[test]
fn each_team_can_be_named_the_winner() {
    let teams = vec!["team_a".to_string(), "team_b".to_string(), "team_c".to_string()];
    let options = wager_result_options(&teams);
    assert_eq!(
        options,
        vec![
            WinnerOption { team_number: 1, winner: "team_a".to_string() },
            WinnerOption { team_number: 2, winner: "team_b".to_string() },
            WinnerOption { team_number: 3, winner: "team_c".to_string() },
        ]
    );
    assert!(wager_result_options(&vec![]).is_empty());
}
