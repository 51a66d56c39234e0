use arena_contracts::chain::{BlockInfo, Coin, Expiration, PaymentError, Timestamp};
use arena_contracts::enrollment::{
    creation_salt, dao_salt, get_min_min_members, instantiated_address, legacy_competition_date, module_key, next_enrollment_id, read_creation_reply,
    remove_third_place_match, resolve_competition_module, unique_strings, validate_new_enrollment, Attribute,
    CompetitionType, CreationReply, EliminationType, EnrollmentEntry, EnrollmentError, EnrollmentFilter,
    EnrollmentRegistry, Event, FinalizeOutcome, ModuleInfo, PendingCompetition, CompetitionCreation, CreationReplyAction,
    EscrowLock, NewEnrollment, OwnershipTransfer, PendingCreation, migrate_legacy_entry, LegacyCompetitionInfo,
    LegacyEnrollmentEntry, CompetitionInfoResponse,
};
use arena_contracts::math::Decimal;

const SECOND: u64 = 1_000_000_000;

fn pct(p: u64) -> Decimal {
    Decimal::percent(p)
}

fn entry(host: &str, fee: Option<Coin>, min: Option<u64>, max: u64, date_secs: u64, category: Option<u128>) -> EnrollmentEntry {
    EnrollmentEntry {
        min_members: min,
        max_members: max,
        entry_fee: fee,
        duration_before: 3600,
        has_finalized: false,
        pending: Some(pending_competition(date_secs)),
        competition_id: None,
        competition_type: CompetitionType::Wager,
        host: host.to_string(),
        category_id: category,
        competition_module: "wagers".to_string(),
        required_team_size: None,
        uses_dao_host: false,
    }
}

fn pending_competition(date_secs: u64) -> PendingCompetition {
    PendingCompetition {
        name: "Cup".to_string(),
        description: "A cup".to_string(),
        date: Timestamp { nanos: date_secs * SECOND },
        duration: 7200,
        rules: Some(vec!["fair play".to_string()]),
        rulesets: None,
        banner: None,
        additional_layered_fees: None,
        escrow: "escrow".to_string(),
        group_contract: "group".to_string(),
    }
}

fn block_at(secs: u64) -> BlockInfo {
    BlockInfo { height: 100, time: Timestamp { nanos: secs * SECOND } }
}

#[test]
fn minimum_members_by_competition_kind() {
    assert_eq!(get_min_min_members(&CompetitionType::Wager), 2);
    let league = CompetitionType::League {
        match_win_points: 3,
        match_draw_points: 1,
        match_lose_points: 0,
        distribution: vec![pct(70), pct(20), pct(10)],
    };
    assert_eq!(get_min_min_members(&league), 3);
    let tournament = CompetitionType::Tournament {
        elimination_type: EliminationType::SingleElimination { play_third_place_match: true },
        distribution: vec![pct(100)],
    };
    assert_eq!(get_min_min_members(&tournament), 4);
    let double = CompetitionType::Tournament {
        elimination_type: EliminationType::DoubleElimination,
        distribution: vec![pct(25), pct(25), pct(25), pct(15), pct(10)],
    };
    assert_eq!(get_min_min_members(&double), 5);
    assert_eq!(module_key(&league), "Leagues");
    assert_eq!(module_key(&double), "Tournaments");
    assert_eq!(module_key(&CompetitionType::Wager), "Wagers");
}

#[test]
fn new_enrollments_are_checked() {
    let date = Timestamp { nanos: 10_000 * SECOND };
    let t = CompetitionType::Wager;
    assert!(validate_new_enrollment(&block_at(1_000), &date, 3600, Some(2), 10, &t).is_ok());
    // The competition is over.
    assert_eq!(
        validate_new_enrollment(&block_at(20_000), &date, 3600, None, 10, &t).unwrap_err(),
        EnrollmentError::CompetitionExpired
    );
    // Enrollment already closed (one duration before the date).
    assert_eq!(
        validate_new_enrollment(&block_at(7_000), &date, 3600, None, 10, &t).unwrap_err(),
        EnrollmentError::EnrollmentExpired
    );
    assert_eq!(
        validate_new_enrollment(&block_at(1_000), &date, 3600, Some(11), 10, &t).unwrap_err(),
        EnrollmentError::MinAboveMax
    );
    assert_eq!(
        validate_new_enrollment(&block_at(1_000), &date, 3600, Some(1), 10, &t).unwrap_err(),
        EnrollmentError::MinBelowRequired { required: 2 }
    );
    assert_eq!(
        validate_new_enrollment(&block_at(1_000), &date, 3600, None, 1, &t).unwrap_err(),
        EnrollmentError::MaxBelowRequired
    );
}

#[test]
fn competition_module_is_resolved() {
    let enabled = || Some(ModuleInfo { addr: "m".to_string(), is_enabled: true });
    assert_eq!(resolve_competition_module(true, None, enabled()).unwrap(), "m");
    assert_eq!(resolve_competition_module(false, None, enabled()).unwrap_err(), EnrollmentError::NoOwner);
    assert_eq!(
        resolve_competition_module(true, Some(false), enabled()).unwrap_err(),
        EnrollmentError::InvalidCategoryAndRulesets
    );
    assert_eq!(resolve_competition_module(true, Some(true), None).unwrap_err(), EnrollmentError::ModuleNotFound);
    let disabled = Some(ModuleInfo { addr: "m".to_string(), is_enabled: false });
    assert_eq!(resolve_competition_module(true, None, disabled).unwrap_err(), EnrollmentError::ModuleDisabled);
    assert_eq!(next_enrollment_id(4).unwrap(), 5);
    assert_eq!(next_enrollment_id(u128::MAX).unwrap_err(), EnrollmentError::Overflow);
}

#[test]
fn enrolling_checks_the_fee_and_the_room_left() {
    let fee = Coin { denom: "ujuno".to_string(), amount: 100 };
    let e = entry("host", Some(fee.clone()), None, 2, 10_000, None);
    let me = "me".to_string();
    let paid = e.enroll(&me, &vec![fee.clone()], 0, None, false, None).unwrap();
    assert_eq!(paid.member, "me");
    assert_eq!(paid.forward_fee, Some(fee.clone()));
    assert_eq!(
        e.enroll(&me, &vec![Coin { denom: "ujuno".to_string(), amount: 99 }], 0, None, false, None).unwrap_err(),
        EnrollmentError::EntryFeeNotPaid { fee: fee.clone() }
    );
    assert_eq!(
        e.enroll(&me, &vec![], 0, None, false, None).unwrap_err(),
        EnrollmentError::Payment(PaymentError::NoFunds)
    );
    assert_eq!(
        e.enroll(&me, &vec![fee.clone()], 2, None, false, None).unwrap_err(),
        EnrollmentError::EnrollmentMaxMembers
    );
    assert_eq!(
        e.enroll(&me, &vec![fee.clone()], 0, Some("team".to_string()), false, None).unwrap_err(),
        EnrollmentError::NotTeamMember
    );
    assert_eq!(e.enroll(&me, &vec![fee], 0, Some("team".to_string()), true, None).unwrap().member, "team");
}

#[test]
fn finalizing_decides_the_outcome() {
    let fresh = || entry("host", None, None, 4, 10_000, None);
    let host = "host".to_string();
    let mut e = fresh();
    assert_eq!(e.finalize(&"other".to_string(), &block_at(1_000), 1, 4).unwrap_err(), EnrollmentError::Unauthorized);
    assert!(!e.has_finalized);
    // Full: the competition is created by the host, with the escrow and group.
    let created = FinalizeOutcome::CreateCompetition {
        dao_salt: None,
        creation: CompetitionCreation {
            module: "wagers".to_string(),
            host: Some("host".to_string()),
            category_id: None,
            escrow: "escrow".to_string(),
            group_contract: "group".to_string(),
        },
        pending: PendingCreation { module_addr: "wagers".to_string(), enrollment_id: 1, escrow_addr: "escrow".to_string() },
    };
    assert_eq!(e.finalize(&host, &block_at(1_000), 1, 4).unwrap(), created);
    assert!(e.has_finalized);
    assert_eq!(e.finalize(&host, &block_at(1_000), 1, 4).unwrap_err(), EnrollmentError::AlreadyFinalized);
    assert_eq!(e.enroll(&"x".to_string(), &vec![], 0, None, false, None).unwrap_err(), EnrollmentError::AlreadyFinalized);
    // Neither full nor closed: refused, and the enrollment stays open.
    let mut e = fresh();
    assert_eq!(
        e.finalize(&host, &block_at(1_000), 1, 3).unwrap_err(),
        EnrollmentError::FinalizeFailed { max_members: 4, current_members: 3 }
    );
    assert!(!e.has_finalized);
    // Closed with too few members: finalized, and the escrow is unlocked.
    let mut e = fresh();
    assert_eq!(
        e.finalize(&host, &block_at(9_000), 1, 1).unwrap(),
        FinalizeOutcome::InsufficientMembers {
            required: 2,
            actual: 1,
            unlock: EscrowLock { escrow: "escrow".to_string(), value: false, transfer_ownership: None },
        }
    );
    assert!(e.has_finalized);
    assert!(e.pending.is_some());
    // Closed with enough members.
    let mut e = fresh();
    assert_eq!(e.finalize(&host, &block_at(9_000), 1, 3).unwrap(), created);
}

#[test]
fn a_dao_host_gets_the_salt_of_its_address() {
    let mut e = entry("host", None, None, 4, 10_000, Some(3));
    e.uses_dao_host = true;
    let block = BlockInfo { height: 12345, time: Timestamp { nanos: 1_000 * SECOND } };
    // SHA-256 of "dao_host123457": the host, the height and the id in decimal.
    let expected: [u8; 32] = [
        152, 231, 127, 174, 94, 202, 141, 183, 250, 77, 137, 52, 139, 106, 129, 130, 168, 196, 180, 17, 14, 205, 91,
        131, 57, 71, 77, 128, 147, 162, 87, 60,
    ];
    assert_eq!(
        e.finalize(&"host".to_string(), &block, 7, 4).unwrap(),
        FinalizeOutcome::CreateCompetition {
            dao_salt: Some(expected),
            creation: CompetitionCreation {
                module: "wagers".to_string(),
                host: None,
                category_id: Some(3),
                escrow: "escrow".to_string(),
                group_contract: "group".to_string(),
            },
            pending: PendingCreation { module_addr: "wagers".to_string(), enrollment_id: 7, escrow_addr: "escrow".to_string() },
        }
    );
}

fn settings(min: Option<u64>, max: u64) -> NewEnrollment {
    NewEnrollment {
        min_members: min,
        max_members: max,
        entry_fee: None,
        duration_before: 600,
        competition_type: CompetitionType::Wager,
        category_id: Some(1),
        required_team_size: None,
        uses_dao_host: false,
    }
}

fn enabled(addr: &str) -> Option<ModuleInfo> {
    Some(ModuleInfo { addr: addr.to_string(), is_enabled: true })
}

#[test]
fn creating_an_enrollment_stores_it_under_the_next_id() {
    let mut reg = EnrollmentRegistry::new();
    let alice = "alice".to_string();
    let r = reg.create(&alice, &block_at(1_000), settings(None, 8), pending_competition(100_000), true, Some(true), enabled("wagers"));
    assert_eq!(r, Ok(1));
    assert_eq!(reg.count, 1);
    let e = reg.get(1).unwrap();
    assert_eq!(e.host, "alice");
    assert_eq!(e.competition_module, "wagers");
    assert!(!e.has_finalized);
    assert_eq!(e.competition_id, None);
    assert_eq!(e.duration_before, 600);
    assert_eq!(e.category_id, Some(1));
    let p = e.pending.as_ref().unwrap();
    assert_eq!(p.name, "Cup");
    assert_eq!(p.escrow, "escrow");
    assert_eq!(p.group_contract, "group");
    // The next one gets the next id.
    let bob = "bob".to_string();
    assert_eq!(reg.create(&bob, &block_at(1_000), settings(Some(2), 2), pending_competition(100_000), true, None, enabled("wagers")), Ok(2));
    assert_eq!(reg.get(2).unwrap().host, "bob");
}

#[test]
fn refused_enrollments_are_not_stored() {
    let mut reg = EnrollmentRegistry::new();
    let alice = "alice".to_string();
    // The competition would be over.
    assert_eq!(
        reg.create(&alice, &block_at(200_000), settings(None, 8), pending_competition(100_000), true, None, enabled("w")),
        Err(EnrollmentError::CompetitionExpired)
    );
    assert_eq!(
        reg.create(&alice, &block_at(1_000), settings(Some(9), 8), pending_competition(100_000), true, None, enabled("w")),
        Err(EnrollmentError::MinAboveMax)
    );
    assert_eq!(
        reg.create(&alice, &block_at(1_000), settings(None, 8), pending_competition(100_000), false, None, enabled("w")),
        Err(EnrollmentError::NoOwner)
    );
    assert_eq!(
        reg.create(&alice, &block_at(1_000), settings(None, 8), pending_competition(100_000), true, Some(false), enabled("w")),
        Err(EnrollmentError::InvalidCategoryAndRulesets)
    );
    assert_eq!(
        reg.create(&alice, &block_at(1_000), settings(None, 8), pending_competition(100_000), true, None, None),
        Err(EnrollmentError::ModuleNotFound)
    );
    assert_eq!(
        reg.create(
            &alice,
            &block_at(1_000),
            settings(None, 8),
            pending_competition(100_000),
            true,
            None,
            Some(ModuleInfo { addr: "w".to_string(), is_enabled: false })
        ),
        Err(EnrollmentError::ModuleDisabled)
    );
    assert_eq!(reg.count, 0);
    assert!(reg.get(1).is_none());
}

fn creation_event(id: &str) -> Event {
    Event {
        attributes: vec![
            Attribute { key: "action".to_string(), value: "create_competition".to_string() },
            Attribute { key: "competition_id".to_string(), value: id.to_string() },
        ],
    }
}

#[test]
fn the_creation_reply_points_the_enrollment_to_its_competition() {
    let mut reg = EnrollmentRegistry::new();
    let alice = "alice".to_string();
    reg.create(&alice, &block_at(1_000), settings(None, 8), pending_competition(100_000), true, None, enabled("wagers")).unwrap();
    let pending = PendingCreation { module_addr: "wagers".to_string(), enrollment_id: 1, escrow_addr: "escrow".to_string() };
    // Another reply id is refused.
    assert_eq!(
        reg.apply_creation_reply(2, &pending, &Ok(vec![creation_event("5")])),
        Err(EnrollmentError::UnknownReplyId { id: 2 })
    );
    // No competition id.
    assert_eq!(reg.apply_creation_reply(1, &pending, &Ok(vec![])), Err(EnrollmentError::MissingCompetitionId));
    // Not a number.
    assert_eq!(
        reg.apply_creation_reply(1, &pending, &Ok(vec![creation_event("five")])),
        Err(EnrollmentError::InvalidCompetitionId)
    );
    // An enrollment that is gone.
    let gone = PendingCreation { module_addr: "wagers".to_string(), enrollment_id: 9, escrow_addr: "escrow".to_string() };
    assert_eq!(
        reg.apply_creation_reply(1, &gone, &Ok(vec![creation_event("5")])),
        Err(EnrollmentError::EnrollmentNotFound { id: 9 })
    );
    assert!(reg.get(1).unwrap().pending.is_some());
    // Created: the escrow is locked and handed to the module.
    assert_eq!(
        reg.apply_creation_reply(1, &pending, &Ok(vec![creation_event("5")])),
        Ok(CreationReplyAction::Created {
            competition_id: 5,
            lock: EscrowLock {
                escrow: "escrow".to_string(),
                value: true,
                transfer_ownership: Some(OwnershipTransfer { addr: "wagers".to_string(), is_enrollment: false }),
            },
        })
    );
    let e = reg.get(1).unwrap();
    assert!(e.pending.is_none());
    assert_eq!(e.competition_id, Some(5));
    assert_eq!(e.host, "alice");
}

#[test]
fn a_failed_creation_unlocks_the_escrow() {
    let mut reg = EnrollmentRegistry::new();
    let alice = "alice".to_string();
    reg.create(&alice, &block_at(1_000), settings(None, 8), pending_competition(100_000), true, None, enabled("wagers")).unwrap();
    let pending = PendingCreation { module_addr: "wagers".to_string(), enrollment_id: 1, escrow_addr: "escrow".to_string() };
    assert_eq!(
        reg.apply_creation_reply(1, &pending, &Err("out of gas".to_string())),
        Ok(CreationReplyAction::Failed {
            error: "out of gas".to_string(),
            unlock: EscrowLock { escrow: "escrow".to_string(), value: false, transfer_ownership: None },
        })
    );
    let e = reg.get(1).unwrap();
    assert!(e.pending.is_some());
    assert_eq!(e.competition_id, None);
}

#[test]
fn dao_salt_writes_zero_as_a_digit() {
    // SHA-256 of "dao_alice00".
    let expected: [u8; 32] = [
        114, 250, 222, 168, 254, 10, 236, 92, 13, 198, 104, 10, 127, 33, 130, 111, 215, 169, 67, 87, 255, 79, 64, 156,
        205, 219, 107, 24, 94, 81, 18, 52,
    ];
    assert_eq!(dao_salt(&"alice".to_string(), 0, 0), expected);
}

#[test]
fn withdrawals_are_planned() {
    let fee = Coin { denom: "ujuno".to_string(), amount: 100 };
    let e = entry("host", Some(fee.clone()), None, 4, 10_000, None);
    let plan = e.withdraw(&"me".to_string(), None, false).unwrap();
    assert_eq!(plan.members, vec!["me".to_string()]);
    assert_eq!(plan.refund, Some(fee));
    let plan = e
        .force_withdraw(&"host".to_string(), &vec!["a".to_string(), "b".to_string(), "a".to_string()])
        .unwrap();
    assert_eq!(plan.members, vec!["a".to_string(), "b".to_string()]);
    assert_eq!(e.force_withdraw(&"host".to_string(), &vec![]).unwrap_err(), EnrollmentError::NoMembersToWithdraw);
    assert_eq!(e.force_withdraw(&"x".to_string(), &vec!["a".to_string()]).unwrap_err(), EnrollmentError::Unauthorized);
    assert_eq!(
        unique_strings(&vec!["x".to_string(), "y".to_string(), "x".to_string(), "z".to_string()]),
        vec!["x".to_string(), "y".to_string(), "z".to_string()]
    );
}

fn attr(k: &str, v: &str) -> Attribute {
    Attribute { key: k.to_string(), value: v.to_string() }
}

#[test]
fn creation_replies_report_the_competition_id() {
    let events = vec![
        Event { attributes: vec![attr("action", "instantiate")] },
        Event { attributes: vec![attr("action", "create_competition"), attr("competition_id", "42")] },
    ];
    assert_eq!(read_creation_reply(&Ok(events)).unwrap(), CreationReply::Created { competition_id: 42 });
    let bad = vec![Event { attributes: vec![attr("action", "create_competition"), attr("competition_id", "x")] }];
    assert_eq!(read_creation_reply(&Ok(bad)).unwrap_err(), EnrollmentError::InvalidCompetitionId);
    let missing = vec![Event { attributes: vec![attr("action", "create_competition")] }];
    assert_eq!(read_creation_reply(&Ok(missing)).unwrap_err(), EnrollmentError::MissingCompetitionId);
    assert_eq!(read_creation_reply(&Err("failed".to_string())).unwrap(), CreationReply::Failed);
}

#[test]
fn legacy_dates_and_third_place_matches() {
    let block = block_at(500);
    assert_eq!(legacy_competition_date(&Expiration::AtTime(Timestamp { nanos: 7 }), &block).nanos, 7);
    assert_eq!(legacy_competition_date(&Expiration::AtHeight(9), &block).nanos, 500 * SECOND);
    let mut t = CompetitionType::Tournament {
        elimination_type: EliminationType::SingleElimination { play_third_place_match: true },
        distribution: vec![],
    };
    remove_third_place_match(&mut t);
    match t {
        CompetitionType::Tournament { elimination_type, .. } => {
            assert_eq!(elimination_type, EliminationType::SingleElimination { play_third_place_match: false })
        },
        _ => panic!("still a tournament"),
    }
}

#[test]
fn enrollment_pages() {
    let mut r = EnrollmentRegistry::new();
    assert_eq!(r.add(entry("alice", None, None, 4, 10_000, Some(1))).unwrap(), 1);
    assert_eq!(r.add(entry("bob", None, None, 4, 10_000, None)).unwrap(), 2);
    assert_eq!(r.add(entry("alice", None, None, 4, 10_000, Some(0))).unwrap(), 3);
    assert_eq!(r.page(None, None, None), vec![1u128, 2, 3]);
    assert_eq!(r.page(Some(1), None, None), vec![2u128, 3]);
    assert_eq!(r.page(None, None, Some(EnrollmentFilter::Host("alice".to_string()))), vec![3u128, 1]);
    // No category counts as category zero.
    assert_eq!(r.page(None, None, Some(EnrollmentFilter::Category { category_id: None })), vec![3u128, 2]);
    assert_eq!(r.page(Some(2), None, Some(EnrollmentFilter::Category { category_id: Some(0) })), vec![3u128]);
    assert_eq!(r.get(2).unwrap().host, "bob");
}

#[test]
fn the_dao_address_follows_from_checksum_creator_and_salt() {
    let checksum: Vec<u8> = (0..32).collect();
    let creator: Vec<u8> = vec![9; 20];
    let salt = dao_salt(&"host".to_string(), 12345, 7);
    // instantiate2: SHA-256 of SHA-256("module") and the length-prefixed
    // checksum, creator, salt and empty message.
    let expected: Vec<u8> = vec![
        133, 22, 9, 145, 128, 11, 172, 243, 152, 157, 19, 100, 101, 103, 197, 131, 237, 98, 135, 96, 97, 144, 34, 202,
        239, 59, 89, 35, 221, 122, 68, 18,
    ];
    assert_eq!(instantiated_address(&checksum, &creator, &salt), Some(expected));
    assert_eq!(instantiated_address(&vec![0; 31], &creator, &salt), None);
}

#[test]
fn creation_salt_has_no_prefix() {
    // SHA-256 of "host123457".
    let expected: [u8; 32] = [
        116, 197, 80, 235, 219, 13, 181, 53, 125, 20, 43, 242, 193, 177, 14, 148, 117, 1, 153, 222, 227, 79, 188, 73,
        10, 97, 168, 55, 46, 85, 121, 189,
    ];
    assert_eq!(creation_salt(&"host".to_string(), 12345, 7), expected);
    assert_ne!(creation_salt(&"host".to_string(), 12345, 7), dao_salt(&"host".to_string(), 12345, 7));
}

#[test]
fn rankings_go_to_the_group_of_a_pending_competition() {
    let mut e = entry("host", None, None, 4, 10_000, None);
    assert_eq!(e.set_rankings(&"other".to_string()), Err(EnrollmentError::Unauthorized));
    assert_eq!(e.set_rankings(&"host".to_string()), Ok("group".to_string()));
    e.pending = None;
    e.competition_id = Some(3);
    assert_eq!(e.set_rankings(&"host".to_string()), Err(EnrollmentError::AlreadyFinalized));
}

#[test]
fn a_migration_removes_the_third_place_match_of_one_enrollment() {
    let mut reg = EnrollmentRegistry::new();
    let mut e = entry("host", None, None, 4, 10_000, None);
    e.competition_type = CompetitionType::Tournament {
        elimination_type: EliminationType::SingleElimination { play_third_place_match: true },
        distribution: vec![pct(100)],
    };
    reg.add(e).unwrap();
    reg.add(entry("host", None, None, 4, 10_000, None)).unwrap();
    assert_eq!(reg.remove_third_place_match(5), Err(EnrollmentError::EnrollmentNotFound { id: 5 }));
    assert_eq!(reg.remove_third_place_match(1), Ok(()));
    assert_eq!(reg.remove_third_place_match(2), Ok(()));
    match &reg.get(1).unwrap().competition_type {
        CompetitionType::Tournament { elimination_type, distribution } => {
            assert_eq!(*elimination_type, EliminationType::SingleElimination { play_third_place_match: false });
            assert_eq!(distribution.len(), 1);
        },
        _ => panic!("still a tournament"),
    }
    assert!(matches!(reg.get(2).unwrap().competition_type, CompetitionType::Wager));
}

fn legacy(info: LegacyCompetitionInfo) -> LegacyEnrollmentEntry {
    LegacyEnrollmentEntry {
        min_members: Some(2),
        max_members: 8,
        entry_fee: None,
        has_finalized: false,
        competition_info: info,
        competition_type: CompetitionType::Wager,
        host: "host".to_string(),
        category_id: Some(4),
        competition_module: "wagers".to_string(),
        required_team_size: Some(1),
    }
}

#[test]
fn legacy_enrollments_move_to_dates() {
    let block = BlockInfo { height: 10, time: Timestamp { nanos: 500 * SECOND } };
    let pending = |expiration: Expiration| LegacyCompetitionInfo::Pending {
        name: "Cup".to_string(),
        description: "A cup".to_string(),
        expiration,
        rules: None,
        rulesets: Some(vec![1]),
        banner: None,
        additional_layered_fees: None,
        escrow: "escrow".to_string(),
        group_contract: "group".to_string(),
    };
    let e = migrate_legacy_entry(legacy(pending(Expiration::AtTime(Timestamp { nanos: 9_000 * SECOND }))), &block);
    assert_eq!(e.duration_before, 86400);
    assert!(!e.uses_dao_host);
    assert_eq!(e.host, "host");
    assert_eq!(e.category_id, Some(4));
    assert_eq!(e.competition_id, None);
    let p = e.pending.unwrap();
    assert_eq!(p.date.nanos, 9_000 * SECOND);
    assert_eq!(p.duration, 3600);
    assert_eq!(p.name, "Cup");
    assert_eq!(p.rulesets, Some(vec![1]));
    assert_eq!(p.group_contract, "group");
    // Without a time, the competition starts at the migration.
    let e = migrate_legacy_entry(legacy(pending(Expiration::AtHeight(99))), &block);
    assert_eq!(e.pending.unwrap().date.nanos, 500 * SECOND);
    // An existing competition keeps its id.
    let e = migrate_legacy_entry(legacy(LegacyCompetitionInfo::Existing { id: 12 }), &block);
    assert!(e.pending.is_none());
    assert_eq!(e.competition_id, Some(12));
}

#[test]
fn competition_ids_are_read_as_unsigned_decimals() {
    let read = |v: &str| read_creation_reply(&Ok(vec![creation_event(v)]));
    assert_eq!(read("+7"), Ok(CreationReply::Created { competition_id: 7 }));
    assert_eq!(read("007"), Ok(CreationReply::Created { competition_id: 7 }));
    assert_eq!(
        read("340282366920938463463374607431768211455"),
        Ok(CreationReply::Created { competition_id: u128::MAX })
    );
    assert_eq!(read("340282366920938463463374607431768211456"), Err(EnrollmentError::InvalidCompetitionId));
    assert_eq!(read(""), Err(EnrollmentError::InvalidCompetitionId));
    assert_eq!(read("+"), Err(EnrollmentError::InvalidCompetitionId));
    assert_eq!(read("-1"), Err(EnrollmentError::InvalidCompetitionId));
    assert_eq!(read(" 1"), Err(EnrollmentError::InvalidCompetitionId));
}

#[test]
fn finalize_refusals_do_not_depend_on_the_dates() {
    // Enrollment would close before time zero: its closing time cannot be
    // computed, yet the refusals stand.
    let mut e = entry("host", None, None, 4, 0, None);
    assert_eq!(e.finalize(&"other".to_string(), &block_at(1_000), 1, 4).unwrap_err(), EnrollmentError::Unauthorized);
    e.has_finalized = true;
    assert_eq!(e.finalize(&"host".to_string(), &block_at(1_000), 1, 4).unwrap_err(), EnrollmentError::AlreadyFinalized);
    assert!(e.has_finalized);
}

#[test]
fn a_pending_competition_is_listed_without_an_id() {
    let r: CompetitionInfoResponse = pending_competition(10_000).into_response();
    assert_eq!(r.name, "Cup");
    assert_eq!(r.description, "A cup");
    assert_eq!(r.date.nanos, 10_000 * SECOND);
    assert_eq!(r.duration, 7200);
    assert_eq!(r.rules, Some(vec!["fair play".to_string()]));
    assert_eq!(r.competition_id, None);
    assert_eq!(r.escrow, "escrow");
    assert_eq!(r.group_contract, "group");
}
