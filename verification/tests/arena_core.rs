use arena_contracts::arena_core::{
    migration_plan, page_limit, read_module_reply, validate_rating_pair, validate_tax, ArenaCore, CoreError,
    EditCompetitionCategory, MemberResult, NewRuleset, SetupAction, SubmissionPolicy, TaxConfiguration,
};
use arena_contracts::arena_core::instantiate_extension;
use arena_contracts::enrollment::{Attribute, Event};
use arena_contracts::chain::Duration;
use arena_contracts::math::Decimal;

fn rules() -> Vec<String> {
    vec!["This is a rule".to_string(), "This is another rule".to_string()]
}

/// The arena core as the test DAO sets it up: one category, two rulesets in
/// it, a 15% tax and a rating period of ten blocks.
fn setup() -> ArenaCore {
    ArenaCore::instantiate(
        Decimal { atomics: 150_000_000_000_000_000 },
        vec!["Test Category".to_string()],
        vec![
            NewRuleset { category_id: 1, rules: rules(), description: "Test Ruleset 1".to_string() },
            NewRuleset { category_id: 1, rules: rules(), description: "Test Ruleset 2".to_string() },
        ],
        Duration::Height(10),
    )
    .unwrap()
}

#[test]
fn test_categories() {
    let mut core = setup();

    // Add a new category and disable the first one.
    let result = core.update_categories(
        vec!["New Category".to_string()],
        vec![EditCompetitionCategory::Disable { category_id: 1 }],
    );
    assert!(result.is_ok());
    assert_eq!(result.unwrap(), vec![2u128]);

    let categories = core.categories_page(None, None, None);
    assert_eq!(categories.len(), 1);
    assert_eq!(categories[0].name, "New Category");
    assert!(categories[0].is_enabled);

    let categories = core.categories_page(None, None, Some(true));
    assert_eq!(categories.len(), 2);
    assert_eq!(categories[0].name, "Test Category");
    assert!(!categories[0].is_enabled);
}

#[test]
fn test_rulesets() {
    let mut core = setup();

    let result = core.update_rulesets(
        vec![NewRuleset {
            category_id: 1,
            rules: vec!["Rule 1".to_string(), "Rule 2".to_string()],
            description: "Test Ruleset 3".to_string(),
        }],
        &vec![],
    );
    assert!(result.is_ok());

    let rulesets = core.rulesets_page(1, None, None, None);
    assert_eq!(rulesets.len(), 3);

    let result = core.update_rulesets(vec![], &vec![1u128]);
    assert!(result.is_ok());

    let rulesets = core.rulesets_page(1, None, None, None);
    assert_eq!(rulesets.len(), 2);

    let rulesets = core.rulesets_page(1, None, None, Some(true));
    assert_eq!(rulesets.len(), 3);

    // A ruleset for a category that does not exist.
    let result = core.update_rulesets(
        vec![NewRuleset {
            category_id: 9999,
            rules: vec!["Rule 1".to_string(), "Rule 2".to_string()],
            description: "Test Ruleset 4".to_string(),
        }],
        &vec![],
    );
    assert!(result.is_err());
}

#[test]
fn test_disabling_module() {
    let mut core = setup();
    let wager_module = "wager_module".to_string();
    core.register_competition_module(wager_module.clone(), "Wagers".to_string());

    assert!(core.disable_competition_modules(&vec![wager_module.clone()]).is_ok());

    let module = core.module_by_addr(&wager_module);
    assert!(module.is_some());
    assert!(!module.unwrap().is_enabled);

    let module = core.module_by_key(&"Wagers".to_string());
    assert!(module.is_some());
    assert!(!module.unwrap().is_enabled);
}

#[test]
fn instantiate_numbers_categories_and_rulesets_from_one() {
    let core = setup();
    assert_eq!(core.categories_count, 1);
    assert_eq!(core.rulesets_count, 2);
    assert_eq!(core.ruleset(2).unwrap().description, "Test Ruleset 2");
    assert_eq!(core.ruleset(2).unwrap().category_id, 1);
    assert!(core.ruleset(3).is_none());
    assert_eq!(core.tax.atomics, 150_000_000_000_000_000);
    assert_eq!(core.rating_period, Duration::Height(10));
}

#[test]
fn instantiate_refuses_a_full_tax() {
    let r = ArenaCore::instantiate(Decimal { atomics: 1_000_000_000_000_000_000 }, vec![], vec![], Duration::Height(10));
    assert_eq!(r.unwrap_err(), CoreError::TaxTooHigh);
}

#[test]
fn instantiate_refuses_a_ruleset_of_an_unknown_category() {
    let r = ArenaCore::instantiate(
        Decimal { atomics: 0 },
        vec!["A".to_string()],
        vec![NewRuleset { category_id: 2, rules: vec![], description: "x".to_string() }],
        Duration::Height(10),
    );
    assert_eq!(r.unwrap_err(), CoreError::CompetitionCategoryDoesNotExist { id: 2 });
}

#[test]
fn instantiate_refuses_a_zero_rating_period() {
    let r = ArenaCore::instantiate(Decimal { atomics: 0 }, vec![], vec![], Duration::Time(0));
    assert_eq!(r.unwrap_err(), CoreError::ZeroRatingPeriod);
}

#[test]
fn editing_a_missing_category_changes_nothing() {
    let mut core = setup();
    let r = core.update_categories(
        vec!["Other".to_string()],
        vec![
            EditCompetitionCategory::Edit { category_id: 1, name: "Renamed".to_string() },
            EditCompetitionCategory::Disable { category_id: 7 },
        ],
    );
    assert_eq!(r.unwrap_err(), CoreError::CompetitionCategoryDoesNotExist { id: 7 });
    assert_eq!(core.categories_count, 1);
    assert_eq!(core.category(1).unwrap().name, "Test Category");
    assert!(core.category(2).is_none());
}

#[test]
fn edits_apply_in_order_before_additions() {
    let mut core = setup();
    let r = core.update_categories(
        vec!["B".to_string(), "C".to_string()],
        vec![
            EditCompetitionCategory::Edit { category_id: 1, name: "Renamed".to_string() },
            EditCompetitionCategory::Edit { category_id: 1, name: "Renamed again".to_string() },
        ],
    );
    assert_eq!(r.unwrap(), vec![2u128, 3u128]);
    assert_eq!(core.category(1).unwrap().name, "Renamed again");
    assert_eq!(core.category(3).unwrap().name, "C");
    assert_eq!(core.categories_count, 3);
}

#[test]
fn disabling_a_missing_ruleset_is_refused() {
    let mut core = setup();
    let r = core.update_rulesets(vec![], &vec![1u128, 5u128]);
    assert_eq!(r.unwrap_err(), CoreError::RulesetDoesNotExist { id: 5 });
    // Nothing was disabled.
    assert!(core.ruleset(1).unwrap().is_enabled);
}

#[test]
fn ruleset_pages_start_after_an_id() {
    let core = setup();
    let page = core.rulesets_page(1, Some(1), None, None);
    assert_eq!(page.len(), 1);
    assert_eq!(page[0].id, 2);
    assert_eq!(core.rulesets_page(2, None, None, Some(true)).len(), 0);
}

#[test]
fn valid_category_and_rulesets() {
    let mut core = setup();
    assert!(core.is_valid_category_and_rulesets(1, &vec![1, 2]));
    assert!(!core.is_valid_category_and_rulesets(2, &vec![]));
    assert!(!core.is_valid_category_and_rulesets(1, &vec![3]));
    core.update_rulesets(vec![], &vec![2u128]).unwrap();
    assert!(!core.is_valid_category_and_rulesets(1, &vec![1, 2]));
    assert!(core.is_valid_category_and_rulesets(1, &vec![1]));
}

#[test]
fn unknown_competition_module_cannot_be_disabled() {
    let mut core = setup();
    let r = core.disable_competition_modules(&vec!["nobody".to_string()]);
    assert_eq!(r.unwrap_err(), CoreError::CompetitionModuleDoesNotExist { addr: "nobody".to_string() });
}

#[test]
fn enrollment_modules_are_added_then_removed() {
    let mut core = setup();
    let a = "enroll_a".to_string();
    let b = "enroll_b".to_string();
    assert!(core.update_enrollment_modules(&vec![a.clone(), b.clone()], &vec![a.clone()]).is_ok());
    assert!(!core.is_valid_enrollment_module(&a));
    assert!(core.is_valid_enrollment_module(&b));
    // Removing twice fails and changes nothing.
    let r = core.update_enrollment_modules(&vec![], &vec![b.clone(), b.clone()]);
    assert_eq!(r.unwrap_err(), CoreError::EnrollmentModuleNotRegistered { addr: b.clone() });
    assert!(core.is_valid_enrollment_module(&b));
}

#[test]
fn submission_policy() {
    let mut core = setup();
    let module = "module".to_string();
    let stranger = "stranger".to_string();
    let specific = SubmissionPolicy::Specific { dao_members: true, allowlist: vec![], denylist: vec![] };
    assert_eq!(core.check_can_submit(&specific, &module).unwrap_err(), CoreError::Unauthorized);
    core.register_competition_module(module.clone(), "Wagers".to_string());
    assert!(core.check_can_submit(&specific, &module).is_ok());
    assert!(core.check_can_submit(&specific, &stranger).is_err());
    let allowed = SubmissionPolicy::Specific {
        dao_members: true,
        allowlist: vec![stranger.clone()],
        denylist: vec![],
    };
    assert!(core.check_can_submit(&allowed, &stranger).is_ok());
    // The denylist overrides every other setting.
    let anyone = SubmissionPolicy::Anyone { denylist: vec![stranger.clone()] };
    assert_eq!(core.check_can_submit(&anyone, &stranger).unwrap_err(), CoreError::Unauthorized);
    assert!(core.check_can_submit(&anyone, &module).is_ok());
    let denied = SubmissionPolicy::Specific {
        dao_members: false,
        allowlist: vec![module.clone()],
        denylist: vec![module.clone()],
    };
    assert_eq!(core.check_can_submit(&denied, &module).unwrap_err(), CoreError::Unauthorized);
    core.disable_competition_modules(&vec![module.clone()]).unwrap();
    assert!(core.check_can_submit(&specific, &module).is_err());
}

#[test]
fn rating_adjustments() {
    let mut core = setup();
    let one = Decimal { atomics: 1_000_000_000_000_000_000 };
    let half = Decimal { atomics: 500_000_000_000_000_000 };
    let r = |addr: &str, result: Decimal| MemberResult { addr: addr.to_string(), result };
    let module = "module".to_string();
    assert_eq!(core.validate_rating_adjustment(&module, &vec![]).unwrap_err(), CoreError::Unauthorized);
    core.register_competition_module(module.clone(), "Leagues".to_string());
    assert!(core.validate_rating_adjustment(&module, &vec![(r("a", half), r("b", half))]).is_ok());
    assert_eq!(
        core.validate_rating_adjustment(&module, &vec![(r("a", one), r("b", half))]).unwrap_err(),
        CoreError::ResultsDoNotSumToOne
    );
    assert_eq!(validate_rating_pair(&r("a", one), &r("a", Decimal { atomics: 0 })).unwrap_err(), CoreError::SameAddress);
    assert_eq!(
        validate_rating_pair(&r("a", Decimal { atomics: one.atomics + 1 }), &r("b", Decimal { atomics: 0 })).unwrap_err(),
        CoreError::ResultOutOfRange
    );
}

#[test]
fn tax_and_rating_period_updates() {
    let mut core = setup();
    assert!(validate_tax(Decimal { atomics: 999_999_999_999_999_999 }).is_ok());
    assert_eq!(core.update_tax(Decimal { atomics: 1_000_000_000_000_000_000 }).unwrap_err(), CoreError::TaxTooHigh);
    assert_eq!(core.tax.atomics, 150_000_000_000_000_000);
    assert!(core.update_tax(Decimal { atomics: 5 }).is_ok());
    assert_eq!(core.tax.atomics, 5);
    assert_eq!(core.update_rating_period(Duration::Height(0)).unwrap_err(), CoreError::ZeroRatingPeriod);
    assert!(core.update_rating_period(Duration::Time(604800)).is_ok());
    assert_eq!(core.rating_period, Duration::Time(604800));
}

#[test]
fn page_limits_never_go_below_the_default() {
    assert_eq!(page_limit(None), 30);
    assert_eq!(page_limit(Some(5)), 30);
    assert_eq!(page_limit(Some(50)), 50);
}

#[test]
fn migration_plans() {
    let p = migration_plan(1, 3);
    assert!(p.to_v1_4 && p.to_v1_6 && p.clear_rulesets);
    let p = migration_plan(1, 7);
    assert!(!p.to_v1_4 && !p.to_v1_6 && p.clear_rulesets);
    let p = migration_plan(2, 0);
    assert!(!p.to_v1_4 && !p.to_v1_6 && !p.clear_rulesets);
}

fn attr(key: &str, value: &str) -> Attribute {
    Attribute { key: key.to_string(), value: value.to_string() }
}

#[test]
fn module_replies_are_read() {
    // A protobuf instantiation response: address "module1", data "{}".
    let mut data: Vec<u8> = vec![0x0a, 7];
    data.extend_from_slice(b"module1");
    data.extend_from_slice(&[0x12, 2, b'{', b'}']);
    let events = vec![
        Event { attributes: vec![attr("action", "instantiate")] },
        Event { attributes: vec![attr("other", "x"), attr("key", "Wagers"), attr("key", "Leagues")] },
        Event { attributes: vec![attr("key", "Tournaments")] },
    ];
    let ok = Ok((events, Some(data.clone())));
    let m = read_module_reply(1, &ok).unwrap();
    assert_eq!(m.key, "Wagers");
    assert_eq!(m.addr, "module1");
    assert_eq!(m.data, Some(b"{}".to_vec()));

    assert_eq!(read_module_reply(2, &ok).unwrap_err(), CoreError::UnknownReplyId { id: 2 });
    let failed: Result<(Vec<Event>, Option<Vec<u8>>), String> = Err("boom".to_string());
    assert_eq!(read_module_reply(1, &failed).unwrap_err(), CoreError::ReplyFailed { error: "boom".to_string() });
    assert_eq!(read_module_reply(1, &Ok((vec![], None))).unwrap_err(), CoreError::MissingReplyData);
    assert_eq!(read_module_reply(1, &Ok((vec![], Some(vec![0xff])))).unwrap_err(), CoreError::InvalidReplyData);
    let no_key = Ok((vec![Event { attributes: vec![attr("action", "x")] }], Some(data)));
    assert_eq!(read_module_reply(1, &no_key).unwrap_err(), CoreError::MissingModuleKey);
}

#[test]
fn setup_sends_its_updates_in_order_and_asks_the_dao_to_record_it() {
    let setup = instantiate_extension(
        "dao".to_string(),
        "core".to_string(),
        Decimal::percent(15),
        Some(vec!["Category".to_string()]),
        None,
        Duration::Time(604800),
        true,
        Some("registry".to_string()),
        TaxConfiguration { cw20_msg: None, cw721_msg: Some(vec![1]) },
    );
    let kinds: Vec<&str> = setup
        .actions
        .iter()
        .map(|a| match a {
            SetupAction::UpdateTax { .. } => "tax",
            SetupAction::UpdateCategories { .. } => "categories",
            SetupAction::UpdateRulesets { .. } => "rulesets",
            SetupAction::UpdateRatingPeriod { .. } => "period",
            SetupAction::UpdateCompetitionModules => "modules",
            SetupAction::SetPaymentRegistry { .. } => "registry",
        })
        .collect();
    assert_eq!(kinds, vec!["tax", "categories", "period", "modules", "registry"]);
    assert_eq!(setup.callback.dao, "dao");
    assert_eq!(setup.callback.key, "Arena");
    assert_eq!(setup.callback.value, "core");
    assert_eq!(setup.tax_configuration.cw721_msg, Some(vec![1]));
    let core = ArenaCore::initial(Duration::Time(604800));
    assert_eq!(core.categories_count, 0);
    assert_eq!(core.rulesets_count, 0);
    assert_eq!(core.tax.atomics, 0);
}
