use vstd::prelude::*;
use crate::chain::{duration_value, Duration};
use crate::id_map::{ids_increasing, lemma_id_push_increasing, lemma_id_update_value, IdMap};
use crate::str_map::{lemma_str_entry, lemma_str_update, StrMap};
use crate::order::{has_view, insert_sorted, lemma_str_lt_order, str_less, str_lt, strictly_ascending};
use crate::math::{Decimal, DECIMAL_FRACTIONAL};
use crate::enrollment::{Attribute, Event};

verus! {

/// The key under which the arena core registers itself with its DAO.
pub const ITEM_KEY: &'static str = "Arena";

/// The registry key of the wager module.
pub const WAGERS_KEY: &'static str = "Wagers";

/// The registry key of the league module.
pub const LEAGUES_KEY: &'static str = "Leagues";

/// The registry key of the tournament module.
pub const TOURNAMENTS_KEY: &'static str = "Tournaments";

/// The number of items a listing returns when no larger limit is asked for.
pub const DEFAULT_PAGE_LIMIT: u32 = 30u32;

/// Why an arena core operation was refused.
#[derive(Debug, Clone, PartialEq, Eq)]
pub enum CoreError {
    Unauthorized,
    /// The tax must stay below one whole.
    TaxTooHigh,
    /// A rating period of zero blocks or seconds.
    ZeroRatingPeriod,
    CompetitionCategoryDoesNotExist { id: u128 },
    RulesetDoesNotExist { id: u128 },
    CompetitionModuleDoesNotExist { addr: String },
    EnrollmentModuleNotRegistered { addr: String },
    /// A rating adjustment between an address and itself.
    SameAddress,
    /// A result outside `[0, 1]`.
    ResultOutOfRange,
    /// The two results of a match do not add up to one.
    ResultsDoNotSumToOne,
    Overflow,
    /// A reply to a submessage the core did not send.
    UnknownReplyId { id: u64 },
    /// The instantiation of a competition module failed.
    ReplyFailed { error: String },
    /// The instantiation reply carries no data.
    MissingReplyData,
    /// The instantiation reply's data cannot be read.
    InvalidReplyData,
    /// The instantiation reply names no module key.
    MissingModuleKey,
}

/// The tax the arena takes must be below one whole.
pub fn validate_tax(tax: Decimal) -> (r: Result<(), CoreError>)
    ensures
        tax.atomics >= DECIMAL_FRACTIONAL ==> r == Err::<(), CoreError>(CoreError::TaxTooHigh),
        tax.atomics < DECIMAL_FRACTIONAL ==> r is Ok,
{
    if tax.atomics >= DECIMAL_FRACTIONAL {
        Err(CoreError::TaxTooHigh)
    } else {
        Ok(())
    }
}

/// A rating period must last at least one block or second.
pub fn validate_rating_period(period: &Duration) -> (r: Result<(), CoreError>)
    ensures
        duration_value(*period) == 0 ==> r == Err::<(), CoreError>(CoreError::ZeroRatingPeriod),
        duration_value(*period) != 0 ==> r is Ok,
{
    if period.value() == 0 {
        Err(CoreError::ZeroRatingPeriod)
    } else {
        Ok(())
    }
}

/// Who may send the arena core's own messages: the rating adjustments come
/// from competition modules and are checked there; every other message must
/// come from the arena core itself or from its DAO.
pub fn authorize_extension(sender: &String, contract: &String, dao: &String, adjusts_ratings: bool) -> (r: Result<
    (),
    CoreError,
>)
    ensures
        r is Ok <==> (adjusts_ratings || sender@ == contract@ || sender@ == dao@),
        r is Err ==> r == Err::<(), CoreError>(CoreError::Unauthorized),
{
    if adjusts_ratings || *sender == *contract || *sender == *dao {
        Ok(())
    } else {
        Err(CoreError::Unauthorized)
    }
}

/// How many items a listing returns: the asked limit, but never fewer than
/// the default.
pub open spec fn page_limit_spec(limit: Option<u32>) -> u32 {
    match limit {
        Some(l) => if l > DEFAULT_PAGE_LIMIT {
            l
        } else {
            DEFAULT_PAGE_LIMIT
        },
        None => DEFAULT_PAGE_LIMIT,
    }
}

/// How many items a listing returns: the asked limit, but never fewer than
/// the default.
pub fn page_limit(limit: Option<u32>) -> (n: u32)
    ensures
        n == page_limit_spec(limit),
{
    let l = match limit {
        Some(l) => l,
        None => DEFAULT_PAGE_LIMIT,
    };
    if l > DEFAULT_PAGE_LIMIT {
        l
    } else {
        DEFAULT_PAGE_LIMIT
    }
}

/// One side of a match whose rating is adjusted: the address and its result
/// (one for a win, a half for a draw, zero for a loss).
#[derive(Debug)]
pub struct MemberResult {
    pub addr: String,
    pub result: Decimal,
}

/// Why a pair of results cannot adjust ratings, if it cannot.
pub open spec fn rating_pair_check(a: MemberResult, b: MemberResult) -> Option<CoreError> {
    if a.addr@ == b.addr@ {
        Some(CoreError::SameAddress)
    } else if a.result.atomics > DECIMAL_FRACTIONAL || b.result.atomics > DECIMAL_FRACTIONAL {
        Some(CoreError::ResultOutOfRange)
    } else if a.result.atomics + b.result.atomics != DECIMAL_FRACTIONAL {
        Some(CoreError::ResultsDoNotSumToOne)
    } else {
        None
    }
}

/// A rating adjustment is between two different addresses whose results
/// lie in `[0, 1]` and add up to one.
pub fn validate_rating_pair(a: &MemberResult, b: &MemberResult) -> (r: Result<(), CoreError>)
    ensures
        match rating_pair_check(*a, *b) {
            Some(e) => r == Err::<(), CoreError>(e),
            None => r is Ok,
        },
{
    if a.addr == b.addr {
        return Err(CoreError::SameAddress);
    }
    if a.result.atomics > DECIMAL_FRACTIONAL {
        return Err(CoreError::ResultOutOfRange);
    }
    if b.result.atomics > DECIMAL_FRACTIONAL {
        return Err(CoreError::ResultOutOfRange);
    }
    if a.result.atomics + b.result.atomics != DECIMAL_FRACTIONAL {
        return Err(CoreError::ResultsDoNotSumToOne);
    }
    Ok(())
}

/// Whether `who` is listed.
pub fn list_contains(list: &Vec<String>, who: &String) -> (b: bool)
    ensures
        b == exists|i: int| 0 <= i < list.len() && list@[i]@ == who@,
{
    let mut i: usize = 0;
    while i < list.len()
        invariant
            i <= list.len(),
            forall|j: int| 0 <= j < i ==> list@[j]@ != who@,
        decreases list.len() - i,
    {
        if list[i] == *who {
            return true;
        }
        i = i + 1;
    }
    false
}

/// Whether a string of the list views as `who`.
pub open spec fn listed(list: Seq<String>, who: Seq<char>) -> bool {
    exists|i: int| 0 <= i < list.len() && list[i]@ == who
}

/// Who may submit proposals through the arena core.
#[derive(Debug)]
pub enum SubmissionPolicy {
    /// Anyone but the denied.
    Anyone { denylist: Vec<String> },
    /// The allowed and, when `dao_members` is set, the active competition
    /// modules; never the denied.
    Specific { dao_members: bool, allowlist: Vec<String>, denylist: Vec<String> },
}

/// Whether `who` may submit a proposal under `policy`, given whether it is
/// an active competition module.
pub open spec fn can_submit_spec(policy: SubmissionPolicy, who: Seq<char>, is_active_module: bool) -> bool {
    match policy {
        SubmissionPolicy::Anyone { denylist } => !listed(denylist@, who),
        SubmissionPolicy::Specific { dao_members, allowlist, denylist } => !listed(denylist@, who) && (listed(
            allowlist@,
            who,
        ) || !dao_members || is_active_module),
    }
}

/// How the DAO of a wager is given.
#[derive(Debug)]
pub enum WagerDAO {
    New { dao_code_id: u64, group_code_id: u64, proposal_code_id: u64, members: Vec<String> },
    Existing { addr: String },
}

/// How the stake of a wager is given.
#[derive(Debug)]
pub enum WagerAmount {
    New { dao_code_id: u64, voting_code_id: u64, group_code_id: u64, members: Vec<String> },
    Existing { addr: String },
}

/// Where a wager stands.
#[derive(Debug, Clone, Copy, PartialEq, Eq, Structural)]
pub enum WagerStatus {
    Pending,
    Active,
    Inactive,
    Jailed,
}

/// How to migrate the arena core.
#[derive(Debug, Clone, Copy, PartialEq, Eq, Structural)]
pub enum MigrateMsg {
    FromCompatible,
}

/// The steps a migration from a stored version takes.
#[derive(Debug, Clone, Copy, PartialEq, Eq, Structural)]
pub struct MigrationPlan {
    /// Move the category count to its new key and store an empty tax
    /// configuration.
    pub to_v1_4: bool,
    /// Store the default rating period of one week.
    pub to_v1_6: bool,
    /// Drop the rulesets, whose layout changed.
    pub clear_rulesets: bool,
}

/// The default rating period: one week.
pub const DEFAULT_RATING_PERIOD_SECONDS: u64 = 604800u64;

/// The steps to migrate a compatible arena core stored at version
/// `major.minor`.
pub fn migration_plan(major: u64, minor: u64) -> (p: MigrationPlan)
    ensures
        p.to_v1_4 == (major == 1 && minor <= 4),
        p.to_v1_6 == (major == 1 && minor < 6),
        p.clear_rulesets == (major == 1 && minor < 8),
{
    MigrationPlan {
        to_v1_4: major == 1 && minor <= 4,
        to_v1_6: major == 1 && minor < 6,
        clear_rulesets: major == 1 && minor < 8,
    }
}

/// A competition category of the arena.
#[derive(Debug)]
pub struct CompetitionCategory {
    pub id: u128,
    pub name: String,
    pub is_enabled: bool,
}

/// A change to an existing category.
#[derive(Debug)]
pub enum EditCompetitionCategory {
    Disable { category_id: u128 },
    Edit { category_id: u128, name: String },
}

/// The category an edit is about.
pub open spec fn edit_target(e: EditCompetitionCategory) -> u128 {
    match e {
        EditCompetitionCategory::Disable { category_id } => category_id,
        EditCompetitionCategory::Edit { category_id, .. } => category_id,
    }
}

/// A category after an edit.
pub open spec fn edited(c: CompetitionCategory, e: EditCompetitionCategory) -> CompetitionCategory {
    match e {
        EditCompetitionCategory::Disable { .. } => CompetitionCategory { id: c.id, name: c.name, is_enabled: false },
        EditCompetitionCategory::Edit { name, .. } => CompetitionCategory { id: c.id, name: name, is_enabled: c.is_enabled },
    }
}

/// The categories after the edits, applied in order.
pub open spec fn apply_edits(m: Map<u128, CompetitionCategory>, edits: Seq<EditCompetitionCategory>) -> Map<
    u128,
    CompetitionCategory,
>
    decreases edits.len(),
{
    if edits.len() == 0 {
        m
    } else {
        let p = apply_edits(m, edits.drop_last());
        let e = edits.last();
        p.insert(edit_target(e), edited(p[edit_target(e)], e))
    }
}

/// Edits rename and disable, and nothing else: after the edits, a category
/// that was there keeps its id, is enabled exactly when it was enabled and
/// no edit disabled it, and keeps its name unless an edit renamed it, in
/// which case it has a name that one of those edits gave.
pub proof fn law_edits_only_rename_and_disable(m: Map<u128, CompetitionCategory>, edits: Seq<EditCompetitionCategory>, k: u128)
    requires
        m.contains_key(k),
    ensures
        apply_edits(m, edits).contains_key(k),
        apply_edits(m, edits)[k].id == m[k].id,
        apply_edits(m, edits)[k].is_enabled == (m[k].is_enabled && !exists|j: int|
            0 <= j < edits.len() && #[trigger] edits[j] == (EditCompetitionCategory::Disable { category_id: k })),
        (forall|j: int| 0 <= j < edits.len() ==> !(#[trigger] edits[j] matches EditCompetitionCategory::Edit { category_id, .. }
            && category_id == k)) ==> apply_edits(m, edits)[k].name == m[k].name,
        apply_edits(m, edits)[k].name == m[k].name || exists|j: int|
            0 <= j < edits.len() && #[trigger] edits[j] == (EditCompetitionCategory::Edit {
                category_id: k,
                name: apply_edits(m, edits)[k].name,
            }),
    decreases edits.len(),
{
    if edits.len() > 0 {
        let d = edits.drop_last();
        law_edits_only_rename_and_disable(m, d, k);
        let p = apply_edits(m, d);
        let e = edits.last();
        assert(edits[edits.len() - 1] == e);
        assert forall|j: int| 0 <= j < d.len() implies #[trigger] d[j] == edits[j] by {}
        if edit_target(e) == k {
            match e {
                EditCompetitionCategory::Disable { category_id } => {
                    assert(edits[edits.len() - 1] == (EditCompetitionCategory::Disable { category_id: k }));
                },
                EditCompetitionCategory::Edit { category_id, name } => {
                    assert(edits[edits.len() - 1] == (EditCompetitionCategory::Edit { category_id: k, name: name }));
                    if exists|j: int| 0 <= j < edits.len() && #[trigger] edits[j] == (EditCompetitionCategory::Disable { category_id: k }) {
                        let j = choose|j: int| 0 <= j < edits.len() && #[trigger] edits[j] == (EditCompetitionCategory::Disable { category_id: k });
                        assert(j < d.len());
                        assert(d[j] == edits[j]);
                    }
                },
            }
        } else {
            if exists|j: int| 0 <= j < edits.len() && #[trigger] edits[j] == (EditCompetitionCategory::Disable { category_id: k }) {
                let j = choose|j: int| 0 <= j < edits.len() && #[trigger] edits[j] == (EditCompetitionCategory::Disable { category_id: k });
                assert(j != edits.len() - 1);
                assert(d[j] == edits[j]);
            }
            if p[k].name != m[k].name {
                let j = choose|j: int| 0 <= j < d.len() && #[trigger] d[j] == (EditCompetitionCategory::Edit { category_id: k, name: p[k].name });
                assert(edits[j] == d[j]);
            }
        }
    }
}

/// The categories after `names` were added under the ids that follow `count`.
pub open spec fn with_new_categories(m: Map<u128, CompetitionCategory>, count: u128, names: Seq<String>) -> Map<
    u128,
    CompetitionCategory,
> {
    Map::new(
        |k: u128| m.contains_key(k) || (count < k && k <= count + names.len()),
        |k: u128|
            if count < k && k <= count + names.len() {
                CompetitionCategory { id: k, name: names[k - count - 1], is_enabled: true }
            } else {
                m[k]
            },
    )
}

/// The ids that follow `count`, one for each of `n` new items.
pub open spec fn next_ids(count: u128, n: nat) -> Seq<u128> {
    Seq::new(n, |j: int| (count + j + 1) as u128)
}

/// The ids from one to `n`.
pub open spec fn first_ids(n: nat) -> Set<u128> {
    Set::new(|id: u128| 1 <= id <= n)
}

/// `ids[j]` is the first id of the list that `dom` does not hold.
pub open spec fn first_absent_at(dom: Set<u128>, ids: Seq<u128>, j: int) -> bool {
    &&& 0 <= j < ids.len()
    &&& !dom.contains(ids[j])
    &&& forall|k: int| 0 <= k < j ==> dom.contains(#[trigger] ids[k])
}

/// Every id of the list is held by `dom`.
pub open spec fn all_present(dom: Set<u128>, ids: Seq<u128>) -> bool {
    forall|k: int| 0 <= k < ids.len() ==> dom.contains(#[trigger] ids[k])
}

/// Every category sits under its own id, and no id is above the count.
pub open spec fn categories_wf(m: Map<u128, CompetitionCategory>, count: u128) -> bool {
    forall|k: u128| #[trigger] m.contains_key(k) ==> m[k].id == k && 1 <= k <= count
}

/// A set of rules that competitions of a category can follow.
#[derive(Debug)]
pub struct Ruleset {
    pub category_id: u128,
    pub id: u128,
    pub rules: Vec<String>,
    pub description: String,
    pub is_enabled: bool,
}

/// A ruleset to be added.
#[derive(Debug)]
pub struct NewRuleset {
    pub category_id: u128,
    pub rules: Vec<String>,
    pub description: String,
}

/// Every ruleset sits under its own id, no id is above the count, and each
/// belongs to an existing category.
pub open spec fn rulesets_wf(m: Map<u128, Ruleset>, count: u128, categories: Set<u128>) -> bool {
    forall|k: u128| #[trigger] m.contains_key(k) ==> m[k].id == k && 1 <= k <= count && categories.contains(m[k].category_id)
}

/// A ruleset, disabled.
pub open spec fn disabled(r: Ruleset) -> Ruleset {
    Ruleset { category_id: r.category_id, id: r.id, rules: r.rules, description: r.description, is_enabled: false }
}

/// The rulesets after those listed were disabled.
pub open spec fn disable_rulesets(m: Map<u128, Ruleset>, ids: Seq<u128>) -> Map<u128, Ruleset> {
    Map::new(|k: u128| m.contains_key(k), |k: u128| if ids.contains(k) { disabled(m[k]) } else { m[k] })
}

/// The rulesets after `adds` were added under the ids that follow `count`.
pub open spec fn with_new_rulesets(m: Map<u128, Ruleset>, count: u128, adds: Seq<NewRuleset>) -> Map<u128, Ruleset> {
    Map::new(
        |k: u128| m.contains_key(k) || (count < k && k <= count + adds.len()),
        |k: u128|
            if count < k && k <= count + adds.len() {
                Ruleset {
                    category_id: adds[k - count - 1].category_id,
                    id: k,
                    rules: adds[k - count - 1].rules,
                    description: adds[k - count - 1].description,
                    is_enabled: true,
                }
            } else {
                m[k]
            },
    )
}

/// Why the `j`-th new ruleset cannot be added after those before it, if it
/// cannot: its category is missing, or its id would overflow.
pub open spec fn add_failure(categories: Set<u128>, count: u128, adds: Seq<NewRuleset>, j: int) -> Option<CoreError> {
    if !categories.contains(adds[j].category_id) {
        Some(CoreError::CompetitionCategoryDoesNotExist { id: adds[j].category_id })
    } else if count + j + 1 > u128::MAX {
        Some(CoreError::Overflow)
    } else {
        None
    }
}

/// A competition module registered with the arena core.
#[derive(Debug)]
pub struct CompetitionModule {
    pub key: String,
    pub addr: String,
    pub is_enabled: bool,
}

/// A module, disabled.
pub open spec fn module_disabled(m: CompetitionModule) -> CompetitionModule {
    CompetitionModule { key: m.key, addr: m.addr, is_enabled: false }
}

/// The modules after those listed were disabled.
pub open spec fn disable_modules(m: Map<Seq<char>, CompetitionModule>, addrs: Seq<String>) -> Map<
    Seq<char>,
    CompetitionModule,
> {
    Map::new(
        |a: Seq<char>| m.contains_key(a),
        |a: Seq<char>|
            if listed(addrs, a) {
                module_disabled(m[a])
            } else {
                m[a]
            },
    )
}

/// `addrs[j]` is the first address of the list that `dom` does not hold.
pub open spec fn first_unknown_at(dom: Set<Seq<char>>, addrs: Seq<String>, j: int) -> bool {
    &&& 0 <= j < addrs.len()
    &&& !dom.contains(addrs[j]@)
    &&& forall|k: int| 0 <= k < j ==> dom.contains(#[trigger] addrs[k]@)
}

/// `addrs[j]` cannot be removed from the set after those before it were:
/// the set, `dom` with `added` joined, lacks it, or an earlier removal took it.
pub open spec fn removal_fails(dom: Set<Seq<char>>, added: Seq<String>, addrs: Seq<String>, j: int) -> bool {
    !(dom.contains(addrs[j]@) || listed(added, addrs[j]@)) || listed(addrs.take(j), addrs[j]@)
}

/// The set of enrollment modules after the additions and then the removals.
pub open spec fn updated_enrollment_modules(dom: Set<Seq<char>>, added: Seq<String>, removed: Seq<String>) -> Set<
    Seq<char>,
> {
    Set::new(|a: Seq<char>| (dom.contains(a) || listed(added, a)) && !listed(removed, a))
}

/// `s` cut to at most `n` items.
pub open spec fn truncated<T>(s: Seq<T>, n: nat) -> Seq<T> {
    if s.len() <= n {
        s
    } else {
        s.take(n as int)
    }
}

/// Appending to a list and then cutting it appends only while there is room.
pub proof fn lemma_truncated_push<T>(p: Seq<T>, v: T, n: nat)
    ensures
        truncated(p.push(v), n) == if p.len() < n {
            truncated(p, n).push(v)
        } else {
            truncated(p, n)
        },
{
    if p.len() < n {
        assert(truncated(p, n) == p);
    } else {
        assert(p.push(v).take(n as int) =~= p.take(n as int));
    }
}

/// Whether `id` comes after the start of a page.
pub open spec fn after_start(id: u128, start_after: Option<u128>) -> bool {
    match start_after {
        Some(a) => id > a,
        None => true,
    }
}

/// The categories of the entries, in their order, that come after the start
/// and are enabled unless disabled ones are included.
pub open spec fn category_page(s: Seq<(u128, CompetitionCategory)>, start_after: Option<u128>, include_disabled: bool) -> Seq<
    CompetitionCategory,
>
    decreases s.len(),
{
    if s.len() == 0 {
        Seq::empty()
    } else {
        let p = category_page(s.drop_last(), start_after, include_disabled);
        let e = s.last();
        if after_start(e.0, start_after) && (include_disabled || e.1.is_enabled) {
            p.push(e.1)
        } else {
            p
        }
    }
}

/// The rulesets of the entries, in their order, that belong to the category,
/// come after the start and are enabled or disabled as asked.
pub open spec fn ruleset_page(s: Seq<(u128, Ruleset)>, category_id: u128, start_after: Option<u128>, enabled: bool) -> Seq<
    Ruleset,
>
    decreases s.len(),
{
    if s.len() == 0 {
        Seq::empty()
    } else {
        let p = ruleset_page(s.drop_last(), category_id, start_after, enabled);
        let e = s.last();
        if e.1.category_id == category_id && after_start(e.0, start_after) && e.1.is_enabled == enabled {
            p.push(e.1)
        } else {
            p
        }
    }
}

/// `page` is the page of at most `limit` of the candidates, in strictly
/// ascending (or descending) order, that the first `limit` candidates in that
/// order make: every candidate left out comes after the last of a full page.
pub open spec fn is_ordered_page(cands: Set<Seq<char>>, ascending: bool, limit: nat, page: Seq<Seq<char>>) -> bool {
    &&& page.len() <= limit
    &&& forall|i: int, j: int|
        0 <= i < j < page.len() ==> if ascending {
            str_lt(#[trigger] page[i], #[trigger] page[j])
        } else {
            str_lt(page[j], page[i])
        }
    &&& forall|i: int| 0 <= i < page.len() ==> cands.contains(#[trigger] page[i])
    &&& forall|a: Seq<char>|
        #[trigger] cands.contains(a) && !page.contains(a) ==> page.len() == limit && (page.len() > 0 ==> if ascending {
            str_lt(page[page.len() - 1], a)
        } else {
            str_lt(a, page[page.len() - 1])
        })
}

/// The modules a listing may show: those after the start, and only enabled
/// ones unless disabled ones are included.
pub open spec fn module_candidates(m: Map<Seq<char>, CompetitionModule>, start_after: Option<Seq<char>>, with_disabled: bool) -> Set<
    Seq<char>,
> {
    Set::new(
        |a: Seq<char>|
            m.contains_key(a) && (match start_after {
                Some(s) => str_lt(s, a),
                None => true,
            }) && (with_disabled || m[a].is_enabled),
    )
}

/// The registries and settings of the arena core.
#[derive(Debug)]
pub struct ArenaCore {
    pub tax: Decimal,
    pub rating_period: Duration,
    pub categories: IdMap<CompetitionCategory>,
    pub categories_count: u128,
    pub rulesets: IdMap<Ruleset>,
    pub rulesets_count: u128,
    /// The competition modules, by address.
    pub competition_modules: StrMap<CompetitionModule>,
    /// The address last registered under each module key.
    pub keys: StrMap<String>,
    /// The enrollment modules allowed to create competitions.
    pub enrollment_modules: StrMap<()>,
}

impl ArenaCore {
    /// The registries are consistent.
    pub open spec fn wf(&self) -> bool {
        &&& self.categories.wf()
        &&& ids_increasing(self.categories.entries@)
        &&& categories_wf(self.categories@, self.categories_count)
        &&& self.rulesets.wf()
        &&& ids_increasing(self.rulesets.entries@)
        &&& rulesets_wf(self.rulesets@, self.rulesets_count, self.categories@.dom())
        &&& self.competition_modules.wf()
        &&& forall|a: Seq<char>| #[trigger]
            self.competition_modules@.contains_key(a) ==> self.competition_modules@[a].addr@ == a
        &&& self.keys.wf()
        &&& self.enrollment_modules.wf()
    }

    /// The module registries are the same in both.
    pub open spec fn same_modules(&self, other: ArenaCore) -> bool {
        &&& self.competition_modules == other.competition_modules
        &&& self.keys == other.keys
        &&& self.enrollment_modules == other.enrollment_modules
    }

    /// Checks that every id of `ids` has a category; returns the first that
    /// has none.
    fn find_absent_category(&self, ids: &Vec<u128>) -> (r: Option<u128>)
        requires
            self.wf(),
        ensures
            match r {
                Some(id) => exists|j: int| first_absent_at(self.categories@.dom(), ids@, j) && ids@[j] == id,
                None => all_present(self.categories@.dom(), ids@),
            },
    {
        let mut i: usize = 0;
        while i < ids.len()
            invariant
                self.wf(),
                i <= ids.len(),
                forall|k: int| 0 <= k < i ==> self.categories@.dom().contains(#[trigger] ids@[k]),
            decreases ids.len() - i,
        {
            if !self.categories.contains(ids[i]) {
                assert(first_absent_at(self.categories@.dom(), ids@, i as int));
                return Some(ids[i]);
            }
            i = i + 1;
        }
        None
    }

    /// Applies the edits, then adds the new categories under consecutive
    /// ids; returns the new ids. Nothing changes when an edit names a
    /// missing category or the ids would overflow.
    pub fn update_categories(&mut self, to_add: Vec<String>, to_edit: Vec<EditCompetitionCategory>) -> (r: Result<
        Vec<u128>,
        CoreError,
    >)
        requires
            old(self).wf(),
        ensures
            final(self).wf(),
            final(self).tax == old(self).tax,
            final(self).rating_period == old(self).rating_period,
            final(self).rulesets == old(self).rulesets,
            final(self).rulesets_count == old(self).rulesets_count,
            final(self).same_modules(*old(self)),
            match r {
                Ok(ids) => {
                    &&& all_present(old(self).categories@.dom(), to_edit@.map_values(|e| edit_target(e)))
                    &&& old(self).categories_count + to_add.len() <= u128::MAX
                    &&& final(self).categories_count == old(self).categories_count + to_add.len()
                    &&& final(self).categories@ == with_new_categories(
                        apply_edits(old(self).categories@, to_edit@),
                        old(self).categories_count,
                        to_add@,
                    )
                    &&& ids@ == next_ids(old(self).categories_count, to_add.len() as nat)
                },
                Err(e) => {
                    &&& *final(self) == *old(self)
                    &&& match e {
                        CoreError::CompetitionCategoryDoesNotExist { id } => exists|j: int|
                            first_absent_at(old(self).categories@.dom(), to_edit@.map_values(|e| edit_target(e)), j)
                                && edit_target(to_edit@[j]) == id,
                        CoreError::Overflow => all_present(
                            old(self).categories@.dom(),
                            to_edit@.map_values(|e| edit_target(e)),
                        ) && old(self).categories_count + to_add.len() > u128::MAX,
                        _ => false,
                    }
                },
            },
    {
        let ghost old_cats = self.categories@;
        let ghost settings = (self.tax, self.rating_period, self.rulesets, self.rulesets_count, self.competition_modules, self.keys, self.enrollment_modules);
        let ghost edits = to_edit@;
        let ghost names = to_add@;
        let ghost targets = edits.map_values(|e| edit_target(e));
        // Check every edit before changing anything.
        let mut ids: Vec<u128> = Vec::new();
        let mut i: usize = 0;
        while i < to_edit.len()
            invariant
                i <= to_edit.len(),
                to_edit@ == edits,
                targets == edits.map_values(|e| edit_target(e)),
                ids@ == targets.take(i as int),
            decreases to_edit.len() - i,
        {
            let id = match &to_edit[i] {
                EditCompetitionCategory::Disable { category_id } => *category_id,
                EditCompetitionCategory::Edit { category_id, .. } => *category_id,
            };
            ids.push(id);
            i = i + 1;
            assert(ids@ =~= targets.take(i as int));
        }
        assert(ids@ =~= targets);
        match self.find_absent_category(&ids) {
            Some(id) => {
                return Err(CoreError::CompetitionCategoryDoesNotExist { id });
            },
            None => {},
        }
        let count = self.categories_count;
        if count > u128::MAX - (to_add.len() as u128) {
            return Err(CoreError::Overflow);
        }
        // Apply the edits in order.
        let mut to_edit = to_edit;
        let mut i: usize = 0;
        let n = to_edit.len();
        while i < n
            invariant
                n == edits.len(),
                i <= n,
                to_edit@ == edits.skip(i as int),
                all_present(old_cats.dom(), targets),
                targets == edits.map_values(|e| edit_target(e)),
                self.categories.wf(),
                (self.tax, self.rating_period, self.rulesets, self.rulesets_count, self.competition_modules, self.keys, self.enrollment_modules) == settings,
                self.categories_count == count,
                self.categories@ == apply_edits(old_cats, edits.take(i as int)),
                ids_increasing(self.categories.entries@),
                self.categories@.dom() == old_cats.dom(),
                categories_wf(self.categories@, count),
            decreases n - i,
        {
            assert(edits.skip(i as int)[0] == edits[i as int]);
            let e = to_edit.remove(0);
            assert(to_edit@ =~= edits.skip(i as int + 1));
            assert(edits.take(i as int + 1).drop_last() =~= edits.take(i as int));
            assert(targets[i as int] == edit_target(e));
            let ghost before = self.categories@;
            let (id, change_name, new_name, disable) = match e {
                EditCompetitionCategory::Disable { category_id } => (category_id, false, String::new(), true),
                EditCompetitionCategory::Edit { category_id, name } => (category_id, true, name, false),
            };
            assert(old_cats.dom().contains(targets[i as int]));
            let j = self.categories.find(id).unwrap();
            let ghost s = self.categories.entries@;
            let c = self.categories.value_mut(j);
            if change_name {
                c.name = new_name;
            }
            if disable {
                c.is_enabled = false;
            }
            proof {
                lemma_id_update_value(s, j as int, self.categories.entries@[j as int].1);
                assert(self.categories.entries@ == s.update(j as int, (s[j as int].0, self.categories.entries@[j as int].1)));
                assert(self.categories@ == before.insert(id, edited(before[id], e)));
                assert(self.categories@.dom() =~= old_cats.dom());
            }
            i = i + 1;
        }
        assert(edits.take(n as int) =~= edits);
        let ghost edited_cats = self.categories@;
        // Add the new categories.
        let mut to_add = to_add;
        let mut new_ids: Vec<u128> = Vec::new();
        let mut i: usize = 0;
        let n = to_add.len();
        while i < n
            invariant
                n == names.len(),
                i <= n,
                count + n <= u128::MAX,
                to_add@ == names.skip(i as int),
                self.categories.wf(),
                (self.tax, self.rating_period, self.rulesets, self.rulesets_count, self.competition_modules, self.keys, self.enrollment_modules) == settings,
                self.categories_count == count + i,
                categories_wf(edited_cats, count),
                self.categories@ == with_new_categories(edited_cats, count, names.take(i as int)),
                ids_increasing(self.categories.entries@),
                categories_wf(self.categories@, self.categories_count),
                new_ids@ == next_ids(count, i as nat),
            decreases n - i,
        {
            assert(names.skip(i as int)[0] == names[i as int]);
            let name = to_add.remove(0);
            assert(to_add@ =~= names.skip(i as int + 1));
            let id = self.categories_count + 1;
            proof {
                lemma_id_push_increasing(self.categories.entries@, id, CompetitionCategory { id, name, is_enabled: true });
            }
            self.categories.insert(id, CompetitionCategory { id, name, is_enabled: true });
            self.categories_count = id;
            new_ids.push(id);
            i = i + 1;
            assert(self.categories@ =~= with_new_categories(edited_cats, count, names.take(i as int)));
            assert(new_ids@ =~= next_ids(count, i as nat));
        }
        assert(names.take(n as int) =~= names);
        Ok(new_ids)
    }

    /// Checks that every id of `ids` has a ruleset; returns the first that
    /// has none.
    fn find_absent_ruleset(&self, ids: &Vec<u128>) -> (r: Option<u128>)
        requires
            self.wf(),
        ensures
            match r {
                Some(id) => exists|j: int| first_absent_at(self.rulesets@.dom(), ids@, j) && ids@[j] == id,
                None => all_present(self.rulesets@.dom(), ids@),
            },
    {
        let mut i: usize = 0;
        while i < ids.len()
            invariant
                self.wf(),
                i <= ids.len(),
                forall|k: int| 0 <= k < i ==> self.rulesets@.dom().contains(#[trigger] ids@[k]),
            decreases ids.len() - i,
        {
            if !self.rulesets.contains(ids[i]) {
                assert(first_absent_at(self.rulesets@.dom(), ids@, i as int));
                return Some(ids[i]);
            }
            i = i + 1;
        }
        None
    }

    /// Why the new rulesets cannot be added, if they cannot: the failure of
    /// the first that fails.
    fn check_new_rulesets(&self, adds: &Vec<NewRuleset>) -> (r: Option<CoreError>)
        requires
            self.wf(),
        ensures
            match r {
                Some(e) => exists|j: int|
                    0 <= j < adds.len() && add_failure(self.categories@.dom(), self.rulesets_count, adds@, j) == Some(e)
                        && forall|k: int| 0 <= k < j ==> add_failure(self.categories@.dom(), self.rulesets_count, adds@, k) is None,
                None => forall|k: int|
                    0 <= k < adds.len() ==> add_failure(self.categories@.dom(), self.rulesets_count, adds@, k) is None,
            },
    {
        let mut i: usize = 0;
        while i < adds.len()
            invariant
                self.wf(),
                i <= adds.len(),
                forall|k: int| 0 <= k < i ==> add_failure(self.categories@.dom(), self.rulesets_count, adds@, k) is None,
            decreases adds.len() - i,
        {
            let category_id = adds[i].category_id;
            if !self.categories.contains(category_id) {
                assert(add_failure(self.categories@.dom(), self.rulesets_count, adds@, i as int) is Some);
                return Some(CoreError::CompetitionCategoryDoesNotExist { id: category_id });
            }
            if self.rulesets_count == u128::MAX || (i as u128) > u128::MAX - 1 - self.rulesets_count {
                return Some(CoreError::Overflow);
            }
            i = i + 1;
        }
        None
    }

    /// Disables the listed rulesets, then adds the new ones under
    /// consecutive ids; returns the new ids. Nothing changes when a ruleset
    /// to disable is missing, a new ruleset's category is missing, or the ids
    /// would overflow.
    pub fn update_rulesets(&mut self, to_add: Vec<NewRuleset>, to_disable: &Vec<u128>) -> (r: Result<Vec<u128>, CoreError>)
        requires
            old(self).wf(),
        ensures
            final(self).wf(),
            final(self).tax == old(self).tax,
            final(self).rating_period == old(self).rating_period,
            final(self).categories == old(self).categories,
            final(self).categories_count == old(self).categories_count,
            final(self).same_modules(*old(self)),
            match r {
                Ok(ids) => {
                    &&& all_present(old(self).rulesets@.dom(), to_disable@)
                    &&& forall|k: int|
                        0 <= k < to_add.len() ==> add_failure(
                            old(self).categories@.dom(),
                            old(self).rulesets_count,
                            to_add@,
                            k,
                        ) is None
                    &&& final(self).rulesets_count == old(self).rulesets_count + to_add.len()
                    &&& final(self).rulesets@ == with_new_rulesets(
                        disable_rulesets(old(self).rulesets@, to_disable@),
                        old(self).rulesets_count,
                        to_add@,
                    )
                    &&& ids@ == next_ids(old(self).rulesets_count, to_add.len() as nat)
                },
                Err(e) => {
                    &&& *final(self) == *old(self)
                    &&& match e {
                        CoreError::RulesetDoesNotExist { id } => exists|j: int|
                            first_absent_at(old(self).rulesets@.dom(), to_disable@, j) && to_disable@[j] == id,
                        _ => all_present(old(self).rulesets@.dom(), to_disable@) && exists|j: int|
                            0 <= j < to_add.len() && add_failure(
                                old(self).categories@.dom(),
                                old(self).rulesets_count,
                                to_add@,
                                j,
                            ) == Some(e) && forall|k: int|
                                0 <= k < j ==> add_failure(
                                    old(self).categories@.dom(),
                                    old(self).rulesets_count,
                                    to_add@,
                                    k,
                                ) is None,
                    }
                },
            },
    {
        match self.find_absent_ruleset(to_disable) {
            Some(id) => {
                return Err(CoreError::RulesetDoesNotExist { id });
            },
            None => {},
        }
        match self.check_new_rulesets(&to_add) {
            Some(e) => {
                return Err(e);
            },
            None => {},
        }
        let ghost old_rulesets = self.rulesets@;
        let ghost cats = self.categories@.dom();
        let ghost settings = (self.tax, self.rating_period, self.categories, self.categories_count, self.competition_modules, self.keys, self.enrollment_modules);
        let ghost ids = to_disable@;
        let ghost adds = to_add@;
        let count = self.rulesets_count;
        // Disable.
        let mut i: usize = 0;
        while i < to_disable.len()
            invariant
                i <= to_disable.len(),
                to_disable@ == ids,
                all_present(old_rulesets.dom(), ids),
                self.rulesets.wf(),
                (self.tax, self.rating_period, self.categories, self.categories_count, self.competition_modules, self.keys, self.enrollment_modules) == settings,
                cats == self.categories@.dom(),
                self.rulesets_count == count,
                self.rulesets@ == disable_rulesets(old_rulesets, ids.take(i as int)),
                ids_increasing(self.rulesets.entries@),
                rulesets_wf(self.rulesets@, count, cats),
                rulesets_wf(old_rulesets, count, cats),
            decreases to_disable.len() - i,
        {
            let id = to_disable[i];
            let ghost before = self.rulesets@;
            assert(old_rulesets.dom().contains(ids[i as int]));
            assert(before.dom().contains(id));
            let j = self.rulesets.find(id).unwrap();
            let ghost s = self.rulesets.entries@;
            let rs = self.rulesets.value_mut(j);
            rs.is_enabled = false;
            proof {
                lemma_id_update_value(s, j as int, self.rulesets.entries@[j as int].1);
                assert(self.rulesets.entries@ == s.update(j as int, (s[j as int].0, self.rulesets.entries@[j as int].1)));
                assert(self.rulesets@ == before.insert(id, disabled(before[id])));
                assert forall|k: u128| #[trigger] ids.take(i as int + 1).contains(k) == (ids.take(i as int).contains(k) || k == id) by {
                    if ids.take(i as int + 1).contains(k) {
                        let x = choose|x: int| 0 <= x < i + 1 && #[trigger] ids.take(i as int + 1)[x] == k;
                        if x < i {
                            assert(ids.take(i as int)[x] == k);
                        }
                    }
                    if ids.take(i as int).contains(k) {
                        let x = choose|x: int| 0 <= x < i && #[trigger] ids.take(i as int)[x] == k;
                        assert(ids.take(i as int + 1)[x] == k);
                    }
                    if k == id {
                        assert(ids.take(i as int + 1)[i as int] == k);
                    }
                }
                assert(self.rulesets@ =~= disable_rulesets(old_rulesets, ids.take(i as int + 1)));
            }
            i = i + 1;
        }
        assert(ids.take(to_disable.len() as int) =~= ids);
        let ghost disabled_rulesets = self.rulesets@;
        // Add.
        let mut to_add = to_add;
        let mut new_ids: Vec<u128> = Vec::new();
        let mut i: usize = 0;
        let n = to_add.len();
        while i < n
            invariant
                n == adds.len(),
                i <= n,
                to_add@ == adds.skip(i as int),
                forall|k: int| 0 <= k < n ==> add_failure(cats, count, adds, k) is None,
                self.rulesets.wf(),
                (self.tax, self.rating_period, self.categories, self.categories_count, self.competition_modules, self.keys, self.enrollment_modules) == settings,
                cats == self.categories@.dom(),
                self.rulesets_count == count + i,
                rulesets_wf(disabled_rulesets, count, cats),
                self.rulesets@ == with_new_rulesets(disabled_rulesets, count, adds.take(i as int)),
                ids_increasing(self.rulesets.entries@),
                rulesets_wf(self.rulesets@, self.rulesets_count, cats),
                new_ids@ == next_ids(count, i as nat),
            decreases n - i,
        {
            assert(adds.skip(i as int)[0] == adds[i as int]);
            assert(add_failure(cats, count, adds, i as int) is None);
            let a = to_add.remove(0);
            assert(to_add@ =~= adds.skip(i as int + 1));
            let id = self.rulesets_count + 1;
            let new_ruleset = Ruleset {
                category_id: a.category_id,
                id,
                rules: a.rules,
                description: a.description,
                is_enabled: true,
            };
            proof {
                lemma_id_push_increasing(self.rulesets.entries@, id, new_ruleset);
            }
            self.rulesets.insert(id, new_ruleset);
            self.rulesets_count = id;
            new_ids.push(id);
            i = i + 1;
            assert(self.rulesets@ =~= with_new_rulesets(disabled_rulesets, count, adds.take(i as int)));
            assert(new_ids@ =~= next_ids(count, i as nat));
        }
        assert(adds.take(n as int) =~= adds);
        Ok(new_ids)
    }

    /// Whether `who` is a registered competition module that is enabled.
    pub open spec fn is_active_module(&self, who: Seq<char>) -> bool {
        self.competition_modules@.contains_key(who) && self.competition_modules@[who].is_enabled
    }

    /// Whether `who` is a registered competition module that is enabled.
    pub fn is_active_competition_module(&self, who: &String) -> (b: bool)
        requires
            self.wf(),
        ensures
            b == self.is_active_module(who@),
    {
        match self.competition_modules.get(who) {
            Some(m) => m.is_enabled,
            None => false,
        }
    }

    /// Refuses a sender that is not an active competition module.
    pub fn ensure_active_competition_module(&self, who: &String) -> (r: Result<(), CoreError>)
        requires
            self.wf(),
        ensures
            r is Ok <==> self.is_active_module(who@),
            r is Err ==> r == Err::<(), CoreError>(CoreError::Unauthorized),
    {
        if self.is_active_competition_module(who) {
            Ok(())
        } else {
            Err(CoreError::Unauthorized)
        }
    }

    /// Records a newly instantiated competition module as enabled under its
    /// address, and its address under its key.
    pub fn register_competition_module(&mut self, addr: String, key: String)
        requires
            old(self).wf(),
        ensures
            final(self).wf(),
            final(self).competition_modules@ == old(self).competition_modules@.insert(
                addr@,
                CompetitionModule { key: key, addr: addr, is_enabled: true },
            ),
            final(self).keys@ == old(self).keys@.insert(key@, addr),
            final(self).enrollment_modules == old(self).enrollment_modules,
            final(self).categories == old(self).categories,
            final(self).rulesets == old(self).rulesets,
            final(self).categories_count == old(self).categories_count,
            final(self).rulesets_count == old(self).rulesets_count,
            final(self).tax == old(self).tax,
            final(self).rating_period == old(self).rating_period,
    {
        let module = CompetitionModule { key: key.clone(), addr: addr.clone(), is_enabled: true };
        self.competition_modules.insert(addr.clone(), module);
        self.keys.insert(key, addr);
    }

    /// The module registered at `addr`, if any.
    pub fn module_by_addr(&self, addr: &String) -> (r: Option<&CompetitionModule>)
        requires
            self.wf(),
        ensures
            match r {
                Some(m) => self.competition_modules@.contains_key(addr@) && *m == self.competition_modules@[addr@],
                None => !self.competition_modules@.contains_key(addr@),
            },
    {
        self.competition_modules.get(addr)
    }

    /// The module registered under `key`, if any.
    pub fn module_by_key(&self, key: &String) -> (r: Option<&CompetitionModule>)
        requires
            self.wf(),
        ensures
            match r {
                Some(m) => self.keys@.contains_key(key@) && self.competition_modules@.contains_key(self.keys@[key@]@)
                    && *m == self.competition_modules@[self.keys@[key@]@],
                None => !self.keys@.contains_key(key@) || !self.competition_modules@.contains_key(self.keys@[key@]@),
            },
    {
        match self.keys.get(key) {
            Some(addr) => self.competition_modules.get(addr),
            None => None,
        }
    }

    /// Disables the listed competition modules. Nothing changes when one of
    /// them is not registered.
    pub fn disable_competition_modules(&mut self, to_disable: &Vec<String>) -> (r: Result<(), CoreError>)
        requires
            old(self).wf(),
        ensures
            final(self).wf(),
            match r {
                Ok(()) => {
                    &&& forall|k: int|
                        0 <= k < to_disable.len() ==> old(self).competition_modules@.contains_key(
                            #[trigger] to_disable@[k]@,
                        )
                    &&& final(self).competition_modules@ == disable_modules(
                        old(self).competition_modules@,
                        to_disable@,
                    )
                    &&& final(self).keys == old(self).keys
                    &&& final(self).enrollment_modules == old(self).enrollment_modules
                    &&& final(self).categories == old(self).categories
                    &&& final(self).rulesets == old(self).rulesets
                    &&& final(self).categories_count == old(self).categories_count
                    &&& final(self).rulesets_count == old(self).rulesets_count
                    &&& final(self).tax == old(self).tax
                    &&& final(self).rating_period == old(self).rating_period
                },
                Err(e) => {
                    &&& *final(self) == *old(self)
                    &&& exists|j: int|
                        first_unknown_at(old(self).competition_modules@.dom(), to_disable@, j) && e
                            == CoreError::CompetitionModuleDoesNotExist { addr: to_disable@[j] }
                },
            },
    {
        let mut i: usize = 0;
        while i < to_disable.len()
            invariant
                self.wf(),
                i <= to_disable.len(),
                forall|k: int| 0 <= k < i ==> self.competition_modules@.contains_key(#[trigger] to_disable@[k]@),
            decreases to_disable.len() - i,
        {
            if !self.competition_modules.contains(&to_disable[i]) {
                assert(first_unknown_at(self.competition_modules@.dom(), to_disable@, i as int));
                return Err(CoreError::CompetitionModuleDoesNotExist { addr: to_disable[i].clone() });
            }
            i = i + 1;
        }
        let ghost old_modules = self.competition_modules@;
        let ghost addrs = to_disable@;
        let ghost settings = (
            self.tax,
            self.rating_period,
            self.categories,
            self.categories_count,
            self.rulesets,
            self.rulesets_count,
            self.keys,
            self.enrollment_modules,
        );
        let mut i: usize = 0;
        while i < to_disable.len()
            invariant
                i <= to_disable.len(),
                to_disable@ == addrs,
                forall|k: int| 0 <= k < addrs.len() ==> old_modules.contains_key(#[trigger] addrs[k]@),
                (
                    self.tax,
                    self.rating_period,
                    self.categories,
                    self.categories_count,
                    self.rulesets,
                    self.rulesets_count,
                    self.keys,
                    self.enrollment_modules,
                ) == settings,
                self.competition_modules.wf(),
                self.competition_modules@ == disable_modules(old_modules, addrs.take(i as int)),
                forall|a: Seq<char>| #[trigger] old_modules.contains_key(a) ==> old_modules[a].addr@ == a,
            decreases to_disable.len() - i,
        {
            let ghost before = self.competition_modules@;
            let ghost a = addrs[i as int]@;
            assert(old_modules.contains_key(addrs[i as int]@));
            let j = self.competition_modules.find(&to_disable[i]).unwrap();
            let ghost s = self.competition_modules.entries@;
            let m = self.competition_modules.value_mut(j);
            m.is_enabled = false;
            proof {
                let e = (s[j as int].0, self.competition_modules.entries@[j as int].1);
                lemma_str_update(s, j as int, e);
                assert(self.competition_modules.entries@ == s.update(j as int, e));
                assert(self.competition_modules@ == before.insert(a, module_disabled(before[a])));
                assert forall|b: Seq<char>| #[trigger] listed(addrs.take(i as int + 1), b) == (listed(addrs.take(i as int), b) || b == a) by {
                    if listed(addrs.take(i as int + 1), b) {
                        let x = choose|x: int| 0 <= x < i + 1 && #[trigger] addrs.take(i as int + 1)[x]@ == b;
                        if x < i {
                            assert(addrs.take(i as int)[x]@ == b);
                        }
                    }
                    if listed(addrs.take(i as int), b) {
                        let x = choose|x: int| 0 <= x < i && #[trigger] addrs.take(i as int)[x]@ == b;
                        assert(addrs.take(i as int + 1)[x]@ == b);
                    }
                    if b == a {
                        assert(addrs.take(i as int + 1)[i as int]@ == b);
                    }
                }
                assert(self.competition_modules@ =~= disable_modules(old_modules, addrs.take(i as int + 1)));
            }
            i = i + 1;
        }
        assert(addrs.take(to_disable.len() as int) =~= addrs);
        Ok(())
    }

    /// Adds the listed enrollment modules, then removes the listed ones in
    /// order. Nothing changes when a removal finds its module absent.
    pub fn update_enrollment_modules(&mut self, to_add: &Vec<String>, to_remove: &Vec<String>) -> (r: Result<
        (),
        CoreError,
    >)
        requires
            old(self).wf(),
        ensures
            final(self).wf(),
            match r {
                Ok(()) => {
                    &&& forall|k: int|
                        0 <= k < to_remove.len() ==> !removal_fails(
                            old(self).enrollment_modules@.dom(),
                            to_add@,
                            to_remove@,
                            k,
                        )
                    &&& final(self).enrollment_modules@.dom() == updated_enrollment_modules(
                        old(self).enrollment_modules@.dom(),
                        to_add@,
                        to_remove@,
                    )
                    &&& final(self).keys == old(self).keys
                    &&& final(self).competition_modules == old(self).competition_modules
                    &&& final(self).categories == old(self).categories
                    &&& final(self).rulesets == old(self).rulesets
                    &&& final(self).categories_count == old(self).categories_count
                    &&& final(self).rulesets_count == old(self).rulesets_count
                    &&& final(self).tax == old(self).tax
                    &&& final(self).rating_period == old(self).rating_period
                },
                Err(e) => {
                    &&& *final(self) == *old(self)
                    &&& exists|j: int|
                        0 <= j < to_remove.len() && removal_fails(
                            old(self).enrollment_modules@.dom(),
                            to_add@,
                            to_remove@,
                            j,
                        ) && (forall|k: int|
                            0 <= k < j ==> !removal_fails(
                                old(self).enrollment_modules@.dom(),
                                to_add@,
                                to_remove@,
                                k,
                            )) && e == CoreError::EnrollmentModuleNotRegistered { addr: to_remove@[j] }
                },
            },
    {
        let ghost dom = self.enrollment_modules@.dom();
        let ghost added = to_add@;
        let ghost removed = to_remove@;
        // Check every removal before changing anything.
        let mut i: usize = 0;
        while i < to_remove.len()
            invariant
                self.wf(),
                dom == self.enrollment_modules@.dom(),
                added == to_add@,
                removed == to_remove@,
                i <= to_remove.len(),
                forall|k: int| 0 <= k < i ==> !removal_fails(dom, added, removed, k),
            decreases to_remove.len() - i,
        {
            let a = &to_remove[i];
            let present = self.enrollment_modules.contains(a) || list_contains(to_add, a);
            let mut earlier = false;
            let mut k: usize = 0;
            while k < i
                invariant
                    i < to_remove.len(),
                    k <= i,
                    removed == to_remove@,
                    *a == removed[i as int],
                    earlier == listed(removed.take(k as int), a@),
                decreases i - k,
            {
                if to_remove[k] == *a {
                    earlier = true;
                }
                k = k + 1;
                proof {
                    assert forall|b: Seq<char>| #[trigger] listed(removed.take(k as int), b) == (listed(removed.take(k - 1), b) || b == removed[k - 1]@) by {
                        if listed(removed.take(k as int), b) {
                            let x = choose|x: int| 0 <= x < k && #[trigger] removed.take(k as int)[x]@ == b;
                            if x < k - 1 {
                                assert(removed.take(k - 1)[x]@ == b);
                            }
                        }
                        if listed(removed.take(k - 1), b) {
                            let x = choose|x: int| 0 <= x < k - 1 && #[trigger] removed.take(k - 1)[x]@ == b;
                            assert(removed.take(k as int)[x]@ == b);
                        }
                        if b == removed[k - 1]@ {
                            assert(removed.take(k as int)[k - 1]@ == b);
                        }
                    }
                }
            }
            if !present || earlier {
                assert(removal_fails(dom, added, removed, i as int));
                return Err(CoreError::EnrollmentModuleNotRegistered { addr: to_remove[i].clone() });
            }
            i = i + 1;
        }
        let ghost settings = (
            self.tax,
            self.rating_period,
            self.categories,
            self.categories_count,
            self.rulesets,
            self.rulesets_count,
            self.keys,
            self.competition_modules,
        );
        // Add.
        let mut i: usize = 0;
        while i < to_add.len()
            invariant
                i <= to_add.len(),
                added == to_add@,
                (
                    self.tax,
                    self.rating_period,
                    self.categories,
                    self.categories_count,
                    self.rulesets,
                    self.rulesets_count,
                    self.keys,
                    self.competition_modules,
                ) == settings,
                self.enrollment_modules.wf(),
                self.enrollment_modules@.dom() == Set::new(|a: Seq<char>| dom.contains(a) || listed(added.take(i as int), a)),
            decreases to_add.len() - i,
        {
            self.enrollment_modules.insert(to_add[i].clone(), ());
            i = i + 1;
            proof {
                assert forall|b: Seq<char>| #[trigger] listed(added.take(i as int), b) == (listed(added.take(i - 1), b) || b == added[i - 1]@) by {
                    if listed(added.take(i as int), b) {
                        let x = choose|x: int| 0 <= x < i && #[trigger] added.take(i as int)[x]@ == b;
                        if x < i - 1 {
                            assert(added.take(i - 1)[x]@ == b);
                        }
                    }
                    if listed(added.take(i - 1), b) {
                        let x = choose|x: int| 0 <= x < i - 1 && #[trigger] added.take(i - 1)[x]@ == b;
                        assert(added.take(i as int)[x]@ == b);
                    }
                    if b == added[i - 1]@ {
                        assert(added.take(i as int)[i - 1]@ == b);
                    }
                }
                assert(self.enrollment_modules@.dom() =~= Set::new(|a: Seq<char>| dom.contains(a) || listed(added.take(i as int), a)));
            }
        }
        assert(added.take(to_add.len() as int) =~= added);
        // Remove.
        let mut i: usize = 0;
        while i < to_remove.len()
            invariant
                i <= to_remove.len(),
                added == to_add@,
                removed == to_remove@,
                (
                    self.tax,
                    self.rating_period,
                    self.categories,
                    self.categories_count,
                    self.rulesets,
                    self.rulesets_count,
                    self.keys,
                    self.competition_modules,
                ) == settings,
                self.enrollment_modules.wf(),
                self.enrollment_modules@.dom() == Set::new(|a: Seq<char>| (dom.contains(a) || listed(added, a)) && !listed(removed.take(i as int), a)),
            decreases to_remove.len() - i,
        {
            self.enrollment_modules.remove(&to_remove[i]);
            i = i + 1;
            proof {
                assert forall|b: Seq<char>| #[trigger] listed(removed.take(i as int), b) == (listed(removed.take(i - 1), b) || b == removed[i - 1]@) by {
                    if listed(removed.take(i as int), b) {
                        let x = choose|x: int| 0 <= x < i && #[trigger] removed.take(i as int)[x]@ == b;
                        if x < i - 1 {
                            assert(removed.take(i - 1)[x]@ == b);
                        }
                    }
                    if listed(removed.take(i - 1), b) {
                        let x = choose|x: int| 0 <= x < i - 1 && #[trigger] removed.take(i - 1)[x]@ == b;
                        assert(removed.take(i as int)[x]@ == b);
                    }
                    if b == removed[i - 1]@ {
                        assert(removed.take(i as int)[i - 1]@ == b);
                    }
                }
                assert(self.enrollment_modules@.dom() =~= Set::new(|a: Seq<char>| (dom.contains(a) || listed(added, a)) && !listed(removed.take(i as int), a)));
            }
        }
        assert(removed.take(to_remove.len() as int) =~= removed);
        Ok(())
    }

    /// Whether `addr` may create competitions through the enrollment flow.
    pub fn is_valid_enrollment_module(&self, addr: &String) -> (b: bool)
        requires
            self.wf(),
        ensures
            b == self.enrollment_modules@.contains_key(addr@),
    {
        self.enrollment_modules.contains(addr)
    }

    /// Decides whether `who` may submit a proposal. The denylist overrides
    /// every other setting: a denied sender is refused. Otherwise anyone may
    /// submit under `Anyone`; under `Specific` an allowed sender may, and,
    /// when only DAO members may submit, any other sender must be an active
    /// competition module.
    pub fn check_can_submit(&self, policy: &SubmissionPolicy, who: &String) -> (r: Result<(), CoreError>)
        requires
            self.wf(),
        ensures
            r is Ok <==> can_submit_spec(*policy, who@, self.is_active_module(who@)),
            r is Err ==> r == Err::<(), CoreError>(CoreError::Unauthorized),
    {
        match policy {
            SubmissionPolicy::Anyone { denylist } => {
                if list_contains(denylist, who) {
                    return Err(CoreError::Unauthorized);
                }
                Ok(())
            },
            SubmissionPolicy::Specific { dao_members, allowlist, denylist } => {
                if list_contains(denylist, who) {
                    return Err(CoreError::Unauthorized);
                }
                if list_contains(allowlist, who) {
                    return Ok(());
                }
                if *dao_members {
                    return self.ensure_active_competition_module(who);
                }
                Ok(())
            },
        }
    }

    /// Sets the tax, which must stay below one whole.
    pub fn update_tax(&mut self, tax: Decimal) -> (r: Result<(), CoreError>)
        requires
            old(self).wf(),
        ensures
            final(self).wf(),
            tax.atomics >= DECIMAL_FRACTIONAL ==> r == Err::<(), CoreError>(CoreError::TaxTooHigh)
                && *final(self) == *old(self),
            tax.atomics < DECIMAL_FRACTIONAL ==> r is Ok && *final(self) == (ArenaCore { tax: tax, ..*old(self) }),
    {
        validate_tax(tax)?;
        self.tax = tax;
        Ok(())
    }

    /// Sets the rating period, which must not be zero.
    pub fn update_rating_period(&mut self, period: Duration) -> (r: Result<(), CoreError>)
        requires
            old(self).wf(),
        ensures
            final(self).wf(),
            duration_value(period) == 0 ==> r == Err::<(), CoreError>(CoreError::ZeroRatingPeriod)
                && *final(self) == *old(self),
            duration_value(period) != 0 ==> r is Ok && *final(self) == (ArenaCore { rating_period: period, ..*old(self) }),
    {
        validate_rating_period(&period)?;
        self.rating_period = period;
        Ok(())
    }

    /// Checks a rating adjustment: the sender must be an active competition
    /// module, and then each pair, in order, must be valid.
    pub fn validate_rating_adjustment(&self, sender: &String, pairs: &Vec<(MemberResult, MemberResult)>) -> (r: Result<
        (),
        CoreError,
    >)
        requires
            self.wf(),
        ensures
            !self.is_active_module(sender@) ==> r == Err::<(), CoreError>(CoreError::Unauthorized),
            self.is_active_module(sender@) ==> match r {
                Ok(()) => forall|k: int| 0 <= k < pairs.len() ==> #[trigger] rating_pair_check(pairs@[k].0, pairs@[k].1) is None,
                Err(e) => exists|j: int|
                    0 <= j < pairs.len() && rating_pair_check(pairs@[j].0, pairs@[j].1) == Some(e) && forall|k: int|
                        0 <= k < j ==> #[trigger] rating_pair_check(pairs@[k].0, pairs@[k].1) is None,
            },
    {
        self.ensure_active_competition_module(sender)?;
        let mut i: usize = 0;
        while i < pairs.len()
            invariant
                i <= pairs.len(),
                self.is_active_module(sender@),
                forall|k: int| 0 <= k < i ==> #[trigger] rating_pair_check(pairs@[k].0, pairs@[k].1) is None,
            decreases pairs.len() - i,
        {
            let (a, b) = &pairs[i];
            match validate_rating_pair(a, b) {
                Ok(()) => {},
                Err(e) => {
                    return Err(e);
                },
            }
            i = i + 1;
        }
        Ok(())
    }

    /// Whether the category exists and every listed ruleset exists, is
    /// enabled and belongs to it.
    pub fn is_valid_category_and_rulesets(&self, category_id: u128, rulesets: &Vec<u128>) -> (b: bool)
        requires
            self.wf(),
        ensures
            b == (self.categories@.contains_key(category_id) && forall|k: int|
                0 <= k < rulesets.len() ==> {
                    let r = #[trigger] rulesets@[k];
                    self.rulesets@.contains_key(r) && self.rulesets@[r].is_enabled && self.rulesets@[r].category_id
                        == category_id
                }),
    {
        if !self.categories.contains(category_id) {
            return false;
        }
        let mut i: usize = 0;
        while i < rulesets.len()
            invariant
                self.wf(),
                i <= rulesets.len(),
                forall|k: int|
                    0 <= k < i ==> {
                        let r = #[trigger] rulesets@[k];
                        self.rulesets@.contains_key(r) && self.rulesets@[r].is_enabled && self.rulesets@[r].category_id
                            == category_id
                    },
            decreases rulesets.len() - i,
        {
            match self.rulesets.get(rulesets[i]) {
                Some(r) => {
                    if !r.is_enabled || r.category_id != category_id {
                        return false;
                    }
                },
                None => {
                    return false;
                },
            }
            i = i + 1;
        }
        true
    }

    /// The category under `id`, if any.
    pub fn category(&self, id: u128) -> (r: Option<&CompetitionCategory>)
        requires
            self.wf(),
        ensures
            match r {
                Some(c) => self.categories@.contains_key(id) && *c == self.categories@[id],
                None => !self.categories@.contains_key(id),
            },
    {
        self.categories.get(id)
    }

    /// The ruleset under `id`, if any.
    pub fn ruleset(&self, id: u128) -> (r: Option<&Ruleset>)
        requires
            self.wf(),
        ensures
            match r {
                Some(x) => self.rulesets@.contains_key(id) && *x == self.rulesets@[id],
                None => !self.rulesets@.contains_key(id),
            },
    {
        self.rulesets.get(id)
    }

    /// Sets up the arena core as its instantiation does: the tax, then the
    /// categories, then the rulesets, then the rating period, each checked as
    /// its own update is. Categories and rulesets get ids from one upwards.
    pub fn instantiate(tax: Decimal, categories: Vec<String>, rulesets: Vec<NewRuleset>, rating_period: Duration) -> (r:
        Result<ArenaCore, CoreError>)
        ensures
            match r {
                Ok(core) => {
                    &&& core.wf()
                    &&& tax.atomics < DECIMAL_FRACTIONAL
                    &&& forall|k: int|
                        0 <= k < rulesets.len() ==> add_failure(
                            first_ids(categories.len() as nat),
                            0,
                            rulesets@,
                            k,
                        ) is None
                    &&& duration_value(rating_period) != 0
                    &&& core.tax == tax
                    &&& core.rating_period == rating_period
                    &&& core.categories_count == categories.len()
                    &&& core.categories@ == with_new_categories(Map::empty(), 0, categories@)
                    &&& core.rulesets_count == rulesets.len()
                    &&& core.rulesets@ == with_new_rulesets(Map::empty(), 0, rulesets@)
                    &&& core.competition_modules@ == Map::<Seq<char>, CompetitionModule>::empty()
                    &&& core.keys@ == Map::<Seq<char>, String>::empty()
                    &&& core.enrollment_modules@ == Map::<Seq<char>, ()>::empty()
                },
                Err(e) => {
                    ||| tax.atomics >= DECIMAL_FRACTIONAL && e == CoreError::TaxTooHigh
                    ||| tax.atomics < DECIMAL_FRACTIONAL && exists|j: int|
                        0 <= j < rulesets.len() && add_failure(
                            first_ids(categories.len() as nat),
                            0,
                            rulesets@,
                            j,
                        ) == Some(e) && forall|k: int|
                            0 <= k < j ==> add_failure(
                                first_ids(categories.len() as nat),
                                0,
                                rulesets@,
                                k,
                            ) is None
                    ||| tax.atomics < DECIMAL_FRACTIONAL && (forall|k: int|
                        0 <= k < rulesets.len() ==> add_failure(
                            first_ids(categories.len() as nat),
                            0,
                            rulesets@,
                            k,
                        ) is None) && duration_value(rating_period) == 0 && e == CoreError::ZeroRatingPeriod
                },
            },
    {
        let mut core = ArenaCore {
            tax: Decimal::zero(),
            rating_period,
            categories: IdMap::new(),
            categories_count: 0,
            rulesets: IdMap::new(),
            rulesets_count: 0,
            competition_modules: StrMap::new(),
            keys: StrMap::new(),
            enrollment_modules: StrMap::new(),
        };
        assert(categories_wf(core.categories@, 0));
        assert(rulesets_wf(core.rulesets@, 0, core.categories@.dom()));
        core.update_tax(tax)?;
        let ghost names = categories@;
        let ghost adds = rulesets@;
        let ghost n = categories.len();
        match core.update_categories(categories, Vec::new()) {
            Ok(_) => {},
            Err(e) => {
                assert(all_present(Map::<u128, CompetitionCategory>::empty().dom(), Seq::<EditCompetitionCategory>::empty().map_values(|e| edit_target(e))));
                return Err(e);
            },
        }
        assert(apply_edits(Map::<u128, CompetitionCategory>::empty(), Seq::empty()) == Map::<u128, CompetitionCategory>::empty());
        assert(core.categories@.dom() =~= first_ids(n as nat));
        core.update_rulesets(rulesets, &Vec::new())?;
        assert(disable_rulesets(Map::<u128, Ruleset>::empty(), Seq::empty()) =~= Map::<u128, Ruleset>::empty());
        core.update_rating_period(rating_period)?;
        Ok(core)
    }

    /// A page of categories in ascending id order: those after `start_after`,
    /// only enabled ones unless disabled ones are included, at most the page
    /// limit of `limit`.
    pub fn categories_page(&self, start_after: Option<u128>, limit: Option<u32>, include_disabled: Option<bool>) -> (r: Vec<
        &CompetitionCategory,
    >)
        requires
            self.wf(),
        ensures
            r@.map_values(|c: &CompetitionCategory| *c) == truncated(
                category_page(
                    self.categories.entries@,
                    start_after,
                    match include_disabled {
                        Some(b) => b,
                        None => false,
                    },
                ),
                page_limit_spec(limit) as nat,
            ),
    {
        let n = page_limit(limit);
        let with_disabled = match include_disabled {
            Some(b) => b,
            None => false,
        };
        let ghost s = self.categories.entries@;
        let mut out: Vec<&CompetitionCategory> = Vec::new();
        let mut i: usize = 0;
        while i < self.categories.entries.len()
            invariant
                s == self.categories.entries@,
                i <= s.len(),
                n == page_limit_spec(limit),
                out@.map_values(|c: &CompetitionCategory| *c) == truncated(category_page(s.take(i as int), start_after, with_disabled), n as nat),
            decreases s.len() - i,
        {
            let e = &self.categories.entries[i];
            let keep = match start_after {
                Some(a) => e.0 > a,
                None => true,
            } && (with_disabled || e.1.is_enabled);
            let ghost p = category_page(s.take(i as int), start_after, with_disabled);
            assert(s.take(i + 1).drop_last() =~= s.take(i as int));
            assert(s.take(i + 1).last() == s[i as int]);
            proof {
                lemma_truncated_push(p, e.1, n as nat);
            }
            if keep && out.len() < n as usize {
                out.push(&e.1);
            }
            i = i + 1;
            assert(out@.map_values(|c: &CompetitionCategory| *c) =~= truncated(category_page(s.take(i as int), start_after, with_disabled), n as nat));
        }
        assert(s.take(s.len() as int) =~= s);
        out
    }

    /// A page of the rulesets of a category: the enabled ones after
    /// `start_after` in ascending id order, followed, when disabled ones are
    /// included, by the disabled ones; at most the page limit of `limit`.
    pub fn rulesets_page(
        &self,
        category_id: u128,
        start_after: Option<u128>,
        limit: Option<u32>,
        include_disabled: Option<bool>,
    ) -> (r: Vec<&Ruleset>)
        requires
            self.wf(),
        ensures
            r@.map_values(|x: &Ruleset| *x) == truncated(
                if match include_disabled {
                    Some(b) => b,
                    None => false,
                } {
                    ruleset_page(self.rulesets.entries@, category_id, start_after, true) + ruleset_page(
                        self.rulesets.entries@,
                        category_id,
                        start_after,
                        false,
                    )
                } else {
                    ruleset_page(self.rulesets.entries@, category_id, start_after, true)
                },
                page_limit_spec(limit) as nat,
            ),
    {
        let n = page_limit(limit);
        let with_disabled = match include_disabled {
            Some(b) => b,
            None => false,
        };
        let ghost s = self.rulesets.entries@;
        let mut out: Vec<&Ruleset> = Vec::new();
        let mut i: usize = 0;
        while i < self.rulesets.entries.len()
            invariant
                s == self.rulesets.entries@,
                i <= s.len(),
                n == page_limit_spec(limit),
                out@.map_values(|x: &Ruleset| *x) == truncated(ruleset_page(s.take(i as int), category_id, start_after, true), n as nat),
            decreases s.len() - i,
        {
            let e = &self.rulesets.entries[i];
            let keep = e.1.category_id == category_id && match start_after {
                Some(a) => e.0 > a,
                None => true,
            } && e.1.is_enabled;
            let ghost p = ruleset_page(s.take(i as int), category_id, start_after, true);
            assert(s.take(i + 1).drop_last() =~= s.take(i as int));
            assert(s.take(i + 1).last() == s[i as int]);
            proof {
                lemma_truncated_push(p, e.1, n as nat);
            }
            if keep && out.len() < n as usize {
                out.push(&e.1);
            }
            i = i + 1;
            assert(out@.map_values(|x: &Ruleset| *x) =~= truncated(ruleset_page(s.take(i as int), category_id, start_after, true), n as nat));
        }
        assert(s.take(s.len() as int) =~= s);
        if !with_disabled {
            return out;
        }
        let ghost enabled = ruleset_page(s, category_id, start_after, true);
        let mut i: usize = 0;
        while i < self.rulesets.entries.len()
            invariant
                s == self.rulesets.entries@,
                i <= s.len(),
                n == page_limit_spec(limit),
                enabled == ruleset_page(s, category_id, start_after, true),
                out@.map_values(|x: &Ruleset| *x) == truncated(enabled + ruleset_page(s.take(i as int), category_id, start_after, false), n as nat),
            decreases s.len() - i,
        {
            let e = &self.rulesets.entries[i];
            let keep = e.1.category_id == category_id && match start_after {
                Some(a) => e.0 > a,
                None => true,
            } && !e.1.is_enabled;
            let ghost p = ruleset_page(s.take(i as int), category_id, start_after, false);
            assert(s.take(i + 1).drop_last() =~= s.take(i as int));
            assert(s.take(i + 1).last() == s[i as int]);
            proof {
                lemma_truncated_push(enabled + p, e.1, n as nat);
                assert((enabled + p).push(e.1) =~= enabled + p.push(e.1));
            }
            if keep && out.len() < n as usize {
                out.push(&e.1);
            }
            i = i + 1;
            assert(out@.map_values(|x: &Ruleset| *x) =~= truncated(enabled + ruleset_page(s.take(i as int), category_id, start_after, false), n as nat));
        }
        assert(s.take(s.len() as int) =~= s);
        out
    }

    /// A page of competition modules: with disabled ones included, the
    /// modules after `start_after` in ascending address order; otherwise the
    /// enabled modules after `start_after` in descending address order. At
    /// most the page limit of `limit`.
    pub fn competition_modules_page(&self, start_after: Option<&String>, limit: Option<u32>, include_disabled: Option<bool>) -> (r:
        Vec<&CompetitionModule>)
        requires
            self.wf(),
        ensures
            is_ordered_page(
                module_candidates(
                    self.competition_modules@,
                    match start_after {
                        Some(s) => Some(s@),
                        None => None,
                    },
                    match include_disabled {
                        Some(b) => b,
                        None => false,
                    },
                ),
                match include_disabled {
                    Some(b) => b,
                    None => false,
                },
                page_limit_spec(limit) as nat,
                r@.map_values(|m: &CompetitionModule| m.addr@),
            ),
            forall|i: int| #![trigger r@[i]]
                0 <= i < r.len() ==> self.competition_modules@.contains_key(r@[i].addr@) && *r@[i]
                    == self.competition_modules@[r@[i].addr@],
    {
        let n = page_limit(limit) as usize;
        let with_disabled = match include_disabled {
            Some(b) => b,
            None => false,
        };
        let ghost start = match start_after {
            Some(s) => Some(s@),
            None => None::<Seq<char>>,
        };
        let ghost cands = module_candidates(self.competition_modules@, start, with_disabled);
        let ghost es = self.competition_modules.entries@;
        // The candidates, sorted.
        let mut sorted: Vec<String> = Vec::new();
        let mut i: usize = 0;
        while i < self.competition_modules.entries.len()
            invariant
                self.wf(),
                es == self.competition_modules.entries@,
                i <= es.len(),
                start == match start_after {
                    Some(s) => Some(s@),
                    None => None::<Seq<char>>,
                },
                cands == module_candidates(self.competition_modules@, start, with_disabled),
                strictly_ascending(sorted@),
                forall|a: Seq<char>| #[trigger]
                    has_view(sorted@, a) == (cands.contains(a) && exists|j: int| 0 <= j < i && #[trigger] es[j].0@ == a),
            decreases es.len() - i,
        {
            let e = &self.competition_modules.entries[i];
            proof {
                lemma_str_entry(es, i as int);
            }
            let keep = match start_after {
                Some(s) => str_less(s, &e.0),
                None => true,
            } && (with_disabled || e.1.is_enabled);
            assert(keep == cands.contains(es[i as int].0@));
            let ghost before = sorted@;
            if keep {
                insert_sorted(&mut sorted, e.0.clone());
            }
            proof {
                assert forall|a: Seq<char>| #[trigger]
                    has_view(sorted@, a) == (cands.contains(a) && exists|j: int| 0 <= j < i + 1 && #[trigger] es[j].0@ == a) by {
                    if exists|j: int| 0 <= j < i + 1 && #[trigger] es[j].0@ == a {
                        let j = choose|j: int| 0 <= j < i + 1 && #[trigger] es[j].0@ == a;
                        if j < i {
                            assert(exists|j2: int| 0 <= j2 < i && #[trigger] es[j2].0@ == a);
                        }
                    }
                    if exists|j: int| 0 <= j < i && #[trigger] es[j].0@ == a {
                        let j = choose|j: int| 0 <= j < i && #[trigger] es[j].0@ == a;
                        assert(es[j].0@ == a);
                    }
                    if a == es[i as int].0@ {
                        assert(es[i as int].0@ == a);
                    }
                }
            }
            i = i + 1;
        }
        let ghost t = sorted@;
        assert forall|a: Seq<char>| #[trigger] has_view(t, a) == cands.contains(a) by {
            if cands.contains(a) {
                let j = choose|j: int| 0 <= j < es.len() && es[j].0@ == a;
                assert(es[j].0@ == a);
            }
        }
        // The first `n` in the asked order.
        let mut out: Vec<&CompetitionModule> = Vec::new();
        let mut k: usize = 0;
        let count = if n < sorted.len() {
            n
        } else {
            sorted.len()
        };
        while k < count
            invariant
                self.wf(),
                t == sorted@,
                strictly_ascending(t),
                forall|a: Seq<char>| #[trigger] has_view(t, a) == cands.contains(a),
                cands == module_candidates(self.competition_modules@, start, with_disabled),
                count <= t.len(),
                count <= n,
                k <= count,
                out@.len() == k,
                forall|x: int| #![trigger out@[x]]
                    0 <= x < k ==> out@[x].addr@ == (if with_disabled {
                        t[x]@
                    } else {
                        t[t.len() - 1 - x]@
                    }) && self.competition_modules@.contains_key(out@[x].addr@) && *out@[x]
                        == self.competition_modules@[out@[x].addr@],
            decreases count - k,
        {
            let idx = if with_disabled {
                k
            } else {
                sorted.len() - 1 - k
            };
            proof {
                assert(has_view(t, t[idx as int]@));
            }
            let j = self.competition_modules.find(&sorted[idx]).unwrap();
            proof {
                lemma_str_entry(self.competition_modules.entries@, j as int);
            }
            let ghost before = out@;
            out.push(&self.competition_modules.entries[j].1);
            proof {
                assert forall|x: int| #![trigger out@[x]]
                    0 <= x < k + 1 implies out@[x].addr@ == (if with_disabled {
                        t[x]@
                    } else {
                        t[t.len() - 1 - x]@
                    }) && self.competition_modules@.contains_key(out@[x].addr@) && *out@[x]
                        == self.competition_modules@[out@[x].addr@] by {
                    if x < k {
                        assert(out@[x] == before[x]);
                    }
                }
            }
            k = k + 1;
        }
        proof {
            let page = out@.map_values(|m: &CompetitionModule| m.addr@);
            assert forall|x: int| 0 <= x < page.len() implies page[x] == (if with_disabled {
                t[x]@
            } else {
                t[t.len() - 1 - x]@
            }) by {
                assert(page[x] == out@[x].addr@);
            }
            assert forall|x: int, y: int| 0 <= x < y < page.len() implies if with_disabled {
                str_lt(#[trigger] page[x], #[trigger] page[y])
            } else {
                str_lt(page[y], page[x])
            } by {
                assert(page[x] == (if with_disabled { t[x]@ } else { t[t.len() - 1 - x]@ }));
                assert(page[y] == (if with_disabled { t[y]@ } else { t[t.len() - 1 - y]@ }));
            }
            assert forall|x: int| 0 <= x < page.len() implies cands.contains(#[trigger] page[x]) by {
                assert(page[x] == (if with_disabled { t[x]@ } else { t[t.len() - 1 - x]@ }));
                if with_disabled {
                    assert(has_view(t, t[x]@));
                } else {
                    assert(has_view(t, t[t.len() - 1 - x]@));
                }
            }
            assert forall|a: Seq<char>| #[trigger] cands.contains(a) && !page.contains(a) implies page.len() == n && (
            page.len() > 0 ==> if with_disabled {
                str_lt(page[page.len() - 1], a)
            } else {
                str_lt(a, page[page.len() - 1])
            }) by {
                assert(has_view(t, a));
                let p = choose|p: int| 0 <= p < t.len() && #[trigger] t[p]@ == a;
                if with_disabled {
                    if p < count {
                        assert(page[p] == t[p]@);
                        assert(page.contains(a));
                    }
                    assert(count < t.len() || p >= count);
                    assert(count == n);
                    if count > 0 {
                        assert(page[count - 1] == t[count - 1]@);
                    }
                } else {
                    let q = t.len() - 1 - p;
                    if q < count {
                        assert(page[q] == t[t.len() - 1 - q]@);
                        assert(page.contains(a));
                    }
                    assert(count == n);
                    if count > 0 {
                        assert(page[count - 1] == t[t.len() - 1 - (count - 1)]@);
                        assert(t.len() - 1 - (count - 1) > p);
                    }
                }
            }
        }
        out
    }
}


/// The reply id of a competition module's instantiation.
pub const COMPETITION_MODULE_REPLY_ID: u64 = 1;

/// The value of the first attribute named `key`.
pub open spec fn first_value(attrs: Seq<Attribute>, key: Seq<char>) -> Option<Seq<char>>
    decreases attrs.len(),
{
    if attrs.len() == 0 {
        None
    } else if attrs[0].key@ == key {
        Some(attrs[0].value@)
    } else {
        first_value(attrs.drop_first(), key)
    }
}

/// The value of the first attribute named `key` in the first event that has
/// one.
pub open spec fn first_event_value(events: Seq<Event>, key: Seq<char>) -> Option<Seq<char>>
    decreases events.len(),
{
    if events.len() == 0 {
        None
    } else {
        match first_value(events[0].attributes@, key) {
            Some(v) => Some(v),
            None => first_event_value(events.drop_first(), key),
        }
    }
}

/// What an instantiation response holds: the new contract's address and its
/// data, if the bytes are one.
pub uninterp spec fn instantiate_response_of(data: Seq<u8>) -> Option<(Seq<char>, Option<Seq<u8>>)>;

/// `cw_utils::parse_instantiate_response_data`: the address and data that
/// the bytes of an instantiation response encode, when they encode one.
#[verifier::external_body]
pub(crate) fn parse_instantiate_response(data: &Vec<u8>) -> (r: Option<(String, Option<Vec<u8>>)>)
    ensures
        match r {
            Some((addr, d)) => instantiate_response_of(data@) == Some(
                (
                    addr@,
                    match d {
                        Some(v) => Some(v@),
                        None => None,
                    },
                ),
            ),
            None => instantiate_response_of(data@) is None,
        },
{
    match cw_utils::parse_instantiate_response_data(data.as_slice()) {
        Ok(m) => Some((m.contract_address, m.data.map(|b| b.to_vec()))),
        Err(_) => None,
    }
}

/// The value of the first attribute of `attrs` named `key`.
fn find_value(attrs: &Vec<Attribute>, key: &String) -> (r: Option<String>)
    ensures
        match r {
            Some(v) => first_value(attrs@, key@) == Some(v@),
            None => first_value(attrs@, key@) is None,
        },
{
    let mut j: usize = 0;
    proof {
        assert(attrs@.skip(0) =~= attrs@);
    }
    while j < attrs.len()
        invariant
            j <= attrs@.len(),
            first_value(attrs@, key@) == first_value(attrs@.skip(j as int), key@),
        decreases attrs@.len() - j,
    {
        proof {
            assert(attrs@.skip(j as int)[0] == attrs@[j as int]);
            assert(attrs@.skip(j as int).drop_first() =~= attrs@.skip(j + 1));
        }
        if attrs[j].key == *key {
            return Some(attrs[j].value.clone());
        }
        j = j + 1;
    }
    proof {
        assert(attrs@.skip(j as int).len() == 0);
    }
    None
}

/// The value of the first attribute named `key` in the first event of
/// `events` that has one.
fn find_event_value(events: &Vec<Event>, key: &String) -> (r: Option<String>)
    ensures
        match r {
            Some(v) => first_event_value(events@, key@) == Some(v@),
            None => first_event_value(events@, key@) is None,
        },
{
    let mut i: usize = 0;
    proof {
        assert(events@.skip(0) =~= events@);
    }
    while i < events.len()
        invariant
            i <= events@.len(),
            first_event_value(events@, key@) == first_event_value(events@.skip(i as int), key@),
        decreases events@.len() - i,
    {
        proof {
            assert(events@.skip(i as int)[0] == events@[i as int]);
            assert(events@.skip(i as int).drop_first() =~= events@.skip(i + 1));
        }
        match find_value(&events[i].attributes, key) {
            Some(v) => return Some(v),
            None => {},
        }
        i = i + 1;
    }
    proof {
        assert(events@.skip(i as int).len() == 0);
    }
    None
}

/// A competition module that reported its instantiation: its key, its
/// address and the data it returned (which may hold callback messages).
#[derive(Debug)]
pub struct ModuleReply {
    pub key: String,
    pub addr: String,
    pub data: Option<Vec<u8>>,
}

/// Reads the reply to a competition module's instantiation (`result` holds
/// the events and the response data on success, the error otherwise): the
/// module's address and data from the instantiation response, and the value
/// of the first `key` attribute of the events.
pub fn read_module_reply(id: u64, result: &Result<(Vec<Event>, Option<Vec<u8>>), String>) -> (r: Result<ModuleReply, CoreError>)
    ensures
        id != COMPETITION_MODULE_REPLY_ID ==> r == Err::<ModuleReply, CoreError>(CoreError::UnknownReplyId { id }),
        id == COMPETITION_MODULE_REPLY_ID ==> match *result {
            Err(e) => r == Err::<ModuleReply, CoreError>(CoreError::ReplyFailed { error: e }),
            Ok((events, data)) => match data {
                None => r == Err::<ModuleReply, CoreError>(CoreError::MissingReplyData),
                Some(d) => match instantiate_response_of(d@) {
                    None => r == Err::<ModuleReply, CoreError>(CoreError::InvalidReplyData),
                    Some((addr, callback)) => match first_event_value(events@, "key"@) {
                        None => r == Err::<ModuleReply, CoreError>(CoreError::MissingModuleKey),
                        Some(k) => r matches Ok(m) && m.key@ == k && m.addr@ == addr && match m.data {
                            Some(v) => callback == Some(v@),
                            None => callback is None,
                        },
                    },
                },
            },
        },
{
    if id != COMPETITION_MODULE_REPLY_ID {
        return Err(CoreError::UnknownReplyId { id });
    }
    match result {
        Err(e) => Err(CoreError::ReplyFailed { error: e.clone() }),
        Ok((events, data)) => match data {
            None => Err(CoreError::MissingReplyData),
            Some(d) => match parse_instantiate_response(d) {
                None => Err(CoreError::InvalidReplyData),
                Some((addr, callback)) => {
                    let key_name = String::from_str("key");
                    match find_event_value(events, &key_name) {
                        None => Err(CoreError::MissingModuleKey),
                        Some(key) => Ok(ModuleReply { key, addr, data: callback }),
                    }
                },
            },
        },
    }
}


/// The messages that a fee to the arena carries with cw20 and cw721
/// transfers.
#[derive(Debug)]
pub struct TaxConfiguration {
    pub cw20_msg: Option<Vec<u8>>,
    pub cw721_msg: Option<Vec<u8>>,
}

/// An update the arena core sends itself while it is set up.
#[derive(Debug)]
pub enum SetupAction {
    UpdateTax { tax: Decimal },
    UpdateCategories { to_add: Vec<String> },
    UpdateRulesets { to_add: Vec<NewRuleset> },
    UpdateRatingPeriod { period: Duration },
    /// Instantiate the competition modules given with the setup.
    UpdateCompetitionModules,
    SetPaymentRegistry { addr: String },
}

/// An item that the DAO is asked to set.
#[derive(Debug)]
pub struct SetItem {
    pub dao: String,
    pub key: String,
    pub value: String,
}

/// How the arena core is set up: the updates it sends itself, in order, the
/// tax configuration it saves, and the callback that has its DAO record it.
#[derive(Debug)]
pub struct ArenaSetup {
    pub actions: Vec<SetupAction>,
    pub tax_configuration: TaxConfiguration,
    pub callback: SetItem,
}

/// The updates of a setup, in order: the tax, the categories when given, the
/// rulesets when given, the rating period, the competition modules when
/// given, and the payment registry when given.
pub open spec fn setup_actions(
    tax: Decimal,
    categories: Option<Vec<String>>,
    rulesets: Option<Vec<NewRuleset>>,
    rating_period: Duration,
    with_modules: bool,
    payment_registry: Option<String>,
) -> Seq<SetupAction> {
    seq![SetupAction::UpdateTax { tax }] + match categories {
        Some(c) => seq![SetupAction::UpdateCategories { to_add: c }],
        None => Seq::empty(),
    } + match rulesets {
        Some(r) => seq![SetupAction::UpdateRulesets { to_add: r }],
        None => Seq::empty(),
    } + seq![SetupAction::UpdateRatingPeriod { period: rating_period }] + if with_modules {
        seq![SetupAction::UpdateCompetitionModules]
    } else {
        Seq::empty()
    } + match payment_registry {
        Some(a) => seq![SetupAction::SetPaymentRegistry { addr: a }],
        None => Seq::empty(),
    }
}

impl ArenaCore {
    /// The arena core before its setup updates run: no categories,
    /// rulesets or modules, both counts at zero and no tax; the rating period
    /// is the one the setup will set.
    pub fn initial(rating_period: Duration) -> (core: ArenaCore)
        ensures
            core.wf(),
            core.tax.atomics == 0,
            core.rating_period == rating_period,
            core.categories_count == 0,
            core.categories@ == Map::<u128, CompetitionCategory>::empty(),
            core.rulesets_count == 0,
            core.rulesets@ == Map::<u128, Ruleset>::empty(),
            core.competition_modules@ == Map::<Seq<char>, CompetitionModule>::empty(),
            core.keys@ == Map::<Seq<char>, String>::empty(),
            core.enrollment_modules@ == Map::<Seq<char>, ()>::empty(),
    {
        ArenaCore {
            tax: Decimal { atomics: 0 },
            rating_period,
            categories: IdMap::new(),
            categories_count: 0,
            rulesets: IdMap::new(),
            rulesets_count: 0,
            competition_modules: StrMap::new(),
            keys: StrMap::new(),
            enrollment_modules: StrMap::new(),
        }
    }
}

/// The setup of an arena core at `contract` for `dao`: the updates it sends
/// itself (see `setup_actions`), the tax configuration as given, and the
/// callback that has the DAO set its `Arena` item to the core's address.
pub fn instantiate_extension(
    dao: String,
    contract: String,
    tax: Decimal,
    categories: Option<Vec<String>>,
    rulesets: Option<Vec<NewRuleset>>,
    rating_period: Duration,
    with_modules: bool,
    payment_registry: Option<String>,
    tax_configuration: TaxConfiguration,
) -> (s: ArenaSetup)
    ensures
        s.actions@ == setup_actions(tax, categories, rulesets, rating_period, with_modules, payment_registry),
        s.tax_configuration == tax_configuration,
        s.callback.dao == dao,
        s.callback.key@ == ITEM_KEY@,
        s.callback.value == contract,
{
    let ghost (c0, r0, p0) = (categories, rulesets, payment_registry);
    let mut actions: Vec<SetupAction> = Vec::new();
    actions.push(SetupAction::UpdateTax { tax });
    let ghost a1 = actions@;
    match categories {
        Some(c) => actions.push(SetupAction::UpdateCategories { to_add: c }),
        None => {},
    }
    let ghost a2 = actions@;
    match rulesets {
        Some(r) => actions.push(SetupAction::UpdateRulesets { to_add: r }),
        None => {},
    }
    let ghost a3 = actions@;
    actions.push(SetupAction::UpdateRatingPeriod { period: rating_period });
    let ghost a4 = actions@;
    if with_modules {
        actions.push(SetupAction::UpdateCompetitionModules);
    }
    let ghost a5 = actions@;
    match payment_registry {
        Some(a) => actions.push(SetupAction::SetPaymentRegistry { addr: a }),
        None => {},
    }
    proof {
        assert(a1 =~= seq![SetupAction::UpdateTax { tax }]);
        assert(a2 =~= a1 + match c0 {
            Some(c) => seq![SetupAction::UpdateCategories { to_add: c }],
            None => Seq::empty(),
        });
        assert(a3 =~= a2 + match r0 {
            Some(r) => seq![SetupAction::UpdateRulesets { to_add: r }],
            None => Seq::empty(),
        });
        assert(a4 =~= a3 + seq![SetupAction::UpdateRatingPeriod { period: rating_period }]);
        assert(a5 =~= a4 + if with_modules {
            seq![SetupAction::UpdateCompetitionModules]
        } else {
            Seq::empty()
        });
        assert(actions@ =~= a5 + match p0 {
            Some(a) => seq![SetupAction::SetPaymentRegistry { addr: a }],
            None => Seq::empty(),
        });
        assert(actions@ =~= setup_actions(tax, c0, r0, rating_period, with_modules, p0));
    }
    let key = String::from_str(ITEM_KEY);
    ArenaSetup { actions, tax_configuration, callback: SetItem { dao, key, value: contract } }
}

} // verus!
