use vstd::prelude::*;
use vstd::utf8::encode_utf8;
use vstd::arithmetic::power::pow;
use crate::chain::{minus_seconds_spec, one_coin_spec, plus_seconds_spec, must_pay, BlockInfo, Coin, Expiration, PaymentError, Timestamp, NANOS_PER_SECOND};
use crate::math::Decimal;
use crate::distribution::FeeInformation;
use crate::arena_core::{after_start, lemma_truncated_push, page_limit, page_limit_spec, truncated};
use crate::id_map::{id_entries_map, ids_increasing, lemma_id_push_increasing, lemma_id_update_value, IdMap};

verus! {

/// How a tournament eliminates its teams.
#[derive(Debug, Clone, Copy, PartialEq, Eq, Structural)]
pub enum EliminationType {
    SingleElimination { play_third_place_match: bool },
    DoubleElimination,
}

/// The kind of competition an enrollment leads to.
#[derive(Debug)]
pub enum CompetitionType {
    Wager,
    League { match_win_points: u64, match_draw_points: u64, match_lose_points: u64, distribution: Vec<Decimal> },
    Tournament { elimination_type: EliminationType, distribution: Vec<Decimal> },
}

/// The fewest members a competition of this kind can be held with.
pub open spec fn min_min_members_spec(t: CompetitionType) -> int {
    match t {
        CompetitionType::Wager => 2,
        CompetitionType::League { distribution, .. } => if distribution.len() > 2 {
            distribution.len() as int
        } else {
            2
        },
        CompetitionType::Tournament { elimination_type, distribution } => {
            let base: int = match elimination_type {
                EliminationType::SingleElimination { play_third_place_match } => if play_third_place_match {
                    4
                } else {
                    3
                },
                EliminationType::DoubleElimination => 3,
            };
            if distribution.len() > base {
                distribution.len() as int
            } else {
                base
            }
        },
    }
}

/// The fewest members a competition of this kind can be held with: two for
/// a wager; for a league, two or one per prize, whichever is more; for a
/// tournament, three (four with a third-place match) or one per prize,
/// whichever is more.
pub fn get_min_min_members(t: &CompetitionType) -> (n: u64)
    ensures
        n == min_min_members_spec(*t),
        *t is Wager ==> n == 2,
        t matches CompetitionType::League { distribution, .. } ==> n >= 2 && n >= distribution.len() && (n == 2
            || n == distribution.len()),
        t matches CompetitionType::Tournament { elimination_type, distribution } ==> {
            let floor: int = if elimination_type matches EliminationType::SingleElimination {
                play_third_place_match: true,
            } {
                4
            } else {
                3
            };
            n >= distribution.len() && n >= floor && (n == floor || n == distribution.len())
        },
{
    match t {
        CompetitionType::Wager => 2,
        CompetitionType::League { distribution, .. } => {
            if distribution.len() > 2 {
                distribution.len() as u64
            } else {
                2
            }
        },
        CompetitionType::Tournament { elimination_type, distribution } => {
            let base: u64 = match elimination_type {
                EliminationType::SingleElimination { play_third_place_match } => if *play_third_place_match {
                    4
                } else {
                    3
                },
                EliminationType::DoubleElimination => 3,
            };
            if distribution.len() as u64 > base {
                distribution.len() as u64
            } else {
                base
            }
        },
    }
}

/// The number of prize places a competition of this kind hands out (none
/// for a wager).
pub open spec fn prize_places(t: CompetitionType) -> int {
    match t {
        CompetitionType::Wager => 0,
        CompetitionType::League { distribution, .. } => distribution.len() as int,
        CompetitionType::Tournament { distribution, .. } => distribution.len() as int,
    }
}

/// The fewest members a competition can be held with is one per prize
/// place, and never fewer than two; a tournament needs at least three, and
/// four when it plays a third-place match. It is the least number that
/// meets all of these.
pub proof fn law_minimum_members(t: CompetitionType)
    ensures
        min_min_members_spec(t) >= prize_places(t),
        min_min_members_spec(t) >= 2,
        t is Tournament ==> min_min_members_spec(t) >= 3,
        t matches CompetitionType::Tournament {
            elimination_type: EliminationType::SingleElimination { play_third_place_match: true },
            ..
        } ==> min_min_members_spec(t) >= 4,
        min_min_members_spec(t) == prize_places(t) || min_min_members_spec(t) == 2 || (t is Tournament
            && min_min_members_spec(t) == 3) || (t matches CompetitionType::Tournament {
            elimination_type: EliminationType::SingleElimination { play_third_place_match: true },
            ..
        } && min_min_members_spec(t) == 4),
{
}

/// A new enrollment's member limits pass only when its minimum (the one
/// given, or the required one when none is given) allows one member per
/// prize place, and at least two, and the maximum is no smaller than it.
pub proof fn law_limits_cover_prizes(min_members: Option<u64>, max_members: u64, t: CompetitionType)
    ensures
        member_limits_check(min_members, max_members, t) is None ==> match min_members {
            Some(m) => m >= prize_places(t) && m >= 2 && m <= max_members,
            None => max_members >= prize_places(t) && max_members >= 2,
        },
        min_members matches Some(m) && m <= max_members && m < prize_places(t) ==> (member_limits_check(
            min_members,
            max_members,
            t,
        ) matches Some(EnrollmentError::MinBelowRequired { required }) && required >= prize_places(t)),
{
    law_minimum_members(t);
}

/// The name under which the competition module of this kind is registered.
pub open spec fn module_key_spec(t: CompetitionType) -> Seq<char> {
    match t {
        CompetitionType::Wager => "Wagers"@,
        CompetitionType::League { .. } => "Leagues"@,
        CompetitionType::Tournament { .. } => "Tournaments"@,
    }
}

/// The name under which the competition module of this kind is registered.
pub fn module_key(t: &CompetitionType) -> (s: String)
    ensures
        s@ == module_key_spec(*t),
{
    match t {
        CompetitionType::Wager => String::from_str("Wagers"),
        CompetitionType::League { .. } => String::from_str("Leagues"),
        CompetitionType::Tournament { .. } => String::from_str("Tournaments"),
    }
}

/// The moment enrollment closes (`duration_before` seconds before `date`)
/// can be computed without leaving the range of timestamps.
pub open spec fn enrollment_close_fits(date: Timestamp, duration_before: u64) -> bool {
    &&& duration_before * NANOS_PER_SECOND <= u64::MAX
    &&& 0 <= minus_seconds_spec(date, duration_before)
}

/// Enrollment has closed: the block is past `duration_before` seconds before
/// `date`.
pub open spec fn is_enrollment_expired_spec(block: BlockInfo, date: Timestamp, duration_before: u64) -> bool {
    block.time.nanos > minus_seconds_spec(date, duration_before)
}

/// Whether enrollment has closed at `block`.
pub fn is_enrollment_expired(block: &BlockInfo, date: &Timestamp, duration_before: u64) -> (b: bool)
    requires
        enrollment_close_fits(*date, duration_before),
    ensures
        b == is_enrollment_expired_spec(*block, *date, duration_before),
{
    block.time.nanos > date.minus_seconds(duration_before).nanos
}

/// A competition has run its course: the block is at or past `duration`
/// seconds after `date`.
pub open spec fn is_competition_expired_spec(block: BlockInfo, date: Timestamp, duration: u64) -> bool {
    block.time.nanos >= plus_seconds_spec(date, duration)
}

/// Whether a competition starting at `date` and lasting `duration` seconds
/// has run its course at `block`.
pub fn is_competition_expired(block: &BlockInfo, date: &Timestamp, duration: u64) -> (b: bool)
    requires
        plus_seconds_spec(*date, duration) <= u64::MAX,
    ensures
        b == is_competition_expired_spec(*block, *date, duration),
{
    block.time.nanos >= date.plus_seconds(duration).nanos
}

/// How to migrate the enrollment module: as is, by turning off the third
/// place match of one enrollment's single elimination tournament, or by
/// moving the state of version 2.3.
#[derive(Debug, Clone, Copy, PartialEq, Eq, Structural)]
pub enum MigrateMsg {
    FromCompatible,
    RemoveThirdPlaceMatch { enrollment_id: u128 },
    FromV2_3,
}

/// Why an enrollment operation was refused.
#[derive(Debug, Clone, PartialEq, Eq)]
pub enum EnrollmentError {
    Unauthorized,
    AlreadyFinalized,
    /// The competition would already be over.
    CompetitionExpired,
    /// Enrollment would already be closed.
    EnrollmentExpired,
    MinAboveMax,
    /// The minimum is below what the competition kind needs.
    MinBelowRequired { required: u64 },
    /// The maximum is below what the competition kind needs.
    MaxBelowRequired,
    /// The enrollment contract has no owner.
    NoOwner,
    InvalidCategoryAndRulesets,
    ModuleNotFound,
    ModuleDisabled,
    Overflow,
    FinalizeFailed { max_members: u64, current_members: u64 },
    Payment(PaymentError),
    EntryFeeNotPaid { fee: Coin },
    EnrollmentMaxMembers,
    NotTeamMember,
    TeamSizeMismatch { required_team_size: u32 },
    NoMembersToWithdraw,
    MissingCompetitionId,
    /// The competition id in the reply is not a number.
    InvalidCompetitionId,
    /// A reply to a message this contract did not send.
    UnknownReplyId { id: u64 },
    /// No enrollment has this id.
    EnrollmentNotFound { id: u128 },
}

/// Why the member limits of a new enrollment are refused, if they are.
pub open spec fn member_limits_check(min_members: Option<u64>, max_members: u64, t: CompetitionType) -> Option<EnrollmentError> {
    let required = min_min_members_spec(t);
    match min_members {
        Some(min) => if min > max_members {
            Some(EnrollmentError::MinAboveMax)
        } else if min < required {
            Some(EnrollmentError::MinBelowRequired { required: required as u64 })
        } else {
            None
        },
        None => if required > max_members {
            Some(EnrollmentError::MaxBelowRequired)
        } else {
            None
        },
    }
}

/// Checks the dates and member limits of a new enrollment: the competition
/// must not be over, enrollment must still be open (counted, as in the
/// creation of an enrollment, with the competition's duration), a given
/// minimum must lie between the required minimum and the maximum, and without
/// one the maximum must reach the required minimum.
pub fn validate_new_enrollment(
    block: &BlockInfo,
    date: &Timestamp,
    duration: u64,
    min_members: Option<u64>,
    max_members: u64,
    t: &CompetitionType,
) -> (r: Result<(), EnrollmentError>)
    requires
        plus_seconds_spec(*date, duration) <= u64::MAX,
        enrollment_close_fits(*date, duration),
    ensures
        is_competition_expired_spec(*block, *date, duration) ==> r == Err::<(), EnrollmentError>(
            EnrollmentError::CompetitionExpired,
        ),
        !is_competition_expired_spec(*block, *date, duration) && is_enrollment_expired_spec(*block, *date, duration)
            ==> r == Err::<(), EnrollmentError>(EnrollmentError::EnrollmentExpired),
        !is_competition_expired_spec(*block, *date, duration) && !is_enrollment_expired_spec(*block, *date, duration)
            ==> match member_limits_check(min_members, max_members, *t) {
            Some(e) => r == Err::<(), EnrollmentError>(e),
            None => r is Ok,
        },
{
    if is_competition_expired(block, date, duration) {
        return Err(EnrollmentError::CompetitionExpired);
    }
    if is_enrollment_expired(block, date, duration) {
        return Err(EnrollmentError::EnrollmentExpired);
    }
    let required = get_min_min_members(t);
    match min_members {
        Some(min) => {
            if min > max_members {
                return Err(EnrollmentError::MinAboveMax);
            }
            if min < required {
                return Err(EnrollmentError::MinBelowRequired { required });
            }
        },
        None => {
            if required > max_members {
                return Err(EnrollmentError::MaxBelowRequired);
            }
        },
    }
    Ok(())
}

/// A competition module as the arena core reports it.
#[derive(Debug)]
pub struct ModuleInfo {
    pub addr: String,
    pub is_enabled: bool,
}

/// Picks the competition module a new enrollment will use: the enrollment
/// contract needs an owner (the arena core); when a category and rulesets
/// are given, the core must accept them; the module registered for the
/// competition kind must exist and be enabled.
pub fn resolve_competition_module(
    has_owner: bool,
    category_and_rulesets_valid: Option<bool>,
    module: Option<ModuleInfo>,
) -> (r: Result<String, EnrollmentError>)
    ensures
        !has_owner ==> r == Err::<String, EnrollmentError>(EnrollmentError::NoOwner),
        has_owner && category_and_rulesets_valid == Some(false) ==> r == Err::<String, EnrollmentError>(
            EnrollmentError::InvalidCategoryAndRulesets,
        ),
        has_owner && category_and_rulesets_valid != Some(false) ==> match module {
            None => r == Err::<String, EnrollmentError>(EnrollmentError::ModuleNotFound),
            Some(m) => if m.is_enabled {
                r == Ok::<String, EnrollmentError>(m.addr)
            } else {
                r == Err::<String, EnrollmentError>(EnrollmentError::ModuleDisabled)
            },
        },
{
    if !has_owner {
        return Err(EnrollmentError::NoOwner);
    }
    if category_and_rulesets_valid == Some(false) {
        return Err(EnrollmentError::InvalidCategoryAndRulesets);
    }
    match module {
        None => Err(EnrollmentError::ModuleNotFound),
        Some(m) => if m.is_enabled {
            Ok(m.addr)
        } else {
            Err(EnrollmentError::ModuleDisabled)
        },
    }
}

/// The settings of a new enrollment, as its creator gives them.
#[derive(Debug)]
pub struct NewEnrollment {
    pub min_members: Option<u64>,
    pub max_members: u64,
    pub entry_fee: Option<Coin>,
    pub duration_before: u64,
    pub competition_type: CompetitionType,
    pub category_id: Option<u128>,
    pub required_team_size: Option<u32>,
    pub uses_dao_host: bool,
}

/// Why a new enrollment is refused before the competition module is looked
/// up, if it is.
pub open spec fn new_enrollment_refusal(
    block: BlockInfo,
    date: Timestamp,
    duration: u64,
    min_members: Option<u64>,
    max_members: u64,
    t: CompetitionType,
) -> Option<EnrollmentError> {
    if is_competition_expired_spec(block, date, duration) {
        Some(EnrollmentError::CompetitionExpired)
    } else if is_enrollment_expired_spec(block, date, duration) {
        Some(EnrollmentError::EnrollmentExpired)
    } else {
        member_limits_check(min_members, max_members, t)
    }
}

/// Why the competition module cannot be used, if it cannot.
pub open spec fn module_refusal(has_owner: bool, category_and_rulesets_valid: Option<bool>, module: Option<ModuleInfo>) -> Option<
    EnrollmentError,
> {
    if !has_owner {
        Some(EnrollmentError::NoOwner)
    } else if category_and_rulesets_valid == Some(false) {
        Some(EnrollmentError::InvalidCategoryAndRulesets)
    } else {
        match module {
            None => Some(EnrollmentError::ModuleNotFound),
            Some(m) => if m.is_enabled {
                None
            } else {
                Some(EnrollmentError::ModuleDisabled)
            },
        }
    }
}

/// The enrollment stored for new settings: hosted by its creator, run by the
/// competition module, not finalized, with its competition pending.
pub open spec fn new_entry(n: NewEnrollment, host: String, competition_module: String, pending: PendingCompetition) -> EnrollmentEntry {
    EnrollmentEntry {
        min_members: n.min_members,
        max_members: n.max_members,
        entry_fee: n.entry_fee,
        duration_before: n.duration_before,
        has_finalized: false,
        pending: Some(pending),
        competition_id: None,
        competition_type: n.competition_type,
        host,
        category_id: n.category_id,
        competition_module,
        required_team_size: n.required_team_size,
        uses_dao_host: n.uses_dao_host,
    }
}

/// The id of the next enrollment: one more than the number created so far.
pub fn next_enrollment_id(count: u128) -> (r: Result<u128, EnrollmentError>)
    ensures
        count < u128::MAX ==> r == Ok::<u128, EnrollmentError>((count + 1) as u128),
        count == u128::MAX ==> r == Err::<u128, EnrollmentError>(EnrollmentError::Overflow),
{
    match count.checked_add(1) {
        Some(n) => Ok(n),
        None => Err(EnrollmentError::Overflow),
    }
}

/// The competition an enrollment will create, as the enrollment holds it
/// until the competition exists.
#[derive(Debug)]
pub struct PendingCompetition {
    pub name: String,
    pub description: String,
    pub date: Timestamp,
    pub duration: u64,
    pub rules: Option<Vec<String>>,
    pub rulesets: Option<Vec<u128>>,
    pub banner: Option<String>,
    /// Fees the competition takes on top of the arena's.
    pub additional_layered_fees: Option<Vec<FeeInformation>>,
    pub escrow: String,
    pub group_contract: String,
}

/// How a listing shows an enrollment's competition.
#[derive(Debug)]
pub struct CompetitionInfoResponse {
    pub name: String,
    pub description: String,
    pub date: Timestamp,
    pub duration: u64,
    pub rules: Option<Vec<String>>,
    pub rulesets: Option<Vec<u128>>,
    pub banner: Option<String>,
    pub additional_layered_fees: Option<Vec<FeeInformation>>,
    /// The competition's id, once it exists.
    pub competition_id: Option<u128>,
    pub escrow: String,
    pub group_contract: String,
}

impl PendingCompetition {
    /// The pending competition as a listing shows it: every field as it is,
    /// and no competition id yet.
    pub fn into_response(self) -> (r: CompetitionInfoResponse)
        ensures
            r == (CompetitionInfoResponse {
                name: self.name,
                description: self.description,
                date: self.date,
                duration: self.duration,
                rules: self.rules,
                rulesets: self.rulesets,
                banner: self.banner,
                additional_layered_fees: self.additional_layered_fees,
                competition_id: None,
                escrow: self.escrow,
                group_contract: self.group_contract,
            }),
    {
        CompetitionInfoResponse {
            name: self.name,
            description: self.description,
            date: self.date,
            duration: self.duration,
            rules: self.rules,
            rulesets: self.rulesets,
            banner: self.banner,
            additional_layered_fees: self.additional_layered_fees,
            competition_id: None,
            escrow: self.escrow,
            group_contract: self.group_contract,
        }
    }
}

/// An enrollment: its member limits, entry fee, host and the competition it
/// will create (`pending` is `None`, and `competition_id` holds the id, once
/// the competition exists).
#[derive(Debug)]
pub struct EnrollmentEntry {
    pub min_members: Option<u64>,
    pub max_members: u64,
    pub entry_fee: Option<Coin>,
    pub duration_before: u64,
    pub has_finalized: bool,
    pub pending: Option<PendingCompetition>,
    /// The id of the competition, once its creation has been reported.
    pub competition_id: Option<u128>,
    pub competition_type: CompetitionType,
    pub host: String,
    pub category_id: Option<u128>,
    pub competition_module: String,
    pub required_team_size: Option<u32>,
    /// Whether a DAO is created to host the competition.
    pub uses_dao_host: bool,
}

/// An instruction to the escrow to lock or unlock itself, and on locking to
/// hand its ownership over.
#[derive(Debug, PartialEq, Eq)]
pub struct EscrowLock {
    pub escrow: String,
    pub value: bool,
    pub transfer_ownership: Option<OwnershipTransfer>,
}

/// The new owner of an escrow, and whether it is an enrollment contract.
#[derive(Debug, PartialEq, Eq)]
pub struct OwnershipTransfer {
    pub addr: String,
    pub is_enrollment: bool,
}

/// What the enrollment contract remembers while the competition module
/// creates a competition, to act on the reply.
#[derive(Debug, PartialEq, Eq)]
pub struct PendingCreation {
    pub module_addr: String,
    pub enrollment_id: u128,
    pub escrow_addr: String,
}

/// The request to the competition module to create the competition of an
/// enrollment, with the existing escrow and group. The name, description,
/// dates, rules, rulesets, banner and fees are those of the enrollment's
/// pending competition.
#[derive(Debug, PartialEq, Eq)]
pub struct CompetitionCreation {
    pub module: String,
    /// The host; `None` when the DAO created for the competition hosts it.
    pub host: Option<String>,
    pub category_id: Option<u128>,
    pub escrow: String,
    pub group_contract: String,
}

/// What finalizing an enrollment leads to.
#[derive(Debug, PartialEq, Eq)]
pub enum FinalizeOutcome {
    /// Enrollment closed with too few members: the enrollment is finalized
    /// without a competition and the escrow is unlocked.
    InsufficientMembers { required: u64, actual: u64, unlock: EscrowLock },
    /// The competition is created; when a new DAO is to host it, the salt
    /// that fixes the DAO's address.
    CreateCompetition { dao_salt: Option<[u8; 32]>, creation: CompetitionCreation, pending: PendingCreation },
}

/// The enrollment once finalized.
pub open spec fn finalized_entry(e: EnrollmentEntry) -> EnrollmentEntry {
    EnrollmentEntry { has_finalized: true, ..e }
}

/// An enrollment is finalized at most once, and closes when it is: once
/// finalized, finalizing again is refused (`AlreadyFinalized` for its host)
/// and so is enrolling.
pub proof fn law_finalize_once(e: EnrollmentEntry, sender: Seq<char>)
    ensures
        finalize_gate(finalized_entry(e), sender) is Some,
        e.host@ == sender ==> finalize_gate(finalized_entry(e), sender) == Some(EnrollmentError::AlreadyFinalized),
        finalized_entry(e).has_finalized,
{
}

/// The decimal digits of `n` as ASCII bytes, most significant first.
pub open spec fn decimal_bytes(n: nat) -> Seq<u8>
    decreases n,
{
    if n < 10 {
        seq![(48 + n) as u8]
    } else {
        decimal_bytes(n / 10).push((48 + n % 10) as u8)
    }
}

/// The bytes that name the contracts an enrollment creates: the creating
/// address, then the block height and the enrollment id in decimal.
pub open spec fn creation_binding(sender: Seq<char>, height: u64, id: u128) -> Seq<u8> {
    encode_utf8(sender) + decimal_bytes(height as nat) + decimal_bytes(id as nat)
}

/// The bytes that name the DAO hosting a finalized enrollment: `dao_`, then
/// the creation binding of the finalizing address.
pub open spec fn dao_binding(sender: Seq<char>, height: u64, id: u128) -> Seq<u8> {
    seq![100u8, 97u8, 111u8, 95u8] + creation_binding(sender, height, id)
}

/// The SHA-256 digest of `data`.
pub uninterp spec fn sha256_of(data: Seq<u8>) -> Seq<u8>;

/// `sha2::Sha256::digest`: the 32-byte SHA-256 digest of `data`.
#[verifier::external_body]
fn sha256_digest(data: &[u8]) -> (r: [u8; 32])
    ensures
        r@ == sha256_of(data@),
{
    <sha2::Sha256 as sha2::Digest>::digest(data).into()
}

/// Appends the decimal digits of `n` to `v`.
fn push_decimal(v: &mut Vec<u8>, n: u128)
    ensures
        final(v)@ == old(v)@ + decimal_bytes(n as nat),
    decreases n,
{
    if n >= 10 {
        push_decimal(v, n / 10);
    }
    v.push((48 + n % 10) as u8);
    proof {
        if n >= 10 {
            assert(v@ =~= old(v)@ + decimal_bytes((n / 10) as nat).push((48 + n % 10) as u8));
        } else {
            assert(v@ =~= old(v)@ + seq![(48 + n) as u8]);
        }
    }
}

/// The SHA-256 digest of `prefix` followed by the creation binding.
fn binding_digest(prefix: &Vec<u8>, sender: &String, height: u64, id: u128) -> (r: [u8; 32])
    ensures
        r@ == sha256_of(prefix@ + creation_binding(sender@, height, id)),
{
    let mut bytes: Vec<u8> = Vec::new();
    let mut j: usize = 0;
    while j < prefix.len()
        invariant
            j <= prefix@.len(),
            bytes@ == prefix@.take(j as int),
        decreases prefix@.len() - j,
    {
        bytes.push(prefix[j]);
        proof {
            assert(prefix@.take(j + 1) =~= prefix@.take(j as int).push(prefix@[j as int]));
        }
        j = j + 1;
    }
    let sb = sender.as_str().as_bytes();
    let mut i: usize = 0;
    while i < sb.len()
        invariant
            i <= sb@.len(),
            j == prefix@.len(),
            bytes@ == prefix@.take(j as int) + sb@.take(i as int),
        decreases sb@.len() - i,
    {
        bytes.push(sb[i]);
        proof {
            assert(sb@.take(i + 1) =~= sb@.take(i as int).push(sb@[i as int]));
        }
        i = i + 1;
    }
    proof {
        assert(sb@.take(sb@.len() as int) =~= sb@);
        assert(prefix@.take(prefix@.len() as int) =~= prefix@);
    }
    push_decimal(&mut bytes, height as u128);
    push_decimal(&mut bytes, id);
    proof {
        assert(bytes@ =~= prefix@ + creation_binding(sender@, height, id));
    }
    sha256_digest(bytes.as_slice())
}

/// The salt of the group and escrow contracts created for enrollment `id`
/// by `sender` at block `height`: the SHA-256 digest of the creation binding.
pub fn creation_salt(sender: &String, height: u64, id: u128) -> (r: [u8; 32])
    ensures
        r@ == sha256_of(creation_binding(sender@, height, id)),
{
    let prefix: Vec<u8> = Vec::new();
    let r = binding_digest(&prefix, sender, height, id);
    proof {
        assert(prefix@ + creation_binding(sender@, height, id) =~= creation_binding(sender@, height, id));
    }
    r
}

/// The salt that fixes the address of the DAO hosting a finalized
/// enrollment: the SHA-256 digest of its naming bytes.
pub fn dao_salt(sender: &String, height: u64, id: u128) -> (r: [u8; 32])
    ensures
        r@ == sha256_of(dao_binding(sender@, height, id)),
{
    let prefix: Vec<u8> = vec![100u8, 97u8, 111u8, 95u8];
    let r = binding_digest(&prefix, sender, height, id);
    proof {
        assert(prefix@ =~= seq![100u8, 97u8, 111u8, 95u8]);
        assert(prefix@ + creation_binding(sender@, height, id) =~= dao_binding(sender@, height, id));
    }
    r
}

/// The eight big-endian bytes of `n`.
pub open spec fn be_u64_bytes(n: nat) -> Seq<u8> {
    Seq::new(8, |i: int| ((n as int / pow(256, (7 - i) as nat)) % 256) as u8)
}

/// The bytes `a` with their length in front, as eight big-endian bytes.
pub open spec fn length_prefixed(a: Seq<u8>) -> Seq<u8> {
    be_u64_bytes(a.len()) + a
}

/// What instantiate2 hashes: `wasm` and a zero byte, then the checksum,
/// the creator, the salt and an empty message, each length-prefixed.
pub open spec fn instantiate2_key(checksum: Seq<u8>, creator: Seq<u8>, salt: Seq<u8>) -> Seq<u8> {
    seq![119u8, 97u8, 115u8, 109u8, 0u8] + length_prefixed(checksum) + length_prefixed(creator) + length_prefixed(salt)
        + length_prefixed(Seq::empty())
}

/// The canonical address that instantiate2 derives: the SHA-256 digest of
/// the digest of `module` followed by the instantiate2 key.
pub open spec fn instantiate2_address_spec(checksum: Seq<u8>, creator: Seq<u8>, salt: Seq<u8>) -> Seq<u8> {
    sha256_of(sha256_of(seq![109u8, 111u8, 100u8, 117u8, 108u8, 101u8]) + instantiate2_key(checksum, creator, salt))
}

/// `cosmwasm_std::instantiate2_address`: refused unless the checksum has 32
/// bytes (a salt of 32 bytes is always accepted); otherwise the SHA-256
/// digest of the digest of `module` and the length-prefixed checksum,
/// creator, salt and empty message, after `wasm` and a zero byte.
#[verifier::external_body]
fn instantiate2_address(checksum: &[u8], creator: &[u8], salt: &[u8; 32]) -> (r: Option<Vec<u8>>)
    ensures
        r is Some <==> checksum@.len() == 32,
        r matches Some(a) ==> a@ == instantiate2_address_spec(checksum@, creator@, salt@),
{
    match cosmwasm_std::instantiate2_address(checksum, &cosmwasm_std::CanonicalAddr::from(creator), salt) {
        Ok(a) => Some(a.to_vec()),
        Err(_) => None,
    }
}

/// The canonical address of a contract that `creator` instantiates from the
/// code with `checksum` under `salt` (a creation salt for an enrollment's
/// group and escrow, the salt `finalize` gives for its DAO host); `None` when
/// the checksum is not 32 bytes long.
pub fn instantiated_address(checksum: &Vec<u8>, creator: &Vec<u8>, salt: &[u8; 32]) -> (r: Option<Vec<u8>>)
    ensures
        r is Some <==> checksum@.len() == 32,
        r matches Some(a) ==> a@ == instantiate2_address_spec(checksum@, creator@, salt@),
{
    instantiate2_address(checksum.as_slice(), creator.as_slice(), salt)
}

/// The enrollment's closing time can be computed.
pub open spec fn entry_dates_fit(e: EnrollmentEntry) -> bool {
    e.pending matches Some(p) ==> enrollment_close_fits(p.date, e.duration_before)
}

/// Why `sender` may not finalize `e`, if it may not.
pub open spec fn finalize_gate(e: EnrollmentEntry, sender: Seq<char>) -> Option<EnrollmentError> {
    if e.host@ != sender {
        Some(EnrollmentError::Unauthorized)
    } else if e.has_finalized || e.pending is None {
        Some(EnrollmentError::AlreadyFinalized)
    } else {
        None
    }
}

/// The minimum number of members an enrollment needs.
pub open spec fn required_members(e: EnrollmentEntry) -> int {
    match e.min_members {
        Some(m) => m as int,
        None => min_min_members_spec(e.competition_type),
    }
}

/// An enrollment needs the minimum its host set, whatever the competition;
/// without one, the fewest members its competition can be held with (see
/// `law_minimum_members`): one per prize place, and at least two.
pub proof fn law_required_members(e: EnrollmentEntry)
    ensures
        e.min_members matches Some(m) ==> required_members(e) == m,
        e.min_members is None ==> required_members(e) >= prize_places(e.competition_type) && required_members(e) >= 2,
        e.min_members is None ==> required_members(e) == min_min_members_spec(e.competition_type),
{
    law_minimum_members(e.competition_type);
}

impl EnrollmentEntry {
    /// Only the host may finalize, and only once, while the competition is
    /// still pending.
    pub fn check_finalize(&self, sender: &String) -> (r: Result<(), EnrollmentError>)
        ensures
            match finalize_gate(*self, sender@) {
                Some(e) => r == Err::<(), EnrollmentError>(e),
                None => r is Ok,
            },
    {
        if self.host != *sender {
            return Err(EnrollmentError::Unauthorized);
        }
        if self.has_finalized || self.pending.is_none() {
            return Err(EnrollmentError::AlreadyFinalized);
        }
        Ok(())
    }

    /// Finalizes enrollment `id`, with `members_count` members, at `block`:
    /// with too few members once enrollment has closed, it ends without a
    /// competition and the escrow is unlocked; otherwise the competition is
    /// created when the enrollment is full or enrollment has closed (hosted
    /// by the host, or by a new DAO whose address the returned salt fixes),
    /// and finalizing is refused before that. Either way the enrollment is
    /// marked finalized; a refusal changes nothing.
    pub fn finalize(&mut self, sender: &String, block: &BlockInfo, id: u128, members_count: u64) -> (r: Result<FinalizeOutcome, EnrollmentError>)
        requires
            finalize_gate(*old(self), sender@) is None ==> entry_dates_fit(*old(self)),
        ensures
            r is Err ==> *final(self) == *old(self),
            r is Ok ==> *final(self) == finalized_entry(*old(self)),
            finalize_gate(*old(self), sender@) matches Some(e) ==> r == Err::<FinalizeOutcome, EnrollmentError>(e),
            (finalize_gate(*old(self), sender@) is None && is_enrollment_expired_spec(
                *block,
                old(self).pending->0.date,
                old(self).duration_before,
            ) && old(self).min_members is Some) ==> {
                let m = old(self).min_members->0;
                &&& (r matches Ok(FinalizeOutcome::InsufficientMembers { .. })) <==> members_count < m
                &&& r matches Ok(FinalizeOutcome::InsufficientMembers { required, actual, .. }) ==> required == m
                    && actual == members_count
                &&& members_count >= m ==> (r matches Ok(FinalizeOutcome::CreateCompetition { .. }))
            },
            finalize_gate(*old(self), sender@) is None ==> {
                let e = *old(self);
                let p = e.pending->0;
                let expired = is_enrollment_expired_spec(*block, p.date, e.duration_before);
                let required = required_members(e);
                &&& members_count < required && expired ==> r == Ok::<FinalizeOutcome, EnrollmentError>(
                    FinalizeOutcome::InsufficientMembers {
                        required: required as u64,
                        actual: members_count,
                        unlock: EscrowLock { escrow: p.escrow, value: false, transfer_ownership: None },
                    },
                )
                &&& !(members_count < required && expired) && !(e.max_members == members_count || expired) ==> r
                    == Err::<FinalizeOutcome, EnrollmentError>(
                    EnrollmentError::FinalizeFailed { max_members: e.max_members, current_members: members_count },
                )
                &&& !(members_count < required && expired) && (e.max_members == members_count || expired) ==> (r
                    matches Ok(FinalizeOutcome::CreateCompetition { dao_salt, creation, pending })
                    && (dao_salt is Some <==> e.uses_dao_host)
                    && (dao_salt matches Some(salt) ==> salt@ == sha256_of(dao_binding(sender@, block.height, id)))
                    && creation == (CompetitionCreation {
                        module: e.competition_module,
                        host: if e.uses_dao_host { None } else { Some(e.host) },
                        category_id: e.category_id,
                        escrow: p.escrow,
                        group_contract: p.group_contract,
                    })
                    && pending == (PendingCreation {
                        module_addr: e.competition_module,
                        enrollment_id: id,
                        escrow_addr: p.escrow,
                    }))
            },
    {
        self.check_finalize(sender)?;
        let (date, escrow, group_contract) = match &self.pending {
            Some(p) => (p.date, p.escrow.clone(), p.group_contract.clone()),
            None => return Err(EnrollmentError::AlreadyFinalized),
        };
        let required = match self.min_members {
            Some(m) => m,
            None => get_min_min_members(&self.competition_type),
        };
        let expired = is_enrollment_expired(block, &date, self.duration_before);
        if members_count < required && expired {
            self.has_finalized = true;
            let unlock = EscrowLock { escrow, value: false, transfer_ownership: None };
            return Ok(FinalizeOutcome::InsufficientMembers { required, actual: members_count, unlock });
        }
        if !(self.max_members == members_count || expired) {
            return Err(EnrollmentError::FinalizeFailed { max_members: self.max_members, current_members: members_count });
        }
        let dao_salt = if self.uses_dao_host {
            Some(dao_salt(sender, block.height, id))
        } else {
            None
        };
        let host = if self.uses_dao_host {
            None
        } else {
            Some(self.host.clone())
        };
        let creation = CompetitionCreation {
            module: self.competition_module.clone(),
            host,
            category_id: self.category_id,
            escrow: escrow.clone(),
            group_contract,
        };
        let pending = PendingCreation {
            module_addr: self.competition_module.clone(),
            enrollment_id: id,
            escrow_addr: escrow,
        };
        self.has_finalized = true;
        Ok(FinalizeOutcome::CreateCompetition { dao_salt, creation, pending })
    }

    /// Setting the rankings of the members: only the host may, and only
    /// while the competition is pending. The rankings go to the group
    /// contract that is returned.
    pub fn set_rankings(&self, sender: &String) -> (r: Result<String, EnrollmentError>)
        ensures
            self.host@ != sender@ ==> r == Err::<String, EnrollmentError>(EnrollmentError::Unauthorized),
            self.host@ == sender@ && self.pending is None ==> r == Err::<String, EnrollmentError>(EnrollmentError::AlreadyFinalized),
            self.host@ == sender@ && self.pending is Some ==> r == Ok::<String, EnrollmentError>(self.pending->0.group_contract),
    {
        if self.host != *sender {
            return Err(EnrollmentError::Unauthorized);
        }
        match &self.pending {
            None => Err(EnrollmentError::AlreadyFinalized),
            Some(p) => Ok(p.group_contract.clone()),
        }
    }
}

/// Whether the team size of an enrolling member has to be checked.
pub open spec fn needs_team_size_check(e: EnrollmentEntry) -> bool {
    e.required_team_size matches Some(n) && n != 1
}

/// Who enrolls or withdraws: the team when one is named (and the sender
/// belongs to it), otherwise the sender.
pub fn resolve_member(sender: &String, team: Option<String>, sender_has_team_power: bool) -> (r: Result<String, EnrollmentError>)
    ensures
        team is None ==> (r matches Ok(m) && m@ == sender@),
        team is Some && !sender_has_team_power ==> r == Err::<String, EnrollmentError>(EnrollmentError::NotTeamMember),
        team is Some && sender_has_team_power ==> (r matches Ok(m) && m@ == team->0@),
{
    match team {
        Some(t) => {
            if !sender_has_team_power {
                return Err(EnrollmentError::NotTeamMember);
            }
            Ok(t)
        },
        None => Ok(sender.clone()),
    }
}

/// What an accepted enrollment does.
#[derive(Debug)]
pub struct EnrollOutcome {
    /// The address added to the competition's group.
    pub member: String,
    /// The entry fee, forwarded to the escrow.
    pub forward_fee: Option<Coin>,
}

impl EnrollmentEntry {
    /// Enrolls a member: the enrollment must be open and pending, the entry
    /// fee (if any) paid exactly, the group not yet full; a named team must
    /// count the sender among its members and, when a team size is required,
    /// have exactly that many members (`team_size`, as listed; `None` when the
    /// member is not a team contract).
    pub fn enroll(
        &self,
        sender: &String,
        funds: &Vec<Coin>,
        member_count: u64,
        team: Option<String>,
        sender_has_team_power: bool,
        team_size: Option<usize>,
    ) -> (r: Result<EnrollOutcome, EnrollmentError>)
        ensures
            self.has_finalized || self.pending is None ==> r == Err::<EnrollOutcome, EnrollmentError>(
                EnrollmentError::AlreadyFinalized,
            ),
            r is Ok ==> {
                &&& !self.has_finalized && self.pending is Some
                &&& member_count < self.max_members
                &&& (match self.entry_fee {
                    Some(fee) => one_coin_spec(funds@) matches Ok(c) && c.denom@ == fee.denom@ && c.amount == fee.amount,
                    None => true,
                })
                &&& (match team {
                    Some(t) => sender_has_team_power && r->Ok_0.member@ == t@,
                    None => r->Ok_0.member@ == sender@,
                })
                &&& needs_team_size_check(*self) ==> team_size == Some(self.required_team_size->0 as usize)
                &&& r->Ok_0.forward_fee == self.entry_fee
            },
            !self.has_finalized && self.pending is Some ==> match self.entry_fee {
                Some(fee) => match one_coin_spec(funds@) {
                    Err(e) => r == Err::<EnrollOutcome, EnrollmentError>(EnrollmentError::Payment(e)),
                    Ok(c) => if c.denom@ != fee.denom@ {
                        r matches Err(EnrollmentError::Payment(PaymentError::MissingDenom(d))) && d@ == fee.denom@
                    } else if c.amount != fee.amount {
                        r == Err::<EnrollOutcome, EnrollmentError>(EnrollmentError::EntryFeeNotPaid { fee })
                    } else {
                        true
                    },
                },
                None => true,
            },
            !self.has_finalized && self.pending is Some && (match self.entry_fee {
                Some(fee) => one_coin_spec(funds@) matches Ok(c) && c.denom@ == fee.denom@ && c.amount == fee.amount,
                None => true,
            }) ==> {
                &&& member_count >= self.max_members ==> r == Err::<EnrollOutcome, EnrollmentError>(
                    EnrollmentError::EnrollmentMaxMembers,
                )
                &&& member_count < self.max_members && team is Some && !sender_has_team_power ==> r == Err::<
                    EnrollOutcome,
                    EnrollmentError,
                >(EnrollmentError::NotTeamMember)
                &&& member_count < self.max_members && (team is None || sender_has_team_power)
                    && needs_team_size_check(*self) && team_size != Some(self.required_team_size->0 as usize) ==> r
                    == Err::<EnrollOutcome, EnrollmentError>(
                    EnrollmentError::TeamSizeMismatch { required_team_size: self.required_team_size->0 },
                )
                &&& member_count < self.max_members && (team is None || sender_has_team_power) && !(
                needs_team_size_check(*self) && team_size != Some(self.required_team_size->0 as usize)) ==> r is Ok
            },
    {
        if self.has_finalized || self.pending.is_none() {
            return Err(EnrollmentError::AlreadyFinalized);
        }
        let forward_fee = match &self.entry_fee {
            Some(fee) => {
                let paid = match must_pay(funds, &fee.denom) {
                    Ok(a) => a,
                    Err(e) => return Err(EnrollmentError::Payment(e)),
                };
                if paid != fee.amount {
                    return Err(EnrollmentError::EntryFeeNotPaid { fee: Coin { denom: fee.denom.clone(), amount: fee.amount } });
                }
                Some(Coin { denom: fee.denom.clone(), amount: fee.amount })
            },
            None => None,
        };
        if member_count >= self.max_members {
            return Err(EnrollmentError::EnrollmentMaxMembers);
        }
        let member = resolve_member(sender, team, sender_has_team_power)?;
        if let Some(required) = self.required_team_size {
            if required != 1 {
                match team_size {
                    Some(n) => {
                        if n != required as usize {
                            return Err(EnrollmentError::TeamSizeMismatch { required_team_size: required });
                        }
                    },
                    None => return Err(EnrollmentError::TeamSizeMismatch { required_team_size: required }),
                }
            }
        }
        Ok(EnrollOutcome { member, forward_fee })
    }
}

/// The views of a list of strings.
pub open spec fn views(s: Seq<String>) -> Seq<Seq<char>> {
    s.map_values(|x: String| x@)
}

/// Each string of a list once, in the order of its first occurrence.
pub open spec fn first_occurrences(s: Seq<Seq<char>>) -> Seq<Seq<char>>
    decreases s.len(),
{
    if s.len() == 0 {
        Seq::empty()
    } else {
        let r = first_occurrences(s.drop_last());
        if r.contains(s.last()) {
            r
        } else {
            r.push(s.last())
        }
    }
}

/// The strings of `v` without repeats, each at its first occurrence.
pub fn unique_strings(v: &Vec<String>) -> (r: Vec<String>)
    ensures
        views(r@) == first_occurrences(views(v@)),
{
    let mut r: Vec<String> = Vec::new();
    let mut i: usize = 0;
    while i < v.len()
        invariant
            i <= v.len(),
            views(r@) == first_occurrences(views(v@.take(i as int))),
        decreases v.len() - i,
    {
        let x = &v[i];
        let mut found = false;
        let mut j: usize = 0;
        while j < r.len()
            invariant
                j <= r.len(),
                found == exists|k: int| 0 <= k < j && r@[k]@ == x@,
            decreases r.len() - j,
        {
            if r[j] == *x {
                found = true;
            }
            j = j + 1;
        }
        proof {
            assert(views(v@.take(i + 1)) =~= views(v@.take(i as int)).push(x@));
            assert(views(v@.take(i + 1)).drop_last() =~= views(v@.take(i as int)));
            if found {
                let k = choose|k: int| 0 <= k < r.len() && r@[k]@ == x@;
                assert(views(r@)[k] == x@);
            } else {
                assert forall|k: int| 0 <= k < views(r@).len() implies views(r@)[k] != x@ by {
                    assert(views(r@)[k] == r@[k]@);
                }
            }
        }
        if !found {
            let ghost prev = r@;
            r.push(x.clone());
            proof {
                assert(views(r@) =~= views(prev).push(x@));
            }
        }
        i = i + 1;
    }
    proof {
        assert(v@.take(v.len() as int) =~= v@);
    }
    r
}

/// How members leave an enrollment: a refund of the entry fee to each of
/// them through the escrow (when there is a fee), and their removal from the
/// group.
#[derive(Debug)]
pub struct WithdrawPlan {
    pub refund: Option<Coin>,
    pub members: Vec<String>,
}

impl EnrollmentEntry {
    /// Plans the withdrawal of `members`; refused once the competition
    /// exists.
    pub fn plan_withdraw(&self, members: Vec<String>) -> (r: Result<WithdrawPlan, EnrollmentError>)
        ensures
            self.pending is None ==> r == Err::<WithdrawPlan, EnrollmentError>(EnrollmentError::AlreadyFinalized),
            self.pending is Some ==> (r matches Ok(p) && p.members == members && p.refund == self.entry_fee),
    {
        if self.pending.is_none() {
            return Err(EnrollmentError::AlreadyFinalized);
        }
        let refund = match &self.entry_fee {
            Some(f) => Some(Coin { denom: f.denom.clone(), amount: f.amount }),
            None => None,
        };
        Ok(WithdrawPlan { refund, members })
    }

    /// A member withdraws itself (or, naming a team it belongs to, its team).
    pub fn withdraw(&self, sender: &String, team: Option<String>, sender_has_team_power: bool) -> (r: Result<WithdrawPlan, EnrollmentError>)
        ensures
            team is Some && !sender_has_team_power ==> r == Err::<WithdrawPlan, EnrollmentError>(EnrollmentError::NotTeamMember),
            (team is None || sender_has_team_power) && self.pending is None ==> r == Err::<WithdrawPlan, EnrollmentError>(
                EnrollmentError::AlreadyFinalized,
            ),
            (team is None || sender_has_team_power) && self.pending is Some ==> (r matches Ok(p) && p.members.len() == 1
                && p.members@[0]@ == (match team {
                Some(t) => t@,
                None => sender@,
            }) && p.refund == self.entry_fee),
    {
        let member = resolve_member(sender, team, sender_has_team_power)?;
        let mut members: Vec<String> = Vec::new();
        members.push(member);
        self.plan_withdraw(members)
    }

    /// The host withdraws the listed members (each once).
    pub fn force_withdraw(&self, sender: &String, members: &Vec<String>) -> (r: Result<WithdrawPlan, EnrollmentError>)
        ensures
            self.host@ != sender@ ==> r == Err::<WithdrawPlan, EnrollmentError>(EnrollmentError::Unauthorized),
            self.host@ == sender@ && members.len() == 0 ==> r == Err::<WithdrawPlan, EnrollmentError>(
                EnrollmentError::NoMembersToWithdraw,
            ),
            self.host@ == sender@ && members.len() > 0 && self.pending is None ==> r == Err::<WithdrawPlan, EnrollmentError>(
                EnrollmentError::AlreadyFinalized,
            ),
            self.host@ == sender@ && members.len() > 0 && self.pending is Some ==> (r matches Ok(p) && views(p.members@)
                == first_occurrences(views(members@)) && p.refund == self.entry_fee),
    {
        if self.host != *sender {
            return Err(EnrollmentError::Unauthorized);
        }
        let unique = unique_strings(members);
        if unique.len() == 0 {
            proof {
                if members.len() > 0 {
                    lemma_first_occurrences_nonempty(views(members@));
                }
            }
            return Err(EnrollmentError::NoMembersToWithdraw);
        }
        proof {
            if members.len() == 0 {
                assert(views(members@) =~= Seq::<Seq<char>>::empty());
            }
        }
        self.plan_withdraw(unique)
    }
}

/// A nonempty list has a nonempty list of first occurrences.
pub proof fn lemma_first_occurrences_nonempty(s: Seq<Seq<char>>)
    requires
        s.len() > 0,
    ensures
        first_occurrences(s).len() > 0,
    decreases s.len(),
{
    if s.len() > 1 {
        lemma_first_occurrences_nonempty(s.drop_last());
    }
}

/// How long a competition migrated from the older layout lasts, in seconds.
pub const LEGACY_COMPETITION_DURATION: u64 = 3600u64;

/// How long before the competition enrollment closes for migrated
/// enrollments, in seconds.
pub const LEGACY_DURATION_BEFORE: u64 = 86400u64;

/// The start date of a competition migrated from the older layout: its
/// expiration time when it had one, otherwise the time of the migration.
pub fn legacy_competition_date(expiration: &Expiration, block: &BlockInfo) -> (t: Timestamp)
    ensures
        t == match *expiration {
            Expiration::AtTime(d) => d,
            _ => block.time,
        },
{
    match expiration {
        Expiration::AtTime(d) => *d,
        _ => block.time,
    }
}

/// A single-elimination tournament without its third-place match; any
/// other kind as it is.
pub open spec fn without_third_place(t: CompetitionType) -> CompetitionType {
    match t {
        CompetitionType::Tournament { elimination_type: EliminationType::SingleElimination { .. }, distribution } => CompetitionType::Tournament {
            elimination_type: EliminationType::SingleElimination { play_third_place_match: false },
            distribution,
        },
        _ => t,
    }
}

/// Turns off the third-place match of a single-elimination tournament;
/// any other kind is left as it is.
pub fn remove_third_place_match(t: &mut CompetitionType)
    ensures
        *final(t) == without_third_place(*old(t)),
{
    match t {
        CompetitionType::Tournament { elimination_type, .. } => {
            if let EliminationType::SingleElimination { .. } = elimination_type {
                *elimination_type = EliminationType::SingleElimination { play_third_place_match: false };
            }
        },
        _ => {},
    }
}

/// The competition of an enrollment stored before dates replaced
/// expirations.
#[derive(Debug)]
pub enum LegacyCompetitionInfo {
    Pending {
        name: String,
        description: String,
        expiration: Expiration,
        rules: Option<Vec<String>>,
        rulesets: Option<Vec<u128>>,
        banner: Option<String>,
        additional_layered_fees: Option<Vec<FeeInformation>>,
        escrow: String,
        group_contract: String,
    },
    Existing { id: u128 },
}

/// An enrollment stored before dates replaced expirations.
#[derive(Debug)]
pub struct LegacyEnrollmentEntry {
    pub min_members: Option<u64>,
    pub max_members: u64,
    pub entry_fee: Option<Coin>,
    pub has_finalized: bool,
    pub competition_info: LegacyCompetitionInfo,
    pub competition_type: CompetitionType,
    pub host: String,
    pub category_id: Option<u128>,
    pub competition_module: String,
    pub required_team_size: Option<u32>,
}

/// Moves an enrollment to the current layout at `block`: a pending
/// competition starts when it used to expire (or now, when it did not
/// expire at a time) and lasts an hour, enrollment closes a day before it,
/// no DAO is created to host it, and the rest is kept.
pub fn migrate_legacy_entry(legacy: LegacyEnrollmentEntry, block: &BlockInfo) -> (e: EnrollmentEntry)
    ensures
        e.min_members == legacy.min_members,
        e.max_members == legacy.max_members,
        e.entry_fee == legacy.entry_fee,
        e.duration_before == LEGACY_DURATION_BEFORE,
        e.has_finalized == legacy.has_finalized,
        e.competition_type == legacy.competition_type,
        e.host == legacy.host,
        e.category_id == legacy.category_id,
        e.competition_module == legacy.competition_module,
        e.required_team_size == legacy.required_team_size,
        !e.uses_dao_host,
        match legacy.competition_info {
            LegacyCompetitionInfo::Pending {
                name,
                description,
                expiration,
                rules,
                rulesets,
                banner,
                additional_layered_fees,
                escrow,
                group_contract,
            } => e.competition_id is None && e.pending == Some(
                PendingCompetition {
                    name,
                    description,
                    date: match expiration {
                        Expiration::AtTime(d) => d,
                        _ => block.time,
                    },
                    duration: LEGACY_COMPETITION_DURATION,
                    rules,
                    rulesets,
                    banner,
                    additional_layered_fees,
                    escrow,
                    group_contract,
                },
            ),
            LegacyCompetitionInfo::Existing { id } => e.pending is None && e.competition_id == Some(id),
        },
{
    let (pending, competition_id) = match legacy.competition_info {
        LegacyCompetitionInfo::Pending {
            name,
            description,
            expiration,
            rules,
            rulesets,
            banner,
            additional_layered_fees,
            escrow,
            group_contract,
        } => {
            let date = legacy_competition_date(&expiration, block);
            (
                Some(
                    PendingCompetition {
                        name,
                        description,
                        date,
                        duration: LEGACY_COMPETITION_DURATION,
                        rules,
                        rulesets,
                        banner,
                        additional_layered_fees,
                        escrow,
                        group_contract,
                    },
                ),
                None,
            )
        },
        LegacyCompetitionInfo::Existing { id } => (None, Some(id)),
    };
    EnrollmentEntry {
        min_members: legacy.min_members,
        max_members: legacy.max_members,
        entry_fee: legacy.entry_fee,
        duration_before: LEGACY_DURATION_BEFORE,
        has_finalized: legacy.has_finalized,
        pending,
        competition_id,
        competition_type: legacy.competition_type,
        host: legacy.host,
        category_id: legacy.category_id,
        competition_module: legacy.competition_module,
        required_team_size: legacy.required_team_size,
        uses_dao_host: false,
    }
}

/// A key and value attached to an event.
#[derive(Debug)]
pub struct Attribute {
    pub key: String,
    pub value: String,
}

/// An event emitted while executing a message.
#[derive(Debug)]
pub struct Event {
    pub attributes: Vec<Attribute>,
}

/// The event reports the creation of a competition.
pub open spec fn is_creation_event(e: Event) -> bool {
    exists|j: int| 0 <= j < e.attributes.len() && e.attributes@[j].key@ == "action"@
        && e.attributes@[j].value@ == "create_competition"@
}

/// The value of the first `competition_id` attribute of an event.
pub open spec fn first_competition_id(e: Event) -> Option<Seq<char>> {
    if exists|j: int| 0 <= j < e.attributes.len() && e.attributes@[j].key@ == "competition_id"@ {
        let j = choose|j: int| 0 <= j < e.attributes.len() && e.attributes@[j].key@ == "competition_id"@ && forall|i: int|
            0 <= i < j ==> e.attributes@[i].key@ != "competition_id"@;
        Some(e.attributes@[j].value@)
    } else {
        None
    }
}

/// The competition id reported by the first creation event, if any.
pub open spec fn reported_competition_id(events: Seq<Event>) -> Option<Seq<char>> {
    if exists|i: int| 0 <= i < events.len() && is_creation_event(events[i]) {
        let i = choose|i: int| 0 <= i < events.len() && is_creation_event(events[i]) && forall|k: int|
            0 <= k < i ==> !is_creation_event(events[k]);
        first_competition_id(events[i])
    } else {
        None
    }
}

/// The earliest position satisfying a property is unique.
proof fn lemma_first_unique_attr(e: Event, j: int)
    requires
        0 <= j < e.attributes.len(),
        e.attributes@[j].key@ == "competition_id"@,
        forall|i: int| 0 <= i < j ==> e.attributes@[i].key@ != "competition_id"@,
    ensures
        first_competition_id(e) == Some(e.attributes@[j].value@),
{
    let k = choose|k: int| 0 <= k < e.attributes.len() && e.attributes@[k].key@ == "competition_id"@ && forall|i: int|
        0 <= i < k ==> e.attributes@[i].key@ != "competition_id"@;
    assert(k == j) by {
        if k < j {
            assert(e.attributes@[k].key@ != "competition_id"@);
        } else if k > j {
            assert(e.attributes@[j].key@ != "competition_id"@);
        }
    }
}

/// The value of the first `competition_id` attribute of `e`.
fn find_competition_id_attr(e: &Event) -> (r: Option<String>)
    ensures
        match r {
            Some(v) => first_competition_id(*e) == Some(v@),
            None => first_competition_id(*e) is None,
        },
{
    let key = String::from_str("competition_id");
    let mut j: usize = 0;
    while j < e.attributes.len()
        invariant
            j <= e.attributes.len(),
            key@ == "competition_id"@,
            forall|i: int| 0 <= i < j ==> e.attributes@[i].key@ != "competition_id"@,
        decreases e.attributes.len() - j,
    {
        if e.attributes[j].key == key {
            proof {
                lemma_first_unique_attr(*e, j as int);
            }
            return Some(e.attributes[j].value.clone());
        }
        j = j + 1;
    }
    None
}

/// Whether `e` reports the creation of a competition.
fn is_creation(e: &Event) -> (b: bool)
    ensures
        b == is_creation_event(*e),
{
    let action = String::from_str("action");
    let created = String::from_str("create_competition");
    let mut j: usize = 0;
    while j < e.attributes.len()
        invariant
            j <= e.attributes.len(),
            action@ == "action"@,
            created@ == "create_competition"@,
            forall|i: int| 0 <= i < j ==> !(e.attributes@[i].key@ == "action"@ && e.attributes@[i].value@
                == "create_competition"@),
        decreases e.attributes.len() - j,
    {
        if e.attributes[j].key == action && e.attributes[j].value == created {
            return true;
        }
        j = j + 1;
    }
    false
}

/// The competition id reported by the first event that reports the creation
/// of a competition.
pub fn find_competition_id(events: &Vec<Event>) -> (r: Option<String>)
    ensures
        match r {
            Some(v) => reported_competition_id(events@) == Some(v@),
            None => reported_competition_id(events@) is None,
        },
{
    let mut i: usize = 0;
    while i < events.len()
        invariant
            i <= events.len(),
            forall|k: int| 0 <= k < i ==> !is_creation_event(events@[k]),
        decreases events.len() - i,
    {
        if is_creation(&events[i]) {
            proof {
                let c = choose|c: int| 0 <= c < events@.len() && is_creation_event(events@[c]) && forall|k: int|
                    0 <= k < c ==> !is_creation_event(events@[k]);
                assert(c == i as int) by {
                    if c < i {
                    } else if c > i {
                        assert(!is_creation_event(events@[i as int]));
                    }
                }
            }
            return find_competition_id_attr(&events[i]);
        }
        i = i + 1;
    }
    None
}

/// Every character of `s` is a decimal digit.
pub open spec fn all_digits(s: Seq<char>) -> bool {
    forall|i: int| 0 <= i < s.len() ==> '0' <= #[trigger] s[i] <= '9'
}

/// The number the decimal digits `s` denote.
pub open spec fn digits_value(s: Seq<char>) -> int
    decreases s.len(),
{
    if s.len() == 0 {
        0
    } else {
        digits_value(s.drop_last()) * 10 + (s.last() as int - 48)
    }
}

/// The number a string denotes as an unsigned 128-bit integer: an optional
/// `+` and at least one decimal digit, nothing else, and no more than the
/// largest such integer.
pub open spec fn parsed_uint128(s: Seq<char>) -> Option<u128> {
    let d = if s.len() > 0 && s[0] == '+' {
        s.drop_first()
    } else {
        s
    };
    if d.len() > 0 && all_digits(d) && digits_value(d) <= u128::MAX {
        Some(digits_value(d) as u128)
    } else {
        None
    }
}

/// `cosmwasm_std::Uint128::from_str`, which parses with `u128::from_str`:
/// the number `s` denotes, if it denotes one (see `parsed_uint128`).
#[verifier::external_body]
fn parse_uint128(s: &String) -> (r: Option<u128>)
    ensures
        r == parsed_uint128(s@),
{
    match <cosmwasm_std::Uint128 as std::str::FromStr>::from_str(s.as_str()) {
        Ok(v) => Some(v.u128()),
        Err(_) => None,
    }
}

/// What the reply to a competition creation leads to.
#[derive(Debug, PartialEq, Eq)]
pub enum CreationReply {
    /// The competition exists under this id: the enrollment points to it
    /// and the escrow is locked and handed to the competition module.
    Created { competition_id: u128 },
    /// The creation failed: the escrow is unlocked.
    Failed,
}

/// Reads the reply to a competition creation: on success, the competition id
/// that the creation event reports; on failure, nothing.
pub fn read_creation_reply(result: &Result<Vec<Event>, String>) -> (r: Result<CreationReply, EnrollmentError>)
    ensures
        match *result {
            Err(_) => r == Ok::<CreationReply, EnrollmentError>(CreationReply::Failed),
            Ok(events) => match reported_competition_id(events@) {
                None => r == Err::<CreationReply, EnrollmentError>(EnrollmentError::MissingCompetitionId),
                Some(v) => match parsed_uint128(v) {
                    None => r == Err::<CreationReply, EnrollmentError>(EnrollmentError::InvalidCompetitionId),
                    Some(id) => r == Ok::<CreationReply, EnrollmentError>(CreationReply::Created { competition_id: id }),
                },
            },
        },
{
    match result {
        Err(_) => Ok(CreationReply::Failed),
        Ok(events) => match find_competition_id(events) {
            None => Err(EnrollmentError::MissingCompetitionId),
            Some(v) => match parse_uint128(&v) {
                None => Err(EnrollmentError::InvalidCompetitionId),
                Some(id) => Ok(CreationReply::Created { competition_id: id }),
            },
        },
    }
}


/// The reply id under which the competition module answers a creation.
pub const FINALIZE_COMPETITION_REPLY_ID: u64 = 1;

/// What the reply to a competition creation leads to.
#[derive(Debug, PartialEq, Eq)]
pub enum CreationReplyAction {
    /// The enrollment now points to the competition; the escrow is locked
    /// and handed to the competition module.
    Created { competition_id: u128, lock: EscrowLock },
    /// The creation failed with this error; the escrow is unlocked.
    Failed { error: String, unlock: EscrowLock },
}

/// Which enrollments a listing shows.
#[derive(Debug)]
pub enum EnrollmentFilter {
    /// Those of a category; no category stands for category zero.
    Category { category_id: Option<u128> },
    /// Those of a host.
    Host(String),
}

/// A category id, with none standing for zero.
pub open spec fn category_or_zero(c: Option<u128>) -> u128 {
    match c {
        Some(id) => id,
        None => 0,
    }
}

/// Whether an enrollment passes the filter.
pub open spec fn passes_filter(f: EnrollmentFilter, e: EnrollmentEntry) -> bool {
    match f {
        EnrollmentFilter::Category { category_id } => category_or_zero(e.category_id) == category_or_zero(category_id),
        EnrollmentFilter::Host(h) => e.host@ == h@,
    }
}

/// The ids of the entries after the start, in the entries' order.
pub open spec fn ids_after(s: Seq<(u128, EnrollmentEntry)>, start_after: Option<u128>) -> Seq<u128>
    decreases s.len(),
{
    if s.len() == 0 {
        Seq::empty()
    } else {
        let p = ids_after(s.drop_last(), start_after);
        if after_start(s.last().0, start_after) {
            p.push(s.last().0)
        } else {
            p
        }
    }
}

/// The ids of the entries after the start that pass the filter, in the
/// reverse of the entries' order.
pub open spec fn ids_after_reversed(s: Seq<(u128, EnrollmentEntry)>, f: EnrollmentFilter, start_after: Option<u128>) -> Seq<
    u128,
>
    decreases s.len(),
{
    if s.len() == 0 {
        Seq::empty()
    } else {
        let p = ids_after_reversed(s.drop_first(), f, start_after);
        if after_start(s[0].0, start_after) && passes_filter(f, s[0].1) {
            p.push(s[0].0)
        } else {
            p
        }
    }
}

/// The enrollments by id, and how many were ever created.
#[derive(Debug)]
pub struct EnrollmentRegistry {
    pub entries: IdMap<EnrollmentEntry>,
    pub count: u128,
}

impl EnrollmentRegistry {
    /// Ids are unique, rise along the list and never exceed the count.
    pub open spec fn wf(&self) -> bool {
        &&& self.entries.wf()
        &&& ids_increasing(self.entries.entries@)
        &&& forall|k: u128| #[trigger] self.entries@.contains_key(k) ==> 1 <= k <= self.count
    }

    /// No enrollment yet.
    pub fn new() -> (r: EnrollmentRegistry)
        ensures
            r.wf(),
            r.count == 0,
            r.entries@ == Map::<u128, EnrollmentEntry>::empty(),
    {
        EnrollmentRegistry { entries: IdMap::new(), count: 0 }
    }

    /// Stores a new enrollment under the next id and returns that id.
    pub fn add(&mut self, entry: EnrollmentEntry) -> (r: Result<u128, EnrollmentError>)
        requires
            old(self).wf(),
        ensures
            final(self).wf(),
            old(self).count == u128::MAX ==> r == Err::<u128, EnrollmentError>(EnrollmentError::Overflow)
                && *final(self) == *old(self),
            old(self).count < u128::MAX ==> r == Ok::<u128, EnrollmentError>((old(self).count + 1) as u128)
                && final(self).count == old(self).count + 1 && final(self).entries@ == old(self).entries@.insert(
                (old(self).count + 1) as u128,
                entry,
            ),
    {
        let id = match next_enrollment_id(self.count) {
            Ok(id) => id,
            Err(e) => {
                return Err(e);
            },
        };
        proof {
            assert(self.entries@ == id_entries_map(self.entries.entries@));
            lemma_id_push_increasing(self.entries.entries@, id, entry);
        }
        self.entries.insert(id, entry);
        self.count = id;
        Ok(id)
    }

    /// Creates an enrollment hosted by `sender` for `pending`, whose group
    /// and escrow addresses the caller derived for the next id: the dates
    /// and member limits are checked, then the competition module is picked
    /// (see `resolve_competition_module`), then the enrollment is stored
    /// under the next id, which is returned. A refusal changes nothing.
    pub fn create(
        &mut self,
        sender: &String,
        block: &BlockInfo,
        settings: NewEnrollment,
        pending: PendingCompetition,
        has_owner: bool,
        category_and_rulesets_valid: Option<bool>,
        module: Option<ModuleInfo>,
    ) -> (r: Result<u128, EnrollmentError>)
        requires
            old(self).wf(),
            plus_seconds_spec(pending.date, pending.duration) <= u64::MAX,
            enrollment_close_fits(pending.date, pending.duration),
        ensures
            final(self).wf(),
            r is Err ==> *final(self) == *old(self),
            match new_enrollment_refusal(
                *block,
                pending.date,
                pending.duration,
                settings.min_members,
                settings.max_members,
                settings.competition_type,
            ) {
                Some(e) => r == Err::<u128, EnrollmentError>(e),
                None => match module_refusal(has_owner, category_and_rulesets_valid, module) {
                    Some(e) => r == Err::<u128, EnrollmentError>(e),
                    None => if old(self).count == u128::MAX {
                        r == Err::<u128, EnrollmentError>(EnrollmentError::Overflow)
                    } else {
                        &&& r == Ok::<u128, EnrollmentError>((old(self).count + 1) as u128)
                        &&& final(self).count == old(self).count + 1
                        &&& final(self).entries@ == old(self).entries@.insert(
                            (old(self).count + 1) as u128,
                            new_entry(settings, *sender, module->0.addr, pending),
                        )
                    },
                },
            },
    {
        validate_new_enrollment(
            block,
            &pending.date,
            pending.duration,
            settings.min_members,
            settings.max_members,
            &settings.competition_type,
        )?;
        let competition_module = resolve_competition_module(has_owner, category_and_rulesets_valid, module)?;
        let entry = EnrollmentEntry {
            min_members: settings.min_members,
            max_members: settings.max_members,
            entry_fee: settings.entry_fee,
            duration_before: settings.duration_before,
            has_finalized: false,
            pending: Some(pending),
            competition_id: None,
            competition_type: settings.competition_type,
            host: sender.clone(),
            category_id: settings.category_id,
            competition_module,
            required_team_size: settings.required_team_size,
            uses_dao_host: settings.uses_dao_host,
        };
        self.add(entry)
    }

    /// Acts on the reply `reply_id` to a competition creation that `pending`
    /// describes. When the competition module reports the new competition's
    /// id, the enrollment points to that competition and the escrow is locked
    /// and handed to the module; when the creation failed, the escrow is
    /// unlocked and nothing else changes. A reply without a competition id,
    /// with one that is not a number, or for an enrollment that is gone, is
    /// refused, and so is a reply to another message.
    pub fn apply_creation_reply(&mut self, reply_id: u64, pending: &PendingCreation, result: &Result<Vec<Event>, String>) -> (r:
        Result<CreationReplyAction, EnrollmentError>)
        requires
            old(self).wf(),
        ensures
            final(self).wf(),
            !(r matches Ok(CreationReplyAction::Created { .. })) ==> *final(self) == *old(self),
            reply_id != FINALIZE_COMPETITION_REPLY_ID ==> r == Err::<CreationReplyAction, EnrollmentError>(
                EnrollmentError::UnknownReplyId { id: reply_id },
            ),
            reply_id == FINALIZE_COMPETITION_REPLY_ID ==> match *result {
                Err(error) => r == Ok::<CreationReplyAction, EnrollmentError>(
                    CreationReplyAction::Failed {
                        error,
                        unlock: EscrowLock { escrow: pending.escrow_addr, value: false, transfer_ownership: None },
                    },
                ),
                Ok(events) => match reported_competition_id(events@) {
                    None => r == Err::<CreationReplyAction, EnrollmentError>(EnrollmentError::MissingCompetitionId),
                    Some(v) => if !old(self).entries@.contains_key(pending.enrollment_id) {
                        r == Err::<CreationReplyAction, EnrollmentError>(
                            EnrollmentError::EnrollmentNotFound { id: pending.enrollment_id },
                        )
                    } else {
                        match parsed_uint128(v) {
                            None => r == Err::<CreationReplyAction, EnrollmentError>(EnrollmentError::InvalidCompetitionId),
                            Some(c) => {
                                &&& r == Ok::<CreationReplyAction, EnrollmentError>(
                                    CreationReplyAction::Created {
                                        competition_id: c,
                                        lock: EscrowLock {
                                            escrow: pending.escrow_addr,
                                            value: true,
                                            transfer_ownership: Some(
                                                OwnershipTransfer { addr: pending.module_addr, is_enrollment: false },
                                            ),
                                        },
                                    },
                                )
                                &&& final(self).count == old(self).count
                                &&& final(self).entries@ == old(self).entries@.insert(
                                    pending.enrollment_id,
                                    EnrollmentEntry {
                                        pending: None,
                                        competition_id: Some(c),
                                        ..old(self).entries@[pending.enrollment_id]
                                    },
                                )
                            },
                        }
                    },
                },
            },
    {
        if reply_id != FINALIZE_COMPETITION_REPLY_ID {
            return Err(EnrollmentError::UnknownReplyId { id: reply_id });
        }
        let events = match result {
            Err(error) => {
                let unlock = EscrowLock { escrow: pending.escrow_addr.clone(), value: false, transfer_ownership: None };
                return Ok(CreationReplyAction::Failed { error: error.clone(), unlock });
            },
            Ok(events) => events,
        };
        let v = match find_competition_id(events) {
            None => return Err(EnrollmentError::MissingCompetitionId),
            Some(v) => v,
        };
        let i = match self.entries.find(pending.enrollment_id) {
            None => return Err(EnrollmentError::EnrollmentNotFound { id: pending.enrollment_id }),
            Some(i) => i,
        };
        let c = match parse_uint128(&v) {
            None => return Err(EnrollmentError::InvalidCompetitionId),
            Some(c) => c,
        };
        let ghost s = self.entries.entries@;
        let e = self.entries.value_mut(i);
        e.pending = None;
        e.competition_id = Some(c);
        proof {
            let v_new = EnrollmentEntry { pending: None, competition_id: Some(c), ..s[i as int].1 };
            assert(self.entries.entries@ =~= s.update(i as int, (s[i as int].0, v_new)));
            lemma_id_update_value(s, i as int, v_new);
            assert forall|k: u128| #[trigger] self.entries@.contains_key(k) implies 1 <= k <= self.count by {
                assert(old(self).entries@.contains_key(k));
            }
        }
        let lock = EscrowLock {
            escrow: pending.escrow_addr.clone(),
            value: true,
            transfer_ownership: Some(OwnershipTransfer { addr: pending.module_addr.clone(), is_enrollment: false }),
        };
        Ok(CreationReplyAction::Created { competition_id: c, lock })
    }

    /// Turns off the third-place match of enrollment `id`'s tournament (see
    /// `remove_third_place_match`); refused, changing nothing, when there is
    /// no such enrollment.
    pub fn remove_third_place_match(&mut self, id: u128) -> (r: Result<(), EnrollmentError>)
        requires
            old(self).wf(),
        ensures
            final(self).wf(),
            final(self).count == old(self).count,
            !old(self).entries@.contains_key(id) ==> r == Err::<(), EnrollmentError>(EnrollmentError::EnrollmentNotFound { id })
                && *final(self) == *old(self),
            old(self).entries@.contains_key(id) ==> r is Ok && final(self).entries@ == old(self).entries@.insert(
                id,
                EnrollmentEntry {
                    competition_type: without_third_place(old(self).entries@[id].competition_type),
                    ..old(self).entries@[id]
                },
            ),
    {
        let i = match self.entries.find(id) {
            None => return Err(EnrollmentError::EnrollmentNotFound { id }),
            Some(i) => i,
        };
        let ghost s = self.entries.entries@;
        let e = self.entries.value_mut(i);
        remove_third_place_match(&mut e.competition_type);
        proof {
            let t = self.entries.entries@[i as int].1.competition_type;
            let v = EnrollmentEntry { competition_type: t, ..s[i as int].1 };
            assert(self.entries.entries@ =~= s.update(i as int, (s[i as int].0, v)));
            lemma_id_update_value(s, i as int, v);
            assert forall|k: u128| #[trigger] self.entries@.contains_key(k) implies 1 <= k <= self.count by {
                assert(old(self).entries@.contains_key(k));
            }
        }
        Ok(())
    }

    /// The enrollment under `id`, if any.
    pub fn get(&self, id: u128) -> (r: Option<&EnrollmentEntry>)
        requires
            self.wf(),
        ensures
            match r {
                Some(e) => self.entries@.contains_key(id) && *e == self.entries@[id],
                None => !self.entries@.contains_key(id),
            },
    {
        self.entries.get(id)
    }

    /// A page of enrollment ids. Unfiltered, the ids after `start_after` in
    /// ascending order; filtered by category or host, the matching ids after
    /// `start_after` in descending order. At most the page limit of `limit`.
    pub fn page(&self, start_after: Option<u128>, limit: Option<u32>, filter: Option<EnrollmentFilter>) -> (r: Vec<u128>)
        requires
            self.wf(),
        ensures
            r@ == truncated(
                match filter {
                    None => ids_after(self.entries.entries@, start_after),
                    Some(f) => ids_after_reversed(self.entries.entries@, f, start_after),
                },
                page_limit_spec(limit) as nat,
            ),
    {
        let n = page_limit(limit);
        let ghost s = self.entries.entries@;
        let mut out: Vec<u128> = Vec::new();
        match filter {
            None => {
                let mut i: usize = 0;
                while i < self.entries.entries.len()
                    invariant
                        s == self.entries.entries@,
                        i <= s.len(),
                        n == page_limit_spec(limit),
                        out@ == truncated(ids_after(s.take(i as int), start_after), n as nat),
                    decreases s.len() - i,
                {
                    let id = self.entries.entries[i].0;
                    let keep = match start_after {
                        Some(a) => id > a,
                        None => true,
                    };
                    assert(s.take(i + 1).drop_last() =~= s.take(i as int));
                    assert(s.take(i + 1).last() == s[i as int]);
                    proof {
                        lemma_truncated_push(ids_after(s.take(i as int), start_after), id, n as nat);
                    }
                    if keep && out.len() < n as usize {
                        out.push(id);
                    }
                    i = i + 1;
                }
                assert(s.take(s.len() as int) =~= s);
            },
            Some(f) => {
                let mut i: usize = self.entries.entries.len();
                assert(s.skip(s.len() as int) =~= Seq::<(u128, EnrollmentEntry)>::empty());
                while i > 0
                    invariant
                        s == self.entries.entries@,
                        i <= s.len(),
                        n == page_limit_spec(limit),
                        out@ == truncated(ids_after_reversed(s.skip(i as int), f, start_after), n as nat),
                    decreases i,
                {
                    i = i - 1;
                    let e = &self.entries.entries[i];
                    let passes = match &f {
                        EnrollmentFilter::Category { category_id } => {
                            let mine = match e.1.category_id {
                                Some(c) => c,
                                None => 0,
                            };
                            let wanted = match category_id {
                                Some(c) => *c,
                                None => 0,
                            };
                            mine == wanted
                        },
                        EnrollmentFilter::Host(h) => e.1.host == *h,
                    };
                    let keep = match start_after {
                        Some(a) => e.0 > a,
                        None => true,
                    } && passes;
                    assert(s.skip(i as int).drop_first() =~= s.skip(i + 1));
                    assert(s.skip(i as int)[0] == s[i as int]);
                    proof {
                        lemma_truncated_push(ids_after_reversed(s.skip(i + 1), f, start_after), e.0, n as nat);
                    }
                    if keep && out.len() < n as usize {
                        out.push(e.0);
                    }
                }
                assert(s.skip(0) =~= s);
            },
        }
        out
    }
}

} // verus!
