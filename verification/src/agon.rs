use vstd::prelude::*;
use crate::arena_core::{all_present, first_absent_at};
use crate::balance::{covers, is_difference, is_empty_spec, is_sum, same_balance, sum_overflows, Balance, BalanceError};
use crate::id_map::{lemma_id_update_value, IdMap};
use crate::math::{checked_mul_div_spec, Decimal, MathError, DECIMAL_FRACTIONAL};
use crate::member_balances::MemberBalance;
use crate::str_map::{lemma_str_update, StrMap};

verus! {

/// How to migrate the wager escrow.
#[derive(Debug, Clone, Copy, PartialEq, Eq, Structural)]
pub struct MigrateMsg {}

/// Why an operation of the wager contracts was refused.
#[derive(Debug, Clone, PartialEq, Eq)]
pub enum AgonError {
    /// The tax may not exceed one whole.
    TaxAboveOne,
    RulesetNotFound { id: u128 },
    /// The sender is not the admin.
    NotAdmin,
    Locked,
    /// The total stake has not been recorded.
    TotalStakeNotFound,
    Overflow,
    Balance(BalanceError),
    Math(MathError),
}

/// The tax of the wager core may be at most one whole.
pub fn validate_agon_tax(tax: Decimal) -> (r: Result<(), AgonError>)
    ensures
        tax.atomics > DECIMAL_FRACTIONAL ==> r == Err::<(), AgonError>(AgonError::TaxAboveOne),
        tax.atomics <= DECIMAL_FRACTIONAL ==> r is Ok,
{
    if tax.atomics > DECIMAL_FRACTIONAL {
        Err(AgonError::TaxAboveOne)
    } else {
        Ok(())
    }
}

/// A ruleset of the wager core.
#[derive(Debug)]
pub struct AgonRuleset {
    pub rules: Vec<String>,
    pub description: String,
    pub is_enabled: bool,
}

/// A ruleset, disabled.
pub open spec fn agon_disabled(r: AgonRuleset) -> AgonRuleset {
    AgonRuleset { rules: r.rules, description: r.description, is_enabled: false }
}

/// The rulesets after those listed were disabled.
pub open spec fn disable_agon_rulesets(m: Map<u128, AgonRuleset>, ids: Seq<u128>) -> Map<u128, AgonRuleset> {
    Map::new(|k: u128| m.contains_key(k), |k: u128| if ids.contains(k) { agon_disabled(m[k]) } else { m[k] })
}

/// The rulesets after `adds` were stored under the ids from `count` upwards.
pub open spec fn with_agon_rulesets(m: Map<u128, AgonRuleset>, count: u128, adds: Seq<AgonRuleset>) -> Map<
    u128,
    AgonRuleset,
> {
    Map::new(
        |k: u128| m.contains_key(k) || (count <= k && k < count + adds.len()),
        |k: u128|
            if count <= k && k < count + adds.len() {
                adds[k - count]
            } else {
                m[k]
            },
    )
}

/// The rulesets of the wager core, by id, and the next id to use.
#[derive(Debug)]
pub struct AgonRulesets {
    pub rulesets: IdMap<AgonRuleset>,
    pub count: u128,
}

impl AgonRulesets {
    /// Every stored id lies below the next id.
    pub open spec fn wf(&self) -> bool {
        &&& self.rulesets.wf()
        &&& forall|k: u128| #[trigger] self.rulesets@.contains_key(k) ==> k < self.count
    }

    /// No ruleset yet.
    pub fn new() -> (r: AgonRulesets)
        ensures
            r.wf(),
            r.count == 0,
            r.rulesets@ == Map::<u128, AgonRuleset>::empty(),
    {
        AgonRulesets { rulesets: IdMap::new(), count: 0 }
    }

    /// Disables the listed rulesets, then stores the new ones, as given,
    /// under the ids from the current count upwards; returns the new count.
    /// Nothing changes when a ruleset to disable is missing or the ids would
    /// overflow.
    pub fn update_rulesets(&mut self, to_add: Vec<AgonRuleset>, to_disable: &Vec<u128>) -> (r: Result<u128, AgonError>)
        requires
            old(self).wf(),
        ensures
            final(self).wf(),
            !all_present(old(self).rulesets@.dom(), to_disable@) ==> *final(self) == *old(self) && exists|j: int|
                first_absent_at(old(self).rulesets@.dom(), to_disable@, j) && r == Err::<u128, AgonError>(
                    AgonError::RulesetNotFound { id: to_disable@[j] },
                ),
            all_present(old(self).rulesets@.dom(), to_disable@) && old(self).count + to_add.len() > u128::MAX ==> r
                == Err::<u128, AgonError>(AgonError::Overflow) && *final(self) == *old(self),
            all_present(old(self).rulesets@.dom(), to_disable@) && old(self).count + to_add.len() <= u128::MAX ==> {
                &&& r == Ok::<u128, AgonError>((old(self).count + to_add.len()) as u128)
                &&& final(self).count == old(self).count + to_add.len()
                &&& final(self).rulesets@ == with_agon_rulesets(
                    disable_agon_rulesets(old(self).rulesets@, to_disable@),
                    old(self).count,
                    to_add@,
                )
            },
    {
        let mut i: usize = 0;
        while i < to_disable.len()
            invariant
                self.wf(),
                i <= to_disable.len(),
                forall|k: int| 0 <= k < i ==> self.rulesets@.dom().contains(#[trigger] to_disable@[k]),
            decreases to_disable.len() - i,
        {
            if !self.rulesets.contains(to_disable[i]) {
                assert(first_absent_at(self.rulesets@.dom(), to_disable@, i as int));
                return Err(AgonError::RulesetNotFound { id: to_disable[i] });
            }
            i = i + 1;
        }
        let count = self.count;
        if count > u128::MAX - (to_add.len() as u128) {
            return Err(AgonError::Overflow);
        }
        let ghost old_rulesets = self.rulesets@;
        let ghost ids = to_disable@;
        let ghost adds = to_add@;
        let mut i: usize = 0;
        while i < to_disable.len()
            invariant
                i <= to_disable.len(),
                to_disable@ == ids,
                all_present(old_rulesets.dom(), ids),
                self.rulesets.wf(),
                self.count == count,
                self.rulesets@ == disable_agon_rulesets(old_rulesets, ids.take(i as int)),
                forall|k: u128| #[trigger] old_rulesets.contains_key(k) ==> k < count,
            decreases to_disable.len() - i,
        {
            let id = to_disable[i];
            let ghost before = self.rulesets@;
            assert(old_rulesets.dom().contains(ids[i as int]));
            let j = self.rulesets.find(id).unwrap();
            let ghost s = self.rulesets.entries@;
            let rs = self.rulesets.value_mut(j);
            rs.is_enabled = false;
            proof {
                lemma_id_update_value(s, j as int, self.rulesets.entries@[j as int].1);
                assert(self.rulesets.entries@ == s.update(j as int, (s[j as int].0, self.rulesets.entries@[j as int].1)));
                assert(self.rulesets@ == before.insert(id, agon_disabled(before[id])));
                assert forall|k: u128| #[trigger] ids.take(i as int + 1).contains(k) == (ids.take(i as int).contains(k) || k == id) by {
                    if ids.take(i as int + 1).contains(k) {
                        let x = choose|x: int| 0 <= x < i + 1 && #[trigger] ids.take(i as int + 1)[x] == k;
                        if x < i {
                            assert(ids.take(i as int)[x] == k);
                        }
                    }
                    if ids.take(i as int).contains(k) {
                        let x = choose|x: int| 0 <= x < i && #[trigger] ids.take(i as int)[x] == k;
                        assert(ids.take(i as int + 1)[x] == k);
                    }
                    if k == id {
                        assert(ids.take(i as int + 1)[i as int] == k);
                    }
                }
                assert(self.rulesets@ =~= disable_agon_rulesets(old_rulesets, ids.take(i as int + 1)));
            }
            i = i + 1;
        }
        assert(ids.take(to_disable.len() as int) =~= ids);
        let ghost disabled = self.rulesets@;
        let mut to_add = to_add;
        let n = to_add.len();
        let mut i: usize = 0;
        while i < n
            invariant
                n == adds.len(),
                i <= n,
                count + n <= u128::MAX,
                to_add@ == adds.skip(i as int),
                self.rulesets.wf(),
                self.count == count + i,
                forall|k: u128| #[trigger] disabled.contains_key(k) ==> k < count,
                self.rulesets@ == with_agon_rulesets(disabled, count, adds.take(i as int)),
                forall|k: u128| #[trigger] self.rulesets@.contains_key(k) ==> k < self.count,
            decreases n - i,
        {
            assert(adds.skip(i as int)[0] == adds[i as int]);
            let ruleset = to_add.remove(0);
            assert(to_add@ =~= adds.skip(i as int + 1));
            let id = self.count;
            self.rulesets.insert(id, ruleset);
            self.count = id + 1;
            i = i + 1;
            assert(self.rulesets@ =~= with_agon_rulesets(disabled, count, adds.take(i as int)));
        }
        assert(adds.take(n as int) =~= adds);
        Ok(self.count)
    }
}

/// The sum of the weights of a preset distribution.
pub open spec fn weights_total(s: Seq<(String, Decimal)>) -> int
    decreases s.len(),
{
    if s.len() == 0 {
        0
    } else {
        weights_total(s.drop_last()) + s.last().1.atomics
    }
}

/// The weights of a list, a later entry for an address replacing an earlier.
pub open spec fn weights_map(s: Seq<(String, Decimal)>) -> Map<Seq<char>, Decimal>
    decreases s.len(),
{
    if s.len() == 0 {
        Map::empty()
    } else {
        weights_map(s.drop_last()).insert(s.last().0@, s.last().1)
    }
}

/// A weight of a preset, rescaled to the share `w` of an input entry whose
/// preset weights add up to `total`: `weight * w / total`, each step rounded
/// down as decimals are.
pub open spec fn rescaled(weight: Decimal, w: Decimal, total: u128) -> Result<Decimal, MathError> {
    match checked_mul_div_spec(weight.atomics, w.atomics, DECIMAL_FRACTIONAL) {
        Err(e) => Err(e),
        Ok(p) => match checked_mul_div_spec(p, DECIMAL_FRACTIONAL, total) {
            Err(e) => Err(e),
            Ok(q) => Ok(Decimal { atomics: q }),
        },
    }
}

/// The output after the preset `p` was spread over the share `w`, entry by
/// entry, into `m`.
pub open spec fn spread(m: Map<Seq<char>, Decimal>, p: Seq<(String, Decimal)>, w: Decimal, total: u128) -> Result<
    Map<Seq<char>, Decimal>,
    MathError,
>
    decreases p.len(),
{
    if p.len() == 0 {
        Ok(m)
    } else {
        match spread(m, p.drop_last(), w, total) {
            Err(e) => Err(e),
            Ok(m2) => match rescaled(p.last().1, w, total) {
                Err(e) => Err(e),
                Ok(x) => Ok(m2.insert(p.last().0@, x)),
            },
        }
    }
}

/// The distribution after the presets are applied to the input, entry by
/// entry: an address with a preset hands its share on to the preset's
/// addresses in proportion to their weights; any other keeps its share.
pub open spec fn apply_presets(presets: Map<Seq<char>, Seq<(String, Decimal)>>, input: Seq<(String, Decimal)>) -> Result<
    Map<Seq<char>, Decimal>,
    MathError,
>
    decreases input.len(),
{
    if input.len() == 0 {
        Ok(Map::empty())
    } else {
        match apply_presets(presets, input.drop_last()) {
            Err(e) => Err(e),
            Ok(m) => {
                let (addr, w) = input.last();
                if presets.contains_key(addr@) {
                    let p = presets[addr@];
                    if weights_total(p) > u128::MAX {
                        Err(MathError::Overflow)
                    } else {
                        spread(m, p, w, weights_total(p) as u128)
                    }
                } else {
                    Ok(m.insert(addr@, w))
                }
            },
        }
    }
}

/// The weights of a prefix add up to no more than those of the whole list.
pub proof fn lemma_weights_total_prefix(s: Seq<(String, Decimal)>, j: int)
    requires
        0 <= j <= s.len(),
    ensures
        0 <= weights_total(s.take(j)) <= weights_total(s),
    decreases s.len() - j,
{
    if j < s.len() {
        assert(s.take(j + 1).drop_last() =~= s.take(j));
        lemma_weights_total_prefix(s, j + 1);
        lemma_weights_total_nonneg(s.take(j));
        assert(weights_total(s.take(j + 1)) == weights_total(s.take(j)) + s.take(j + 1).last().1.atomics);
    } else {
        assert(s.take(j) =~= s);
        lemma_weights_total_nonneg(s);
    }
}

/// Weights add up to at least zero.
pub proof fn lemma_weights_total_nonneg(s: Seq<(String, Decimal)>)
    ensures
        weights_total(s) >= 0,
    decreases s.len(),
{
    if s.len() > 0 {
        lemma_weights_total_nonneg(s.drop_last());
    }
}

/// Once spreading a prefix fails, spreading the whole preset fails alike.
pub proof fn lemma_spread_error(m: Map<Seq<char>, Decimal>, p: Seq<(String, Decimal)>, w: Decimal, total: u128, j: int)
    requires
        0 <= j <= p.len(),
        spread(m, p.take(j), w, total) is Err,
    ensures
        spread(m, p, w, total) == spread(m, p.take(j), w, total),
    decreases p.len() - j,
{
    if j < p.len() {
        assert(p.take(j + 1).drop_last() =~= p.take(j));
        lemma_spread_error(m, p, w, total, j + 1);
    } else {
        assert(p.take(j) =~= p);
    }
}

/// Once applying the presets to a prefix fails, applying them to the whole
/// input fails alike.
pub proof fn lemma_apply_presets_error(
    presets: Map<Seq<char>, Seq<(String, Decimal)>>,
    input: Seq<(String, Decimal)>,
    j: int,
)
    requires
        0 <= j <= input.len(),
        apply_presets(presets, input.take(j)) is Err,
    ensures
        apply_presets(presets, input) == apply_presets(presets, input.take(j)),
    decreases input.len() - j,
{
    if j < input.len() {
        assert(input.take(j + 1).drop_last() =~= input.take(j));
        lemma_apply_presets_error(presets, input, j + 1);
    } else {
        assert(input.take(j) =~= input);
    }
}

/// The escrow of a wager: deposits, dues and stakes by address, the totals,
/// the lock, and the preset distributions that addresses have set.
#[derive(Debug)]
pub struct AgonEscrow {
    pub admin: Option<String>,
    pub balances: StrMap<Balance>,
    pub dues: StrMap<Balance>,
    pub stakes: StrMap<Balance>,
    pub total_balance: Balance,
    pub total_stake: Option<Balance>,
    pub is_locked: bool,
    /// The preset distribution of each address: weights by address.
    pub distributions: StrMap<StrMap<Decimal>>,
}

/// Every balance of the map is well formed.
pub open spec fn balances_wf(m: Map<Seq<char>, Balance>) -> bool {
    forall|a: Seq<char>| #[trigger] m.contains_key(a) ==> m[a].wf()
}

/// The presets of the escrow, as lists of entries.
pub open spec fn preset_lists(m: Map<Seq<char>, StrMap<Decimal>>) -> Map<Seq<char>, Seq<(String, Decimal)>> {
    Map::new(|a: Seq<char>| m.contains_key(a), |a: Seq<char>| m[a].entries@)
}

/// Every preset of the map is well formed.
pub open spec fn presets_wf(m: Map<Seq<char>, StrMap<Decimal>>) -> bool {
    forall|a: Seq<char>| #[trigger] m.contains_key(a) ==> m[a].wf()
}

impl AgonEscrow {
    /// The maps and balances are well formed.
    pub open spec fn wf(&self) -> bool {
        &&& self.balances.wf()
        &&& self.dues.wf()
        &&& self.stakes.wf()
        &&& self.distributions.wf()
        &&& presets_wf(self.distributions@)
        &&& balances_wf(self.balances@)
        &&& balances_wf(self.dues@)
        &&& balances_wf(self.stakes@)
        &&& self.total_balance.wf()
        &&& self.total_stake matches Some(t) ==> t.wf()
    }

    /// An empty escrow administered by `admin`.
    pub fn new(admin: String) -> (e: AgonEscrow)
        ensures
            e.wf(),
            e.admin == Some(admin),
            e.balances@ == Map::<Seq<char>, Balance>::empty(),
            e.dues@ == Map::<Seq<char>, Balance>::empty(),
            e.stakes@ == Map::<Seq<char>, Balance>::empty(),
            is_empty_spec(e.total_balance),
            e.total_stake is None,
            !e.is_locked,
            e.distributions@ == Map::<Seq<char>, StrMap<Decimal>>::empty(),
    {
        AgonEscrow {
            admin: Some(admin),
            balances: StrMap::new(),
            dues: StrMap::new(),
            stakes: StrMap::new(),
            total_balance: Balance::empty(),
            total_stake: None,
            is_locked: false,
            distributions: StrMap::new(),
        }
    }

    /// Whether `sender` is the admin.
    pub open spec fn is_admin(&self, sender: Seq<char>) -> bool {
        self.admin matches Some(a) && a@ == sender
    }

    /// Sets the lock; only the admin may.
    pub fn lock(&mut self, sender: &String, value: bool) -> (r: Result<(), AgonError>)
        ensures
            !old(self).is_admin(sender@) ==> r == Err::<(), AgonError>(AgonError::NotAdmin) && *final(self) == *old(self),
            old(self).is_admin(sender@) ==> r is Ok && *final(self) == (AgonEscrow { is_locked: value, ..*old(self) }),
    {
        match &self.admin {
            Some(a) => {
                if *a != *sender {
                    return Err(AgonError::NotAdmin);
                }
            },
            None => {
                return Err(AgonError::NotAdmin);
            },
        }
        self.is_locked = value;
        Ok(())
    }

    /// Refunds what `sender` has deposited, taking it off the total. The
    /// record of the deposit stays as it was. Refused while locked; nothing
    /// is refunded for an empty or missing deposit.
    pub fn withdraw(&mut self, sender: &String) -> (r: Result<Vec<MemberBalance>, AgonError>)
        requires
            old(self).wf(),
        ensures
            final(self).wf(),
            old(self).is_locked ==> r == Err::<Vec<MemberBalance>, AgonError>(AgonError::Locked)
                && *final(self) == *old(self),
            !old(self).is_locked && (!old(self).balances@.contains_key(sender@) || is_empty_spec(
                old(self).balances@[sender@],
            )) ==> (r matches Ok(v) && v@.len() == 0) && *final(self) == *old(self),
            !old(self).is_locked && old(self).balances@.contains_key(sender@) && !is_empty_spec(
                old(self).balances@[sender@],
            ) && !covers(old(self).total_balance, old(self).balances@[sender@]) ==> r == Err::<
                Vec<MemberBalance>,
                AgonError,
            >(AgonError::Balance(BalanceError::Insufficient)) && *final(self) == *old(self),
            !old(self).is_locked && old(self).balances@.contains_key(sender@) && !is_empty_spec(
                old(self).balances@[sender@],
            ) && covers(old(self).total_balance, old(self).balances@[sender@]) ==> (r matches Ok(v) && {
                &&& v@.len() == 1
                &&& v@[0].addr@ == sender@
                &&& v@[0].balance.native@ == old(self).balances@[sender@].native@
                &&& v@[0].balance.cw20@ == old(self).balances@[sender@].cw20@
                &&& v@[0].balance.cw721@ == old(self).balances@[sender@].cw721@
                &&& is_difference(old(self).total_balance, old(self).balances@[sender@], final(self).total_balance)
                &&& final(self).balances == old(self).balances
                &&& final(self).dues == old(self).dues
                &&& final(self).stakes == old(self).stakes
                &&& final(self).total_stake == old(self).total_stake
                &&& final(self).is_locked == old(self).is_locked
                &&& final(self).admin == old(self).admin
                &&& final(self).distributions == old(self).distributions
            }),
    {
        if self.is_locked {
            return Err(AgonError::Locked);
        }
        let balance = match self.balances.get(sender) {
            Some(b) => b,
            None => {
                return Ok(Vec::new());
            },
        };
        if balance.is_empty() {
            return Ok(Vec::new());
        }
        let new_total = match self.total_balance.checked_sub(balance) {
            Ok(t) => t,
            Err(e) => {
                return Err(AgonError::Balance(e));
            },
        };
        let refund = MemberBalance { addr: sender.clone(), balance: balance.copy() };
        self.total_balance = new_total;
        let mut out = Vec::new();
        out.push(refund);
        Ok(out)
    }

    /// Takes in a deposit of `addr`: adds it to the deposit, counts it
    /// against the due (an address without a due gets an empty one), and adds
    /// it to the total. Nothing changes when a sum overflows or the deposit
    /// exceeds the due.
    pub fn receive(&mut self, addr: &String, balance: &Balance) -> (r: Result<(), AgonError>)
        requires
            old(self).wf(),
            balance.wf(),
        ensures
            final(self).wf(),
            r is Err ==> *final(self) == *old(self),
            old(self).balances@.contains_key(addr@) && sum_overflows(*balance, old(self).balances@[addr@]) ==> r
                == Err::<(), AgonError>(AgonError::Balance(BalanceError::Overflow)),
            !(old(self).balances@.contains_key(addr@) && sum_overflows(*balance, old(self).balances@[addr@]))
                && old(self).dues@.contains_key(addr@) && !covers(old(self).dues@[addr@], *balance) ==> r == Err::<
                (),
                AgonError,
            >(AgonError::Balance(BalanceError::Insufficient)),
            !(old(self).balances@.contains_key(addr@) && sum_overflows(*balance, old(self).balances@[addr@]))
                && !(old(self).dues@.contains_key(addr@) && !covers(old(self).dues@[addr@], *balance))
                && sum_overflows(old(self).total_balance, *balance) ==> r == Err::<(), AgonError>(
                AgonError::Balance(BalanceError::Overflow),
            ),
            r is Ok ==> {
                &&& final(self).balances@.contains_key(addr@)
                &&& (if old(self).balances@.contains_key(addr@) {
                    is_sum(*balance, old(self).balances@[addr@], final(self).balances@[addr@])
                } else {
                    same_balance(final(self).balances@[addr@], *balance)
                })
                &&& forall|a: Seq<char>| a != addr@ ==> #[trigger] final(self).balances@.contains_key(a)
                    == old(self).balances@.contains_key(a) && (old(self).balances@.contains_key(a)
                    ==> final(self).balances@[a] == old(self).balances@[a])
                &&& final(self).dues@.contains_key(addr@)
                &&& (if old(self).dues@.contains_key(addr@) {
                    is_difference(old(self).dues@[addr@], *balance, final(self).dues@[addr@])
                } else {
                    is_empty_spec(final(self).dues@[addr@])
                })
                &&& forall|a: Seq<char>| a != addr@ ==> #[trigger] final(self).dues@.contains_key(a)
                    == old(self).dues@.contains_key(a) && (old(self).dues@.contains_key(a) ==> final(self).dues@[a]
                    == old(self).dues@[a])
                &&& is_sum(old(self).total_balance, *balance, final(self).total_balance)
                &&& final(self).stakes == old(self).stakes
                &&& final(self).total_stake == old(self).total_stake
                &&& final(self).is_locked == old(self).is_locked
                &&& final(self).admin == old(self).admin
                &&& final(self).distributions == old(self).distributions
            },
            !(old(self).balances@.contains_key(addr@) && sum_overflows(*balance, old(self).balances@[addr@]))
                && !(old(self).dues@.contains_key(addr@) && !covers(old(self).dues@[addr@], *balance))
                && !sum_overflows(old(self).total_balance, *balance) ==> r is Ok,
    {
        let new_balance = match self.balances.get(addr) {
            Some(b) => match balance.checked_add(b) {
                Ok(s) => s,
                Err(e) => {
                    return Err(AgonError::Balance(e));
                },
            },
            None => balance.copy(),
        };
        let new_due = match self.dues.get(addr) {
            Some(d) => match d.checked_sub(balance) {
                Ok(s) => s,
                Err(e) => {
                    return Err(AgonError::Balance(e));
                },
            },
            None => Balance::empty(),
        };
        let new_total = match self.total_balance.checked_add(balance) {
            Ok(t) => t,
            Err(e) => {
                return Err(AgonError::Balance(e));
            },
        };
        self.balances.insert(addr.clone(), new_balance);
        self.dues.insert(addr.clone(), new_due);
        self.total_balance = new_total;
        Ok(())
    }

    /// Sets the preset distribution of `sender`: a later entry for an
    /// address replaces an earlier one.
    pub fn set_distribution(&mut self, sender: &String, distribution: Vec<(String, Decimal)>)
        requires
            old(self).wf(),
        ensures
            final(self).wf(),
            final(self).distributions@.contains_key(sender@),
            final(self).distributions@[sender@]@ == weights_map(distribution@),
            forall|a: Seq<char>| a != sender@ ==> #[trigger] final(self).distributions@.contains_key(a)
                == old(self).distributions@.contains_key(a) && (old(self).distributions@.contains_key(a)
                ==> final(self).distributions@[a] == old(self).distributions@[a]),
            final(self).balances == old(self).balances,
            final(self).dues == old(self).dues,
            final(self).stakes == old(self).stakes,
            final(self).total_balance == old(self).total_balance,
            final(self).total_stake == old(self).total_stake,
            final(self).is_locked == old(self).is_locked,
            final(self).admin == old(self).admin,
    {
        let mut weights: StrMap<Decimal> = StrMap::new();
        let mut i: usize = 0;
        while i < distribution.len()
            invariant
                i <= distribution.len(),
                weights.wf(),
                weights@ == weights_map(distribution@.take(i as int)),
            decreases distribution.len() - i,
        {
            let (a, w) = &distribution[i];
            weights.insert(a.clone(), *w);
            assert(distribution@.take(i + 1).drop_last() =~= distribution@.take(i as int));
            i = i + 1;
        }
        assert(distribution@.take(distribution.len() as int) =~= distribution@);
        self.distributions.insert(sender.clone(), weights);
    }

    /// The preset distribution of `addr`, if it set one.
    pub fn distribution(&self, addr: &String) -> (r: Option<&StrMap<Decimal>>)
        requires
            self.wf(),
        ensures
            match r {
                Some(d) => self.distributions@.contains_key(addr@) && *d == self.distributions@[addr@],
                None => !self.distributions@.contains_key(addr@),
            },
    {
        self.distributions.get(addr)
    }

    /// What can be distributed: the total deposited less the total stake.
    pub fn distributable_balance(&self) -> (r: Result<Balance, AgonError>)
        requires
            self.wf(),
        ensures
            self.total_stake is None ==> r == Err::<Balance, AgonError>(AgonError::TotalStakeNotFound),
            self.total_stake matches Some(t) ==> match r {
                Ok(b) => b.wf() && is_difference(self.total_balance, t, b),
                Err(e) => e == AgonError::Balance(BalanceError::Insufficient) && !covers(self.total_balance, t),
            },
    {
        match &self.total_stake {
            None => Err(AgonError::TotalStakeNotFound),
            Some(t) => match self.total_balance.checked_sub(t) {
                Ok(b) => Ok(b),
                Err(e) => Err(AgonError::Balance(e)),
            },
        }
    }

    /// Applies the preset distributions to `input`, entry by entry in the
    /// order given (a distribution map gives its entries in ascending address
    /// order): an address that set a preset hands its share on to the
    /// preset's addresses in proportion to their weights; any other keeps its
    /// share. A later result for an address replaces an earlier one.
    #[verifier::loop_isolation(false)]
    pub fn apply_preset_distribution(&self, input: &Vec<(String, Decimal)>) -> (r: Result<StrMap<Decimal>, AgonError>)
        requires
            self.wf(),
        ensures
            match apply_presets(preset_lists(self.distributions@), input@) {
                Ok(m) => r matches Ok(out) && out.wf() && out@ == m,
                Err(e) => r == Err::<StrMap<Decimal>, AgonError>(AgonError::Math(e)),
            },
    {
        let ghost presets = preset_lists(self.distributions@);
        let ghost inp = input@;
        let mut out: StrMap<Decimal> = StrMap::new();
        let mut i: usize = 0;
        while i < input.len()
            invariant
                self.wf(),
                presets == preset_lists(self.distributions@),
                inp == input@,
                i <= inp.len(),
                out.wf(),
                apply_presets(presets, inp.take(i as int)) == Ok::<Map<Seq<char>, Decimal>, MathError>(out@),
            decreases inp.len() - i,
        {
            let (addr, w) = &input[i];
            let w = *w;
            assert(inp.take(i + 1).drop_last() =~= inp.take(i as int));
            assert(inp.take(i + 1).last() == inp[i as int]);
            let ghost before = out@;
            match self.distributions.get(addr) {
                None => {
                    out.insert(addr.clone(), w);
                },
                Some(preset) => {
                    let ghost p = preset.entries@;
                    assert(presets.contains_key(addr@) && presets[addr@] == p);
                    // The sum of the preset's weights.
                    let mut total = Decimal::zero();
                    let mut j: usize = 0;
                    while j < preset.entries.len()
                        invariant
                            p == preset.entries@,
                            j <= p.len(),
                            total.atomics == weights_total(p.take(j as int)),
                        decreases p.len() - j,
                    {
                        assert(p.take(j + 1).drop_last() =~= p.take(j as int));
                        match total.checked_add(preset.entries[j].1) {
                            Ok(t) => {
                                total = t;
                            },
                            Err(e) => {
                                proof {
                                    lemma_weights_total_prefix(p, j + 1);
                                    lemma_apply_presets_error(presets, inp, i + 1);
                                }
                                return Err(AgonError::Math(e));
                            },
                        }
                        j = j + 1;
                    }
                    assert(p.take(p.len() as int) =~= p);
                    // Spread the share over the preset.
                    let mut j: usize = 0;
                    while j < preset.entries.len()
                        invariant
                            p == preset.entries@,
                            j <= p.len(),
                            total.atomics == weights_total(p),
                            out.wf(),
                            spread(before, p.take(j as int), w, total.atomics) == Ok::<
                                Map<Seq<char>, Decimal>,
                                MathError,
                            >(out@),
                        decreases p.len() - j,
                    {
                        assert(p.take(j + 1).drop_last() =~= p.take(j as int));
                        assert(p.take(j + 1).last() == p[j as int]);
                        let (pa, pw) = &preset.entries[j];
                        let scaled = match pw.checked_mul(w) {
                            Ok(x) => match x.checked_div(total) {
                                Ok(y) => y,
                                Err(e) => {
                                    proof {
                                        lemma_spread_error(before, p, w, total.atomics, j + 1);
                                        lemma_apply_presets_error(presets, inp, i + 1);
                                    }
                                    return Err(AgonError::Math(e));
                                },
                            },
                            Err(e) => {
                                proof {
                                    lemma_spread_error(before, p, w, total.atomics, j + 1);
                                    lemma_apply_presets_error(presets, inp, i + 1);
                                }
                                return Err(AgonError::Math(e));
                            },
                        };
                        out.insert(pa.clone(), scaled);
                        j = j + 1;
                    }
                    assert(p.take(p.len() as int) =~= p);
                },
            }
            i = i + 1;
        }
        assert(inp.take(inp.len() as int) =~= inp);
        Ok(out)
    }
}

} // verus!
