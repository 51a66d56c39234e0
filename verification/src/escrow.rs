use vstd::prelude::*;
use crate::amount_map::{sat_sub, AmountMap};
use crate::balance::{
    covers, is_difference, is_empty_spec, is_scaled, is_sum, same_balance, sum_overflows, Balance, BalanceError,
};
use crate::chain::{BankSend, Coin};
use crate::distribution::{
    joined, passed_on, routed,
    after_fees, all_fees_feasible, apply_layered_fees, fee_indices, fee_payouts_match, fees_feasible, cw20_total,
    lemma_fee_payouts_same_amounts, lemma_list_totals, lemma_native_total_concat, lemma_split_feasible_same_amounts, native_total, split_feasible, Distribution,
    pass_on, FeeInformation, MemberPercentage, Route,
};
use crate::member_balances::{
    credit_cw20, credit_native, credit_nfts, credit_overflows, credited, credits_fit, entries_total, fungible_in, is_page,
    lemma_credit_within_total,
    lemma_held_by_within, lemma_held_clear, lemma_held_except, MemberBalance, MemberBalances,
};
use crate::nft_set::NftSet;

verus! {

/// How to migrate an escrow.
#[derive(Debug, Clone, Copy, PartialEq, Eq, Structural)]
pub enum MigrateMsg {
    FromCompatible,
}

/// The steps a migration from a stored version takes.
#[derive(Debug, Clone, Copy, PartialEq, Eq, Structural)]
pub struct MigrationPlan {
    /// Drop the activation flag and the stored distribution of version 1.8.
    pub from_v1_8: bool,
    /// Drop the deferred fees of version 2.0.
    pub from_v2_0: bool,
}

/// The steps to migrate an escrow stored at version `major.minor`.
pub fn migration_plan(major: u64, minor: u64) -> (p: MigrationPlan)
    ensures
        p.from_v1_8 == (major == 1 && minor == 8),
        p.from_v2_0 == (major == 2 && minor == 0),
{
    MigrationPlan { from_v1_8: major == 1 && minor == 8, from_v2_0: major == 2 && minor == 0 }
}

/// Why an escrow operation was refused.
#[derive(Debug, Clone, PartialEq, Eq)]
pub enum EscrowError {
    /// The escrow has no owner.
    NoOwner,
    /// The sender is not the owner.
    NotOwner,
    Unauthorized,
    /// Withdrawals are refused while the escrow is locked.
    Locked,
    /// Nothing was sent, or there is nothing to take.
    EmptyBalance,
    /// Deposits are refused once the escrow has distributed.
    AlreadyDistributed,
    /// A regular escrow needs at least one due.
    NoneDue,
    /// Two dues name the same address.
    DuplicateDue,
    /// The distribution names someone who is not a member.
    InvalidDistribution,
    /// A product left the range of `u128`.
    Overflow,
    Balance(BalanceError),
}

/// The escrow of a competition: what each address has deposited, what each
/// still owes, what each owed at the start, and the total held.
#[derive(Debug)]
pub struct Escrow {
    pub owner: Option<String>,
    /// The enrollment contract that created this escrow, if any.
    pub enrollment_contract: Option<String>,
    pub is_locked: bool,
    pub has_distributed: bool,
    pub balances: MemberBalances,
    pub dues: MemberBalances,
    pub initial_dues: MemberBalances,
    pub total: Balance,
}

/// The outcome of a deposit.
#[derive(Debug)]
pub struct ReceiveOutcome {
    /// The owner to ask to activate the competition, once every due is paid.
    pub activate: Option<String>,
}

/// `after` owes for `a` what `before` owed, less what `paid` holds for `a`;
/// every other address owes the same.
pub open spec fn due_reduced(before: MemberBalances, a: Seq<char>, paid: MemberBalances, after: MemberBalances) -> bool {
    &&& after.same_except(before, a)
    &&& forall|k: Seq<char>| after.native_of(a, k) == sat_sub(before.native_of(a, k), paid.native_of(a, k))
    &&& forall|k: Seq<char>| after.cw20_of(a, k) == sat_sub(before.cw20_of(a, k), paid.cw20_of(a, k))
    &&& after.nfts_of(a) == before.nfts_of(a).difference(paid.nfts_of(a))
}

/// `after` holds nothing for `a` and the same as `before` for everyone else.
pub open spec fn cleared(before: MemberBalances, a: Seq<char>, after: MemberBalances) -> bool {
    &&& after.same_except(before, a)
    &&& !after.has(a)
}

/// `after` holds for `a` what `src` holds for `a`, and the same as `before`
/// for everyone else.
pub open spec fn copied(before: MemberBalances, a: Seq<char>, src: MemberBalances, after: MemberBalances) -> bool {
    &&& after.same_except(before, a)
    &&& after.has(a) == src.has(a)
    &&& src.has(a) ==> same_balance(after.at(a), src.at(a))
}

/// Whether an optional address names the same address as another.
pub open spec fn same_addr(a: Option<String>, b: Option<String>) -> bool {
    match (a, b) {
        (Some(x), Some(y)) => x@ == y@,
        (None, None) => true,
        _ => false,
    }
}

/// Why `sender` may not act as the owner, if it may not.
pub open spec fn owner_check(owner: Option<String>, sender: Seq<char>) -> Option<EscrowError> {
    match owner {
        None => Some(EscrowError::NoOwner),
        Some(o) => if o@ == sender {
            None
        } else {
            Some(EscrowError::NotOwner)
        },
    }
}

/// Two balances of which the second holds exactly `amount` of native `denom`
/// and nothing else.
pub open spec fn is_native_only(b: Balance, denom: Seq<char>, amount: int) -> bool {
    &&& forall|k: Seq<char>| b.native.amount_of(k) == if k == denom { amount } else { 0 }
    &&& forall|k: Seq<char>| b.cw20.amount_of(k) == 0
    &&& b.cw721@ == Set::<(Seq<char>, Seq<char>)>::empty()
}

/// Some address is listed twice among the dues.
pub open spec fn has_duplicate_due(s: Seq<MemberBalance>) -> bool {
    exists|i: int, j: int| #![trigger s[i], s[j]] 0 <= i < j < s.len() && s[i].addr@ == s[j].addr@
}

/// Whether the address of due `j` is listed before it.
fn listed_before(dues: &Vec<MemberBalance>, j: usize) -> (b: bool)
    requires
        j < dues.len(),
    ensures
        b <==> exists|i: int| 0 <= i < j && #[trigger] dues@[i].addr@ == dues@[j as int].addr@,
{
    let mut i: usize = 0;
    while i < j
        invariant
            i <= j < dues.len(),
            forall|x: int| 0 <= x < i ==> #[trigger] dues@[x].addr@ != dues@[j as int].addr@,
        decreases j - i,
    {
        if dues[i].addr == dues[j].addr {
            return true;
        }
        i = i + 1;
    }
    false
}

/// `m` holds exactly the nonempty dues of `s`.
pub open spec fn holds_dues(m: MemberBalances, s: Seq<MemberBalance>) -> bool {
    &&& forall|i: int| 0 <= i < s.len() && !is_empty_spec(#[trigger] s[i].balance) ==> m.has(s[i].addr@)
        && same_balance(m.at(s[i].addr@), s[i].balance)
    &&& forall|a: Seq<char>| #[trigger] m.has(a) ==> exists|i: int| 0 <= i < s.len() && s[i].addr@ == a
        && !is_empty_spec(s[i].balance)
}

impl Escrow {
    /// Opens an escrow owned by `sender` that expects the listed dues: at
    /// least one due, and no address listed twice. The escrow starts
    /// unlocked and with no enrollment contract; the enrollment flag of the
    /// message is accepted and has no effect.
    pub fn instantiate(sender: &String, dues: &Vec<MemberBalance>, _is_enrollment: bool) -> (r: Result<Escrow, EscrowError>)
        requires
            forall|i: int| 0 <= i < dues.len() ==> (#[trigger] dues@[i]).balance.wf(),
        ensures
            dues.len() == 0 ==> r == Err::<Escrow, EscrowError>(EscrowError::NoneDue),
            dues.len() > 0 && has_duplicate_due(dues@) ==> r == Err::<Escrow, EscrowError>(EscrowError::DuplicateDue),
            dues.len() > 0 && !has_duplicate_due(dues@) ==> (r matches Ok(e) && {
                &&& e.wf()
                &&& e.owner matches Some(o) && o@ == sender@
                &&& e.enrollment_contract is None
                &&& !e.is_locked
                &&& !e.has_distributed
                &&& e.balances.is_clear()
                &&& is_empty_spec(e.total)
                &&& e.ledger_balanced()
                &&& holds_dues(e.dues, dues@)
                &&& holds_dues(e.initial_dues, dues@)
            }),
    {
        if dues.len() == 0 {
            return Err(EscrowError::NoneDue);
        }
        let mut initial_dues = MemberBalances::new();
        let mut due_map = MemberBalances::new();
        let ghost s = dues@;
        let mut j: usize = 0;
        while j < dues.len()
            invariant
                s == dues@,
                forall|i: int| 0 <= i < dues.len() ==> (#[trigger] dues@[i]).balance.wf(),
                j <= s.len(),
                initial_dues.wf(),
                due_map.wf(),
                !has_duplicate_due(s.take(j as int)),
                holds_dues(initial_dues, s.take(j as int)),
                holds_dues(due_map, s.take(j as int)),
            decreases s.len() - j,
        {
            let ghost t = s.take(j as int);
            let ghost t1 = s.take(j + 1);
            let entry = &dues[j];
            if listed_before(dues, j) {
                proof {
                    let i = choose|i: int| 0 <= i < j && #[trigger] dues@[i].addr@ == dues@[j as int].addr@;
                    assert(0 <= i < j as int && s[i].addr@ == s[j as int].addr@);
                    assert(has_duplicate_due(s));
                }
                return Err(EscrowError::DuplicateDue);
            }
            proof {
                assert forall|i: int| 0 <= i < j implies #[trigger] t[i].addr@ != entry.addr@ by {
                    assert(t[i] == s[i]);
                    if s[i].addr@ == s[j as int].addr@ {
                        assert(dues@[i].addr@ == dues@[j as int].addr@);
                    }
                }
            }
            let ghost prev_init = initial_dues;
            let ghost prev_due = due_map;
            initial_dues.set(entry.addr.clone(), entry.balance.copy());
            due_map.set(entry.addr.clone(), entry.balance.copy());
            proof {
                assert forall|i: int| 0 <= i < t1.len() && !is_empty_spec(#[trigger] t1[i].balance) implies initial_dues.has(
                    t1[i].addr@,
                ) && same_balance(initial_dues.at(t1[i].addr@), t1[i].balance) && due_map.has(t1[i].addr@)
                    && same_balance(due_map.at(t1[i].addr@), t1[i].balance) by {
                    if i < j {
                        assert(t1[i] == t[i]);
                        assert(!is_empty_spec(t[i].balance));
                        assert(prev_init.has(t[i].addr@) && same_balance(prev_init.at(t[i].addr@), t[i].balance));
                        assert(prev_due.has(t[i].addr@) && same_balance(prev_due.at(t[i].addr@), t[i].balance));
                        assert(t[i].addr@ != entry.addr@);
                        assert(initial_dues.has(t[i].addr@) == prev_init.has(t[i].addr@));
                        assert(due_map.has(t[i].addr@) == prev_due.has(t[i].addr@));
                    } else {
                        assert(t1[i] == s[j as int]);
                        assert(!is_empty_spec(entry.balance));
                    }
                }
                assert forall|a: Seq<char>| #[trigger] initial_dues.has(a) implies exists|i: int| 0 <= i < t1.len()
                    && t1[i].addr@ == a && !is_empty_spec(t1[i].balance) by {
                    if a == entry.addr@ {
                        assert(t1[j as int] == s[j as int]);
                    } else {
                        assert(prev_init.has(a));
                        let i = choose|i: int| 0 <= i < t.len() && t[i].addr@ == a && !is_empty_spec(t[i].balance);
                        assert(t1[i] == t[i]);
                    }
                }
                assert forall|a: Seq<char>| #[trigger] due_map.has(a) implies exists|i: int| 0 <= i < t1.len()
                    && t1[i].addr@ == a && !is_empty_spec(t1[i].balance) by {
                    if a == entry.addr@ {
                        assert(t1[j as int] == s[j as int]);
                    } else {
                        assert(prev_due.has(a));
                        let i = choose|i: int| 0 <= i < t.len() && t[i].addr@ == a && !is_empty_spec(t[i].balance);
                        assert(t1[i] == t[i]);
                    }
                }
                assert(!has_duplicate_due(t1)) by {
                    if has_duplicate_due(t1) {
                        let (x, y) = choose|x: int, y: int| #![trigger t1[x], t1[y]] 0 <= x < y < t1.len() && t1[x].addr@ == t1[y].addr@;
                        if y < j {
                            assert(t1[x] == t[x] && t1[y] == t[y]);
                            assert(has_duplicate_due(t));
                        } else {
                            assert(t1[x] == t[x]);
                            assert(t1[y] == s[j as int]);
                            assert(t[x].addr@ != entry.addr@);
                        }
                    }
                }
            }
            j = j + 1;
        }
        proof {
            assert(s.take(s.len() as int) =~= s);
            if has_duplicate_due(s) {
                assert(false);
            }
        }
        Ok(Escrow {
            owner: Some(sender.clone()),
            enrollment_contract: None,
            is_locked: false,
            has_distributed: false,
            balances: MemberBalances::new(),
            dues: due_map,
            initial_dues,
            total: Balance::empty(),
        })
    }

    /// Every map and the total are well formed.
    pub open spec fn wf(&self) -> bool {
        &&& self.balances.wf()
        &&& self.dues.wf()
        &&& self.initial_dues.wf()
        &&& self.total.wf()
    }

    /// The ledger balances: for every fungible token, the escrow's total is
    /// what its members hold together.
    pub open spec fn ledger_balanced(&self) -> bool {
        forall|cw20: bool, k: Seq<char>| #[trigger] fungible_in(self.total, cw20, k) == self.balances.held(cw20, k)
    }

    /// Everything but the balances, the dues and the total is unchanged.
    pub open spec fn same_settings(&self, other: Escrow) -> bool {
        &&& self.owner == other.owner
        &&& self.enrollment_contract == other.enrollment_contract
        &&& self.has_distributed == other.has_distributed
        &&& self.initial_dues == other.initial_dues
    }

    /// Whether every due has been paid.
    pub fn is_fully_funded(&self) -> (b: bool)
        ensures
            b == self.dues.is_clear(),
    {
        self.dues.is_empty()
    }

    /// A page of the deposits: of the depositors after `start_after`, those
    /// holding native tokens are taken first, then those holding cw20 tokens,
    /// then those holding cw721 tokens, each kind in the order the stores
    /// key them (shorter addresses first, then bytewise), up to `limit` of
    /// them (0 for no limit); the page lists them in ascending address order.
    pub fn balances_page(&self, start_after: Option<&String>, limit: usize) -> (r: Vec<&MemberBalance>)
        requires
            self.wf(),
        ensures
            is_page(
                self.balances,
                match start_after {
                    Some(s) => Some(s@),
                    None => None,
                },
                limit as nat,
                r@,
            ),
    {
        self.balances.page(start_after, limit)
    }

    /// A page of what is still owed, as `balances_page` pages deposits.
    pub fn dues_page(&self, start_after: Option<&String>, limit: usize) -> (r: Vec<&MemberBalance>)
        requires
            self.wf(),
        ensures
            is_page(
                self.dues,
                match start_after {
                    Some(s) => Some(s@),
                    None => None,
                },
                limit as nat,
                r@,
            ),
    {
        self.dues.page(start_after, limit)
    }

    /// A page of what was owed at the start, as `balances_page` pages
    /// deposits.
    pub fn initial_dues_page(&self, start_after: Option<&String>, limit: usize) -> (r: Vec<&MemberBalance>)
        requires
            self.wf(),
        ensures
            is_page(
                self.initial_dues,
                match start_after {
                    Some(s) => Some(s@),
                    None => None,
                },
                limit as nat,
                r@,
            ),
    {
        self.initial_dues.page(start_after, limit)
    }

    /// Whether `addr` owes nothing.
    pub fn is_funded(&self, addr: &String) -> (b: bool)
        requires
            self.wf(),
        ensures
            b == !self.dues.has(addr@),
    {
        self.dues.find(addr).is_none()
    }

    /// Adds `balance` to what `addr` has deposited and to the total, counts
    /// it against what `addr` owes, and locks the escrow once every due is
    /// paid, asking the owner to activate the competition. Empty deposits,
    /// and deposits after the distribution, are refused.
    pub fn receive(&mut self, addr: &String, balance: &Balance) -> (r: Result<ReceiveOutcome, EscrowError>)
        requires
            old(self).wf(),
            balance.wf(),
        ensures
            final(self).wf(),
            r is Err ==> *final(self) == *old(self),
            old(self).ledger_balanced() ==> final(self).ledger_balanced(),
            is_empty_spec(*balance) ==> r == Err::<ReceiveOutcome, EscrowError>(EscrowError::EmptyBalance),
            !is_empty_spec(*balance) && old(self).has_distributed ==> r == Err::<ReceiveOutcome, EscrowError>(
                EscrowError::AlreadyDistributed,
            ),
            !is_empty_spec(*balance) && !old(self).has_distributed && (credit_overflows(
                old(self).balances,
                addr@,
                *balance,
            ) || sum_overflows(old(self).total, *balance)) ==> r == Err::<ReceiveOutcome, EscrowError>(
                EscrowError::Balance(BalanceError::Overflow),
            ),
            r is Ok ==> (r matches Ok(o) && {
                &&& !is_empty_spec(*balance)
                &&& !old(self).has_distributed
                &&& final(self).same_settings(*old(self))
                &&& credited(old(self).balances, addr@, *balance, final(self).balances)
                &&& is_sum(old(self).total, *balance, final(self).total)
                &&& if old(self).dues.has(addr@) {
                    &&& due_reduced(old(self).dues, addr@, final(self).balances, final(self).dues)
                    &&& if final(self).dues.is_clear() {
                        final(self).is_locked && o.activate == old(self).owner
                    } else {
                        final(self).is_locked == old(self).is_locked && o.activate is None
                    }
                } else {
                    &&& final(self).dues == old(self).dues
                    &&& final(self).is_locked == old(self).is_locked
                    &&& o.activate is None
                }
            }),
            !is_empty_spec(*balance) && !old(self).has_distributed && !credit_overflows(
                old(self).balances,
                addr@,
                *balance,
            ) && !sum_overflows(old(self).total, *balance) ==> r is Ok,
    {
        if balance.is_empty() {
            return Err(EscrowError::EmptyBalance);
        }
        if self.has_distributed {
            return Err(EscrowError::AlreadyDistributed);
        }
        let new_total = match self.total.checked_add(balance) {
            Ok(t) => t,
            Err(_) => return Err(EscrowError::Balance(BalanceError::Overflow)),
        };
        let ghost before = *self;
        match self.balances.credit(addr, balance) {
            Ok(()) => {},
            Err(_) => return Err(EscrowError::Balance(BalanceError::Overflow)),
        }
        let mut activate: Option<String> = None;
        match self.dues.find(addr) {
            Some(i) => {
                let updated = self.balances.get(addr);
                let remaining = self.dues.entries[i].balance.difference_to(&updated);
                proof {
                    assert(self.dues.entries@[i as int].balance.wf());
                }
                let paid_off = remaining.is_empty();
                self.dues.set(addr.clone(), remaining);
                if paid_off {
                    if self.dues.is_empty() {
                        self.is_locked = true;
                        activate = match &self.owner {
                            Some(o) => Some(o.clone()),
                            None => None,
                        };
                    }
                }
            },
            None => {},
        }
        self.total = new_total;
        proof {
            if before.ledger_balanced() {
                assert forall|cw20: bool, k: Seq<char>| #[trigger] fungible_in(self.total, cw20, k) == self.balances.held(cw20, k) by {
                    assert(fungible_in(before.total, cw20, k) == before.balances.held(cw20, k));
                }
            }
        }
        Ok(ReceiveOutcome { activate })
    }

    /// Pays out everything `sender` has deposited and takes it off the
    /// total; before the distribution, what `sender` owed at the start is
    /// owed again. Refused while the escrow is locked.
    pub fn withdraw(&mut self, sender: &String) -> (r: Result<Balance, EscrowError>)
        requires
            old(self).wf(),
        ensures
            final(self).wf(),
            r is Err ==> *final(self) == *old(self),
            old(self).ledger_balanced() ==> final(self).ledger_balanced(),
            old(self).is_locked ==> r == Err::<Balance, EscrowError>(EscrowError::Locked),
            !old(self).is_locked && !old(self).balances.has(sender@) ==> (r matches Ok(p) && is_empty_spec(p)
                && *final(self) == *old(self)),
            !old(self).is_locked && old(self).balances.has(sender@) && !covers(
                old(self).total,
                old(self).balances.at(sender@),
            ) ==> r == Err::<Balance, EscrowError>(EscrowError::Balance(BalanceError::Insufficient)),
            !old(self).is_locked && old(self).balances.has(sender@) && covers(
                old(self).total,
                old(self).balances.at(sender@),
            ) ==> (r matches Ok(p) && {
                &&& same_balance(p, old(self).balances.at(sender@))
                &&& final(self).same_settings(*old(self))
                &&& final(self).is_locked == old(self).is_locked
                &&& cleared(old(self).balances, sender@, final(self).balances)
                &&& is_difference(old(self).total, p, final(self).total)
                &&& if !old(self).has_distributed && old(self).initial_dues.has(sender@) {
                    copied(old(self).dues, sender@, old(self).initial_dues, final(self).dues)
                } else {
                    final(self).dues == old(self).dues
                }
            }),
    {
        if self.is_locked {
            return Err(EscrowError::Locked);
        }
        let balance = self.balances.get(sender);
        if balance.is_empty() {
            return Ok(balance);
        }
        let new_total = match self.total.checked_sub(&balance) {
            Ok(t) => t,
            Err(_) => return Err(EscrowError::Balance(BalanceError::Insufficient)),
        };
        if !self.has_distributed {
            match self.initial_dues.find(sender) {
                Some(i) => {
                    let initial = self.initial_dues.entries[i].balance.copy();
                    proof {
                        assert(self.initial_dues.entries@[i as int].balance.wf());
                        assert(!is_empty_spec(self.initial_dues.entries@[i as int].balance));
                    }
                    self.dues.set(sender.clone(), initial);
                },
                None => {},
            }
        }
        let ghost before = self.balances;
        self.balances.set(sender.clone(), Balance::empty());
        proof {
            if old(self).ledger_balanced() {
                assert forall|cw20: bool, k: Seq<char>| #[trigger] fungible_in(new_total, cw20, k) == self.balances.held(cw20, k) by {
                    assert(fungible_in(old(self).total, cw20, k) == old(self).balances.held(cw20, k));
                    lemma_held_except(before, self.balances, sender@, cw20, k);
                }
            }
        }
        self.total = new_total;
        Ok(balance)
    }

    /// Refunds the entry fee to each of `addrs` out of what the enrollment
    /// contract (`sender`) has deposited. Only an escrow created by an
    /// enrollment contract that still owns it accepts this.
    pub fn enrollment_withdraw(&mut self, sender: &String, addrs: &Vec<String>, entry_fee: &Coin) -> (r: Result<Vec<BankSend>, EscrowError>)
        requires
            old(self).wf(),
        ensures
            final(self).wf(),
            r is Err ==> *final(self) == *old(self),
            old(self).ledger_balanced() ==> final(self).ledger_balanced(),
            old(self).enrollment_contract is None || !same_addr(old(self).enrollment_contract, old(self).owner)
                ==> r == Err::<Vec<BankSend>, EscrowError>(EscrowError::Unauthorized),
            old(self).enrollment_contract is Some && same_addr(old(self).enrollment_contract, old(self).owner) ==> {
                let fee = entry_fee.amount * addrs.len();
                &&& fee > u128::MAX ==> r == Err::<Vec<BankSend>, EscrowError>(EscrowError::Overflow)
                &&& fee <= u128::MAX && (old(self).balances.native_of(sender@, entry_fee.denom@) < fee
                    || old(self).total.native.amount_of(entry_fee.denom@) < fee) ==> r == Err::<
                    Vec<BankSend>,
                    EscrowError,
                >(EscrowError::Balance(BalanceError::Insufficient))
                &&& fee <= u128::MAX && old(self).balances.native_of(sender@, entry_fee.denom@) >= fee
                    && old(self).total.native.amount_of(entry_fee.denom@) >= fee ==> (r matches Ok(sends) && {
                    &&& sends.len() == addrs.len()
                    &&& forall|i: int| 0 <= i < addrs.len() ==> (#[trigger] sends[i]).to_address@ == addrs[i]@
                        && sends[i].coin.denom@ == entry_fee.denom@ && sends[i].coin.amount == entry_fee.amount
                    &&& final(self).balances.same_except(old(self).balances, sender@)
                    &&& forall|k: Seq<char>| final(self).balances.native_of(sender@, k) == old(self).balances.native_of(
                        sender@,
                        k,
                    ) - if k == entry_fee.denom@ { fee } else { 0 }
                    &&& forall|k: Seq<char>| final(self).balances.cw20_of(sender@, k) == old(self).balances.cw20_of(sender@, k)
                    &&& final(self).balances.nfts_of(sender@) == old(self).balances.nfts_of(sender@)
                    &&& forall|k: Seq<char>| final(self).total.native.amount_of(k) == old(self).total.native.amount_of(k)
                        - if k == entry_fee.denom@ { fee } else { 0 }
                    &&& final(self).total.cw20@ == old(self).total.cw20@
                    &&& final(self).total.cw721@ == old(self).total.cw721@
                    &&& final(self).same_settings(*old(self))
                    &&& final(self).dues == old(self).dues
                    &&& final(self).is_locked == old(self).is_locked
                })
            },
    {
        let authorized = match (&self.enrollment_contract, &self.owner) {
            (Some(e), Some(o)) => *e == *o,
            _ => false,
        };
        if !authorized {
            return Err(EscrowError::Unauthorized);
        }
        let mut sends: Vec<BankSend> = Vec::new();
        let mut i: usize = 0;
        while i < addrs.len()
            invariant
                i <= addrs.len(),
                sends.len() == i,
                forall|j: int| 0 <= j < i ==> (#[trigger] sends@[j]).to_address@ == addrs@[j]@
                    && sends@[j].coin.denom@ == entry_fee.denom@ && sends@[j].coin.amount == entry_fee.amount,
            decreases addrs.len() - i,
        {
            sends.push(BankSend {
                to_address: addrs[i].clone(),
                coin: Coin { denom: entry_fee.denom.clone(), amount: entry_fee.amount },
            });
            i = i + 1;
        }
        let count = addrs.len() as u128;
        let fee = match entry_fee.amount.checked_mul(count) {
            Some(f) => f,
            None => return Err(EscrowError::Overflow),
        };
        let mut native = AmountMap::new();
        native.set(entry_fee.denom.clone(), fee);
        let fee_balance = Balance { native, cw20: AmountMap::new(), cw721: NftSet::new() };
        assert(is_native_only(fee_balance, entry_fee.denom@, fee as int));
        let user = self.balances.get(sender);
        let new_user = match user.checked_sub(&fee_balance) {
            Ok(b) => b,
            Err(_) => return Err(EscrowError::Balance(BalanceError::Insufficient)),
        };
        let new_total = match self.total.checked_sub(&fee_balance) {
            Ok(b) => b,
            Err(_) => return Err(EscrowError::Balance(BalanceError::Insufficient)),
        };
        proof {
            assert(new_user.cw721@ =~= user.cw721@);
            assert(new_total.cw721@ =~= self.total.cw721@);
        }
        let ghost before = self.balances;
        self.balances.set(sender.clone(), new_user);
        proof {
            crate::amount_map::lemma_amounts_determine(new_total.cw20, self.total.cw20);
            if old(self).ledger_balanced() {
                assert forall|cw20: bool, k: Seq<char>| #[trigger] fungible_in(new_total, cw20, k) == self.balances.held(cw20, k) by {
                    assert(fungible_in(old(self).total, cw20, k) == old(self).balances.held(cw20, k));
                    lemma_held_except(before, self.balances, sender@, cw20, k);
                }
            }
        }
        self.total = new_total;
        Ok(sends)
    }

    /// Sets whether the escrow is locked and, when asked, hands ownership
    /// to a new owner. Only the owner may do this.
    pub fn lock(&mut self, sender: &String, value: bool, new_owner: Option<String>) -> (r: Result<(), EscrowError>)
        ensures
            r is Err ==> *final(self) == *old(self),
            old(self).ledger_balanced() ==> final(self).ledger_balanced(),
            r matches Err(e) ==> owner_check(old(self).owner, sender@) == Some(e),
            owner_check(old(self).owner, sender@) is None ==> r is Ok && final(self).is_locked == value
                && final(self).owner == (match new_owner {
                Some(o) => Some(o),
                None => old(self).owner,
            }) && final(self).balances == old(self).balances && final(self).dues == old(self).dues
                && final(self).initial_dues == old(self).initial_dues && final(self).total == old(self).total
                && final(self).has_distributed == old(self).has_distributed && final(self).enrollment_contract
                == old(self).enrollment_contract,
    {
        match &self.owner {
            None => return Err(EscrowError::NoOwner),
            Some(o) => {
                if *o != *sender {
                    return Err(EscrowError::NotOwner);
                }
            },
        }
        self.is_locked = value;
        if let Some(o) = new_owner {
            self.owner = Some(o);
        }
        Ok(())
    }

    /// Hands everything the escrow holds to the DAO that owns its owner
    /// (`dao`, as the owner reports it), and forgets every deposit.
    pub fn claw(&mut self, sender: &String, dao: &String) -> (r: Result<Balance, EscrowError>)
        requires
            old(self).wf(),
        ensures
            final(self).wf(),
            r is Err ==> *final(self) == *old(self),
            r is Ok ==> final(self).ledger_balanced(),
            old(self).owner is None || sender@ != dao@ ==> r == Err::<Balance, EscrowError>(EscrowError::Unauthorized),
            old(self).owner is Some && sender@ == dao@ && is_empty_spec(old(self).total) ==> r == Err::<
                Balance,
                EscrowError,
            >(EscrowError::EmptyBalance),
            old(self).owner is Some && sender@ == dao@ && !is_empty_spec(old(self).total) ==> (r matches Ok(p) && {
                &&& same_balance(p, old(self).total)
                &&& final(self).balances.is_clear()
                &&& is_empty_spec(final(self).total)
                &&& final(self).same_settings(*old(self))
                &&& final(self).dues == old(self).dues
                &&& final(self).is_locked == old(self).is_locked
            }),
    {
        if self.owner.is_none() || *sender != *dao {
            return Err(EscrowError::Unauthorized);
        }
        if self.total.is_empty() {
            return Err(EscrowError::EmptyBalance);
        }
        let payout = self.total.copy();
        self.balances.clear();
        self.total = Balance::empty();
        Ok(payout)
    }
}

/// How the escrow's total will be handed out: the fees taken first, what
/// remains of the total, and that remainder split by the distribution.
#[derive(Debug)]
pub struct DistributionPlan {
    pub fee_payouts: Vec<MemberBalance>,
    /// The position of the fee that each payout pays.
    pub fee_positions: Vec<usize>,
    pub remaining: Balance,
    pub splits: Vec<MemberBalance>,
}

/// `r` is `b` once each fee in turn has taken its tax.
pub open spec fn fees_applied(b: Balance, fees: Seq<FeeInformation>, r: Balance) -> bool {
    &&& forall|k: Seq<char>| r.native.amount_of(k) == after_fees(b.native.amount_of(k), fees)
    &&& forall|k: Seq<char>| r.cw20.amount_of(k) == after_fees(b.cw20.amount_of(k), fees)
    &&& r.cw721@ == b.cw721@
}

/// Balances with the same amounts are feasible for the same fees.
proof fn lemma_fees_feasible_same(a: Balance, b: Balance, fees: Seq<FeeInformation>)
    requires
        a.native@ == b.native@,
        a.cw20@ == b.cw20@,
    ensures
        all_fees_feasible(a, fees) == all_fees_feasible(b, fees),
{
    if all_fees_feasible(a, fees) {
        assert forall|k: Seq<char>| fees_feasible(b.native.amount_of(k), fees) by {
            assert(fees_feasible(a.native.amount_of(k), fees));
        }
        assert forall|k: Seq<char>| fees_feasible(b.cw20.amount_of(k), fees) by {
            assert(fees_feasible(a.cw20.amount_of(k), fees));
        }
    }
    if all_fees_feasible(b, fees) {
        assert forall|k: Seq<char>| fees_feasible(a.native.amount_of(k), fees) by {
            assert(fees_feasible(b.native.amount_of(k), fees));
        }
        assert forall|k: Seq<char>| fees_feasible(a.cw20.amount_of(k), fees) by {
            assert(fees_feasible(b.cw20.amount_of(k), fees));
        }
    }
}

/// Whatever the fees leave of `total` can be split by `ps`.
pub open spec fn remainder_splittable(total: Balance, fees: Seq<FeeInformation>, ps: Seq<MemberPercentage>) -> bool {
    forall|rem: Balance| #[trigger] fees_applied(total, fees, rem) ==> split_feasible(rem, ps)
}

/// In a balanced ledger no member holds more of a fungible token than the
/// escrow holds in total.
pub proof fn law_member_within_total(e: Escrow, a: Seq<char>, cw20: bool, k: Seq<char>)
    requires
        e.wf(),
        e.ledger_balanced(),
    ensures
        0 <= e.balances.held_by(a, cw20, k) <= fungible_in(e.total, cw20, k),
{
    lemma_held_by_within(e.balances, a, cw20, k);
}

/// A nonempty, well-formed balance holds some positive amount or some token.
proof fn lemma_nonempty_has_something(b: Balance)
    requires
        b.wf(),
        !is_empty_spec(b),
    ensures
        (exists|k: Seq<char>| b.native.amount_of(k) > 0) || (exists|k: Seq<char>| b.cw20.amount_of(k) > 0)
            || b.cw721@ != Set::<(Seq<char>, Seq<char>)>::empty(),
{
    crate::amount_map::lemma_entries_map(b.native.entries@);
    crate::amount_map::lemma_entries_map(b.cw20.entries@);
    if b.native@ != Map::<Seq<char>, u128>::empty() {
        if forall|k: Seq<char>| !b.native@.contains_key(k) {
            assert(b.native@ =~= Map::<Seq<char>, u128>::empty());
        }
        let k = choose|k: Seq<char>| b.native@.contains_key(k);
        let i = choose|i: int| 0 <= i < b.native.entries@.len() && b.native.entries@[i].key@ == k;
        assert(b.native.entries@[i].amount > 0);
        assert(b.native.amount_of(k) > 0);
    } else if b.cw20@ != Map::<Seq<char>, u128>::empty() {
        if forall|k: Seq<char>| !b.cw20@.contains_key(k) {
            assert(b.cw20@ =~= Map::<Seq<char>, u128>::empty());
        }
        let k = choose|k: Seq<char>| b.cw20@.contains_key(k);
        let i = choose|i: int| 0 <= i < b.cw20.entries@.len() && b.cw20.entries@[i].key@ == k;
        assert(b.cw20.entries@[i].amount > 0);
        assert(b.cw20.amount_of(k) > 0);
    }
}

/// A deposit can be taken back whole. When `u`, holding nothing in the
/// escrow, deposits the nonempty balance `b` (`e0` to `e1`, as `receive`
/// states it) and the escrow stays unlocked, `withdraw` cannot refuse `u`:
/// `u` holds something the total covers. The withdrawal (`e1` to `e2`, as
/// `withdraw` states it) pays out exactly `b`, leaves `u` holding nothing,
/// and leaves the escrow's total as it was before the deposit (its tokens
/// too, when `b`'s tokens were not held already).
pub proof fn law_receive_then_withdraw(e0: Escrow, e1: Escrow, e2: Escrow, u: Seq<char>, b: Balance, p: Balance)
    requires
        e0.wf(),
        b.wf(),
        !is_empty_spec(b),
        !e0.balances.has(u),
        credited(e0.balances, u, b, e1.balances),
        is_sum(e0.total, b, e1.total),
        same_balance(p, e1.balances.at(u)),
        cleared(e1.balances, u, e2.balances),
        is_difference(e1.total, p, e2.total),
    ensures
        e1.balances.has(u),
        covers(e1.total, e1.balances.at(u)),
        forall|k: Seq<char>| p.native.amount_of(k) == b.native.amount_of(k),
        forall|k: Seq<char>| p.cw20.amount_of(k) == b.cw20.amount_of(k),
        p.cw721@ == b.cw721@,
        !e2.balances.has(u),
        forall|k: Seq<char>| e2.total.native.amount_of(k) == e0.total.native.amount_of(k),
        forall|k: Seq<char>| e2.total.cw20.amount_of(k) == e0.total.cw20.amount_of(k),
        b.cw721@.disjoint(e0.total.cw721@) ==> e2.total.cw721@ == e0.total.cw721@,
{
    lemma_nonempty_has_something(b);
    if !e1.balances.has(u) {
        assert forall|k: Seq<char>| b.native.amount_of(k) == 0 by {
            assert(e1.balances.native_of(u, k) == e0.balances.native_of(u, k) + b.native.amount_of(k));
        }
        assert forall|k: Seq<char>| b.cw20.amount_of(k) == 0 by {
            assert(e1.balances.cw20_of(u, k) == e0.balances.cw20_of(u, k) + b.cw20.amount_of(k));
        }
        assert(e1.balances.nfts_of(u) == e0.balances.nfts_of(u).union(b.cw721@));
        assert(b.cw721@ =~= Set::<(Seq<char>, Seq<char>)>::empty());
        assert(false);
    }
    let a1 = e1.balances.at(u);
    assert forall|k: Seq<char>| a1.native.amount_of(k) == b.native.amount_of(k) && a1.cw20.amount_of(k)
        == b.cw20.amount_of(k) by {
        assert(e1.balances.native_of(u, k) == e0.balances.native_of(u, k) + b.native.amount_of(k));
        assert(e1.balances.cw20_of(u, k) == e0.balances.cw20_of(u, k) + b.cw20.amount_of(k));
    }
    assert(a1.cw721@ == e0.balances.nfts_of(u).union(b.cw721@));
    assert(a1.cw721@ =~= b.cw721@);
    assert forall|k: Seq<char>| e1.total.native.amount_of(k) >= a1.native.amount_of(k) && e1.total.cw20.amount_of(k)
        >= a1.cw20.amount_of(k) by {
        assert(e0.total.native.amount_of(k) >= 0);
        assert(e0.total.cw20.amount_of(k) >= 0);
    }
    assert(p.native@ == a1.native@);
    assert(p.cw20@ == a1.cw20@);
    if b.cw721@.disjoint(e0.total.cw721@) {
        assert(e2.total.cw721@ =~= e0.total.cw721@);
    }
}

/// Distributing leaves the members holding, of every fungible token, all
/// that the escrow held before less what the fees took: the plan accounts
/// for the escrow's total, its splits cover what remains after the fees,
/// and once it is settled the ledger is balanced and the total is that
/// remainder.
pub proof fn law_distribution_leaves_total_less_fees(before: Balance, plan: DistributionPlan, after: Escrow)
    requires
        plan.accounts_for(before),
        plan.splits_cover_remaining(),
        after.ledger_balanced(),
        same_balance(after.total, plan.remaining),
    ensures
        forall|cw20: bool, k: Seq<char>| #[trigger] after.balances.held(cw20, k) == fungible_in(before, cw20, k) - plan.fees_of(cw20, k),
{
    assert forall|cw20: bool, k: Seq<char>| #[trigger] after.balances.held(cw20, k) == fungible_in(before, cw20, k) - plan.fees_of(cw20, k) by {
        assert(fungible_in(after.total, cw20, k) == after.balances.held(cw20, k));
        assert(after.total.native.amount_of(k) == plan.remaining.native.amount_of(k));
        assert(after.total.cw20.amount_of(k) == plan.remaining.cw20.amount_of(k));
    }
}

impl DistributionPlan {
    /// The splits hand out exactly what remains, token by token.
    pub open spec fn splits_cover_remaining(&self) -> bool {
        &&& forall|k: Seq<char>| native_total(self.splits@, k) == self.remaining.native.amount_of(k)
        &&& forall|k: Seq<char>| cw20_total(self.splits@, k) == self.remaining.cw20.amount_of(k)
    }

    /// The fees and the splits together hand out the whole of `total`, token
    /// by token.
    pub open spec fn accounts_for(&self, total: Balance) -> bool {
        &&& forall|k: Seq<char>| total.native.amount_of(k) == native_total(self.fee_payouts@, k) + native_total(self.splits@, k)
        &&& forall|k: Seq<char>| total.cw20.amount_of(k) == cw20_total(self.fee_payouts@, k) + cw20_total(self.splits@, k)
    }

    /// What the fees of the plan take of a fungible token.
    pub open spec fn fees_of(&self, cw20: bool, k: Seq<char>) -> int {
        if cw20 {
            cw20_total(self.fee_payouts@, k)
        } else {
            native_total(self.fee_payouts@, k)
        }
    }

    /// Every balance in the plan is well formed.
    pub open spec fn wf(&self) -> bool {
        &&& self.remaining.wf()
        &&& forall|i: int| 0 <= i < self.splits.len() ==> (#[trigger] self.splits@[i]).balance.wf()
        &&& forall|i: int| 0 <= i < self.fee_payouts.len() ==> (#[trigger] self.fee_payouts@[i]).balance.wf()
    }
}

impl Escrow {
    /// Plans the distribution of everything the escrow holds: only the owner
    /// may ask; an empty escrow has nothing to plan; the layered fees are
    /// taken first; the distribution (which the competition's group judged
    /// `is_valid`) must name only members; the rest is split by it.
    pub fn plan_distribution(&self, sender: &String, fees: &Vec<FeeInformation>, distribution: &Distribution, is_valid: bool) -> (r: Result<Option<DistributionPlan>, EscrowError>)
        requires
            self.wf(),
        ensures
            owner_check(self.owner, sender@) matches Some(e) ==> r == Err::<Option<DistributionPlan>, EscrowError>(e),
            owner_check(self.owner, sender@) is None && is_empty_spec(self.total) ==> r matches Ok(None),
            owner_check(self.owner, sender@) is None && !is_empty_spec(self.total) ==> {
                &&& !all_fees_feasible(self.total, fees@) ==> (r matches Err(EscrowError::Balance(_)))
                &&& all_fees_feasible(self.total, fees@) && !is_valid ==> r == Err::<Option<DistributionPlan>, EscrowError>(
                    EscrowError::InvalidDistribution,
                )
                &&& all_fees_feasible(self.total, fees@) && is_valid ==> (r matches Err(EscrowError::Balance(_))
                    || r matches Ok(Some(_)))
                &&& all_fees_feasible(self.total, fees@) && is_valid ==> ((r matches Ok(Some(_)))
                    <==> remainder_splittable(self.total, fees@, distribution.member_percentages@))
            },
            r matches Ok(Some(plan)) ==> {
                let ps = distribution.member_percentages@;
                &&& plan.wf()
                &&& plan.splits_cover_remaining()
                &&& fees_applied(self.total, fees@, plan.remaining)
                &&& fee_payouts_match(self.total, fees@, fees@.len() as int, plan.fee_payouts@, fee_indices(plan.fee_positions@))
                &&& forall|j: int| 0 <= j < plan.fee_payouts.len() ==> !is_empty_spec(#[trigger] plan.fee_payouts@[j].balance)
                &&& split_feasible(plan.remaining, ps)
                &&& plan.splits.len() == ps.len() + 1
                &&& forall|j: int| 0 <= j < ps.len() ==> (#[trigger] plan.splits@[j]).addr@ == ps[j].addr@
                    && is_scaled(plan.remaining, ps[j].percentage, plan.splits@[j].balance)
                &&& plan.splits@[ps.len() as int].addr@ == distribution.remainder_addr@
                &&& plan.splits@[ps.len() as int].balance.cw721@ == self.total.cw721@
                &&& plan.accounts_for(self.total)
            },
    {
        match &self.owner {
            None => return Err(EscrowError::NoOwner),
            Some(o) => {
                if *o != *sender {
                    return Err(EscrowError::NotOwner);
                }
            },
        }
        if self.total.is_empty() {
            return Ok(None);
        }
        let mut remaining = self.total.copy();
        assert(remaining.native@ == self.total.native@ && remaining.cw20@ == self.total.cw20@ && remaining.cw721@ == self.total.cw721@);
        let ghost start = remaining;
        proof {
            lemma_fees_feasible_same(start, self.total, fees@);
        }
        let (fee_payouts, fee_positions) = match apply_layered_fees(&mut remaining, fees) {
            Ok(p) => p,
            Err(e) => {
                proof {
                    assert(!all_fees_feasible(self.total, fees@));
                }
                return Err(EscrowError::Balance(e));
            },
        };
        proof {
            lemma_fee_payouts_same_amounts(start, self.total, fees@, fee_payouts@, fee_indices(fee_positions@));
        }
        if !is_valid {
            return Err(EscrowError::InvalidDistribution);
        }
        let splits = match remaining.split(distribution) {
            Ok(s) => s,
            Err(e) => {
                proof {
                    assert(fees_applied(self.total, fees@, remaining));
                }
                return Err(EscrowError::Balance(e));
            },
        };
        proof {
            assert forall|rem: Balance| #[trigger] fees_applied(self.total, fees@, rem) implies split_feasible(
                rem,
                distribution.member_percentages@,
            ) by {
                lemma_split_feasible_same_amounts(rem, remaining, distribution.member_percentages@);
            }
        }
        Ok(Some(DistributionPlan { fee_payouts, fee_positions, remaining, splits }))
    }

    /// Carries out a plan: every share reaches its holders by its route
    /// (split again, or credited directly); the previous balances are
    /// forgotten, the escrow unlocks, remembers that it has distributed,
    /// and keeps what remained of the total after the fees. Returns every
    /// credit made. Fails, changing nothing, when a further split is not
    /// feasible or a credit overflows.
    pub fn settle_distribution(&mut self, plan: DistributionPlan, routes: &Vec<Route>) -> (r: Result<Vec<MemberBalance>, EscrowError>)
        requires
            old(self).wf(),
            plan.wf(),
            routes.len() == plan.splits.len(),
        ensures
            final(self).wf(),
            r is Err ==> *final(self) == *old(self),
            r is Ok && plan.splits_cover_remaining() ==> final(self).ledger_balanced(),
            (forall|i: int| 0 <= i < routes.len() ==> (#[trigger] routes@[i] matches Route::Split(d) ==> split_feasible(
                plan.splits@[i].balance,
                d.member_percentages@,
            ))) && (forall|k: Seq<char>| native_total(plan.splits@, k) <= u128::MAX && cw20_total(plan.splits@, k) <= u128::MAX)
                ==> r is Ok,
            r matches Err(EscrowError::Balance(BalanceError::Insufficient)) ==> exists|i: int| 0 <= i < routes.len()
                && (#[trigger] routes@[i] matches Route::Split(d) && !split_feasible(plan.splits@[i].balance, d.member_percentages@)),
            r matches Ok(credits) ==> {
                &&& exists|parts: Seq<Seq<MemberBalance>>| #[trigger] routed(plan.splits@, routes@, parts) && credits@ == joined(parts)
                &&& forall|a: Seq<char>, k: Seq<char>| #[trigger] final(self).balances.native_of(a, k) == credit_native(credits@, a, k)
                &&& forall|a: Seq<char>, k: Seq<char>| #[trigger] final(self).balances.cw20_of(a, k) == credit_cw20(credits@, a, k)
                &&& forall|a: Seq<char>| #[trigger] final(self).balances.nfts_of(a) == credit_nfts(credits@, a)
                &&& forall|k: Seq<char>| native_total(credits@, k) == native_total(plan.splits@, k)
                &&& forall|k: Seq<char>| cw20_total(credits@, k) == cw20_total(plan.splits@, k)
                &&& !final(self).is_locked
                &&& final(self).has_distributed
                &&& same_balance(final(self).total, plan.remaining)
                &&& final(self).owner == old(self).owner
                &&& final(self).enrollment_contract == old(self).enrollment_contract
                &&& final(self).initial_dues == old(self).initial_dues
                &&& final(self).dues == old(self).dues
            },
    {
        let ghost sp = plan.splits@;
        let DistributionPlan { fee_payouts: _, fee_positions: _, remaining, splits } = plan;
        let mut pending = splits;
        let mut credits: Vec<MemberBalance> = Vec::new();
        let ghost mut parts_so_far: Seq<Seq<MemberBalance>> = Seq::empty();
        let mut i: usize = 0;
        while pending.len() > 0
            invariant
                *self == *old(self),
                parts_so_far.len() == i,
                forall|j: int| 0 <= j < i ==> passed_on(sp[j], routes@[j], #[trigger] parts_so_far[j]),
                credits@ == joined(parts_so_far),
                old(self).wf(),
                sp == plan.splits@,
                forall|x: int| 0 <= x < sp.len() ==> (#[trigger] sp[x]).balance.wf(),
                routes.len() == sp.len(),
                i <= sp.len(),
                pending@ == sp.skip(i as int),
                forall|j: int| 0 <= j < credits.len() ==> (#[trigger] credits@[j]).balance.wf(),
                forall|k: Seq<char>| native_total(credits@, k) == native_total(sp.take(i as int), k),
                forall|k: Seq<char>| cw20_total(credits@, k) == cw20_total(sp.take(i as int), k),
            decreases pending.len(),
        {
            let ghost pend = pending@;
            let entry = pending.remove(0);
            proof {
                assert(entry == pend[0]);
                assert(sp.skip(i as int)[0] == sp[i as int]);
                assert(pending@ =~= sp.skip(i + 1));
                assert(sp.take(i + 1).drop_last() =~= sp.take(i as int));
                assert(sp.take(i + 1).last() == sp[i as int]);
                assert(entry.balance.wf());
            }
            let ghost e = entry;
            let mut parts = match pass_on(entry, &routes[i]) {
                Ok(p) => p,
                Err(err) => {
                    proof {
                        let ii = i as int;
                        assert(e == sp[ii]);
                        assert(routes@[ii] matches Route::Split(dd) && !split_feasible(sp[ii].balance, dd.member_percentages@));
                    }
                    return Err(EscrowError::Balance(err));
                },
            };
            let ghost base = credits@;
            let ghost ps = parts@;
            credits.append(&mut parts);
            proof {
                assert(credits@ =~= base + ps);
                assert(e == sp[i as int]);
                let prev = parts_so_far;
                parts_so_far = parts_so_far.push(ps);
                assert(parts_so_far.drop_last() =~= prev);
                assert(credits@ == joined(parts_so_far));
                assert forall|j: int| 0 <= j < i + 1 implies passed_on(sp[j], routes@[j], #[trigger] parts_so_far[j]) by {
                    if j < i {
                        assert(parts_so_far[j] == prev[j]);
                    }
                }
                assert forall|k: Seq<char>| native_total(credits@, k) == native_total(sp.take(i + 1), k) && cw20_total(credits@, k)
                    == cw20_total(sp.take(i + 1), k) by {
                    lemma_native_total_concat(base, ps, k);
                    assert(native_total(sp.take(i + 1), k) == native_total(sp.take(i + 1).drop_last(), k) + sp.take(i + 1).last().balance.native.amount_of(k));
                    assert(cw20_total(sp.take(i + 1), k) == cw20_total(sp.take(i + 1).drop_last(), k) + sp.take(i + 1).last().balance.cw20.amount_of(k));
                }
                assert forall|j: int| 0 <= j < credits.len() implies (#[trigger] credits@[j]).balance.wf() by {
                    if j >= base.len() {
                        assert(credits@[j] == ps[j - base.len()]);
                    } else {
                        assert(credits@[j] == base[j]);
                    }
                }
            }
            i = i + 1;
        }
        proof {
            assert(i == sp.len());
            assert(sp.take(sp.len() as int) =~= sp);
            assert(routed(sp, routes@, parts_so_far));
        }
        let mut fresh = MemberBalances::new();
        let ghost empty = fresh;
        proof {
            if forall|k: Seq<char>| native_total(sp, k) <= u128::MAX && cw20_total(sp, k) <= u128::MAX {
                assert forall|a: Seq<char>, k: Seq<char>| #[trigger] empty.native_of(a, k) + credit_native(credits@, a, k)
                    <= u128::MAX by {
                    lemma_credit_within_total(credits@, a, k);
                    lemma_list_totals(credits@, k);
                    assert(native_total(sp, k) <= u128::MAX && cw20_total(sp, k) <= u128::MAX);
                }
                assert forall|a: Seq<char>, k: Seq<char>| #[trigger] empty.cw20_of(a, k) + credit_cw20(credits@, a, k)
                    <= u128::MAX by {
                    lemma_credit_within_total(credits@, a, k);
                    lemma_list_totals(credits@, k);
                    assert(native_total(sp, k) <= u128::MAX && cw20_total(sp, k) <= u128::MAX);
                }
                assert(credits_fit(empty, credits@));
            }
        }
        match fresh.credit_all(&credits) {
            Ok(()) => {},
            Err(e) => return Err(EscrowError::Balance(e)),
        }
        proof {
            if plan.splits_cover_remaining() {
                assert forall|cw20: bool, k: Seq<char>| #[trigger] fungible_in(remaining, cw20, k) == fresh.held(cw20, k) by {
                    lemma_held_clear(empty, cw20, k);
                    lemma_list_totals(credits@, k);
                }
            }
        }
        self.balances = fresh;
        self.is_locked = false;
        self.has_distributed = true;
        self.total = remaining;
        Ok(credits)
    }
}

} // verus!
