use vstd::prelude::*;
use crate::amount_map::{
    amount_in, entries_map, entries_total, keys_unique, lemma_entries_map, AmountEntry, AmountMap,
};
use crate::chain::{
    after_fits, after_spec, is_expired_spec, must_pay, one_coin_spec, BankSend, BlockInfo, Coin, Duration,
    Expiration, PaymentError, Timestamp,
};
use crate::math::{checked_mul_div_spec, mul_div, uint_mul_floor_ratio, MathError};

verus! {

/// The phase a fundraise is in.
#[derive(Debug, Clone, Copy, PartialEq, Eq, Structural)]
pub enum FundraiseState {
    Active,
    Failed,
    Successful,
}

/// The name of a fundraise phase.
pub open spec fn state_name(s: FundraiseState) -> Seq<char> {
    match s {
        FundraiseState::Active => "Active"@,
        FundraiseState::Failed => "Failed"@,
        FundraiseState::Successful => "Successful"@,
    }
}

impl FundraiseState {
    /// The name of the phase, as shown in responses.
    pub fn to_display_string(&self) -> (s: String)
        ensures
            s@ == state_name(*self),
    {
        match self {
            FundraiseState::Active => String::from_str("Active"),
            FundraiseState::Failed => String::from_str("Failed"),
            FundraiseState::Successful => String::from_str("Successful"),
        }
    }
}

/// The settings and phase of a fundraise.
#[derive(Debug)]
pub struct Config {
    pub state: FundraiseState,
    /// The tokens offered to depositors.
    pub fundraise: Coin,
    /// The denomination depositors pay in.
    pub deposit_denom: String,
    pub soft_cap: u128,
    pub hard_cap: Option<u128>,
    pub start: Option<Expiration>,
    pub end: Expiration,
    /// Who receives the deposits on success, or the offered tokens back on failure.
    pub recipient: String,
}

/// The request that opens a fundraise.
#[derive(Debug)]
pub struct InstantiateMsg {
    pub fundraise: Coin,
    pub deposit_denom: String,
    pub soft_cap: u128,
    pub hard_cap: Option<u128>,
    pub start: Option<Expiration>,
    pub duration: Duration,
    pub recipient: String,
}

/// How to migrate a fundraise.
#[derive(Debug, Clone, Copy, PartialEq, Eq, Structural)]
pub enum MigrateMsg {
    FromCompatible,
}

/// Why a fundraise operation was refused.
#[derive(Debug, Clone, PartialEq, Eq)]
pub enum FundraiseError {
    Payment(PaymentError),
    InvalidAmountSent,
    StartAlreadyExpired,
    StartCannotBeNever,
    SoftCapZero,
    HardCapNotAboveSoftCap,
    NotActive,
    NotStarted,
    AlreadyEnded,
    NoBalance,
    NotExpired,
    /// The deposit would take the running total past the hard cap.
    HardCapExceeded { hard_cap: u128 },
    Overflow,
    Math(MathError),
}

/// A fundraise: its configuration, the running total of deposits, and the
/// deposit of each address.
#[derive(Debug)]
pub struct Fundraise {
    pub config: Config,
    pub total_deposited: u128,
    pub deposits: AmountMap,
}

/// The outcome of a deposit.
#[derive(Debug)]
pub struct DepositOutcome {
    /// The depositor's balance after the deposit.
    pub balance: u128,
    pub total_deposited: u128,
}

/// The outcome of a withdrawal.
#[derive(Debug)]
pub struct WithdrawOutcome {
    pub payout: BankSend,
    /// The new running total, when the fundraise was still active.
    pub total_deposited: Option<u128>,
    /// The reward paid, when the fundraise succeeded.
    pub reward: Option<u128>,
}

/// The outcome of closing a fundraise.
#[derive(Debug)]
pub struct ExpireOutcome {
    pub state: FundraiseState,
    pub payout: BankSend,
}

/// What a query of the whole state returns.
#[derive(Debug)]
pub struct DumpState {
    pub total_deposited: u128,
    pub deposit: Option<u128>,
    pub reward: Option<u128>,
    pub has_expired: bool,
    pub has_started: Option<bool>,
}

/// The block from which the duration is counted when a start is given.
pub open spec fn start_block(start: Expiration) -> BlockInfo {
    match start {
        Expiration::AtHeight(h) => BlockInfo { height: h, time: Timestamp { nanos: 0 } },
        Expiration::AtTime(t) => BlockInfo { height: 0, time: t },
        Expiration::Never => BlockInfo { height: 0, time: Timestamp { nanos: 0 } },
    }
}

/// Computing the end does not leave the range of `u64`.
pub open spec fn end_fits(block: BlockInfo, msg: InstantiateMsg) -> bool {
    match msg.start {
        Some(s) => is_expired_spec(s, block) || s is Never || after_fits(msg.duration, start_block(s)),
        None => after_fits(msg.duration, block),
    }
}

/// The funds are exactly the offered coin.
pub open spec fn funds_match(funds: Seq<Coin>, msg: InstantiateMsg) -> bool {
    one_coin_spec(funds) matches Ok(c) && c.denom@ == msg.fundraise.denom@ && c.amount == msg.fundraise.amount
}

/// The end of a fundraise whose payment was accepted, or why it cannot be
/// opened.
pub open spec fn instantiate_end(block: BlockInfo, msg: InstantiateMsg) -> Result<Expiration, FundraiseError> {
    let end = match msg.start {
        Some(s) => if is_expired_spec(s, block) {
            Err(FundraiseError::StartAlreadyExpired)
        } else if s is Never {
            Err(FundraiseError::StartCannotBeNever)
        } else {
            Ok(after_spec(msg.duration, start_block(s)))
        },
        None => Ok(after_spec(msg.duration, block)),
    };
    match end {
        Err(e) => Err(e),
        Ok(end) => if msg.soft_cap == 0 {
            Err(FundraiseError::SoftCapZero)
        } else if msg.hard_cap is Some && msg.hard_cap->0 <= msg.soft_cap {
            Err(FundraiseError::HardCapNotAboveSoftCap)
        } else {
            Ok(end)
        },
    }
}

/// A fundraise ends its duration after its start: a start at height `h`
/// with a duration of `d` blocks ends at height `h + d`, a start at time
/// `t` with a duration of `s` seconds ends `s` seconds after `t`, and
/// without a start the duration counts from the block that opens it. So a
/// fundraise never ends before it starts.
pub proof fn law_fundraise_ends_after_its_start(block: BlockInfo, msg: InstantiateMsg)
    requires
        end_fits(block, msg),
    ensures
        instantiate_end(block, msg) matches Ok(end) ==> match (msg.start, msg.duration) {
            (Some(Expiration::AtHeight(h)), Duration::Height(d)) => end matches Expiration::AtHeight(x) && x == h + d
                && x >= h,
            (Some(Expiration::AtTime(t)), Duration::Time(secs)) => end matches Expiration::AtTime(x) && x.nanos
                == t.nanos + secs * 1_000_000_000 && x.nanos >= t.nanos,
            (None, Duration::Height(d)) => end matches Expiration::AtHeight(x) && x == block.height + d,
            (None, Duration::Time(secs)) => end matches Expiration::AtTime(x) && x.nanos == block.time.nanos + secs
                * 1_000_000_000,
            // A start and a duration of different kinds meet at the zero of
            // the duration's kind: the start's own block carries no time,
            // and its own time no height.
            (Some(Expiration::AtHeight(_)), Duration::Time(secs)) => end matches Expiration::AtTime(x) && x.nanos == secs
                * 1_000_000_000,
            (Some(Expiration::AtTime(_)), Duration::Height(d)) => end matches Expiration::AtHeight(x) && x == d,
            _ => true,
        },
{
}

/// The reward of a deposit: its share of the offered tokens, rounded down.
pub open spec fn reward_spec(offered: u128, deposit: u128, total: u128) -> int {
    mul_div(offered as int, deposit as int, total as int)
}

/// The sum of the rewards of a list of deposits.
pub open spec fn rewards_total(s: Seq<AmountEntry>, offered: u128, total: u128) -> int
    decreases s.len(),
{
    if s.len() == 0 {
        0
    } else {
        rewards_total(s.drop_last(), offered, total) + reward_spec(offered, s.last().amount, total)
    }
}

impl Fundraise {
    /// The invariant of a fundraise: while it is active the running total is
    /// the sum of the deposits; afterwards the deposits still held never exceed
    /// it; the soft cap is nonzero.
    pub open spec fn wf(&self) -> bool {
        &&& self.deposits.wf()
        &&& self.deposits.total() <= self.total_deposited
        &&& self.config.state == FundraiseState::Active ==> self.deposits.total() == self.total_deposited
        &&& self.config.soft_cap > 0
        &&& self.config.hard_cap matches Some(h) ==> self.total_deposited <= h
    }

    /// Opens a fundraise: `funds` must be exactly the offered tokens; the end
    /// is the duration after the start (or after `block` when no start is
    /// given); the soft cap must be nonzero and the hard cap above it.
    pub fn instantiate(block: &BlockInfo, funds: &Vec<Coin>, msg: InstantiateMsg) -> (r: Result<Fundraise, FundraiseError>)
        requires
            funds_match(funds@, msg) ==> end_fits(*block, msg),
        ensures
            r is Ok ==> r->Ok_0.wf(),
            match one_coin_spec(funds@) {
                Err(e) => r == Err::<Fundraise, FundraiseError>(FundraiseError::Payment(e)),
                Ok(c) => if c.denom@ != msg.fundraise.denom@ {
                    r matches Err(FundraiseError::Payment(PaymentError::MissingDenom(d))) && d@ == msg.fundraise.denom@
                } else if c.amount != msg.fundraise.amount {
                    r == Err::<Fundraise, FundraiseError>(FundraiseError::InvalidAmountSent)
                } else {
                    match instantiate_end(*block, msg) {
                        Err(e) => r == Err::<Fundraise, FundraiseError>(e),
                        Ok(end) => r matches Ok(f) && {
                            &&& f.config.state == FundraiseState::Active
                            &&& f.config.fundraise == msg.fundraise
                            &&& f.config.deposit_denom == msg.deposit_denom
                            &&& f.config.soft_cap == msg.soft_cap
                            &&& f.config.hard_cap == msg.hard_cap
                            &&& f.config.start == msg.start
                            &&& f.config.end == end
                            &&& match (msg.start, msg.duration) {
                                (Some(Expiration::AtHeight(h)), Duration::Height(d)) => f.config.end matches Expiration::AtHeight(
                                    x,
                                ) && x == h + d,
                                (Some(Expiration::AtTime(t)), Duration::Time(secs)) => f.config.end matches Expiration::AtTime(
                                    x,
                                ) && x.nanos == t.nanos + secs * 1_000_000_000,
                                (None, Duration::Height(d)) => f.config.end matches Expiration::AtHeight(x) && x
                                    == block.height + d,
                                (None, Duration::Time(secs)) => f.config.end matches Expiration::AtTime(x) && x.nanos
                                    == block.time.nanos + secs * 1_000_000_000,
                                _ => true,
                            }
                            &&& f.config.recipient == msg.recipient
                            &&& f.total_deposited == 0
                            &&& f.deposits@ == Map::<Seq<char>, u128>::empty()
                        },
                    }
                }
            },
    {
        let funded = match must_pay(funds, &msg.fundraise.denom) {
            Ok(a) => a,
            Err(e) => return Err(FundraiseError::Payment(e)),
        };
        if funded != msg.fundraise.amount {
            return Err(FundraiseError::InvalidAmountSent);
        }
        let end = match msg.start {
            Some(start) => {
                if start.is_expired(block) {
                    return Err(FundraiseError::StartAlreadyExpired);
                }
                match start {
                    Expiration::AtHeight(height) => msg.duration.after(
                        &BlockInfo { height, time: Timestamp { nanos: 0 } },
                    ),
                    Expiration::AtTime(time) => msg.duration.after(&BlockInfo { height: 0, time }),
                    Expiration::Never => return Err(FundraiseError::StartCannotBeNever),
                }
            },
            None => msg.duration.after(block),
        };
        if msg.soft_cap == 0 {
            return Err(FundraiseError::SoftCapZero);
        }
        if let Some(hard_cap) = msg.hard_cap {
            if hard_cap <= msg.soft_cap {
                return Err(FundraiseError::HardCapNotAboveSoftCap);
            }
        }
        Ok(Fundraise {
            config: Config {
                state: FundraiseState::Active,
                fundraise: msg.fundraise,
                deposit_denom: msg.deposit_denom,
                soft_cap: msg.soft_cap,
                hard_cap: msg.hard_cap,
                start: msg.start,
                end,
                recipient: msg.recipient,
            },
            total_deposited: 0,
            deposits: AmountMap::new(),
        })
    }
}


/// An entry's amount never exceeds the total of its list.
pub proof fn lemma_entry_le_total(s: Seq<AmountEntry>, i: int)
    requires
        0 <= i < s.len(),
    ensures
        s[i].amount <= entries_total(s),
        0 <= entries_total(s),
    decreases s.len(),
{
    lemma_total_nonneg(s.drop_last());
    if i < s.len() - 1 {
        lemma_entry_le_total(s.drop_last(), i);
        assert(s.drop_last()[i] == s[i]);
    }
}

/// The total of a list of entries is never negative.
pub proof fn lemma_total_nonneg(s: Seq<AmountEntry>)
    ensures
        0 <= entries_total(s),
    decreases s.len(),
{
    if s.len() > 0 {
        lemma_total_nonneg(s.drop_last());
    }
}

/// The amount held under any key never exceeds the total.
pub proof fn lemma_amount_le_total(m: AmountMap, k: Seq<char>)
    requires
        m.wf(),
    ensures
        m.amount_of(k) <= m.total(),
        0 <= m.total(),
{
    lemma_entries_map(m.entries@);
    if m.entries@.len() > 0 {
        lemma_entry_le_total(m.entries@, 0);
    }
    if m@.contains_key(k) {
        let i = choose|i: int| 0 <= i < m.entries@.len() && m.entries@[i].key@ == k;
        lemma_entry_le_total(m.entries@, i);
        assert(m@[k] == m.entries@[i].amount);
    }
}

/// The rewards of a list of deposits, times the grand total, never exceed
/// the offered amount times the list's total.
proof fn lemma_rewards_scaled(s: Seq<AmountEntry>, offered: u128, total: u128)
    requires
        total > 0,
    ensures
        rewards_total(s, offered, total) * total <= offered * entries_total(s),
        0 <= rewards_total(s, offered, total),
    decreases s.len(),
{
    if s.len() > 0 {
        let t = s.drop_last();
        lemma_rewards_scaled(t, offered, total);
        let d = s.last().amount;
        let x = offered as int * d as int;
        let q = reward_spec(offered, d, total);
        assert(q * total <= x && 0 <= q) by (nonlinear_arith)
            requires
                q == x / (total as int),
                total > 0,
                x >= 0,
        ;
        let r0 = rewards_total(t, offered, total);
        let e0 = entries_total(t);
        assert((r0 + q) * total == r0 * total + q * total) by (nonlinear_arith);
        assert(offered * (e0 + d) == offered * e0 + offered * d) by (nonlinear_arith);
    }
}

/// The rewards of all the deposits a fundraise holds add up to at most the
/// tokens it offers, so paying every depositor out never overdraws.
pub proof fn law_rewards_within_offer(f: Fundraise)
    requires
        f.wf(),
        f.total_deposited > 0,
    ensures
        rewards_total(f.deposits.entries@, f.config.fundraise.amount, f.total_deposited)
            <= f.config.fundraise.amount,
{
    let s = f.deposits.entries@;
    let offered = f.config.fundraise.amount;
    let total = f.total_deposited;
    lemma_rewards_scaled(s, offered, total);
    if s.len() > 0 {
        lemma_entry_le_total(s, 0);
    }
    let r = rewards_total(s, offered, total);
    let e = entries_total(s);
    assert(r <= offered) by (nonlinear_arith)
        requires
            r * total <= offered * e,
            0 <= e <= total,
            total > 0,
            offered >= 0,
    ;
}

/// The reward of one deposit never exceeds the offered amount.
proof fn lemma_reward_bounded(offered: u128, deposit: u128, total: u128)
    requires
        deposit <= total,
        total > 0,
    ensures
        0 <= reward_spec(offered, deposit, total) <= offered,
{
    let x = offered as int * deposit as int;
    assert(0 <= x <= offered as int * total as int) by (nonlinear_arith)
        requires
            x == offered as int * deposit as int,
            deposit <= total,
    ;
    assert(0 <= x / (total as int) <= offered) by (nonlinear_arith)
        requires
            0 <= x <= offered as int * total as int,
            total > 0,
    ;
}

/// All the settings of two configurations but their phase agree.
pub open spec fn same_settings(a: Config, b: Config) -> bool {
    &&& a.fundraise == b.fundraise
    &&& a.deposit_denom == b.deposit_denom
    &&& a.soft_cap == b.soft_cap
    &&& a.hard_cap == b.hard_cap
    &&& a.start == b.start
    &&& a.end == b.end
    &&& a.recipient == b.recipient
}

/// Why a deposit at `block` is refused before the payment is looked at.
pub open spec fn deposit_gate(f: Fundraise, block: BlockInfo) -> Option<FundraiseError> {
    if f.config.state != FundraiseState::Active {
        Some(FundraiseError::NotActive)
    } else if f.config.start is Some && !is_expired_spec(f.config.start->0, block) {
        Some(FundraiseError::NotStarted)
    } else if is_expired_spec(f.config.end, block) {
        Some(FundraiseError::AlreadyEnded)
    } else {
        None
    }
}

impl Fundraise {
    /// Accepts a deposit of exactly one nonzero coin of the deposit
    /// denomination while the fundraise is active, has started and has not
    /// ended, and as long as the running total stays within the hard cap;
    /// the deposit is added to the depositor's balance and to the running
    /// total. A refused deposit changes nothing.
    pub fn deposit(&mut self, block: &BlockInfo, sender: &String, funds: &Vec<Coin>) -> (r: Result<DepositOutcome, FundraiseError>)
        requires
            old(self).wf(),
        ensures
            final(self).wf(),
            r is Err ==> *final(self) == *old(self),
            match deposit_gate(*old(self), *block) {
                Some(e) => r == Err::<DepositOutcome, FundraiseError>(e),
                None => match one_coin_spec(funds@) {
                    Err(e) => r == Err::<DepositOutcome, FundraiseError>(FundraiseError::Payment(e)),
                    Ok(c) => if c.denom@ != old(self).config.deposit_denom@ {
                        r matches Err(FundraiseError::Payment(PaymentError::MissingDenom(d)))
                            && d@ == old(self).config.deposit_denom@
                    } else if old(self).config.hard_cap matches Some(h) && old(self).total_deposited + c.amount > h {
                        r == Err::<DepositOutcome, FundraiseError>(
                            FundraiseError::HardCapExceeded { hard_cap: old(self).config.hard_cap->0 },
                        )
                    } else if old(self).total_deposited + c.amount > u128::MAX {
                        r == Err::<DepositOutcome, FundraiseError>(FundraiseError::Overflow)
                    } else {
                        r matches Ok(o) && {
                            &&& o.balance == old(self).deposits.amount_of(sender@) + c.amount
                            &&& o.total_deposited == old(self).total_deposited + c.amount
                            &&& final(self).total_deposited == o.total_deposited
                            &&& final(self).deposits@ == old(self).deposits@.insert(sender@, o.balance)
                            &&& final(self).config == old(self).config
                        }
                    },
                },
            },
    {
        if self.config.state != FundraiseState::Active {
            return Err(FundraiseError::NotActive);
        }
        if let Some(start) = self.config.start {
            if !start.is_expired(block) {
                return Err(FundraiseError::NotStarted);
            }
        }
        if self.config.end.is_expired(block) {
            return Err(FundraiseError::AlreadyEnded);
        }
        let paid = match must_pay(funds, &self.config.deposit_denom) {
            Ok(a) => a,
            Err(e) => return Err(FundraiseError::Payment(e)),
        };
        proof {
            lemma_amount_le_total(self.deposits, sender@);
        }
        let current = self.deposits.get(sender);
        if let Some(h) = self.config.hard_cap {
            if paid > h || self.total_deposited > h - paid {
                return Err(FundraiseError::HardCapExceeded { hard_cap: h });
            }
        }
        let total = match self.total_deposited.checked_add(paid) {
            Some(t) => t,
            None => return Err(FundraiseError::Overflow),
        };
        let balance = current + paid;
        self.deposits.set(sender.clone(), balance);
        self.total_deposited = total;
        Ok(DepositOutcome { balance, total_deposited: total })
    }

    /// Pays a depositor out and forgets the deposit: while active the deposit
    /// is refunded and taken off the running total; after failure it is
    /// refunded; after success the depositor receives their reward in the
    /// offered tokens.
    pub fn withdraw(&mut self, sender: &String) -> (r: Result<WithdrawOutcome, FundraiseError>)
        requires
            old(self).wf(),
        ensures
            final(self).wf(),
            !old(self).deposits@.contains_key(sender@) ==> r == Err::<WithdrawOutcome, FundraiseError>(
                FundraiseError::NoBalance,
            ) && *final(self) == *old(self),
            old(self).deposits@.contains_key(sender@) ==> (r matches Ok(o) && {
                let d = old(self).deposits@[sender@];
                &&& final(self).deposits@ == old(self).deposits@.remove(sender@)
                &&& final(self).config == old(self).config
                &&& o.payout.to_address@ == sender@
                &&& match old(self).config.state {
                    FundraiseState::Active => {
                        &&& final(self).total_deposited == old(self).total_deposited - d
                        &&& o.payout.coin.denom@ == old(self).config.deposit_denom@
                        &&& o.payout.coin.amount == d
                        &&& o.total_deposited == Some(final(self).total_deposited)
                        &&& o.reward is None
                    },
                    FundraiseState::Failed => {
                        &&& final(self).total_deposited == old(self).total_deposited
                        &&& o.payout.coin.denom@ == old(self).config.deposit_denom@
                        &&& o.payout.coin.amount == d
                        &&& o.total_deposited is None
                        &&& o.reward is None
                    },
                    FundraiseState::Successful => {
                        &&& final(self).total_deposited == old(self).total_deposited
                        &&& o.payout.coin.denom@ == old(self).config.fundraise.denom@
                        &&& o.payout.coin.amount == reward_spec(
                            old(self).config.fundraise.amount,
                            d,
                            old(self).total_deposited,
                        )
                        &&& o.total_deposited is None
                        &&& o.reward == Some(o.payout.coin.amount)
                    },
                }
            }),
    {
        proof {
            lemma_entries_map(self.deposits.entries@);
            lemma_amount_le_total(self.deposits, sender@);
        }
        let balance = self.deposits.get(sender);
        if balance == 0 {
            return Err(FundraiseError::NoBalance);
        }
        let (coin, total_attr, reward_attr) = match self.config.state {
            FundraiseState::Active => {
                self.total_deposited = self.total_deposited - balance;
                (
                    Coin { denom: self.config.deposit_denom.clone(), amount: balance },
                    Some(self.total_deposited),
                    None,
                )
            },
            FundraiseState::Failed => {
                (Coin { denom: self.config.deposit_denom.clone(), amount: balance }, None, None)
            },
            FundraiseState::Successful => {
                let reward = self.reward_of(balance);
                (Coin { denom: self.config.fundraise.denom.clone(), amount: reward }, None, Some(reward))
            },
        };
        self.deposits.set(sender.clone(), 0);
        Ok(WithdrawOutcome {
            payout: BankSend { to_address: sender.clone(), coin },
            total_deposited: total_attr,
            reward: reward_attr,
        })
    }

    /// The reward of a deposit held by this fundraise.
    fn reward_of(&self, deposit: u128) -> (r: u128)
        requires
            self.wf(),
            0 < deposit <= self.deposits.total(),
        ensures
            r == reward_spec(self.config.fundraise.amount, deposit, self.total_deposited),
            r <= self.config.fundraise.amount,
    {
        proof {
            lemma_reward_bounded(self.config.fundraise.amount, deposit, self.total_deposited);
        }
        match uint_mul_floor_ratio(self.config.fundraise.amount, deposit, self.total_deposited) {
            Ok(v) => v,
            Err(_) => 0,
        }
    }

    /// Closes an active fundraise once its end has passed: it succeeds when
    /// the deposits exceed the soft cap, and the deposits go to the
    /// recipient; otherwise it fails and the offered tokens go back to the
    /// recipient.
    pub fn expire(&mut self, block: &BlockInfo) -> (r: Result<ExpireOutcome, FundraiseError>)
        requires
            old(self).wf(),
        ensures
            final(self).wf(),
            old(self).config.state != FundraiseState::Active ==> r == Err::<ExpireOutcome, FundraiseError>(
                FundraiseError::NotActive,
            ) && *final(self) == *old(self),
            old(self).config.state == FundraiseState::Active && !is_expired_spec(old(self).config.end, *block)
                ==> r == Err::<ExpireOutcome, FundraiseError>(FundraiseError::NotExpired) && *final(self)
                == *old(self),
            old(self).config.state == FundraiseState::Active && is_expired_spec(old(self).config.end, *block)
                ==> (r matches Ok(o) && {
                &&& final(self).total_deposited == old(self).total_deposited
                &&& final(self).deposits == old(self).deposits
                &&& same_settings(final(self).config, old(self).config)
                &&& o.state == final(self).config.state
                &&& o.payout.to_address == old(self).config.recipient
                &&& if old(self).total_deposited > old(self).config.soft_cap {
                    &&& o.state == FundraiseState::Successful
                    &&& o.payout.coin.denom == old(self).config.deposit_denom
                    &&& o.payout.coin.amount == old(self).total_deposited
                } else {
                    &&& o.state == FundraiseState::Failed
                    &&& o.payout.coin == old(self).config.fundraise
                }
            }),
    {
        if self.config.state != FundraiseState::Active {
            return Err(FundraiseError::NotActive);
        }
        if !self.config.end.is_expired(block) {
            return Err(FundraiseError::NotExpired);
        }
        let coin = if self.total_deposited > self.config.soft_cap {
            self.config.state = FundraiseState::Successful;
            Coin { denom: self.config.deposit_denom.clone(), amount: self.total_deposited }
        } else {
            self.config.state = FundraiseState::Failed;
            Coin { denom: self.config.fundraise.denom.clone(), amount: self.config.fundraise.amount }
        };
        Ok(ExpireOutcome {
            state: self.config.state,
            payout: BankSend { to_address: self.config.recipient.clone(), coin },
        })
    }

    /// The deposit of `addr`, if it has one.
    pub fn deposit_of(&self, addr: &String) -> (r: Option<u128>)
        requires
            self.wf(),
        ensures
            r == if self.deposits@.contains_key(addr@) {
                Some(self.deposits@[addr@])
            } else {
                None::<u128>
            },
    {
        proof {
            lemma_entries_map(self.deposits.entries@);
        }
        let a = self.deposits.get(addr);
        if a == 0 {
            None
        } else {
            Some(a)
        }
    }

    /// The reward `addr` would receive: its deposit's share of the offered
    /// tokens against the running total, rounded down; none without a
    /// deposit.
    pub fn reward(&self, addr: &String) -> (r: Option<u128>)
        requires
            self.wf(),
        ensures
            r == if self.deposits@.contains_key(addr@) {
                Some(
                    reward_spec(
                        self.config.fundraise.amount,
                        self.deposits@[addr@],
                        self.total_deposited,
                    ) as u128,
                )
            } else {
                None::<u128>
            },
    {
        proof {
            lemma_entries_map(self.deposits.entries@);
            lemma_amount_le_total(self.deposits, addr@);
        }
        let a = self.deposits.get(addr);
        if a == 0 {
            None
        } else {
            Some(self.reward_of(a))
        }
    }

    /// The running total, the deposit and reward of `addr` when one is given,
    /// whether the end has passed and whether the start has passed.
    pub fn dump_state(&self, block: &BlockInfo, addr: Option<&String>) -> (d: DumpState)
        requires
            self.wf(),
        ensures
            d.total_deposited == self.total_deposited,
            d.has_expired == is_expired_spec(self.config.end, *block),
            d.has_started == match self.config.start {
                Some(s) => Some(is_expired_spec(s, *block)),
                None => None::<bool>,
            },
            match addr {
                Some(a) => {
                    &&& d.deposit == if self.deposits@.contains_key(a@) {
                        Some(self.deposits@[a@])
                    } else {
                        None::<u128>
                    }
                    &&& d.reward == if self.deposits@.contains_key(a@) {
                        Some(
                            reward_spec(
                                self.config.fundraise.amount,
                                self.deposits@[a@],
                                self.total_deposited,
                            ) as u128,
                        )
                    } else {
                        None::<u128>
                    }
                },
                None => d.deposit is None && d.reward is None,
            },
    {
        let (deposit, reward) = match addr {
            Some(a) => (self.deposit_of(a), self.reward(a)),
            None => (None, None),
        };
        DumpState {
            total_deposited: self.total_deposited,
            deposit,
            reward,
            has_expired: self.config.end.is_expired(block),
            has_started: match self.config.start {
                Some(s) => Some(s.is_expired(block)),
                None => None,
            },
        }
    }
}

} // verus!
