use vstd::prelude::*;
use crate::arena_core::{instantiate_response_of, parse_instantiate_response};
use crate::chain::Expiration;
use crate::id_map::{lemma_id_update_value, IdMap};
use crate::str_map::StrMap;

verus! {

/// The reply id of a competition module's instantiation.
pub const COMPETITION_MODULE_REPLY_ID: u64 = 1;

/// The reply id of a wager DAO's instantiation.
pub const DAO_REPLY_ID: u64 = 2;

/// The reply id of a wager escrow's instantiation.
pub const ESCROW_REPLY_ID: u64 = 3;

/// The reply id of the proposal that settles a wager.
pub const COMPETITION_REPLY_ID: u64 = 5;

/// Where a wager stands.
#[derive(Debug, Clone, Copy, PartialEq, Eq, Structural)]
pub enum WagerStatus {
    Pending,
    Active,
    Inactive,
    Jailed,
}

/// A wager: its DAO and escrow (the core's own address until they are
/// instantiated), its status, when it expires and its rules.
#[derive(Debug)]
pub struct Wager {
    pub dao: String,
    pub escrow: String,
    pub status: WagerStatus,
    pub expiration: Expiration,
    pub rules: Vec<String>,
    pub ruleset: Option<u128>,
}

/// A registered competition module.
#[derive(Debug)]
pub struct CompetitionModule {
    pub addr: String,
}

/// One choice of the proposal that settles a wager: team number
/// `team_number` (counted from one) is the winner, and `winner` takes the
/// whole stake.
#[derive(Debug, PartialEq, Eq)]
pub struct WinnerOption {
    pub team_number: u64,
    pub winner: String,
}

/// The choices of the proposal that settles a wager: one per team of the
/// wager's DAO, in the order the DAO lists them, each naming that team the
/// winner.
pub fn wager_result_options(teams: &Vec<String>) -> (r: Vec<WinnerOption>)
    ensures
        r.len() == teams.len(),
        forall|i: int| 0 <= i < teams.len() ==> (#[trigger] r@[i]).team_number == i + 1 && r@[i].winner@ == teams@[i]@,
{
    let mut out: Vec<WinnerOption> = Vec::new();
    let mut i: usize = 0;
    while i < teams.len()
        invariant
            i <= teams.len(),
            out.len() == i,
            forall|j: int| 0 <= j < i ==> (#[trigger] out@[j]).team_number == j + 1 && out@[j].winner@ == teams@[j]@,
        decreases teams.len() - i,
    {
        out.push(WinnerOption { team_number: (i + 1) as u64, winner: teams[i].clone() });
        i = i + 1;
    }
    out
}

/// Why an agon core operation was refused.
#[derive(Debug, Clone, PartialEq, Eq)]
pub enum AgonCoreError {
    /// A reply to a message this contract did not send.
    UnknownReplyId { id: u64 },
    UnknownWagerId { id: u128 },
    Unauthorized,
    Overflow,
    /// The instantiation failed with this error.
    ReplyFailed { error: String },
    /// The reply carries no instantiation response.
    MissingReplyData,
    /// The reply's data is not an instantiation response.
    InvalidReplyData,
    /// No wager is being set up.
    NoPendingWager,
}

/// What a reply changed.
#[derive(Debug, PartialEq, Eq)]
pub enum ReplyOutcome {
    /// The module at `addr` is registered; its instantiation returned
    /// `callback_data`, which may hold messages to send.
    ModuleRegistered { addr: String, callback_data: Option<Vec<u8>> },
    /// The wager's DAO is now `dao`.
    DaoSet { wager_id: u128, dao: String },
    /// The wager's escrow is now `escrow`.
    EscrowSet { wager_id: u128, escrow: String },
    /// The wager is settled and no longer active.
    WagerInactive { wager_id: u128 },
}

/// The registered competition modules, the wagers, and the wager being set
/// up while its contracts are instantiated.
#[derive(Debug)]
pub struct AgonCore {
    pub modules: StrMap<CompetitionModule>,
    pub modules_count: u128,
    pub wagers: IdMap<Wager>,
    pub temp_wager: Option<u128>,
}

/// The view of optional bytes.
pub open spec fn bytes_view(d: Option<Vec<u8>>) -> Option<Seq<u8>> {
    match d {
        Some(v) => Some(v@),
        None => None,
    }
}

/// The address and data that the reply reports of an instantiation, or why
/// it reports none (`result` holds the instantiation response bytes on
/// success, the error otherwise).
pub open spec fn instantiation_reported(result: Result<Option<Vec<u8>>, String>) -> Result<
    (Seq<char>, Option<Seq<u8>>),
    AgonCoreError,
> {
    match result {
        Err(error) => Err(AgonCoreError::ReplyFailed { error }),
        Ok(None) => Err(AgonCoreError::MissingReplyData),
        Ok(Some(d)) => match instantiate_response_of(d@) {
            None => Err(AgonCoreError::InvalidReplyData),
            Some(p) => Ok(p),
        },
    }
}

/// The wager being set up, or why there is none (`missing` when no wager
/// is pending at all).
pub open spec fn pending_wager(core: AgonCore, missing: AgonCoreError) -> Result<u128, AgonCoreError> {
    match core.temp_wager {
        None => Err(missing),
        Some(w) => if core.wagers@.contains_key(w) {
            Ok(w)
        } else {
            Err(AgonCoreError::UnknownWagerId { id: w })
        },
    }
}

/// Reads the instantiation response that a reply reports.
fn read_instantiation(result: &Result<Option<Vec<u8>>, String>) -> (r: Result<(String, Option<Vec<u8>>), AgonCoreError>)
    ensures
        match instantiation_reported(*result) {
            Err(e) => r == Err::<(String, Option<Vec<u8>>), AgonCoreError>(e),
            Ok((addr, data)) => r matches Ok((a, d)) && a@ == addr && bytes_view(d) == data,
        },
{
    match result {
        Err(e) => Err(AgonCoreError::ReplyFailed { error: e.clone() }),
        Ok(None) => Err(AgonCoreError::MissingReplyData),
        Ok(Some(d)) => match parse_instantiate_response(d) {
            None => Err(AgonCoreError::InvalidReplyData),
            Some(p) => Ok(p),
        },
    }
}

impl AgonCore {
    /// No ids repeat among the modules or the wagers.
    pub open spec fn wf(&self) -> bool {
        &&& self.modules.wf()
        &&& self.wagers.wf()
    }

    /// No module, no wager.
    pub fn new() -> (r: AgonCore)
        ensures
            r.wf(),
            r.modules@ == Map::<Seq<char>, CompetitionModule>::empty(),
            r.modules_count == 0,
            r.wagers@ == Map::<u128, Wager>::empty(),
            r.temp_wager is None,
    {
        AgonCore { modules: StrMap::new(), modules_count: 0, wagers: IdMap::new(), temp_wager: None }
    }

    /// The position of the pending wager among the wagers.
    fn find_pending(&self, missing: AgonCoreError) -> (r: Result<usize, AgonCoreError>)
        requires
            self.wf(),
        ensures
            match pending_wager(*self, missing) {
                Err(e) => r == Err::<usize, AgonCoreError>(e),
                Ok(w) => r matches Ok(i) && i < self.wagers.entries.len() && self.wagers.entries@[i as int].0 == w
                    && self.wagers@[w] == self.wagers.entries@[i as int].1,
            },
    {
        let w = match self.temp_wager {
            None => return Err(missing),
            Some(w) => w,
        };
        match self.wagers.find(w) {
            None => Err(AgonCoreError::UnknownWagerId { id: w }),
            Some(i) => Ok(i),
        }
    }

    /// Acts on reply `id` of an instantiation or of a settled wager, in the
    /// core at `contract`. A competition module is registered and counted.
    /// The pending wager gets the instantiated DAO or escrow in place of the
    /// core's own address (any other address there refuses the reply), or is
    /// marked inactive once settled. Failed or unreadable instantiations, a
    /// missing wager, an overflowing count and unknown reply ids are refused,
    /// and a refusal changes nothing.
    pub fn reply(&mut self, id: u64, contract: &String, result: &Result<Option<Vec<u8>>, String>) -> (r: Result<
        ReplyOutcome,
        AgonCoreError,
    >)
        requires
            old(self).wf(),
        ensures
            final(self).wf(),
            r is Err ==> *final(self) == *old(self),
            final(self).temp_wager == old(self).temp_wager,
            id != COMPETITION_MODULE_REPLY_ID && id != DAO_REPLY_ID && id != ESCROW_REPLY_ID && id != COMPETITION_REPLY_ID
                ==> r == Err::<ReplyOutcome, AgonCoreError>(AgonCoreError::UnknownReplyId { id }),
            id == COMPETITION_MODULE_REPLY_ID ==> match instantiation_reported(*result) {
                Err(e) => r == Err::<ReplyOutcome, AgonCoreError>(e),
                Ok((addr, data)) => if old(self).modules_count == u128::MAX {
                    r == Err::<ReplyOutcome, AgonCoreError>(AgonCoreError::Overflow)
                } else {
                    &&& r matches Ok(ReplyOutcome::ModuleRegistered { addr: a, callback_data: d }) && a@ == addr
                        && bytes_view(d) == data
                    &&& final(self).modules@.dom() == old(self).modules@.dom().insert(addr)
                    &&& final(self).modules@[addr].addr@ == addr
                    &&& forall|k: Seq<char>|
                        k != addr && old(self).modules@.contains_key(k) ==> #[trigger] final(self).modules@[k]
                            == old(self).modules@[k]
                    &&& final(self).modules_count == old(self).modules_count + 1
                    &&& final(self).wagers == old(self).wagers
                },
            },
            id == DAO_REPLY_ID ==> match instantiation_reported(*result) {
                Err(e) => r == Err::<ReplyOutcome, AgonCoreError>(e),
                Ok((addr, _)) => match pending_wager(*old(self), AgonCoreError::UnknownWagerId { id: 0 }) {
                    Err(e) => r == Err::<ReplyOutcome, AgonCoreError>(e),
                    Ok(w) => if old(self).wagers@[w].dao@ != contract@ {
                        r == Err::<ReplyOutcome, AgonCoreError>(AgonCoreError::Unauthorized)
                    } else {
                        &&& r matches Ok(ReplyOutcome::DaoSet { wager_id, dao }) && wager_id == w && dao@ == addr
                            && final(self).wagers@ == old(self).wagers@.insert(w, Wager { dao, ..old(self).wagers@[w] })
                        &&& final(self).modules == old(self).modules
                        &&& final(self).modules_count == old(self).modules_count
                    },
                },
            },
            id == ESCROW_REPLY_ID ==> match instantiation_reported(*result) {
                Err(e) => r == Err::<ReplyOutcome, AgonCoreError>(e),
                Ok((addr, _)) => match pending_wager(*old(self), AgonCoreError::NoPendingWager) {
                    Err(e) => r == Err::<ReplyOutcome, AgonCoreError>(e),
                    Ok(w) => if old(self).wagers@[w].escrow@ != contract@ {
                        r == Err::<ReplyOutcome, AgonCoreError>(AgonCoreError::Unauthorized)
                    } else {
                        &&& r matches Ok(ReplyOutcome::EscrowSet { wager_id, escrow }) && wager_id == w && escrow@
                            == addr && final(self).wagers@ == old(self).wagers@.insert(
                            w,
                            Wager { escrow, ..old(self).wagers@[w] },
                        )
                        &&& final(self).modules == old(self).modules
                        &&& final(self).modules_count == old(self).modules_count
                    },
                },
            },
            id == COMPETITION_REPLY_ID ==> match instantiation_reported(*result) {
                Err(e) => r == Err::<ReplyOutcome, AgonCoreError>(e),
                Ok(_) => match pending_wager(*old(self), AgonCoreError::NoPendingWager) {
                    Err(e) => r == Err::<ReplyOutcome, AgonCoreError>(e),
                    Ok(w) => {
                        &&& r == Ok::<ReplyOutcome, AgonCoreError>(ReplyOutcome::WagerInactive { wager_id: w })
                        &&& final(self).wagers@ == old(self).wagers@.insert(
                            w,
                            Wager { status: WagerStatus::Inactive, ..old(self).wagers@[w] },
                        )
                        &&& final(self).modules == old(self).modules
                        &&& final(self).modules_count == old(self).modules_count
                    },
                },
            },
    {
        if id != COMPETITION_MODULE_REPLY_ID && id != DAO_REPLY_ID && id != ESCROW_REPLY_ID && id != COMPETITION_REPLY_ID {
            return Err(AgonCoreError::UnknownReplyId { id });
        }
        let (addr, data) = read_instantiation(result)?;
        if id == COMPETITION_MODULE_REPLY_ID {
            let count = match self.modules_count.checked_add(1) {
                Some(c) => c,
                None => return Err(AgonCoreError::Overflow),
            };
            self.modules.insert(addr.clone(), CompetitionModule { addr: addr.clone() });
            self.modules_count = count;
            return Ok(ReplyOutcome::ModuleRegistered { addr, callback_data: data });
        }
        let missing = if id == DAO_REPLY_ID {
            AgonCoreError::UnknownWagerId { id: 0 }
        } else {
            AgonCoreError::NoPendingWager
        };
        let i = self.find_pending(missing)?;
        let w = self.wagers.entries[i].0;
        let ghost s = self.wagers.entries@;
        if id == DAO_REPLY_ID {
            if self.wagers.entries[i].1.dao != *contract {
                return Err(AgonCoreError::Unauthorized);
            }
            let wager = self.wagers.value_mut(i);
            wager.dao = addr.clone();
            proof {
                let v = Wager { dao: addr, ..s[i as int].1 };
                assert(self.wagers.entries@ =~= s.update(i as int, (s[i as int].0, v)));
                lemma_id_update_value(s, i as int, v);
            }
            Ok(ReplyOutcome::DaoSet { wager_id: w, dao: addr })
        } else if id == ESCROW_REPLY_ID {
            if self.wagers.entries[i].1.escrow != *contract {
                return Err(AgonCoreError::Unauthorized);
            }
            let wager = self.wagers.value_mut(i);
            wager.escrow = addr.clone();
            proof {
                let v = Wager { escrow: addr, ..s[i as int].1 };
                assert(self.wagers.entries@ =~= s.update(i as int, (s[i as int].0, v)));
                lemma_id_update_value(s, i as int, v);
            }
            Ok(ReplyOutcome::EscrowSet { wager_id: w, escrow: addr })
        } else {
            let wager = self.wagers.value_mut(i);
            wager.status = WagerStatus::Inactive;
            proof {
                let v = Wager { status: WagerStatus::Inactive, ..s[i as int].1 };
                assert(self.wagers.entries@ =~= s.update(i as int, (s[i as int].0, v)));
                lemma_id_update_value(s, i as int, v);
            }
            Ok(ReplyOutcome::WagerInactive { wager_id: w })
        }
    }
}

} // verus!
