use vstd::prelude::*;
use crate::balance::{is_empty_spec, same_balance, Balance};

verus! {

/// The stored total balance of an escrow: native amounts by denomination,
/// cw20 amounts by token and cw721 tokens, each kept as its own record.
/// Saving writes records and never deletes one, so a key that a saved
/// balance lacks keeps what was stored under it until the store is cleared.
#[derive(Debug)]
pub struct TotalBalanceManager {
    pub stored: Balance,
}

impl TotalBalanceManager {
    /// The records are consistent.
    pub open spec fn wf(&self) -> bool {
        self.stored.wf()
    }

    /// An empty store.
    pub fn new() -> (m: TotalBalanceManager)
        ensures
            m.wf(),
            is_empty_spec(m.stored),
    {
        TotalBalanceManager { stored: Balance::empty() }
    }

    /// What the store holds.
    pub fn load(&self) -> (b: Balance)
        requires
            self.wf(),
        ensures
            b.wf(),
            same_balance(b, self.stored),
    {
        self.stored.copy()
    }

    /// Writes every record of `balance` over the store.
    pub fn save(&mut self, balance: &Balance)
        requires
            old(self).wf(),
            balance.wf(),
        ensures
            final(self).wf(),
            final(self).stored.native@ == old(self).stored.native@.union_prefer_right(balance.native@),
            final(self).stored.cw20@ == old(self).stored.cw20@.union_prefer_right(balance.cw20@),
            final(self).stored.cw721@ == old(self).stored.cw721@.union(balance.cw721@),
    {
        self.stored.native.overlay(&balance.native);
        self.stored.cw20.overlay(&balance.cw20);
        let nfts = self.stored.cw721.union(&balance.cw721);
        self.stored.cw721 = nfts;
    }

    /// Deletes every record.
    pub fn clear(&mut self)
        ensures
            final(self).wf(),
            is_empty_spec(final(self).stored),
    {
        self.stored = Balance::empty();
    }
}

/// Saving into a cleared store and loading gives back the saved balance.
pub proof fn law_save_after_clear_loads_back(cleared: TotalBalanceManager, saved: TotalBalanceManager, b: Balance)
    requires
        is_empty_spec(cleared.stored),
        saved.stored.native@ == cleared.stored.native@.union_prefer_right(b.native@),
        saved.stored.cw20@ == cleared.stored.cw20@.union_prefer_right(b.cw20@),
        saved.stored.cw721@ == cleared.stored.cw721@.union(b.cw721@),
    ensures
        same_balance(saved.stored, b),
{
    assert(saved.stored.native@ =~= b.native@);
    assert(saved.stored.cw20@ =~= b.cw20@);
    assert(saved.stored.cw721@ =~= b.cw721@);
}

} // verus!
