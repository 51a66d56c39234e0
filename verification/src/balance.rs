use vstd::prelude::*;
use crate::amount_map::{lemma_amounts_determine, lemma_entries_map, sat_sub, AmountMap};
use crate::math::{mul_div, Decimal, DECIMAL_FRACTIONAL};
use crate::nft_set::NftSet;

verus! {

/// Why an operation on balances failed.
#[derive(Debug, Clone, Copy, PartialEq, Eq, Structural)]
pub enum BalanceError {
    /// A sum or product left the range of `u128`.
    Overflow,
    /// A subtraction asked for more than the balance holds.
    Insufficient,
}

/// Native tokens by denomination, cw20 tokens by contract, and cw721 tokens.
#[derive(Debug)]
pub struct Balance {
    pub native: AmountMap,
    pub cw20: AmountMap,
    pub cw721: NftSet,
}

/// `r` is the sum of `a` and `b`: amounts add up key by key, and the
/// non-fungible tokens are the union.
pub open spec fn is_sum(a: Balance, b: Balance, r: Balance) -> bool {
    &&& forall|k: Seq<char>| r.native.amount_of(k) == a.native.amount_of(k) + b.native.amount_of(k)
    &&& forall|k: Seq<char>| r.cw20.amount_of(k) == a.cw20.amount_of(k) + b.cw20.amount_of(k)
    &&& r.cw721@ == a.cw721@.union(b.cw721@)
}

/// Adding `b` to `a` would leave the range of `u128` under some key.
pub open spec fn sum_overflows(a: Balance, b: Balance) -> bool {
    ||| exists|k: Seq<char>| a.native.amount_of(k) + b.native.amount_of(k) > u128::MAX
    ||| exists|k: Seq<char>| a.cw20.amount_of(k) + b.cw20.amount_of(k) > u128::MAX
}

/// `a` holds at least everything `b` holds.
pub open spec fn covers(a: Balance, b: Balance) -> bool {
    &&& forall|k: Seq<char>| a.native.amount_of(k) >= b.native.amount_of(k)
    &&& forall|k: Seq<char>| a.cw20.amount_of(k) >= b.cw20.amount_of(k)
    &&& b.cw721@.subset_of(a.cw721@)
}

/// `r` is `a` with `b` taken off: amounts key by key, tokens by set
/// difference.
pub open spec fn is_difference(a: Balance, b: Balance, r: Balance) -> bool {
    &&& forall|k: Seq<char>| r.native.amount_of(k) == a.native.amount_of(k) - b.native.amount_of(k)
    &&& forall|k: Seq<char>| r.cw20.amount_of(k) == a.cw20.amount_of(k) - b.cw20.amount_of(k)
    &&& r.cw721@ == a.cw721@.difference(b.cw721@)
}

/// `r` is what remains of `a` once `b` is taken off, never below zero.
pub open spec fn is_remainder(a: Balance, b: Balance, r: Balance) -> bool {
    &&& forall|k: Seq<char>| r.native.amount_of(k) == sat_sub(a.native.amount_of(k), b.native.amount_of(k))
    &&& forall|k: Seq<char>| r.cw20.amount_of(k) == sat_sub(a.cw20.amount_of(k), b.cw20.amount_of(k))
    &&& r.cw721@ == a.cw721@.difference(b.cw721@)
}

/// `r` is the fungible part of `a` scaled by `d`, rounded down, with no
/// non-fungible tokens.
pub open spec fn is_scaled(a: Balance, d: Decimal, r: Balance) -> bool {
    &&& forall|k: Seq<char>| r.native.amount_of(k) == mul_div(a.native.amount_of(k), d.atomics as int, DECIMAL_FRACTIONAL as int)
    &&& forall|k: Seq<char>| r.cw20.amount_of(k) == mul_div(a.cw20.amount_of(k), d.atomics as int, DECIMAL_FRACTIONAL as int)
    &&& r.cw721@ == Set::<(Seq<char>, Seq<char>)>::empty()
}

/// Scaling `a` by `d` would leave the range of `u128` under some key.
pub open spec fn scale_overflows(a: Balance, d: Decimal) -> bool {
    ||| exists|k: Seq<char>| mul_div(a.native.amount_of(k), d.atomics as int, DECIMAL_FRACTIONAL as int) > u128::MAX
    ||| exists|k: Seq<char>| mul_div(a.cw20.amount_of(k), d.atomics as int, DECIMAL_FRACTIONAL as int) > u128::MAX
}

/// `a` and `b` hold the same tokens.
pub open spec fn same_balance(a: Balance, b: Balance) -> bool {
    &&& a.native@ == b.native@
    &&& a.cw20@ == b.cw20@
    &&& a.cw721@ == b.cw721@
}

/// A balance that holds nothing.
pub open spec fn is_empty_spec(b: Balance) -> bool {
    &&& b.native@ == Map::<Seq<char>, u128>::empty()
    &&& b.cw20@ == Map::<Seq<char>, u128>::empty()
    &&& b.cw721@ == Set::<(Seq<char>, Seq<char>)>::empty()
}

impl Balance {
    /// Distinct keys, nonzero amounts, no repeated token.
    pub open spec fn wf(&self) -> bool {
        self.native.wf() && self.cw20.wf() && self.cw721.wf()
    }

    /// The empty balance.
    pub fn empty() -> (b: Balance)
        ensures
            b.wf(),
            is_empty_spec(b),
            forall|k: Seq<char>| b.native.amount_of(k) == 0 && b.cw20.amount_of(k) == 0,
    {
        Balance { native: AmountMap::new(), cw20: AmountMap::new(), cw721: NftSet::new() }
    }

    /// An equal copy.
    pub fn copy(&self) -> (b: Balance)
        ensures
            b.native.entries@ == self.native.entries@,
            b.cw20.entries@ == self.cw20.entries@,
            b.cw721.entries@ == self.cw721.entries@,
    {
        Balance { native: self.native.copy(), cw20: self.cw20.copy(), cw721: self.cw721.copy() }
    }

    /// Whether nothing is held.
    pub fn is_empty(&self) -> (r: bool)
        requires
            self.wf(),
        ensures
            r == is_empty_spec(*self),
    {
        self.native.is_empty() && self.cw20.is_empty() && self.cw721.is_empty()
    }

    /// The sum with `other`.
    pub fn checked_add(&self, other: &Balance) -> (r: Result<Balance, BalanceError>)
        requires
            self.wf(),
            other.wf(),
        ensures
            match r {
                Ok(s) => s.wf() && is_sum(*self, *other, s),
                Err(e) => e == BalanceError::Overflow && sum_overflows(*self, *other),
            },
            r is Err <==> sum_overflows(*self, *other),
    {
        let native = match self.native.checked_add(&other.native) {
            Some(m) => m,
            None => return Err(BalanceError::Overflow),
        };
        let cw20 = match self.cw20.checked_add(&other.cw20) {
            Some(m) => m,
            None => return Err(BalanceError::Overflow),
        };
        let cw721 = self.cw721.union(&other.cw721);
        let r = Balance { native, cw20, cw721 };
        assert(!sum_overflows(*self, *other)) by {
            assert forall|k: Seq<char>| self.native.amount_of(k) + other.native.amount_of(k) <= u128::MAX by {
                assert(r.native.amount_of(k) == self.native.amount_of(k) + other.native.amount_of(k));
            }
            assert forall|k: Seq<char>| self.cw20.amount_of(k) + other.cw20.amount_of(k) <= u128::MAX by {
                assert(r.cw20.amount_of(k) == self.cw20.amount_of(k) + other.cw20.amount_of(k));
            }
        }
        Ok(r)
    }

    /// This balance with `other` taken off; fails unless this balance covers
    /// `other`.
    pub fn checked_sub(&self, other: &Balance) -> (r: Result<Balance, BalanceError>)
        requires
            self.wf(),
            other.wf(),
        ensures
            match r {
                Ok(s) => s.wf() && is_difference(*self, *other, s),
                Err(e) => e == BalanceError::Insufficient && !covers(*self, *other),
            },
            r is Err <==> !covers(*self, *other),
    {
        let native = match self.native.checked_sub(&other.native) {
            Some(m) => m,
            None => return Err(BalanceError::Insufficient),
        };
        let cw20 = match self.cw20.checked_sub(&other.cw20) {
            Some(m) => m,
            None => return Err(BalanceError::Insufficient),
        };
        if !other.cw721.is_subset_of(&self.cw721) {
            return Err(BalanceError::Insufficient);
        }
        let cw721 = self.cw721.difference(&other.cw721);
        let r = Balance { native, cw20, cw721 };
        assert(covers(*self, *other)) by {
            assert forall|k: Seq<char>| self.native.amount_of(k) >= other.native.amount_of(k) by {
                assert(r.native.amount_of(k) >= 0);
            }
            assert forall|k: Seq<char>| self.cw20.amount_of(k) >= other.cw20.amount_of(k) by {
                assert(r.cw20.amount_of(k) >= 0);
            }
        }
        Ok(r)
    }

    /// What is still missing from this balance (a due) once `paid` is
    /// counted against it.
    pub fn difference_to(&self, paid: &Balance) -> (r: Balance)
        requires
            self.wf(),
            paid.wf(),
        ensures
            r.wf(),
            is_remainder(*self, *paid, r),
    {
        Balance {
            native: self.native.saturating_sub(&paid.native),
            cw20: self.cw20.saturating_sub(&paid.cw20),
            cw721: self.cw721.difference(&paid.cw721),
        }
    }

    /// The fungible part of this balance scaled by `fraction`, rounded down.
    pub fn checked_mul_floor(&self, fraction: Decimal) -> (r: Result<Balance, BalanceError>)
        requires
            self.wf(),
        ensures
            match r {
                Ok(s) => s.wf() && is_scaled(*self, fraction, s),
                Err(e) => e == BalanceError::Overflow && scale_overflows(*self, fraction),
            },
    {
        let native = match self.native.checked_mul_floor(fraction) {
            Ok(m) => m,
            Err(_) => return Err(BalanceError::Overflow),
        };
        let cw20 = match self.cw20.checked_mul_floor(fraction) {
            Ok(m) => m,
            Err(_) => return Err(BalanceError::Overflow),
        };
        Ok(Balance { native, cw20, cw721: NftSet::new() })
    }
}

/// A well-formed amount map is empty exactly when it holds nothing under
/// every key.
pub proof fn lemma_empty_iff_zero(m: AmountMap)
    requires
        m.wf(),
    ensures
        (m@ == Map::<Seq<char>, u128>::empty()) <==> (forall|k: Seq<char>| m.amount_of(k) == 0),
{
    lemma_entries_map(m.entries@);
    if forall|k: Seq<char>| m.amount_of(k) == 0 {
        assert forall|k: Seq<char>| !m@.contains_key(k) by {
            if m@.contains_key(k) {
                let i = choose|i: int| 0 <= i < m.entries@.len() && m.entries@[i].key@ == k;
                assert(m.amount_of(k) == m.entries@[i].amount);
            }
        }
        assert(m@ =~= Map::<Seq<char>, u128>::empty());
    }
}

/// Taking off what was just added gives back the balance one started from, when
/// the two balances share no non-fungible token.
pub proof fn law_add_then_sub(a: Balance, b: Balance, s: Balance, d: Balance)
    requires
        a.wf(),
        b.wf(),
        s.wf(),
        d.wf(),
        a.cw721@.disjoint(b.cw721@),
        is_sum(a, b, s),
        is_difference(s, b, d),
    ensures
        covers(s, b),
        same_balance(d, a),
{
    lemma_amounts_determine(d.native, a.native);
    lemma_amounts_determine(d.cw20, a.cw20);
    assert(d.cw721@ =~= a.cw721@);
}

/// Adding back what was taken off gives back the balance one started from.
pub proof fn law_sub_then_add(a: Balance, b: Balance, d: Balance, s: Balance)
    requires
        a.wf(),
        b.wf(),
        d.wf(),
        s.wf(),
        covers(a, b),
        is_difference(a, b, d),
        is_sum(d, b, s),
    ensures
        same_balance(s, a),
{
    lemma_amounts_determine(s.native, a.native);
    lemma_amounts_determine(s.cw20, a.cw20);
    assert(s.cw721@ =~= a.cw721@);
}

/// Addition of balances does not depend on the order of its operands.
pub proof fn law_sum_commutes(a: Balance, b: Balance, r1: Balance, r2: Balance)
    requires
        r1.wf(),
        r2.wf(),
        is_sum(a, b, r1),
        is_sum(b, a, r2),
    ensures
        same_balance(r1, r2),
{
    lemma_amounts_determine(r1.native, r2.native);
    lemma_amounts_determine(r1.cw20, r2.cw20);
    assert(r1.cw721@ =~= r2.cw721@);
}

/// Nothing remains of a due exactly when what was paid covers it.
pub proof fn law_remainder_empty_iff_covered(due: Balance, paid: Balance, r: Balance)
    requires
        r.wf(),
        is_remainder(due, paid, r),
    ensures
        is_empty_spec(r) <==> covers(paid, due),
{
    lemma_empty_iff_zero(r.native);
    lemma_empty_iff_zero(r.cw20);
    if covers(paid, due) {
        assert forall|k: Seq<char>| r.native.amount_of(k) == 0 by {}
        assert forall|k: Seq<char>| r.cw20.amount_of(k) == 0 by {}
        assert(r.cw721@ =~= Set::<(Seq<char>, Seq<char>)>::empty());
    }
    if is_empty_spec(r) {
        assert forall|k: Seq<char>| paid.native.amount_of(k) >= due.native.amount_of(k) by {
            assert(r.native.amount_of(k) == 0);
        }
        assert forall|k: Seq<char>| paid.cw20.amount_of(k) >= due.cw20.amount_of(k) by {
            assert(r.cw20.amount_of(k) == 0);
        }
        assert forall|p: (Seq<char>, Seq<char>)| due.cw721@.contains(p) implies paid.cw721@.contains(p) by {
            assert(!r.cw721@.contains(p));
        }
    }
}

} // verus!
