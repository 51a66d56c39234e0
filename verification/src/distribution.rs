use vstd::prelude::*;
use crate::amount_map::AmountMap;
use crate::balance::{is_empty_spec, is_scaled, scale_overflows, Balance, BalanceError};
use crate::math::{mul_div, Decimal, DECIMAL_FRACTIONAL};
use crate::member_balances::{entries_total, MemberBalance};

verus! {

/// The share of a distribution that goes to one address.
#[derive(Debug)]
pub struct MemberPercentage {
    pub addr: String,
    pub percentage: Decimal,
}

/// How a balance is split: a share for each listed address, and whatever
/// rounding leaves over (with every non-fungible token) for the remainder
/// address.
#[derive(Debug)]
pub struct Distribution {
    pub member_percentages: Vec<MemberPercentage>,
    pub remainder_addr: String,
}

/// The native amounts of `denom` in a list of balances, added up.
pub open spec fn native_total(s: Seq<MemberBalance>, denom: Seq<char>) -> int
    decreases s.len(),
{
    if s.len() == 0 {
        0
    } else {
        native_total(s.drop_last(), denom) + s.last().balance.native.amount_of(denom)
    }
}

/// The cw20 amounts of `token` in a list of balances, added up.
pub open spec fn cw20_total(s: Seq<MemberBalance>, token: Seq<char>) -> int
    decreases s.len(),
{
    if s.len() == 0 {
        0
    } else {
        cw20_total(s.drop_last(), token) + s.last().balance.cw20.amount_of(token)
    }
}

/// `amount` scaled by `d`, rounded down.
pub open spec fn scaled(amount: int, d: Decimal) -> int {
    mul_div(amount, d.atomics as int, DECIMAL_FRACTIONAL as int)
}

/// The shares of `amount` for a list of percentages, added up.
pub open spec fn shares_total(amount: int, ps: Seq<MemberPercentage>) -> int
    decreases ps.len(),
{
    if ps.len() == 0 {
        0
    } else {
        shares_total(amount, ps.drop_last()) + scaled(amount, ps.last().percentage)
    }
}

/// A balance can be split by a list of percentages: no share overflows and,
/// key by key, the shares never add up to more than the balance holds.
pub open spec fn split_feasible(b: Balance, ps: Seq<MemberPercentage>) -> bool {
    &&& forall|j: int| 0 <= j < ps.len() ==> !scale_overflows(b, #[trigger] ps[j].percentage)
    &&& forall|k: Seq<char>| shares_total(b.native.amount_of(k), ps) <= b.native.amount_of(k)
    &&& forall|k: Seq<char>| shares_total(b.cw20.amount_of(k), ps) <= b.cw20.amount_of(k)
}

/// Whether a balance can be split depends on its fungible amounts alone.
pub proof fn lemma_split_feasible_same_amounts(a: Balance, b: Balance, ps: Seq<MemberPercentage>)
    requires
        forall|k: Seq<char>| a.native.amount_of(k) == b.native.amount_of(k),
        forall|k: Seq<char>| a.cw20.amount_of(k) == b.cw20.amount_of(k),
    ensures
        split_feasible(a, ps) == split_feasible(b, ps),
{
    assert forall|d: Decimal| scale_overflows(a, d) == scale_overflows(b, d) by {
        if scale_overflows(a, d) {
            if exists|k: Seq<char>| mul_div(a.native.amount_of(k), d.atomics as int, DECIMAL_FRACTIONAL as int) > u128::MAX {
                let k = choose|k: Seq<char>| mul_div(a.native.amount_of(k), d.atomics as int, DECIMAL_FRACTIONAL as int) > u128::MAX;
                assert(a.native.amount_of(k) == b.native.amount_of(k));
            } else {
                let k = choose|k: Seq<char>| mul_div(a.cw20.amount_of(k), d.atomics as int, DECIMAL_FRACTIONAL as int) > u128::MAX;
                assert(a.cw20.amount_of(k) == b.cw20.amount_of(k));
            }
        }
        if scale_overflows(b, d) {
            if exists|k: Seq<char>| mul_div(b.native.amount_of(k), d.atomics as int, DECIMAL_FRACTIONAL as int) > u128::MAX {
                let k = choose|k: Seq<char>| mul_div(b.native.amount_of(k), d.atomics as int, DECIMAL_FRACTIONAL as int) > u128::MAX;
                assert(a.native.amount_of(k) == b.native.amount_of(k));
            } else {
                let k = choose|k: Seq<char>| mul_div(b.cw20.amount_of(k), d.atomics as int, DECIMAL_FRACTIONAL as int) > u128::MAX;
                assert(a.cw20.amount_of(k) == b.cw20.amount_of(k));
            }
        }
    }
    if split_feasible(a, ps) {
        assert forall|j: int| 0 <= j < ps.len() implies !scale_overflows(b, #[trigger] ps[j].percentage) by {
            assert(scale_overflows(a, ps[j].percentage) == scale_overflows(b, ps[j].percentage));
        }
        assert forall|k: Seq<char>| shares_total(b.native.amount_of(k), ps) <= b.native.amount_of(k) by {
            assert(a.native.amount_of(k) == b.native.amount_of(k));
        }
        assert forall|k: Seq<char>| shares_total(b.cw20.amount_of(k), ps) <= b.cw20.amount_of(k) by {
            assert(a.cw20.amount_of(k) == b.cw20.amount_of(k));
        }
    }
    if split_feasible(b, ps) {
        assert forall|j: int| 0 <= j < ps.len() implies !scale_overflows(a, #[trigger] ps[j].percentage) by {
            assert(scale_overflows(a, ps[j].percentage) == scale_overflows(b, ps[j].percentage));
        }
        assert forall|k: Seq<char>| shares_total(a.native.amount_of(k), ps) <= a.native.amount_of(k) by {
            assert(a.native.amount_of(k) == b.native.amount_of(k));
        }
        assert forall|k: Seq<char>| shares_total(a.cw20.amount_of(k), ps) <= a.cw20.amount_of(k) by {
            assert(a.cw20.amount_of(k) == b.cw20.amount_of(k));
        }
    }
}

/// A share is never negative.
proof fn lemma_scaled_nonneg(amount: int, d: Decimal)
    requires
        amount >= 0,
    ensures
        scaled(amount, d) >= 0,
{
    let x = amount * d.atomics as int;
    assert(x >= 0) by (nonlinear_arith)
        requires
            amount >= 0,
            x == amount * d.atomics as int,
    ;
    assert(x / (DECIMAL_FRACTIONAL as int) >= 0) by (nonlinear_arith)
        requires
            x >= 0,
    ;
}

/// Adding more percentages never lowers the total of the shares.
proof fn lemma_shares_monotone(amount: int, ps: Seq<MemberPercentage>, m: int)
    requires
        amount >= 0,
        0 <= m <= ps.len(),
    ensures
        shares_total(amount, ps.take(m)) <= shares_total(amount, ps),
        0 <= shares_total(amount, ps.take(m)),
    decreases ps.len(),
{
    if m == ps.len() {
        assert(ps.take(m) =~= ps);
        lemma_shares_nonneg(amount, ps);
    } else {
        let t = ps.drop_last();
        assert(t.take(m) =~= ps.take(m));
        lemma_shares_monotone(amount, t, m);
        lemma_scaled_nonneg(amount, ps.last().percentage);
    }
}

/// The total of the shares is never negative.
proof fn lemma_shares_nonneg(amount: int, ps: Seq<MemberPercentage>)
    requires
        amount >= 0,
    ensures
        0 <= shares_total(amount, ps),
    decreases ps.len(),
{
    if ps.len() > 0 {
        lemma_shares_nonneg(amount, ps.drop_last());
        lemma_scaled_nonneg(amount, ps.last().percentage);
    }
}

impl Balance {
    /// Splits this balance by `distribution`: each listed address receives
    /// this balance's fungible amounts scaled by its percentage, rounded down,
    /// in the order listed; the remainder address receives what is left,
    /// with every non-fungible token, last. Fails unless the split is
    /// feasible.
    pub fn split(&self, distribution: &Distribution) -> (r: Result<Vec<MemberBalance>, BalanceError>)
        requires
            self.wf(),
        ensures
            r is Ok <==> split_feasible(*self, distribution.member_percentages@),
            r matches Ok(out) ==> {
                let ps = distribution.member_percentages@;
                &&& out.len() == ps.len() + 1
                &&& forall|j: int| 0 <= j < ps.len() ==> (#[trigger] out@[j]).addr@ == ps[j].addr@ && out@[j].balance.wf()
                    && is_scaled(*self, ps[j].percentage, out@[j].balance)
                &&& out@[ps.len() as int].addr@ == distribution.remainder_addr@
                &&& out@[ps.len() as int].balance.wf()
                &&& out@[ps.len() as int].balance.cw721@ == self.cw721@
                &&& forall|k: Seq<char>| native_total(out@, k) == self.native.amount_of(k)
                &&& forall|k: Seq<char>| cw20_total(out@, k) == self.cw20.amount_of(k)
            },
    {
        let ghost ps = distribution.member_percentages@;
        let mut rem = self.copy();
        assert(rem.native@ == self.native@ && rem.cw20@ == self.cw20@ && rem.cw721@ == self.cw721@);
        let mut out: Vec<MemberBalance> = Vec::new();
        let mut i: usize = 0;
        while i < distribution.member_percentages.len()
            invariant
                ps == distribution.member_percentages@,
                self.wf(),
                rem.wf(),
                i <= ps.len(),
                out.len() == i,
                forall|j: int| 0 <= j < i ==> (#[trigger] out@[j]).addr@ == ps[j].addr@ && out@[j].balance.wf()
                    && is_scaled(*self, ps[j].percentage, out@[j].balance),
                forall|j: int| 0 <= j < i ==> !scale_overflows(*self, #[trigger] ps[j].percentage),
                forall|k: Seq<char>| native_total(out@, k) == shares_total(self.native.amount_of(k), ps.take(i as int)),
                forall|k: Seq<char>| cw20_total(out@, k) == shares_total(self.cw20.amount_of(k), ps.take(i as int)),
                forall|k: Seq<char>| rem.native.amount_of(k) + native_total(out@, k) == self.native.amount_of(k),
                forall|k: Seq<char>| rem.cw20.amount_of(k) + cw20_total(out@, k) == self.cw20.amount_of(k),
                rem.cw721@ == self.cw721@,
            decreases ps.len() - i,
        {
            let mp = &distribution.member_percentages[i];
            proof {
                assert(ps.take(i + 1).drop_last() =~= ps.take(i as int));
            }
            let share = match self.checked_mul_floor(mp.percentage) {
                Ok(b) => b,
                Err(e) => {
                    proof {
                        assert(!split_feasible(*self, ps)) by {
                            assert(scale_overflows(*self, ps[i as int].percentage));
                        }
                    }
                    return Err(e);
                },
            };
            let next = match rem.checked_sub(&share) {
                Ok(b) => b,
                Err(e) => {
                    proof {
                        assert(!split_feasible(*self, ps)) by {
                            if forall|k: Seq<char>| rem.native.amount_of(k) >= share.native.amount_of(k) {
                                if forall|k: Seq<char>| rem.cw20.amount_of(k) >= share.cw20.amount_of(k) {
                                    assert(share.cw721@ =~= Set::<(Seq<char>, Seq<char>)>::empty());
                                    assert(false);
                                } else {
                                    let k = choose|k: Seq<char>| !(rem.cw20.amount_of(k) >= share.cw20.amount_of(k));
                                    lemma_shares_monotone(self.cw20.amount_of(k), ps, i + 1);
                                }
                            } else {
                                let k = choose|k: Seq<char>| !(rem.native.amount_of(k) >= share.native.amount_of(k));
                                lemma_shares_monotone(self.native.amount_of(k), ps, i + 1);
                            }
                        }
                    }
                    return Err(e);
                },
            };
            proof {
                assert(!scale_overflows(*self, mp.percentage)) by {
                    assert forall|k: Seq<char>| scaled(self.native.amount_of(k), mp.percentage) <= u128::MAX by {
                        assert(share.native.amount_of(k) <= u128::MAX);
                    }
                    assert forall|k: Seq<char>| scaled(self.cw20.amount_of(k), mp.percentage) <= u128::MAX by {
                        assert(share.cw20.amount_of(k) <= u128::MAX);
                    }
                }
            }
            let ghost prev = out@;
            out.push(MemberBalance { addr: mp.addr.clone(), balance: share });
            proof {
                assert(out@.drop_last() =~= prev);
                assert(next.cw721@ =~= self.cw721@);
            }
            rem = next;
            i = i + 1;
        }
        proof {
            assert(ps.take(ps.len() as int) =~= ps);
            assert forall|k: Seq<char>| shares_total(self.native.amount_of(k), ps) <= self.native.amount_of(k) by {
                assert(rem.native.amount_of(k) >= 0);
            }
            assert forall|k: Seq<char>| shares_total(self.cw20.amount_of(k), ps) <= self.cw20.amount_of(k) by {
                assert(rem.cw20.amount_of(k) >= 0);
            }
        }
        let ghost prev = out@;
        out.push(MemberBalance { addr: distribution.remainder_addr.clone(), balance: rem });
        proof {
            assert(out@.drop_last() =~= prev);
        }
        Ok(out)
    }
}

/// A fee taken off the balance before it is distributed.
#[derive(Debug)]
pub struct FeeInformation {
    pub tax: Decimal,
    pub receiver: String,
    /// The message that cw20 transfers to the receiver carry, if any.
    pub cw20_msg: Option<Vec<u8>>,
    /// The message that cw721 transfers to the receiver carry, if any.
    pub cw721_msg: Option<Vec<u8>>,
}

/// What remains of `amount` after each fee in turn takes its tax, rounded
/// down, of what the previous ones left.
pub open spec fn after_fees(amount: int, fees: Seq<FeeInformation>) -> int
    decreases fees.len(),
{
    if fees.len() == 0 {
        amount
    } else {
        let before = after_fees(amount, fees.drop_last());
        before - scaled(before, fees.last().tax)
    }
}

/// No fee ever takes more than what the previous ones left.
pub open spec fn fees_feasible(amount: int, fees: Seq<FeeInformation>) -> bool
    decreases fees.len(),
{
    if fees.len() == 0 {
        true
    } else {
        let before = after_fees(amount, fees.drop_last());
        fees_feasible(amount, fees.drop_last()) && scaled(before, fees.last().tax) <= before
    }
}

/// Every fee can be taken from every amount of `b`.
pub open spec fn all_fees_feasible(b: Balance, fees: Seq<FeeInformation>) -> bool {
    &&& forall|k: Seq<char>| fees_feasible(b.native.amount_of(k), fees)
    &&& forall|k: Seq<char>| fees_feasible(b.cw20.amount_of(k), fees)
}

/// `r` is what fee `i` receives of `b`: its tax of what the fees before it
/// left, rounded down, key by key, with no non-fungible token.
pub open spec fn is_fee_share(b: Balance, fees: Seq<FeeInformation>, i: int, r: Balance) -> bool {
    &&& forall|k: Seq<char>| r.native.amount_of(k) == scaled(after_fees(b.native.amount_of(k), fees.take(i)), fees[i].tax)
    &&& forall|k: Seq<char>| r.cw20.amount_of(k) == scaled(after_fees(b.cw20.amount_of(k), fees.take(i)), fees[i].tax)
    &&& r.cw721@ == Set::<(Seq<char>, Seq<char>)>::empty()
}

/// Fee `i` receives nothing of `b`.
pub open spec fn fee_share_is_zero(b: Balance, fees: Seq<FeeInformation>, i: int) -> bool {
    &&& forall|k: Seq<char>| scaled(after_fees(b.native.amount_of(k), fees.take(i)), fees[i].tax) == 0
    &&& forall|k: Seq<char>| scaled(after_fees(b.cw20.amount_of(k), fees.take(i)), fees[i].tax) == 0
}

/// `payouts` are the shares of the fees at `idx` (in increasing order) among
/// the first `n` fees, each paid to its fee's receiver; every other fee among
/// them receives nothing.
pub open spec fn fee_payouts_match(
    b: Balance,
    fees: Seq<FeeInformation>,
    n: int,
    payouts: Seq<MemberBalance>,
    idx: Seq<int>,
) -> bool {
    &&& idx.len() == payouts.len()
    &&& forall|j1: int, j2: int| 0 <= j1 < j2 < idx.len() ==> idx[j1] < idx[j2]
    &&& forall|j: int| 0 <= j < idx.len() ==> 0 <= #[trigger] idx[j] < n
    &&& forall|j: int| 0 <= j < idx.len() ==> (#[trigger] payouts[j]).addr@ == fees[idx[j]].receiver@
        && is_fee_share(b, fees, idx[j], payouts[j].balance)
    &&& forall|x: int| 0 <= x < n && !idx.contains(x) ==> #[trigger] fee_share_is_zero(b, fees, x)
}

/// Fee positions as integers.
pub open spec fn fee_indices(v: Seq<usize>) -> Seq<int> {
    v.map_values(|i: usize| i as int)
}

/// Which fees pay what depends on the fungible amounts alone.
pub proof fn lemma_fee_payouts_same_amounts(
    a: Balance,
    b: Balance,
    fees: Seq<FeeInformation>,
    payouts: Seq<MemberBalance>,
    idx: Seq<int>,
)
    requires
        forall|k: Seq<char>| a.native.amount_of(k) == b.native.amount_of(k),
        forall|k: Seq<char>| a.cw20.amount_of(k) == b.cw20.amount_of(k),
        fee_payouts_match(a, fees, fees.len() as int, payouts, idx),
    ensures
        fee_payouts_match(b, fees, fees.len() as int, payouts, idx),
{
    assert forall|i: int, r: Balance| #[trigger] is_fee_share(a, fees, i, r) implies is_fee_share(b, fees, i, r) by {
        assert forall|k: Seq<char>| r.native.amount_of(k) == scaled(after_fees(b.native.amount_of(k), fees.take(i)), fees[i].tax) by {
            assert(a.native.amount_of(k) == b.native.amount_of(k));
        }
        assert forall|k: Seq<char>| r.cw20.amount_of(k) == scaled(after_fees(b.cw20.amount_of(k), fees.take(i)), fees[i].tax) by {
            assert(a.cw20.amount_of(k) == b.cw20.amount_of(k));
        }
    }
    assert forall|x: int| #[trigger] fee_share_is_zero(a, fees, x) implies fee_share_is_zero(b, fees, x) by {
        assert forall|k: Seq<char>| scaled(after_fees(b.native.amount_of(k), fees.take(x)), fees[x].tax) == 0 by {
            assert(a.native.amount_of(k) == b.native.amount_of(k));
        }
        assert forall|k: Seq<char>| scaled(after_fees(b.cw20.amount_of(k), fees.take(x)), fees[x].tax) == 0 by {
            assert(a.cw20.amount_of(k) == b.cw20.amount_of(k));
        }
    }
    assert forall|j: int| 0 <= j < idx.len() implies (#[trigger] payouts[j]).addr@ == fees[idx[j]].receiver@
        && is_fee_share(b, fees, idx[j], payouts[j].balance) by {
        assert(is_fee_share(a, fees, idx[j], payouts[j].balance));
    }
    assert forall|x: int| 0 <= x < fees.len() && !idx.contains(x) implies #[trigger] fee_share_is_zero(b, fees, x) by {
        assert(fee_share_is_zero(a, fees, x));
    }
    assert(fee_payouts_match(b, fees, fees.len() as int, payouts, idx));
}

/// Feasibility of a list of fees holds for each of its prefixes.
proof fn lemma_fees_feasible_prefix(amount: int, fees: Seq<FeeInformation>, m: int)
    requires
        0 <= m <= fees.len(),
        fees_feasible(amount, fees),
    ensures
        fees_feasible(amount, fees.take(m)),
    decreases fees.len(),
{
    if m == fees.len() {
        assert(fees.take(m) =~= fees);
    } else {
        let t = fees.drop_last();
        assert(t.take(m) =~= fees.take(m));
        lemma_fees_feasible_prefix(amount, t, m);
    }
}

/// Takes each fee in turn off `total`: a fee receives its tax of what the
/// previous fees left, rounded down; fees that come to nothing pay nothing.
/// Returns the payouts with the position of the fee each pays. Fails,
/// leaving `total` as it was, unless every fee is feasible.
pub fn apply_layered_fees(total: &mut Balance, fees: &Vec<FeeInformation>) -> (r: Result<(Vec<MemberBalance>, Vec<usize>), BalanceError>)
    requires
        old(total).wf(),
    ensures
        final(total).wf(),
        r is Ok <==> all_fees_feasible(*old(total), fees@),
        r is Err ==> *final(total) == *old(total),
        r matches Ok((payouts, positions)) ==> {
            &&& forall|k: Seq<char>| final(total).native.amount_of(k) == after_fees(old(total).native.amount_of(k), fees@)
            &&& forall|k: Seq<char>| final(total).cw20.amount_of(k) == after_fees(old(total).cw20.amount_of(k), fees@)
            &&& final(total).cw721@ == old(total).cw721@
            &&& forall|k: Seq<char>| old(total).native.amount_of(k) == final(total).native.amount_of(k) + native_total(payouts@, k)
            &&& forall|k: Seq<char>| old(total).cw20.amount_of(k) == final(total).cw20.amount_of(k) + cw20_total(payouts@, k)
            &&& forall|j: int| 0 <= j < payouts.len() ==> (#[trigger] payouts@[j]).balance.wf() && !is_empty_spec(payouts@[j].balance)
            &&& fee_payouts_match(*old(total), fees@, fees@.len() as int, payouts@, fee_indices(positions@))
        },
{
    let ghost orig = *total;
    let ghost fs = fees@;
    let mut cur = total.copy();
    assert(cur.native@ == orig.native@ && cur.cw20@ == orig.cw20@ && cur.cw721@ == orig.cw721@);
    let mut payouts: Vec<MemberBalance> = Vec::new();
    let mut positions: Vec<usize> = Vec::new();
    let ghost mut idx: Seq<int> = Seq::empty();
    proof {
        assert(fee_indices(positions@) =~= idx);
    }
    let mut i: usize = 0;
    while i < fees.len()
        invariant
            fs == fees@,
            *total == orig,
            orig.wf(),
            cur.wf(),
            i <= fs.len(),
            forall|k: Seq<char>| cur.native.amount_of(k) == after_fees(orig.native.amount_of(k), fs.take(i as int)),
            forall|k: Seq<char>| cur.cw20.amount_of(k) == after_fees(orig.cw20.amount_of(k), fs.take(i as int)),
            forall|k: Seq<char>| fees_feasible(orig.native.amount_of(k), fs.take(i as int)),
            forall|k: Seq<char>| fees_feasible(orig.cw20.amount_of(k), fs.take(i as int)),
            forall|k: Seq<char>| orig.native.amount_of(k) == cur.native.amount_of(k) + native_total(payouts@, k),
            forall|k: Seq<char>| orig.cw20.amount_of(k) == cur.cw20.amount_of(k) + cw20_total(payouts@, k),
            cur.cw721@ == orig.cw721@,
            forall|j: int| 0 <= j < payouts.len() ==> (#[trigger] payouts@[j]).balance.wf() && !is_empty_spec(payouts@[j].balance),
            fee_payouts_match(orig, fs, i as int, payouts@, idx),
            idx == fee_indices(positions@),
        decreases fs.len() - i,
    {
        let fee = &fees[i];
        proof {
            assert(fs.take(i + 1).drop_last() =~= fs.take(i as int));
            assert(fs.take(i + 1).last() == fs[i as int]);
        }
        let amounts = match cur.checked_mul_floor(fee.tax) {
            Ok(b) => b,
            Err(e) => {
                proof {
                    assert(scale_overflows(cur, fee.tax));
                    assert(!all_fees_feasible(orig, fs)) by {
                        if all_fees_feasible(orig, fs) {
                            if exists|k: Seq<char>| scaled(cur.native.amount_of(k), fee.tax) > u128::MAX {
                                let k = choose|k: Seq<char>| scaled(cur.native.amount_of(k), fee.tax) > u128::MAX;
                                lemma_fees_feasible_prefix(orig.native.amount_of(k), fs, i + 1);
                                assert(cur.native.amount_of(k) <= u128::MAX);
                            } else {
                                let k = choose|k: Seq<char>| scaled(cur.cw20.amount_of(k), fee.tax) > u128::MAX;
                                lemma_fees_feasible_prefix(orig.cw20.amount_of(k), fs, i + 1);
                                assert(cur.cw20.amount_of(k) <= u128::MAX);
                            }
                        }
                    }
                }
                return Err(e);
            },
        };
        let next = match cur.checked_sub(&amounts) {
            Ok(b) => b,
            Err(e) => {
                proof {
                    assert(!all_fees_feasible(orig, fs)) by {
                        if all_fees_feasible(orig, fs) {
                            if forall|k: Seq<char>| cur.native.amount_of(k) >= amounts.native.amount_of(k) {
                                if forall|k: Seq<char>| cur.cw20.amount_of(k) >= amounts.cw20.amount_of(k) {
                                    assert(amounts.cw721@ =~= Set::<(Seq<char>, Seq<char>)>::empty());
                                    assert(false);
                                } else {
                                    let k = choose|k: Seq<char>| !(cur.cw20.amount_of(k) >= amounts.cw20.amount_of(k));
                                    lemma_fees_feasible_prefix(orig.cw20.amount_of(k), fs, i + 1);
                                }
                            } else {
                                let k = choose|k: Seq<char>| !(cur.native.amount_of(k) >= amounts.native.amount_of(k));
                                lemma_fees_feasible_prefix(orig.native.amount_of(k), fs, i + 1);
                            }
                        }
                    }
                }
                return Err(e);
            },
        };
        proof {
            assert forall|k: Seq<char>| fees_feasible(orig.native.amount_of(k), fs.take(i + 1)) by {
                assert(next.native.amount_of(k) >= 0);
            }
            assert forall|k: Seq<char>| fees_feasible(orig.cw20.amount_of(k), fs.take(i + 1)) by {
                assert(next.cw20.amount_of(k) >= 0);
            }
            assert(next.cw721@ =~= orig.cw721@);
        }
        proof {
            assert(is_fee_share(orig, fs, i as int, amounts));
        }
        if !amounts.is_empty() {
            let ghost prev = payouts@;
            let ghost prev_idx = idx;
            payouts.push(MemberBalance { addr: fee.receiver.clone(), balance: amounts });
            positions.push(i);
            proof {
                idx = idx.push(i as int);
                assert(fee_indices(positions@) =~= idx);
                assert(payouts@.drop_last() =~= prev);
                assert forall|j: int| 0 <= j < payouts.len() implies (#[trigger] payouts@[j]).balance.wf()
                    && !is_empty_spec(payouts@[j].balance) by {
                    if j < prev.len() {
                        assert(payouts@[j] == prev[j]);
                    }
                }
                assert forall|j: int| 0 <= j < idx.len() implies (#[trigger] payouts@[j]).addr@ == fs[idx[j]].receiver@
                    && is_fee_share(orig, fs, idx[j], payouts@[j].balance) by {
                    if j < prev.len() {
                        assert(payouts@[j] == prev[j]);
                        assert(idx[j] == prev_idx[j]);
                    }
                }
                assert forall|x: int| 0 <= x < i + 1 && !idx.contains(x) implies #[trigger] fee_share_is_zero(orig, fs, x) by {
                    if x == i {
                        assert(idx[idx.len() - 1] == x);
                    } else {
                        if prev_idx.contains(x) {
                            let w = choose|w: int| 0 <= w < prev_idx.len() && prev_idx[w] == x;
                            assert(idx[w] == x);
                        }
                    }
                }
            }
        } else {
            proof {
                assert forall|k: Seq<char>| amounts.native.amount_of(k) == 0 by {}
                assert forall|k: Seq<char>| amounts.cw20.amount_of(k) == 0 by {}
                assert(fee_share_is_zero(orig, fs, i as int));
                assert forall|x: int| 0 <= x < i + 1 && !idx.contains(x) implies #[trigger] fee_share_is_zero(orig, fs, x) by {}
            }
        }
        cur = next;
        i = i + 1;
    }
    proof {
        assert(fs.take(fs.len() as int) =~= fs);
        assert(fee_payouts_match(orig, fees@, fees@.len() as int, payouts@, fee_indices(positions@)));
    }
    *total = cur;
    Ok((payouts, positions))
}

/// Equal shares of one whole for each of `members` (rounded down), with
/// `remainder_addr` taking what rounding leaves.
pub fn equal_distribution(members: &Vec<String>, remainder_addr: &String) -> (d: Distribution)
    requires
        members.len() > 0,
    ensures
        d.member_percentages.len() == members.len(),
        forall|i: int| 0 <= i < members.len() ==> (#[trigger] d.member_percentages@[i]).addr@ == members@[i]@
            && d.member_percentages@[i].percentage.atomics == DECIMAL_FRACTIONAL / (members.len() as u128),
        d.remainder_addr@ == remainder_addr@,
{
    let n = members.len() as u128;
    assert(DECIMAL_FRACTIONAL / n <= DECIMAL_FRACTIONAL) by (nonlinear_arith)
        requires
            n >= 1,
    ;
    assert(1 * DECIMAL_FRACTIONAL == DECIMAL_FRACTIONAL);
    let percentage = match Decimal::checked_from_ratio(1, n) {
        Ok(p) => p,
        Err(_) => Decimal { atomics: 0 },
    };
    let mut member_percentages: Vec<MemberPercentage> = Vec::new();
    let mut i: usize = 0;
    while i < members.len()
        invariant
            i <= members.len(),
            n == members.len(),
            percentage.atomics == DECIMAL_FRACTIONAL / n,
            member_percentages.len() == i,
            forall|j: int| 0 <= j < i ==> (#[trigger] member_percentages@[j]).addr@ == members@[j]@
                && member_percentages@[j].percentage.atomics == DECIMAL_FRACTIONAL / n,
        decreases members.len() - i,
    {
        member_percentages.push(MemberPercentage { addr: members[i].clone(), percentage });
        i = i + 1;
    }
    Distribution { member_percentages, remainder_addr: remainder_addr.clone() }
}

/// How one share of a distribution reaches its holders.
#[derive(Debug)]
pub enum Route {
    /// Split again by a further distribution.
    Split(Distribution),
    /// Credited to the share's own address.
    Direct,
}

/// How a share for `entry_addr` is passed on: by its preset distribution
/// when it has one; otherwise, when the address is a DAO whose member list
/// (as fetched with `member_limit`) is nonempty and shorter than that limit,
/// equally among its members with the DAO taking the remainder; otherwise to
/// the address itself.
pub fn route_entry(entry_addr: &String, preset: Option<Distribution>, dao_members: Option<Vec<String>>, member_limit: u32) -> (r: Route)
    ensures
        preset is Some ==> r == Route::Split(preset->0),
        preset is None && dao_members is Some && 0 < dao_members->0.len() < member_limit ==> (r matches Route::Split(d)
            && d.member_percentages.len() == dao_members->0.len() && d.remainder_addr@ == entry_addr@
            && forall|i: int| 0 <= i < dao_members->0.len() ==> (#[trigger] d.member_percentages@[i]).addr@
            == dao_members->0@[i]@ && d.member_percentages@[i].percentage.atomics == DECIMAL_FRACTIONAL / (
            dao_members->0.len() as u128)),
        preset is None && !(dao_members is Some && 0 < dao_members->0.len() < member_limit) ==> r == Route::Direct,
{
    match preset {
        Some(p) => Route::Split(p),
        None => match dao_members {
            Some(m) => {
                if 0 < m.len() && m.len() < member_limit as usize {
                    Route::Split(equal_distribution(&m, entry_addr))
                } else {
                    Route::Direct
                }
            },
            None => Route::Direct,
        },
    }
}

/// `v` is what the share `entry` gives by `route`: the share itself when it
/// is credited directly; when it is split again, one part per member of the
/// further distribution, in its order, each the share scaled by the
/// member's percentage, then the rest, with every token, for the remainder
/// address (the parts add up to the share).
pub open spec fn passed_on(entry: MemberBalance, route: Route, v: Seq<MemberBalance>) -> bool {
    match route {
        Route::Direct => v == seq![entry],
        Route::Split(d) => {
            let ps = d.member_percentages@;
            &&& v.len() == ps.len() + 1
            &&& forall|j: int| 0 <= j < ps.len() ==> (#[trigger] v[j]).addr@ == ps[j].addr@ && is_scaled(
                entry.balance,
                ps[j].percentage,
                v[j].balance,
            )
            &&& v[ps.len() as int].addr@ == d.remainder_addr@
            &&& v[ps.len() as int].balance.cw721@ == entry.balance.cw721@
            &&& forall|k: Seq<char>| native_total(v, k) == entry.balance.native.amount_of(k)
            &&& forall|k: Seq<char>| cw20_total(v, k) == entry.balance.cw20.amount_of(k)
        },
    }
}

/// The parts one after the other.
pub open spec fn joined(parts: Seq<Seq<MemberBalance>>) -> Seq<MemberBalance>
    decreases parts.len(),
{
    if parts.len() == 0 {
        Seq::empty()
    } else {
        joined(parts.drop_last()) + parts.last()
    }
}

/// `parts[i]` is what `splits[i]` gives by `routes[i]`, for each share.
pub open spec fn routed(splits: Seq<MemberBalance>, routes: Seq<Route>, parts: Seq<Seq<MemberBalance>>) -> bool {
    &&& parts.len() == splits.len()
    &&& routes.len() == splits.len()
    &&& forall|i: int| 0 <= i < parts.len() ==> passed_on(splits[i], routes[i], #[trigger] parts[i])
}

/// The credits that a share gives by its route: the share itself when it
/// is credited directly; its split by the further distribution otherwise,
/// refused when that split is not feasible. The credits add up to the
/// share, token by token.
pub fn pass_on(entry: MemberBalance, route: &Route) -> (r: Result<Vec<MemberBalance>, BalanceError>)
    requires
        entry.balance.wf(),
    ensures
        match *route {
            Route::Direct => r matches Ok(v) && v@ == seq![entry],
            Route::Split(d) => {
                let ps = d.member_percentages@;
                &&& (r is Ok <==> split_feasible(entry.balance, ps))
                &&& r matches Ok(v) ==> {
                    &&& v.len() == ps.len() + 1
                    &&& forall|j: int| 0 <= j < ps.len() ==> (#[trigger] v@[j]).addr@ == ps[j].addr@ && is_scaled(
                        entry.balance,
                        ps[j].percentage,
                        v@[j].balance,
                    )
                    &&& v@[ps.len() as int].addr@ == d.remainder_addr@
                    &&& v@[ps.len() as int].balance.cw721@ == entry.balance.cw721@
                }
            },
        },
        r matches Ok(v) ==> {
            &&& passed_on(entry, *route, v@)
            &&& forall|j: int| 0 <= j < v.len() ==> (#[trigger] v@[j]).balance.wf()
            &&& forall|k: Seq<char>| native_total(v@, k) == entry.balance.native.amount_of(k)
            &&& forall|k: Seq<char>| cw20_total(v@, k) == entry.balance.cw20.amount_of(k)
        },
{
    match route {
        Route::Direct => {
            let ghost e = entry;
            let mut v: Vec<MemberBalance> = Vec::new();
            v.push(entry);
            proof {
                assert(v@ =~= seq![e]);
                assert(v@.drop_last() =~= Seq::<MemberBalance>::empty());
                assert(v@[0] == e);
                assert forall|k: Seq<char>| native_total(v@, k) == e.balance.native.amount_of(k) && cw20_total(v@, k)
                    == e.balance.cw20.amount_of(k) by {
                    assert(native_total(v@.drop_last(), k) == 0);
                    assert(cw20_total(v@.drop_last(), k) == 0);
                }
            }
            Ok(v)
        },
        Route::Split(d) => entry.balance.split(d),
    }
}

/// The list totals of member balances agree with the ledger's totals.
pub proof fn lemma_list_totals(s: Seq<MemberBalance>, k: Seq<char>)
    ensures
        entries_total(s, false, k) == native_total(s, k),
        entries_total(s, true, k) == cw20_total(s, k),
    decreases s.len(),
{
    if s.len() > 0 {
        lemma_list_totals(s.drop_last(), k);
    }
}

/// The totals of `a + b` are the sums of their totals.
pub proof fn lemma_native_total_concat(a: Seq<MemberBalance>, b: Seq<MemberBalance>, k: Seq<char>)
    ensures
        native_total(a + b, k) == native_total(a, k) + native_total(b, k),
        cw20_total(a + b, k) == cw20_total(a, k) + cw20_total(b, k),
    decreases b.len(),
{
    if b.len() == 0 {
        assert(a + b =~= a);
    } else {
        assert((a + b).drop_last() =~= a + b.drop_last());
        lemma_native_total_concat(a, b.drop_last(), k);
    }
}

} // verus!
