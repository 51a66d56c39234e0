use vstd::prelude::*;
use crate::order::{
    has_view, insert_prefixed, insert_sorted, lemma_prefixed_lt_order, prefixed_ascending, prefixed_lt,
    str_less, str_lt, strictly_ascending,
};
use crate::balance::{is_empty_spec, is_sum, same_balance, sum_overflows, Balance, BalanceError};

verus! {

/// The balance held for one address.
#[derive(Debug)]
pub struct MemberBalance {
    pub addr: String,
    pub balance: Balance,
}

/// Balances by address; an address without an entry holds nothing.
#[derive(Debug)]
pub struct MemberBalances {
    pub entries: Vec<MemberBalance>,
}

/// No two entries share an address.
pub open spec fn addrs_unique(s: Seq<MemberBalance>) -> bool {
    forall|i: int, j: int| 0 <= i < s.len() && 0 <= j < s.len() && i != j ==> s[i].addr@ != s[j].addr@
}

/// Whether some entry of `s` belongs to `a`.
pub open spec fn has_in(s: Seq<MemberBalance>, a: Seq<char>) -> bool {
    exists|i: int| 0 <= i < s.len() && s[i].addr@ == a
}

/// The balance of the entry of `s` that belongs to `a`.
pub open spec fn at_in(s: Seq<MemberBalance>, a: Seq<char>) -> Balance {
    s[choose|i: int| 0 <= i < s.len() && s[i].addr@ == a].balance
}

/// The entry at `i` is the one `at_in` finds for its address.
pub proof fn lemma_at_in(s: Seq<MemberBalance>, i: int)
    requires
        addrs_unique(s),
        0 <= i < s.len(),
    ensures
        has_in(s, s[i].addr@),
        at_in(s, s[i].addr@) == s[i].balance,
{
    let a = s[i].addr@;
    assert(has_in(s, a));
    let j = choose|j: int| 0 <= j < s.len() && s[j].addr@ == a;
    assert(j == i);
}

/// Removing the entry at `i` forgets its address and keeps every other.
pub proof fn lemma_remove_entry(s: Seq<MemberBalance>, i: int)
    requires
        addrs_unique(s),
        0 <= i < s.len(),
    ensures
        addrs_unique(s.remove(i)),
        !has_in(s.remove(i), s[i].addr@),
        forall|b: Seq<char>| b != s[i].addr@ ==> #[trigger] has_in(s.remove(i), b) == has_in(s, b) && (has_in(s, b)
            ==> at_in(s.remove(i), b) == at_in(s, b)),
        forall|x: int| 0 <= x < s.remove(i).len() ==> #[trigger] s.remove(i)[x] == s[if x < i { x } else { x + 1 }],
{
    let t = s.remove(i);
    assert forall|x: int| 0 <= x < t.len() implies t[x] == s[if x < i { x } else { x + 1 }] by {}
    assert forall|x: int, y: int| 0 <= x < t.len() && 0 <= y < t.len() && x != y implies t[x].addr@ != t[y].addr@ by {
        let x2 = if x < i { x } else { x + 1 };
        let y2 = if y < i { y } else { y + 1 };
        assert(t[x] == s[x2] && t[y] == s[y2]);
    }
    if has_in(t, s[i].addr@) {
        let x = choose|x: int| 0 <= x < t.len() && t[x].addr@ == s[i].addr@;
        let x2 = if x < i { x } else { x + 1 };
        assert(t[x] == s[x2]);
    }
    assert forall|b: Seq<char>| b != s[i].addr@ implies #[trigger] has_in(t, b) == has_in(s, b) && (has_in(s, b)
        ==> at_in(t, b) == at_in(s, b)) by {
        if has_in(s, b) {
            let y = choose|y: int| 0 <= y < s.len() && s[y].addr@ == b;
            assert(y != i);
            let y2 = if y < i { y } else { y - 1 };
            assert(t[y2] == s[y]);
            lemma_at_in(s, y);
            lemma_at_in(t, y2);
        }
        if has_in(t, b) {
            let x = choose|x: int| 0 <= x < t.len() && t[x].addr@ == b;
            let x2 = if x < i { x } else { x + 1 };
            assert(t[x] == s[x2]);
        }
    }
}

/// Replacing the entry at `i` by one for the same address changes only that
/// address.
pub proof fn lemma_update_entry(s: Seq<MemberBalance>, i: int, e: MemberBalance)
    requires
        addrs_unique(s),
        0 <= i < s.len(),
        e.addr@ == s[i].addr@,
    ensures
        addrs_unique(s.update(i, e)),
        has_in(s.update(i, e), e.addr@),
        at_in(s.update(i, e), e.addr@) == e.balance,
        forall|b: Seq<char>| b != e.addr@ ==> #[trigger] has_in(s.update(i, e), b) == has_in(s, b) && (has_in(s, b)
            ==> at_in(s.update(i, e), b) == at_in(s, b)),
{
    let t = s.update(i, e);
    assert forall|x: int, y: int| 0 <= x < t.len() && 0 <= y < t.len() && x != y implies t[x].addr@ != t[y].addr@ by {
        assert(s[x].addr@ != s[y].addr@);
    }
    lemma_at_in(t, i);
    assert forall|b: Seq<char>| b != e.addr@ implies #[trigger] has_in(t, b) == has_in(s, b) && (has_in(s, b)
        ==> at_in(t, b) == at_in(s, b)) by {
        if has_in(s, b) {
            let y = choose|y: int| 0 <= y < s.len() && s[y].addr@ == b;
            assert(t[y] == s[y]);
            lemma_at_in(s, y);
            lemma_at_in(t, y);
        }
        if has_in(t, b) {
            let x = choose|x: int| 0 <= x < t.len() && t[x].addr@ == b;
            assert(t[x] == s[x]);
        }
    }
}

/// Appending an entry for a new address changes only that address.
pub proof fn lemma_push_entry(s: Seq<MemberBalance>, e: MemberBalance)
    requires
        addrs_unique(s),
        !has_in(s, e.addr@),
    ensures
        addrs_unique(s.push(e)),
        has_in(s.push(e), e.addr@),
        at_in(s.push(e), e.addr@) == e.balance,
        forall|b: Seq<char>| b != e.addr@ ==> #[trigger] has_in(s.push(e), b) == has_in(s, b) && (has_in(s, b)
            ==> at_in(s.push(e), b) == at_in(s, b)),
{
    let t = s.push(e);
    assert forall|x: int, y: int| 0 <= x < t.len() && 0 <= y < t.len() && x != y implies t[x].addr@ != t[y].addr@ by {
        if x < s.len() && y < s.len() {
            assert(t[x] == s[x] && t[y] == s[y]);
        } else if x < s.len() {
            assert(t[x] == s[x]);
        } else {
            assert(t[y] == s[y]);
        }
    }
    lemma_at_in(t, s.len() as int);
    assert forall|b: Seq<char>| b != e.addr@ implies #[trigger] has_in(t, b) == has_in(s, b) && (has_in(s, b)
        ==> at_in(t, b) == at_in(s, b)) by {
        if has_in(s, b) {
            let y = choose|y: int| 0 <= y < s.len() && s[y].addr@ == b;
            assert(t[y] == s[y]);
            lemma_at_in(s, y);
            lemma_at_in(t, y);
        }
        if has_in(t, b) {
            let x = choose|x: int| 0 <= x < t.len() && t[x].addr@ == b;
            assert(x < s.len());
            assert(t[x] == s[x]);
        }
    }
}

/// Whether `a` comes after the start of a page of addresses.
pub open spec fn after_addr(a: Seq<char>, start_after: Option<Seq<char>>) -> bool {
    match start_after {
        Some(s) => str_lt(s, a),
        None => true,
    }
}

/// The addresses of a list of entries.
pub open spec fn entry_addrs(s: Seq<&MemberBalance>) -> Seq<String> {
    s.map_values(|e: &MemberBalance| e.addr)
}

/// Which kind of token the stores list `b` under first, in the order they
/// are scanned: native tokens (0), then cw20 tokens (1), then cw721 tokens (2).
pub open spec fn scan_kind(b: Balance) -> int {
    if b.native@ != Map::<Seq<char>, u128>::empty() {
        0
    } else if b.cw20@ != Map::<Seq<char>, u128>::empty() {
        1
    } else {
        2
    }
}

/// `a` is reached before `b` when the balances of `m` are scanned: by kind
/// first, then by address as the stores key it (a length-prefixed component
/// of a composite key: shorter addresses first).
pub open spec fn scanned_before(m: MemberBalances, a: Seq<char>, b: Seq<char>) -> bool {
    let ka = scan_kind(m.at(a));
    let kb = scan_kind(m.at(b));
    ka < kb || (ka == kb && prefixed_lt(a, b))
}

/// `page` is the page of `m` after `start_after` for `limit`: the addresses
/// after the start are scanned holders of native tokens first, then of cw20
/// tokens, then of cw721 tokens, each kind in stored key order, and the first
/// `limit` of them (all of them, when `limit` is 0) make the page, listed in
/// ascending address order with their entries.
pub open spec fn is_page(m: MemberBalances, start_after: Option<Seq<char>>, limit: nat, page: Seq<&MemberBalance>) -> bool {
    &&& page.len() <= limit || limit == 0
    &&& strictly_ascending(entry_addrs(page))
    &&& forall|i: int| #![trigger page[i]]
        0 <= i < page.len() ==> m.has(page[i].addr@) && *page[i] == (MemberBalance {
            addr: page[i].addr,
            balance: m.at(page[i].addr@),
        }) && after_addr(page[i].addr@, start_after)
    &&& forall|a: Seq<char>|
        #![trigger m.has(a)]
        m.has(a) && after_addr(a, start_after) && !has_view(entry_addrs(page), a) ==> limit != 0 && page.len() == limit
            && forall|i: int| 0 <= i < page.len() ==> scanned_before(m, (#[trigger] page[i]).addr@, a)
}

/// Whether one of the first `n` entries belongs to `a`, which comes after the
/// start, and is listed first under `kind`.
pub open spec fn candidate_before(es: Seq<MemberBalance>, n: int, a: Seq<char>, start_after: Option<Seq<char>>, kind: int) -> bool {
    exists|j: int| 0 <= j < n && #[trigger] es[j].addr@ == a && after_addr(a, start_after) && scan_kind(es[j].balance) == kind
}

/// The kind under which the stores list `b` first.
fn scan_kind_of(b: &Balance) -> (k: u8)
    requires
        b.wf(),
    ensures
        k == scan_kind(*b),
{
    if !b.native.is_empty() {
        0
    } else if !b.cw20.is_empty() {
        1
    } else {
        2
    }
}

/// Appends `src` to `dst`.
fn extend_strings(dst: &mut Vec<String>, src: &Vec<String>)
    ensures
        final(dst)@ == old(dst)@ + src@,
{
    let ghost start = dst@;
    let mut i: usize = 0;
    while i < src.len()
        invariant
            i <= src@.len(),
            dst@ == start + src@.take(i as int),
        decreases src@.len() - i,
    {
        dst.push(src[i].clone());
        proof {
            assert(src@.take(i + 1) =~= src@.take(i as int).push(src@[i as int]));
        }
        i = i + 1;
    }
    proof {
        assert(src@.take(src@.len() as int) =~= src@);
    }
}

impl MemberBalances {
    /// Distinct addresses, each holding a well-formed nonempty balance.
    pub open spec fn wf(&self) -> bool {
        &&& addrs_unique(self.entries@)
        &&& forall|i: int| #![trigger self.entries@[i]] 0 <= i < self.entries@.len() ==> self.entries@[i].balance.wf()
            && !is_empty_spec(self.entries@[i].balance)
    }

    /// Whether `a` has an entry.
    pub open spec fn has(&self, a: Seq<char>) -> bool {
        has_in(self.entries@, a)
    }

    /// The balance of `a`, when it has an entry.
    pub open spec fn at(&self, a: Seq<char>) -> Balance {
        at_in(self.entries@, a)
    }

    /// The amount of native `denom` that `a` holds.
    pub open spec fn native_of(&self, a: Seq<char>, denom: Seq<char>) -> int {
        if self.has(a) {
            self.at(a).native.amount_of(denom)
        } else {
            0
        }
    }

    /// The amount of cw20 `token` that `a` holds.
    pub open spec fn cw20_of(&self, a: Seq<char>, token: Seq<char>) -> int {
        if self.has(a) {
            self.at(a).cw20.amount_of(token)
        } else {
            0
        }
    }

    /// The non-fungible tokens that `a` holds.
    pub open spec fn nfts_of(&self, a: Seq<char>) -> Set<(Seq<char>, Seq<char>)> {
        if self.has(a) {
            self.at(a).cw721@
        } else {
            Set::empty()
        }
    }

    /// `b` holds exactly what `a` holds in this map.
    pub open spec fn holds(&self, a: Seq<char>, b: Balance) -> bool {
        &&& forall|k: Seq<char>| b.native.amount_of(k) == self.native_of(a, k)
        &&& forall|k: Seq<char>| b.cw20.amount_of(k) == self.cw20_of(a, k)
        &&& b.cw721@ == self.nfts_of(a)
    }

    /// Every address other than `a` holds the same in both maps.
    pub open spec fn same_except(&self, other: MemberBalances, a: Seq<char>) -> bool {
        forall|x: Seq<char>| x != a ==> (#[trigger] self.has(x) == other.has(x)) && (self.has(x)
            ==> same_balance(self.at(x), other.at(x)))
    }

    /// No address has an entry.
    pub open spec fn is_clear(&self) -> bool {
        self.entries@.len() == 0
    }

    /// The empty map.
    pub fn new() -> (m: MemberBalances)
        ensures
            m.wf(),
            m.is_clear(),
            forall|a: Seq<char>| !m.has(a),
    {
        MemberBalances { entries: Vec::new() }
    }

    /// Whether no address has an entry.
    pub fn is_empty(&self) -> (b: bool)
        ensures
            b == self.is_clear(),
            b == forall|a: Seq<char>| !self.has(a),
    {
        if self.entries.len() == 0 {
            true
        } else {
            assert(self.has(self.entries@[0].addr@));
            false
        }
    }

    /// Removes every entry.
    pub fn clear(&mut self)
        ensures
            final(self).wf(),
            final(self).is_clear(),
            forall|a: Seq<char>| !final(self).has(a),
    {
        self.entries = Vec::new();
    }

    /// The position of the entry of `addr`.
    pub fn find(&self, addr: &String) -> (r: Option<usize>)
        requires
            self.wf(),
        ensures
            match r {
                Some(i) => i < self.entries.len() && self.entries@[i as int].addr@ == addr@ && self.has(addr@)
                    && self.at(addr@) == self.entries@[i as int].balance,
                None => !self.has(addr@),
            },
    {
        let mut i: usize = 0;
        while i < self.entries.len()
            invariant
                self.wf(),
                i <= self.entries.len(),
                forall|j: int| 0 <= j < i ==> self.entries@[j].addr@ != addr@,
            decreases self.entries.len() - i,
        {
            if self.entries[i].addr == *addr {
                proof {
                    lemma_at_in(self.entries@, i as int);
                }
                return Some(i);
            }
            i = i + 1;
        }
        None
    }

    /// A copy of what `addr` holds (empty when it has no entry).
    pub fn get(&self, addr: &String) -> (b: Balance)
        requires
            self.wf(),
        ensures
            b.wf(),
            self.holds(addr@, b),
            self.has(addr@) ==> same_balance(b, self.at(addr@)),
            !self.has(addr@) ==> is_empty_spec(b),
    {
        match self.find(addr) {
            Some(i) => {
                let b = self.entries[i].balance.copy();
                assert(self.entries@[i as int].balance.wf());
                b
            },
            None => Balance::empty(),
        }
    }

    /// The addresses after `start_after` whose balances are listed first
    /// under `kind`, in stored key order.
    fn kind_candidates(&self, start_after: Option<&String>, kind: u8) -> (v: Vec<String>)
        requires
            self.wf(),
        ensures
            prefixed_ascending(v@),
            forall|a: Seq<char>| #[trigger] has_view(v@, a) == (self.has(a) && after_addr(
                a,
                match start_after {
                    Some(s) => Some(s@),
                    None => None,
                },
            ) && scan_kind(self.at(a)) == kind),
    {
        let ghost start = match start_after {
            Some(s) => Some(s@),
            None => None::<Seq<char>>,
        };
        let ghost es = self.entries@;
        let mut sorted: Vec<String> = Vec::new();
        let mut i: usize = 0;
        while i < self.entries.len()
            invariant
                self.wf(),
                es == self.entries@,
                i <= es.len(),
                prefixed_ascending(sorted@),
                start == match start_after {
                    Some(s) => Some(s@),
                    None => None::<Seq<char>>,
                },
                forall|a: Seq<char>| #[trigger] has_view(sorted@, a) == candidate_before(es, i as int, a, start, kind as int),
            decreases es.len() - i,
        {
            let a = &self.entries[i].addr;
            let after = match start_after {
                Some(s) => str_less(s, a),
                None => true,
            };
            proof {
                assert(es[i as int].balance.wf());
            }
            let keep = after && scan_kind_of(&self.entries[i].balance) == kind;
            let ghost before = sorted@;
            assert(a@ == es[i as int].addr@);
            assert(match start_after {
                Some(s) => start == Some(s@),
                None => start is None,
            });
            assert(keep == (after_addr(es[i as int].addr@, start) && scan_kind(es[i as int].balance) == kind));
            if keep {
                insert_prefixed(&mut sorted, a.clone());
            }
            proof {
                assert forall|b: Seq<char>| #[trigger] has_view(sorted@, b) == candidate_before(es, i + 1, b, start, kind as int) by {
                    if candidate_before(es, i + 1, b, start, kind as int) {
                        let j = choose|j: int| 0 <= j < i + 1 && #[trigger] es[j].addr@ == b && after_addr(b, start)
                            && scan_kind(es[j].balance) == kind;
                        if j < i {
                            assert(candidate_before(es, i as int, b, start, kind as int));
                            assert(has_view(before, b));
                        }
                    }
                    if has_view(before, b) {
                        assert(candidate_before(es, i as int, b, start, kind as int));
                        let j = choose|j: int| 0 <= j < i && #[trigger] es[j].addr@ == b && after_addr(b, start)
                            && scan_kind(es[j].balance) == kind;
                        assert(es[j].addr@ == b);
                    }
                    if keep && b == es[i as int].addr@ {
                        assert(es[i as int].addr@ == b && after_addr(b, start) && scan_kind(es[i as int].balance) == kind);
                    }
                    if !keep && b == es[i as int].addr@ && candidate_before(es, i + 1, b, start, kind as int) {
                        let j = choose|j: int| 0 <= j < i + 1 && #[trigger] es[j].addr@ == b && after_addr(b, start)
                            && scan_kind(es[j].balance) == kind;
                        if j == i {
                            assert(false);
                        }
                        assert(candidate_before(es, i as int, b, start, kind as int));
                    }
                }
            }
            i = i + 1;
        }
        proof {
            assert forall|a: Seq<char>| #[trigger] has_view(sorted@, a) == (self.has(a) && after_addr(a, start)
                && scan_kind(self.at(a)) == kind) by {
                if candidate_before(es, es.len() as int, a, start, kind as int) {
                    let j = choose|j: int| 0 <= j < es.len() && #[trigger] es[j].addr@ == a && after_addr(a, start)
                        && scan_kind(es[j].balance) == kind;
                    lemma_at_in(es, j);
                }
                if self.has(a) {
                    let j = choose|j: int| 0 <= j < es.len() && es[j].addr@ == a;
                    lemma_at_in(es, j);
                    if after_addr(a, start) && scan_kind(self.at(a)) == kind {
                        assert(es[j].addr@ == a);
                        assert(candidate_before(es, es.len() as int, a, start, kind as int));
                    }
                }
            }
        }
        sorted
    }

    /// The page after `start_after` for `limit` (0 for no limit): the
    /// addresses after the start are scanned holders of native tokens first,
    /// then of cw20 tokens, then of cw721 tokens, each kind in stored key
    /// order (shorter addresses first); the first `limit` of them are
    /// returned in ascending address order with their entries.
    pub fn page(&self, start_after: Option<&String>, limit: usize) -> (r: Vec<&MemberBalance>)
        requires
            self.wf(),
        ensures
            is_page(
                *self,
                match start_after {
                    Some(s) => Some(s@),
                    None => None,
                },
                limit as nat,
                r@,
            ),
    {
        let ghost start = match start_after {
            Some(s) => Some(s@),
            None => None::<Seq<char>>,
        };
        let ghost es = self.entries@;
        let l0 = self.kind_candidates(start_after, 0);
        let l1 = self.kind_candidates(start_after, 1);
        let l2 = self.kind_candidates(start_after, 2);
        let mut order: Vec<String> = Vec::new();
        extend_strings(&mut order, &l0);
        extend_strings(&mut order, &l1);
        extend_strings(&mut order, &l2);
        let ghost os = order@;
        proof {
            assert(os == l0@ + l1@ + l2@);
            self.lemma_scan_order(l0@, l1@, l2@, start);
        }
        let n: usize = if limit == 0 || limit >= order.len() {
            order.len()
        } else {
            limit
        };
        // The first `n` addresses of the scan, in ascending order.
        let mut chosen: Vec<String> = Vec::new();
        let mut q: usize = 0;
        while q < n
            invariant
                os == order@,
                n <= os.len(),
                q <= n,
                strictly_ascending(chosen@),
                chosen@.len() == q,
                forall|a: Seq<char>| #[trigger] has_view(chosen@, a) == has_view(os.take(q as int), a),
                forall|x: int, y: int| 0 <= x < y < os.len() ==> scanned_before(*self, #[trigger] os[x]@, #[trigger] os[y]@),
                forall|x: int| 0 <= x < os.len() ==> !scanned_before(*self, #[trigger] os[x]@, os[x]@),
            decreases n - q,
        {
            proof {
                if has_view(os.take(q as int), os[q as int]@) {
                    let w = choose|w: int| 0 <= w < q && #[trigger] os.take(q as int)[w]@ == os[q as int]@;
                    assert(os[w]@ == os[q as int]@);
                    assert(scanned_before(*self, os[w]@, os[q as int]@));
                }
            }
            insert_sorted(&mut chosen, order[q].clone());
            proof {
                assert forall|a: Seq<char>| #[trigger] has_view(chosen@, a) == has_view(os.take(q + 1), a) by {
                    if has_view(os.take(q + 1), a) {
                        let w = choose|w: int| 0 <= w < q + 1 && #[trigger] os.take(q + 1)[w]@ == a;
                        if w < q {
                            assert(os.take(q as int)[w] == os[w]);
                            assert(has_view(os.take(q as int), a));
                        }
                    }
                    if has_view(os.take(q as int), a) {
                        let w = choose|w: int| 0 <= w < q && #[trigger] os.take(q as int)[w]@ == a;
                        assert(os.take(q + 1)[w] == os[w]);
                    }
                    if a == os[q as int]@ {
                        assert(os.take(q + 1)[q as int] == os[q as int]);
                    }
                }
            }
            q = q + 1;
        }
        // Their entries.
        let mut out: Vec<&MemberBalance> = Vec::new();
        let mut k: usize = 0;
        let ghost sorted_s = chosen@;
        while k < chosen.len()
            invariant
                self.wf(),
                es == self.entries@,
                sorted_s == chosen@,
                os == order@,
                n <= os.len(),
                forall|a: Seq<char>| #[trigger] has_view(sorted_s, a) == has_view(os.take(n as int), a),
                forall|a: Seq<char>| #[trigger] has_view(os, a) == (self.has(a) && after_addr(a, start)),
                k <= sorted_s.len(),
                out@.len() == k,
                forall|x: int| #![trigger out@[x]]
                    0 <= x < k ==> self.has(out@[x].addr@) && *out@[x] == (MemberBalance {
                        addr: out@[x].addr,
                        balance: self.at(out@[x].addr@),
                    }),
                forall|x: int| #![trigger out@[x]] 0 <= x < k ==> out@[x].addr@ == sorted_s[x]@,
            decreases sorted_s.len() - k,
        {
            proof {
                assert(has_view(sorted_s, sorted_s[k as int]@));
                let w = choose|w: int| 0 <= w < n && #[trigger] os.take(n as int)[w]@ == sorted_s[k as int]@;
                assert(os[w]@ == sorted_s[k as int]@);
                assert(has_view(os, sorted_s[k as int]@));
                let j0 = choose|j: int| 0 <= j < es.len() && es[j].addr@ == sorted_s[k as int]@;
                lemma_at_in(es, j0);
            }
            let j = self.find(&chosen[k]).unwrap();
            proof {
                lemma_at_in(self.entries@, j as int);
            }
            let ghost before = out@;
            out.push(&self.entries[j]);
            proof {
                assert(out@[k as int] == self.entries@[j as int]);
                assert forall|x: int| #![trigger out@[x]] 0 <= x < k + 1 implies self.has(out@[x].addr@) && *out@[x] == (MemberBalance {
                        addr: out@[x].addr,
                        balance: self.at(out@[x].addr@),
                    }) by {
                    if x < k {
                        assert(out@[x] == before[x]);
                    }
                }
                assert forall|x: int| #![trigger out@[x]] 0 <= x < k + 1 implies out@[x].addr@ == sorted_s[x]@ by {
                    if x < k {
                        assert(out@[x] == before[x]);
                    }
                }
            }
            k = k + 1;
        }
        proof {
            let page = out@;
            let addrs = entry_addrs(page);
            assert forall|x: int, y: int| 0 <= x < y < addrs.len() implies str_lt(#[trigger] addrs[x]@, #[trigger] addrs[y]@) by {
                assert(addrs[x]@ == page[x].addr@);
                assert(addrs[y]@ == page[y].addr@);
                assert(page[x].addr@ == sorted_s[x]@);
                assert(page[y].addr@ == sorted_s[y]@);
            }
            assert forall|x: int| #![trigger page[x]] 0 <= x < page.len() implies after_addr(page[x].addr@, start) by {
                assert(page[x].addr@ == sorted_s[x]@);
                assert(has_view(sorted_s, sorted_s[x]@));
                let w = choose|w: int| 0 <= w < n && #[trigger] os.take(n as int)[w]@ == sorted_s[x]@;
                assert(os[w]@ == sorted_s[x]@);
                assert(has_view(os, sorted_s[x]@));
            }
            assert forall|a: Seq<char>|
                #![trigger self.has(a)]
                self.has(a) && after_addr(a, start) && !has_view(addrs, a) implies limit != 0 && page.len() == limit
                    && forall|i: int| 0 <= i < page.len() ==> scanned_before(*self, (#[trigger] page[i]).addr@, a) by {
                assert(has_view(os, a));
                let p = choose|p: int| 0 <= p < os.len() && #[trigger] os[p]@ == a;
                if p < n {
                    assert(os.take(n as int)[p] == os[p]);
                    assert(has_view(os.take(n as int), a));
                    assert(has_view(sorted_s, a));
                    let x = choose|x: int| 0 <= x < sorted_s.len() && #[trigger] sorted_s[x]@ == a;
                    assert(addrs[x]@ == page[x].addr@);
                    assert(has_view(addrs, a));
                }
                assert forall|i: int| 0 <= i < page.len() implies scanned_before(*self, (#[trigger] page[i]).addr@, a) by {
                    assert(page[i].addr@ == sorted_s[i]@);
                    assert(has_view(sorted_s, sorted_s[i]@));
                    let w = choose|w: int| 0 <= w < n && #[trigger] os.take(n as int)[w]@ == sorted_s[i]@;
                    assert(os[w]@ == sorted_s[i]@);
                }
            }
        }
        out
    }

    /// The scan list of three kind lists is strictly ordered by the scan,
    /// and holds exactly the addresses after the start.
    proof fn lemma_scan_order(&self, l0: Seq<String>, l1: Seq<String>, l2: Seq<String>, start: Option<Seq<char>>)
        requires
            self.wf(),
            prefixed_ascending(l0),
            prefixed_ascending(l1),
            prefixed_ascending(l2),
            forall|a: Seq<char>| #[trigger] has_view(l0, a) == (self.has(a) && after_addr(a, start) && scan_kind(self.at(a)) == 0),
            forall|a: Seq<char>| #[trigger] has_view(l1, a) == (self.has(a) && after_addr(a, start) && scan_kind(self.at(a)) == 1),
            forall|a: Seq<char>| #[trigger] has_view(l2, a) == (self.has(a) && after_addr(a, start) && scan_kind(self.at(a)) == 2),
        ensures
            forall|x: int, y: int| 0 <= x < y < (l0 + l1 + l2).len() ==> scanned_before(*self, #[trigger] (l0 + l1 + l2)[x]@, #[trigger] (l0 + l1 + l2)[y]@),
            forall|x: int| 0 <= x < (l0 + l1 + l2).len() ==> !scanned_before(*self, #[trigger] (l0 + l1 + l2)[x]@, (l0 + l1 + l2)[x]@),
            forall|a: Seq<char>| #[trigger] has_view(l0 + l1 + l2, a) == (self.has(a) && after_addr(a, start)),
    {
        let os = l0 + l1 + l2;
        let n0 = l0.len() as int;
        let n1 = l1.len() as int;
        assert forall|x: int| 0 <= x < os.len() implies scan_kind(self.at(#[trigger] os[x]@)) == (if x < n0 { 0int } else if x < n0 + n1 { 1int } else { 2int }) by {
            if x < n0 {
                assert(os[x] == l0[x]);
                assert(has_view(l0, l0[x]@));
            } else if x < n0 + n1 {
                assert(os[x] == l1[x - n0]);
                assert(has_view(l1, l1[x - n0]@));
            } else {
                assert(os[x] == l2[x - n0 - n1]);
                assert(has_view(l2, l2[x - n0 - n1]@));
            }
        }
        assert forall|x: int, y: int| 0 <= x < y < os.len() implies scanned_before(*self, #[trigger] os[x]@, #[trigger] os[y]@) by {
            assert(scan_kind(self.at(os[x]@)) == (if x < n0 { 0int } else if x < n0 + n1 { 1int } else { 2int }));
            assert(scan_kind(self.at(os[y]@)) == (if y < n0 { 0int } else if y < n0 + n1 { 1int } else { 2int }));
            if y < n0 {
                assert(os[x] == l0[x] && os[y] == l0[y]);
            } else if x >= n0 && y < n0 + n1 {
                assert(os[x] == l1[x - n0] && os[y] == l1[y - n0]);
            } else if x >= n0 + n1 {
                assert(os[x] == l2[x - n0 - n1] && os[y] == l2[y - n0 - n1]);
            }
        }
        assert forall|x: int| 0 <= x < os.len() implies !scanned_before(*self, #[trigger] os[x]@, os[x]@) by {
            lemma_prefixed_lt_order(os[x]@, os[x]@, os[x]@);
        }
        assert forall|a: Seq<char>| #[trigger] has_view(os, a) == (self.has(a) && after_addr(a, start)) by {
            if has_view(os, a) {
                let x = choose|x: int| 0 <= x < os.len() && #[trigger] os[x]@ == a;
                if x < n0 {
                    assert(os[x] == l0[x]);
                    assert(has_view(l0, a));
                } else if x < n0 + n1 {
                    assert(os[x] == l1[x - n0]);
                    assert(has_view(l1, a));
                } else {
                    assert(os[x] == l2[x - n0 - n1]);
                    assert(has_view(l2, a));
                }
            }
            if self.has(a) && after_addr(a, start) {
                let k = scan_kind(self.at(a));
                if k == 0 {
                    assert(has_view(l0, a));
                    let x = choose|x: int| 0 <= x < l0.len() && #[trigger] l0[x]@ == a;
                    assert(os[x] == l0[x]);
                } else if k == 1 {
                    assert(has_view(l1, a));
                    let x = choose|x: int| 0 <= x < l1.len() && #[trigger] l1[x]@ == a;
                    assert(os[n0 + x] == l1[x]);
                } else {
                    assert(has_view(l2, a));
                    let x = choose|x: int| 0 <= x < l2.len() && #[trigger] l2[x]@ == a;
                    assert(os[n0 + n1 + x] == l2[x]);
                }
            }
        }
    }

    /// Sets what `addr` holds; an empty balance removes its entry.
    pub fn set(&mut self, addr: String, balance: Balance)
        requires
            old(self).wf(),
            balance.wf(),
        ensures
            final(self).wf(),
            final(self).same_except(*old(self), addr@),
            is_empty_spec(balance) ==> !final(self).has(addr@),
            !is_empty_spec(balance) ==> final(self).has(addr@) && final(self).at(addr@) == balance,
            final(self).holds(addr@, balance),
    {
        let empty = balance.is_empty();
        let ghost s = self.entries@;
        let ghost a = addr@;
        match self.find(&addr) {
            Some(i) => {
                if empty {
                    proof {
                        lemma_remove_entry(s, i as int);
                    }
                    self.entries.remove(i);
                    assert(self.entries@ =~= s.remove(i as int));
                    assert forall|x: int| #![trigger self.entries@[x]] 0 <= x < self.entries@.len() implies self.entries@[x].balance.wf()
                        && !is_empty_spec(self.entries@[x].balance) by {
                        let y = if x < i { x } else { x + 1 };
                        assert(s.remove(i as int)[x] == s[y]);
                        assert(s[y] == old(self).entries@[y]);
                    }
                } else {
                    let e = MemberBalance { addr, balance };
                    proof {
                        lemma_update_entry(s, i as int, e);
                    }
                    self.entries.set(i, e);
                    assert(self.entries@ =~= s.update(i as int, e));
                    assert forall|x: int| #![trigger self.entries@[x]] 0 <= x < self.entries@.len() implies self.entries@[x].balance.wf()
                        && !is_empty_spec(self.entries@[x].balance) by {
                        if x != i {
                            assert(self.entries@[x] == old(self).entries@[x]);
                        }
                    }
                }
            },
            None => {
                if !empty {
                    let e = MemberBalance { addr, balance };
                    proof {
                        lemma_push_entry(s, e);
                    }
                    self.entries.push(e);
                    assert(self.entries@ =~= s.push(e));
                    assert forall|x: int| #![trigger self.entries@[x]] 0 <= x < self.entries@.len() implies self.entries@[x].balance.wf()
                        && !is_empty_spec(self.entries@[x].balance) by {
                        if x < s.len() {
                            assert(self.entries@[x] == old(self).entries@[x]);
                        }
                    }
                }
            },
        }
        proof {
            if is_empty_spec(balance) {
                assert forall|k: Seq<char>| balance.native.amount_of(k) == 0 by {}
                assert forall|k: Seq<char>| balance.cw20.amount_of(k) == 0 by {}
            }
        }
    }
}

/// `after` is `before` with `b` added to what `a` holds.
pub open spec fn credited(before: MemberBalances, a: Seq<char>, b: Balance, after: MemberBalances) -> bool {
    &&& after.same_except(before, a)
    &&& forall|k: Seq<char>| after.native_of(a, k) == before.native_of(a, k) + b.native.amount_of(k)
    &&& forall|k: Seq<char>| after.cw20_of(a, k) == before.cw20_of(a, k) + b.cw20.amount_of(k)
    &&& after.nfts_of(a) == before.nfts_of(a).union(b.cw721@)
}

/// Adding `b` to what `a` holds would leave the range of `u128`.
pub open spec fn credit_overflows(m: MemberBalances, a: Seq<char>, b: Balance) -> bool {
    ||| exists|k: Seq<char>| m.native_of(a, k) + b.native.amount_of(k) > u128::MAX
    ||| exists|k: Seq<char>| m.cw20_of(a, k) + b.cw20.amount_of(k) > u128::MAX
}

impl MemberBalances {
    /// Adds `b` to what `addr` holds; fails, changing nothing, when some
    /// amount would leave the range of `u128`.
    pub fn credit(&mut self, addr: &String, b: &Balance) -> (r: Result<(), BalanceError>)
        requires
            old(self).wf(),
            b.wf(),
        ensures
            final(self).wf(),
            r is Ok ==> credited(*old(self), addr@, *b, *final(self)),
            r is Ok ==> forall|cw20: bool, k: Seq<char>| #[trigger] final(self).held(cw20, k) == old(self).held(cw20, k)
                + fungible_in(*b, cw20, k),
            r is Err ==> *final(self) == *old(self) && credit_overflows(*old(self), addr@, *b),
            r is Err <==> credit_overflows(*old(self), addr@, *b),
            r matches Err(e) ==> e == BalanceError::Overflow,
    {
        let existing = self.get(addr);
        match existing.checked_add(b) {
            Ok(updated) => {
                let ghost before = *self;
                self.set(addr.clone(), updated);
                proof {
                    assert(self.holds(addr@, updated));
                    assert forall|cw20: bool, k: Seq<char>| #[trigger] self.held(cw20, k) == before.held(cw20, k) + fungible_in(
                        *b,
                        cw20,
                        k,
                    ) by {
                        lemma_held_except(before, *self, addr@, cw20, k);
                    }
                }
                Ok(())
            },
            Err(_) => Err(BalanceError::Overflow),
        }
    }
}

/// What a list of balances credits native `denom` to `a`, added up.
pub open spec fn credit_native(s: Seq<MemberBalance>, a: Seq<char>, denom: Seq<char>) -> int
    decreases s.len(),
{
    if s.len() == 0 {
        0
    } else {
        credit_native(s.drop_last(), a, denom) + if s.last().addr@ == a {
            s.last().balance.native.amount_of(denom)
        } else {
            0
        }
    }
}

/// What a list of balances credits cw20 `token` to `a`, added up.
pub open spec fn credit_cw20(s: Seq<MemberBalance>, a: Seq<char>, token: Seq<char>) -> int
    decreases s.len(),
{
    if s.len() == 0 {
        0
    } else {
        credit_cw20(s.drop_last(), a, token) + if s.last().addr@ == a {
            s.last().balance.cw20.amount_of(token)
        } else {
            0
        }
    }
}

/// The non-fungible tokens a list of balances credits to `a`.
pub open spec fn credit_nfts(s: Seq<MemberBalance>, a: Seq<char>) -> Set<(Seq<char>, Seq<char>)>
    decreases s.len(),
{
    if s.len() == 0 {
        Set::empty()
    } else {
        if s.last().addr@ == a {
            credit_nfts(s.drop_last(), a).union(s.last().balance.cw721@)
        } else {
            credit_nfts(s.drop_last(), a)
        }
    }
}

impl MemberBalances {
    /// Credits each balance of `list` to its address, in order. Fails,
    /// leaving this map in an unspecified but well-formed state, when some
    /// amount would leave the range of `u128`.
    pub fn credit_all(&mut self, list: &Vec<MemberBalance>) -> (r: Result<(), BalanceError>)
        requires
            old(self).wf(),
            forall|i: int| 0 <= i < list.len() ==> (#[trigger] list@[i]).balance.wf(),
        ensures
            final(self).wf(),
            r matches Err(e) ==> e == BalanceError::Overflow,
            credits_fit(*old(self), list@) ==> r is Ok,
            r is Ok ==> {
                &&& forall|a: Seq<char>, k: Seq<char>| #[trigger] final(self).native_of(a, k) == old(self).native_of(a, k)
                    + credit_native(list@, a, k)
                &&& forall|a: Seq<char>, k: Seq<char>| #[trigger] final(self).cw20_of(a, k) == old(self).cw20_of(a, k)
                    + credit_cw20(list@, a, k)
                &&& forall|a: Seq<char>| #[trigger] final(self).nfts_of(a) == old(self).nfts_of(a).union(credit_nfts(list@, a))
                &&& forall|cw20: bool, k: Seq<char>| #[trigger] final(self).held(cw20, k) == old(self).held(cw20, k)
                    + entries_total(list@, cw20, k)
            },
    {
        let ghost start = *self;
        let ghost s = list@;
        let mut i: usize = 0;
        while i < list.len()
            invariant
                start == *old(self),
                s == list@,
                forall|i: int| 0 <= i < list.len() ==> (#[trigger] list@[i]).balance.wf(),
                self.wf(),
                i <= s.len(),
                forall|a: Seq<char>, k: Seq<char>| #[trigger] self.native_of(a, k) == start.native_of(a, k) + credit_native(
                    s.take(i as int),
                    a,
                    k,
                ),
                forall|a: Seq<char>, k: Seq<char>| #[trigger] self.cw20_of(a, k) == start.cw20_of(a, k) + credit_cw20(
                    s.take(i as int),
                    a,
                    k,
                ),
                forall|a: Seq<char>| #[trigger] self.nfts_of(a) == start.nfts_of(a).union(credit_nfts(s.take(i as int), a)),
                forall|cw20: bool, k: Seq<char>| #[trigger] self.held(cw20, k) == start.held(cw20, k) + entries_total(
                    s.take(i as int),
                    cw20,
                    k,
                ),
            decreases s.len() - i,
        {
            let ghost prev = *self;
            let e = &list[i];
            proof {
                assert(s.take(i + 1).drop_last() =~= s.take(i as int));
                assert(s.take(i + 1).last() == s[i as int]);
            }
            match self.credit(&e.addr, &e.balance) {
                Ok(()) => {},
                Err(_) => {
                    proof {
                        if credits_fit(start, s) {
                            if exists|k: Seq<char>| prev.native_of(e.addr@, k) + e.balance.native.amount_of(k) > u128::MAX {
                                let k = choose|k: Seq<char>| prev.native_of(e.addr@, k) + e.balance.native.amount_of(k) > u128::MAX;
                                lemma_credit_prefix(s, i + 1, e.addr@, k);
                                assert(*e == s[i as int]);
                                assert(prev.native_of(e.addr@, k) == start.native_of(e.addr@, k) + credit_native(s.take(i as int), e.addr@, k));
                                assert(credit_native(s.take(i + 1), e.addr@, k) == credit_native(s.take(i as int), e.addr@, k) + e.balance.native.amount_of(k));
                                assert(start.native_of(e.addr@, k) + credit_native(s, e.addr@, k) <= u128::MAX);
                            } else {
                                let k = choose|k: Seq<char>| prev.cw20_of(e.addr@, k) + e.balance.cw20.amount_of(k) > u128::MAX;
                                lemma_credit_prefix(s, i + 1, e.addr@, k);
                                assert(*e == s[i as int]);
                                assert(prev.cw20_of(e.addr@, k) == start.cw20_of(e.addr@, k) + credit_cw20(s.take(i as int), e.addr@, k));
                                assert(credit_cw20(s.take(i + 1), e.addr@, k) == credit_cw20(s.take(i as int), e.addr@, k) + e.balance.cw20.amount_of(k));
                                assert(start.cw20_of(e.addr@, k) + credit_cw20(s, e.addr@, k) <= u128::MAX);
                            }
                        }
                    }
                    return Err(BalanceError::Overflow);
                },
            }
            proof {
                assert forall|a: Seq<char>, k: Seq<char>| #[trigger] self.native_of(a, k) == start.native_of(a, k)
                    + credit_native(s.take(i + 1), a, k) by {
                    assert(credit_native(s.take(i + 1), a, k) == credit_native(s.take(i as int), a, k) + if s[i as int].addr@
                        == a {
                        s[i as int].balance.native.amount_of(k)
                    } else {
                        0
                    });
                    if a != e.addr@ {
                        assert(self.has(a) == prev.has(a));
                        if self.has(a) {
                            assert(same_balance(self.at(a), prev.at(a)));
                        }
                        assert(self.native_of(a, k) == prev.native_of(a, k));
                    }
                }
                assert forall|a: Seq<char>, k: Seq<char>| #[trigger] self.cw20_of(a, k) == start.cw20_of(a, k)
                    + credit_cw20(s.take(i + 1), a, k) by {
                    assert(credit_cw20(s.take(i + 1), a, k) == credit_cw20(s.take(i as int), a, k) + if s[i as int].addr@
                        == a {
                        s[i as int].balance.cw20.amount_of(k)
                    } else {
                        0
                    });
                    if a != e.addr@ {
                        assert(self.has(a) == prev.has(a));
                        if self.has(a) {
                            assert(same_balance(self.at(a), prev.at(a)));
                        }
                        assert(self.cw20_of(a, k) == prev.cw20_of(a, k));
                    }
                }
                assert forall|a: Seq<char>| #[trigger] self.nfts_of(a) == start.nfts_of(a).union(credit_nfts(s.take(i + 1), a)) by {
                    if a != e.addr@ {
                        assert(self.has(a) == prev.has(a));
                        if self.has(a) {
                            assert(same_balance(self.at(a), prev.at(a)));
                        }
                        assert(self.nfts_of(a) == prev.nfts_of(a));
                        assert(credit_nfts(s.take(i + 1), a) == credit_nfts(s.take(i as int), a));
                    } else {
                        assert(credit_nfts(s.take(i + 1), a) == credit_nfts(s.take(i as int), a).union(e.balance.cw721@));
                        assert(start.nfts_of(a).union(credit_nfts(s.take(i as int), a)).union(e.balance.cw721@) =~=
                            start.nfts_of(a).union(credit_nfts(s.take(i + 1), a)));
                    }
                }
            }
            i = i + 1;
        }
        proof {
            assert(s.take(s.len() as int) =~= s);
        }
        Ok(())
    }
}


/// The amount of fungible token `k` in `b`: cw20 when `cw20`, else native.
pub open spec fn fungible_in(b: Balance, cw20: bool, k: Seq<char>) -> int {
    if cw20 {
        b.cw20.amount_of(k)
    } else {
        b.native.amount_of(k)
    }
}

/// The amounts of one fungible token in a list of balances, added up.
pub open spec fn entries_total(s: Seq<MemberBalance>, cw20: bool, k: Seq<char>) -> int
    decreases s.len(),
{
    if s.len() == 0 {
        0
    } else {
        entries_total(s.drop_last(), cw20, k) + fungible_in(s.last().balance, cw20, k)
    }
}

impl MemberBalances {
    /// What all addresses hold of one fungible token, added up.
    pub open spec fn held(&self, cw20: bool, k: Seq<char>) -> int {
        entries_total(self.entries@, cw20, k)
    }

    /// What `a` holds of one fungible token.
    pub open spec fn held_by(&self, a: Seq<char>, cw20: bool, k: Seq<char>) -> int {
        if cw20 {
            self.cw20_of(a, k)
        } else {
            self.native_of(a, k)
        }
    }
}

/// Taking an entry out of a list takes its amount out of the total.
proof fn lemma_entries_total_remove(s: Seq<MemberBalance>, i: int, cw20: bool, k: Seq<char>)
    requires
        0 <= i < s.len(),
    ensures
        entries_total(s, cw20, k) == entries_total(s.remove(i), cw20, k) + fungible_in(s[i].balance, cw20, k),
    decreases s.len(),
{
    if i == s.len() - 1 {
        assert(s.remove(i) =~= s.drop_last());
    } else {
        lemma_entries_total_remove(s.drop_last(), i, cw20, k);
        assert(s.remove(i).drop_last() =~= s.drop_last().remove(i));
        assert(s.remove(i).last() == s.last());
    }
}

/// A list without one address's entry: the addresses it holds are the
/// others, with the same balances.
proof fn lemma_without_entry(s: Seq<MemberBalance>, i: int)
    requires
        addrs_unique(s),
        0 <= i < s.len(),
    ensures
        addrs_unique(s.remove(i)),
        forall|a: Seq<char>| #[trigger] has_in(s.remove(i), a) == (has_in(s, a) && a != s[i].addr@),
        forall|a: Seq<char>| has_in(s.remove(i), a) ==> #[trigger] at_in(s.remove(i), a) == at_in(s, a),
{
    let t = s.remove(i);
    assert forall|x: int, y: int| 0 <= x < t.len() && 0 <= y < t.len() && x != y implies t[x].addr@ != t[y].addr@ by {
        let xs = if x < i { x } else { x + 1 };
        let ys = if y < i { y } else { y + 1 };
        assert(t[x] == s[xs] && t[y] == s[ys]);
    }
    assert forall|a: Seq<char>| #[trigger] has_in(t, a) == (has_in(s, a) && a != s[i].addr@) by {
        if has_in(t, a) {
            let x = choose|x: int| 0 <= x < t.len() && t[x].addr@ == a;
            let xs = if x < i { x } else { x + 1 };
            assert(t[x] == s[xs]);
        }
        if has_in(s, a) && a != s[i].addr@ {
            let x = choose|x: int| 0 <= x < s.len() && s[x].addr@ == a;
            let xt = if x < i { x } else { x - 1 };
            assert(t[xt] == s[x]);
        }
    }
    assert forall|a: Seq<char>| has_in(t, a) implies #[trigger] at_in(t, a) == at_in(s, a) by {
        let x = choose|x: int| 0 <= x < t.len() && t[x].addr@ == a;
        let xs = if x < i { x } else { x + 1 };
        assert(t[x] == s[xs]);
        lemma_at_in(t, x);
        lemma_at_in(s, xs);
    }
}

/// Two lists that hold the same amounts for the same addresses have the
/// same totals.
proof fn lemma_entries_total_same(s: Seq<MemberBalance>, t: Seq<MemberBalance>, cw20: bool, k: Seq<char>)
    requires
        addrs_unique(s),
        addrs_unique(t),
        forall|a: Seq<char>| #[trigger] has_in(s, a) == has_in(t, a),
        forall|a: Seq<char>| has_in(s, a) ==> fungible_in(#[trigger] at_in(s, a), cw20, k) == fungible_in(at_in(t, a), cw20, k),
    ensures
        entries_total(s, cw20, k) == entries_total(t, cw20, k),
    decreases s.len(),
{
    if s.len() == 0 {
        if t.len() > 0 {
            assert(has_in(t, t[0].addr@));
            assert(has_in(s, t[0].addr@));
        }
        assert(t.len() == 0);
    } else {
        let i = s.len() - 1;
        let x = s[i].addr@;
        assert(has_in(s, x));
        assert(has_in(t, x));
        let j = choose|j: int| 0 <= j < t.len() && t[j].addr@ == x;
        lemma_without_entry(s, i);
        lemma_without_entry(t, j);
        assert(s.remove(i) =~= s.drop_last());
        let s1 = s.remove(i);
        let t1 = t.remove(j);
        assert forall|a: Seq<char>| #[trigger] has_in(s1, a) == has_in(t1, a) by {
            assert(has_in(s1, a) == (has_in(s, a) && a != x));
            assert(has_in(t1, a) == (has_in(t, a) && a != x));
        }
        assert forall|a: Seq<char>| has_in(s1, a) implies fungible_in(#[trigger] at_in(s1, a), cw20, k) == fungible_in(
            at_in(t1, a),
            cw20,
            k,
        ) by {
            assert(at_in(s1, a) == at_in(s, a));
            assert(has_in(t1, a));
            assert(at_in(t1, a) == at_in(t, a));
        }
        lemma_entries_total_same(s1, t1, cw20, k);
        lemma_entries_total_remove(t, j, cw20, k);
        lemma_at_in(s, i);
        lemma_at_in(t, j);
        assert(fungible_in(at_in(s, x), cw20, k) == fungible_in(at_in(t, x), cw20, k));
        assert(entries_total(s, cw20, k) == entries_total(s1, cw20, k) + fungible_in(s[i].balance, cw20, k));
        assert(entries_total(t, cw20, k) == entries_total(t1, cw20, k) + fungible_in(t[j].balance, cw20, k));
        assert(entries_total(s1, cw20, k) == entries_total(t1, cw20, k));
        assert(at_in(s, x) == s[i].balance);
        assert(at_in(t, x) == t[j].balance);
    }
}

/// What one address holds, taken out of the total, leaves what the others
/// hold.
proof fn lemma_held_split(m: MemberBalances, a: Seq<char>, cw20: bool, k: Seq<char>) -> (rest: Seq<MemberBalance>)
    requires
        m.wf(),
    ensures
        addrs_unique(rest),
        forall|x: Seq<char>| #[trigger] has_in(rest, x) == (m.has(x) && x != a),
        forall|x: Seq<char>| has_in(rest, x) ==> #[trigger] at_in(rest, x) == m.at(x),
        m.held(cw20, k) == entries_total(rest, cw20, k) + m.held_by(a, cw20, k),
{
    let s = m.entries@;
    if m.has(a) {
        let i = choose|i: int| 0 <= i < s.len() && s[i].addr@ == a;
        lemma_without_entry(s, i);
        lemma_entries_total_remove(s, i, cw20, k);
        lemma_at_in(s, i);
        s.remove(i)
    } else {
        s
    }
}

/// Changing what one address holds changes the total by exactly that much.
pub proof fn lemma_held_except(before: MemberBalances, after: MemberBalances, a: Seq<char>, cw20: bool, k: Seq<char>)
    requires
        before.wf(),
        after.wf(),
        after.same_except(before, a),
    ensures
        after.held(cw20, k) - after.held_by(a, cw20, k) == before.held(cw20, k) - before.held_by(a, cw20, k),
{
    let r0 = lemma_held_split(before, a, cw20, k);
    let r1 = lemma_held_split(after, a, cw20, k);
    assert forall|x: Seq<char>| #[trigger] has_in(r1, x) == has_in(r0, x) by {
        if x != a {
            assert(after.has(x) == before.has(x));
        }
    }
    assert forall|x: Seq<char>| has_in(r1, x) implies fungible_in(#[trigger] at_in(r1, x), cw20, k) == fungible_in(
        at_in(r0, x),
        cw20,
        k,
    ) by {
        assert(after.has(x) == before.has(x));
        assert(same_balance(after.at(x), before.at(x)));
    }
    lemma_entries_total_same(r1, r0, cw20, k);
}

/// A map without entries holds nothing.
pub proof fn lemma_held_clear(m: MemberBalances, cw20: bool, k: Seq<char>)
    requires
        m.is_clear(),
    ensures
        m.held(cw20, k) == 0,
{
}

/// No one holds more than all together.
pub proof fn lemma_held_by_within(m: MemberBalances, a: Seq<char>, cw20: bool, k: Seq<char>)
    requires
        m.wf(),
    ensures
        0 <= m.held_by(a, cw20, k) <= m.held(cw20, k),
{
    let r = lemma_held_split(m, a, cw20, k);
    lemma_entries_total_nonneg(r, cw20, k);
    if m.has(a) {
        let i = choose|i: int| 0 <= i < m.entries@.len() && m.entries@[i].addr@ == a;
        lemma_at_in(m.entries@, i);
    }
}

/// A total is never negative.
proof fn lemma_entries_total_nonneg(s: Seq<MemberBalance>, cw20: bool, k: Seq<char>)
    ensures
        entries_total(s, cw20, k) >= 0,
    decreases s.len(),
{
    if s.len() > 0 {
        lemma_entries_total_nonneg(s.drop_last(), cw20, k);
    }
}


/// Crediting `list` to `m` keeps every amount within `u128`.
pub open spec fn credits_fit(m: MemberBalances, list: Seq<MemberBalance>) -> bool {
    &&& forall|a: Seq<char>, k: Seq<char>| #[trigger] m.native_of(a, k) + credit_native(list, a, k) <= u128::MAX
    &&& forall|a: Seq<char>, k: Seq<char>| #[trigger] m.cw20_of(a, k) + credit_cw20(list, a, k) <= u128::MAX
}

/// What a prefix of a list credits never exceeds what the whole list credits.
pub proof fn lemma_credit_prefix(s: Seq<MemberBalance>, j: int, a: Seq<char>, k: Seq<char>)
    requires
        0 <= j <= s.len(),
    ensures
        0 <= credit_native(s.take(j), a, k) <= credit_native(s, a, k),
        0 <= credit_cw20(s.take(j), a, k) <= credit_cw20(s, a, k),
    decreases s.len(),
{
    if j == s.len() {
        assert(s.take(j) =~= s);
        lemma_credit_within_total(s, a, k);
    } else {
        lemma_credit_prefix(s.drop_last(), j, a, k);
        assert(s.drop_last().take(j) =~= s.take(j));
    }
}

/// What a list credits to one address is never negative and never exceeds
/// the list's total.
pub proof fn lemma_credit_within_total(s: Seq<MemberBalance>, a: Seq<char>, k: Seq<char>)
    ensures
        0 <= credit_native(s, a, k) <= entries_total(s, false, k),
        0 <= credit_cw20(s, a, k) <= entries_total(s, true, k),
    decreases s.len(),
{
    if s.len() > 0 {
        lemma_credit_within_total(s.drop_last(), a, k);
    }
}

} // verus!
