use vstd::prelude::*;
use crate::math::{checked_mul_div_spec, checked_mul_floor, mul_div, Decimal, DECIMAL_FRACTIONAL, MathError};

verus! {

/// One key of an [`AmountMap`] and the amount held under it.
#[derive(Debug, Clone, PartialEq, Eq)]
pub struct AmountEntry {
    pub key: String,
    pub amount: u128,
}

/// A map from string keys (addresses, denominations) to nonzero amounts,
/// stored as a list of entries with distinct keys.
#[derive(Debug, Clone, PartialEq, Eq)]
pub struct AmountMap {
    pub entries: Vec<AmountEntry>,
}

/// No two entries share a key.
pub open spec fn keys_unique(s: Seq<AmountEntry>) -> bool {
    forall|i: int, j: int| 0 <= i < s.len() && 0 <= j < s.len() && i != j ==> s[i].key@ != s[j].key@
}

/// Every entry holds a nonzero amount.
pub open spec fn amounts_positive(s: Seq<AmountEntry>) -> bool {
    forall|i: int| 0 <= i < s.len() ==> s[i].amount > 0
}

/// The map that a list of entries stands for.
pub open spec fn entries_map(s: Seq<AmountEntry>) -> Map<Seq<char>, u128>
    decreases s.len(),
{
    if s.len() == 0 {
        Map::empty()
    } else {
        entries_map(s.drop_last()).insert(s.last().key@, s.last().amount)
    }
}

/// The sum of the amounts of a list of entries.
pub open spec fn entries_total(s: Seq<AmountEntry>) -> int
    decreases s.len(),
{
    if s.len() == 0 {
        0
    } else {
        entries_total(s.drop_last()) + s.last().amount
    }
}

/// The amount under `k` in `m`, zero when `k` is absent.
pub open spec fn amount_in(m: Map<Seq<char>, u128>, k: Seq<char>) -> int {
    if m.contains_key(k) {
        m[k] as int
    } else {
        0
    }
}

/// The map of a list of entries holds exactly their keys, each with its amount.
pub proof fn lemma_entries_map(s: Seq<AmountEntry>)
    requires
        keys_unique(s),
    ensures
        forall|i: int| #![trigger s[i]] 0 <= i < s.len() ==> entries_map(s).contains_key(s[i].key@)
            && entries_map(s)[s[i].key@] == s[i].amount,
        forall|k: Seq<char>| #[trigger] entries_map(s).contains_key(k) ==> exists|i: int|
            0 <= i < s.len() && s[i].key@ == k,
        entries_map(s).dom().finite(),
    decreases s.len(),
{
    if s.len() > 0 {
        let t = s.drop_last();
        assert(keys_unique(t));
        lemma_entries_map(t);
        assert forall|i: int| #![trigger s[i]] 0 <= i < s.len() implies entries_map(s).contains_key(
            s[i].key@,
        ) && entries_map(s)[s[i].key@] == s[i].amount by {
            if i < s.len() - 1 {
                assert(t[i] == s[i]);
                assert(s[i].key@ != s.last().key@);
            }
        }
        assert forall|k: Seq<char>| #[trigger] entries_map(s).contains_key(k) implies exists|i: int|
            0 <= i < s.len() && s[i].key@ == k by {
            if k != s.last().key@ {
                assert(entries_map(t).contains_key(k));
                let i = choose|i: int| 0 <= i < t.len() && t[i].key@ == k;
                assert(s[i] == t[i]);
            } else {
                assert(s[s.len() - 1].key@ == k);
            }
        }
    }
}

/// A key that no entry holds is absent from the map.
pub proof fn lemma_entries_map_absent(s: Seq<AmountEntry>, k: Seq<char>)
    requires
        keys_unique(s),
        forall|i: int| 0 <= i < s.len() ==> s[i].key@ != k,
    ensures
        !entries_map(s).contains_key(k),
{
    lemma_entries_map(s);
}

/// Replacing the amount of an entry replaces it in the map and in the total.
pub proof fn lemma_entries_update(s: Seq<AmountEntry>, i: int, e: AmountEntry)
    requires
        keys_unique(s),
        0 <= i < s.len(),
        e.key@ == s[i].key@,
    ensures
        keys_unique(s.update(i, e)),
        entries_map(s.update(i, e)) == entries_map(s).insert(e.key@, e.amount),
        entries_total(s.update(i, e)) == entries_total(s) - s[i].amount + e.amount,
    decreases s.len(),
{
    let u = s.update(i, e);
    assert(keys_unique(u)) by {
        assert forall|a: int, b: int| 0 <= a < u.len() && 0 <= b < u.len() && a != b implies u[a].key@
            != u[b].key@ by {
            assert(s[a].key@ != s[b].key@);
        }
    }
    if i == s.len() - 1 {
        assert(u.drop_last() =~= s.drop_last());
        assert(entries_map(u) =~= entries_map(s).insert(e.key@, e.amount));
    } else {
        let t = s.drop_last();
        assert(keys_unique(t));
        assert(u.drop_last() =~= t.update(i, e));
        lemma_entries_update(t, i, e);
        assert(u.last() == s.last());
        assert(s.last().key@ != e.key@);
        assert(entries_map(u) =~= entries_map(s).insert(e.key@, e.amount));
    }
}

/// Removing an entry removes its key from the map and its amount from the total.
pub proof fn lemma_entries_remove(s: Seq<AmountEntry>, i: int)
    requires
        keys_unique(s),
        0 <= i < s.len(),
    ensures
        keys_unique(s.remove(i)),
        entries_map(s.remove(i)) == entries_map(s).remove(s[i].key@),
        entries_total(s.remove(i)) == entries_total(s) - s[i].amount,
    decreases s.len(),
{
    let r = s.remove(i);
    assert(keys_unique(r)) by {
        assert forall|a: int, b: int| 0 <= a < r.len() && 0 <= b < r.len() && a != b implies r[a].key@
            != r[b].key@ by {
            let a2 = if a < i { a } else { a + 1 };
            let b2 = if b < i { b } else { b + 1 };
            assert(r[a] == s[a2]);
            assert(r[b] == s[b2]);
        }
    }
    let t = s.drop_last();
    assert(keys_unique(t));
    if i == s.len() - 1 {
        assert(r =~= t);
        lemma_entries_map_absent(t, s[i].key@);
        assert(entries_map(r) =~= entries_map(s).remove(s[i].key@));
    } else {
        assert(r.drop_last() =~= t.remove(i));
        assert(r.last() == s.last());
        lemma_entries_remove(t, i);
        assert(s.last().key@ != s[i].key@);
        assert(entries_map(r) =~= entries_map(s).remove(s[i].key@));
    }
}

impl AmountMap {
    /// The map from keys to amounts.
    pub open spec fn view(&self) -> Map<Seq<char>, u128> {
        entries_map(self.entries@)
    }

    /// Distinct keys and nonzero amounts.
    pub open spec fn wf(&self) -> bool {
        keys_unique(self.entries@) && amounts_positive(self.entries@)
    }

    /// The sum of all amounts.
    pub open spec fn total(&self) -> int {
        entries_total(self.entries@)
    }

    /// The amount held under `k`, zero when absent.
    pub open spec fn amount_of(&self, k: Seq<char>) -> int {
        amount_in(self@, k)
    }

    /// The empty map.
    pub fn new() -> (m: AmountMap)
        ensures
            m.wf(),
            m@ == Map::<Seq<char>, u128>::empty(),
            m.total() == 0,
    {
        AmountMap { entries: Vec::new() }
    }

    /// Whether the map holds no key.
    pub fn is_empty(&self) -> (b: bool)
        requires
            self.wf(),
        ensures
            b == (self@ == Map::<Seq<char>, u128>::empty()),
            b ==> self.total() == 0,
    {
        proof {
            lemma_entries_map(self.entries@);
        }
        if self.entries.len() == 0 {
            assert(self@ =~= Map::<Seq<char>, u128>::empty());
            true
        } else {
            assert(self@.contains_key(self.entries@[0].key@));
            false
        }
    }

    /// The position of the entry for `key`.
    pub fn find(&self, key: &String) -> (r: Option<usize>)
        requires
            self.wf(),
        ensures
            match r {
                Some(i) => i < self.entries.len() && self.entries@[i as int].key@ == key@,
                None => forall|i: int| 0 <= i < self.entries.len() ==> self.entries@[i].key@ != key@,
            },
            r is None <==> !self@.contains_key(key@),
    {
        proof {
            lemma_entries_map(self.entries@);
        }
        let mut i: usize = 0;
        while i < self.entries.len()
            invariant
                self.wf(),
                i <= self.entries.len(),
                forall|j: int| 0 <= j < i ==> self.entries@[j].key@ != key@,
            decreases self.entries.len() - i,
        {
            if self.entries[i].key == *key {
                proof {
                    lemma_entries_map(self.entries@);
                    assert(self@.contains_key(self.entries@[i as int].key@));
                }
                return Some(i);
            }
            i = i + 1;
        }
        None
    }

    /// The amount held under `key`, zero when absent.
    pub fn get(&self, key: &String) -> (a: u128)
        requires
            self.wf(),
        ensures
            a == self.amount_of(key@),
            a == 0 <==> !self@.contains_key(key@),
    {
        proof {
            lemma_entries_map(self.entries@);
        }
        match self.find(key) {
            Some(i) => self.entries[i].amount,
            None => 0,
        }
    }

    /// Sets the amount under `key`; an amount of zero removes the key.
    pub fn set(&mut self, key: String, amount: u128)
        requires
            old(self).wf(),
        ensures
            final(self).wf(),
            amount == 0 ==> final(self)@ == old(self)@.remove(key@),
            amount > 0 ==> final(self)@ == old(self)@.insert(key@, amount),
            final(self).total() == old(self).total() - old(self).amount_of(key@) + amount,
    {
        proof {
            lemma_entries_map(self.entries@);
        }
        match self.find(&key) {
            Some(i) => {
                let ghost s = self.entries@;
                if amount == 0 {
                    proof {
                        lemma_entries_remove(s, i as int);
                    }
                    self.entries.remove(i);
                    assert(self.entries@ =~= s.remove(i as int));
                } else {
                    let e = AmountEntry { key, amount };
                    proof {
                        lemma_entries_update(s, i as int, e);
                    }
                    self.entries.set(i, e);
                    assert(self.entries@ =~= s.update(i as int, e));
                    assert(amounts_positive(self.entries@));
                }
            },
            None => {
                let ghost s = self.entries@;
                if amount == 0 {
                    assert(old(self)@.remove(key@) =~= old(self)@);
                } else {
                    let e = AmountEntry { key, amount };
                    self.entries.push(e);
                    assert(self.entries@ =~= s.push(e));
                    assert(self.entries@.drop_last() =~= s);
                    assert(keys_unique(self.entries@));
                    assert(amounts_positive(self.entries@));
                }
            },
        }
    }
}


/// Two well-formed maps that agree on every amount are equal.
pub proof fn lemma_amounts_determine(a: AmountMap, b: AmountMap)
    requires
        a.wf(),
        b.wf(),
        forall|k: Seq<char>| a.amount_of(k) == b.amount_of(k),
    ensures
        a@ == b@,
{
    lemma_entries_map(a.entries@);
    lemma_entries_map(b.entries@);
    assert forall|k: Seq<char>| a@.contains_key(k) implies b@.contains_key(k) by {
        let i = choose|i: int| 0 <= i < a.entries@.len() && a.entries@[i].key@ == k;
        assert(a.amount_of(k) == a.entries@[i].amount);
    }
    assert forall|k: Seq<char>| b@.contains_key(k) implies a@.contains_key(k) by {
        let i = choose|i: int| 0 <= i < b.entries@.len() && b.entries@[i].key@ == k;
        assert(b.amount_of(k) == b.entries@[i].amount);
    }
    assert forall|k: Seq<char>| a@.contains_key(k) implies a@[k] == b@[k] by {
        assert(a.amount_of(k) == b.amount_of(k));
    }
    assert(a@ =~= b@);
}

/// The map of the first `j + 1` entries adds the `j`-th entry to that of the
/// first `j`.
pub proof fn lemma_prefix_step(s: Seq<AmountEntry>, j: int)
    requires
        keys_unique(s),
        0 <= j < s.len(),
    ensures
        keys_unique(s.take(j)),
        !entries_map(s.take(j)).contains_key(s[j].key@),
        entries_map(s.take(j + 1)) == entries_map(s.take(j)).insert(s[j].key@, s[j].amount),
        forall|k: Seq<char>| amount_in(entries_map(s.take(j + 1)), k) == amount_in(entries_map(s.take(j)), k)
            + if k == s[j].key@ { s[j].amount as int } else { 0 },
        amount_in(entries_map(s), s[j].key@) == s[j].amount,
{
    let t = s.take(j);
    assert(keys_unique(t));
    assert forall|i: int| 0 <= i < t.len() implies t[i].key@ != s[j].key@ by {
        assert(t[i] == s[i]);
    }
    lemma_entries_map_absent(t, s[j].key@);
    assert(s.take(j + 1).drop_last() =~= t);
    lemma_entries_map(s);
    assert(s[j] == s[j]);
}

/// The amounts of the whole list equal those of its full prefix.
pub proof fn lemma_prefix_full(s: Seq<AmountEntry>)
    ensures
        entries_map(s.take(s.len() as int)) == entries_map(s),
{
    assert(s.take(s.len() as int) =~= s);
}

/// `a - b` saturating at zero.
pub open spec fn sat_sub(a: int, b: int) -> int {
    if a > b {
        a - b
    } else {
        0
    }
}

impl AmountMap {
    /// An equal copy of this map.
    pub fn copy(&self) -> (m: AmountMap)
        ensures
            m.entries@ == self.entries@,
    {
        let mut entries: Vec<AmountEntry> = Vec::new();
        let mut i: usize = 0;
        while i < self.entries.len()
            invariant
                i <= self.entries.len(),
                entries@ == self.entries@.take(i as int),
            decreases self.entries.len() - i,
        {
            let e = AmountEntry { key: self.entries[i].key.clone(), amount: self.entries[i].amount };
            entries.push(e);
            assert(entries@ =~= self.entries@.take(i + 1));
            i = i + 1;
        }
        assert(entries@ =~= self.entries@);
        AmountMap { entries }
    }

    /// Removes every key.
    pub fn clear(&mut self)
        ensures
            final(self).wf(),
            final(self)@ == Map::<Seq<char>, u128>::empty(),
            forall|k: Seq<char>| final(self).amount_of(k) == 0,
    {
        self.entries = Vec::new();
    }

    /// Writes every amount of `other` over this map; keys that `other` lacks
    /// keep their amounts.
    pub fn overlay(&mut self, other: &AmountMap)
        requires
            old(self).wf(),
            other.wf(),
        ensures
            final(self).wf(),
            final(self)@ == old(self)@.union_prefer_right(other@),
    {
        let ghost s = other.entries@;
        let ghost base = self@;
        let mut j: usize = 0;
        while j < other.entries.len()
            invariant
                s == other.entries@,
                other.wf(),
                self.wf(),
                j <= s.len(),
                self@ == base.union_prefer_right(entries_map(s.take(j as int))),
            decreases s.len() - j,
        {
            proof {
                lemma_prefix_step(s, j as int);
            }
            let e = &other.entries[j];
            assert(e.amount > 0);
            self.set(e.key.clone(), e.amount);
            j = j + 1;
            assert(self@ =~= base.union_prefer_right(entries_map(s.take(j as int))));
        }
        proof {
            lemma_prefix_full(s);
        }
    }

    /// The key-wise sum with `other`; fails when some sum leaves the range of
    /// `u128`.
    pub fn checked_add(&self, other: &AmountMap) -> (r: Option<AmountMap>)
        requires
            self.wf(),
            other.wf(),
        ensures
            match r {
                Some(m) => m.wf() && forall|k: Seq<char>| m.amount_of(k) == self.amount_of(k) + other.amount_of(k),
                None => exists|k: Seq<char>| self.amount_of(k) + other.amount_of(k) > u128::MAX,
            },
    {
        let mut result = self.copy();
        let ghost s = other.entries@;
        let mut j: usize = 0;
        while j < other.entries.len()
            invariant
                s == other.entries@,
                other.wf(),
                self.wf(),
                result.wf(),
                j <= s.len(),
                forall|k: Seq<char>| result.amount_of(k) == self.amount_of(k) + amount_in(entries_map(s.take(j as int)), k),
            decreases s.len() - j,
        {
            let ghost prev = result;
            proof {
                lemma_prefix_step(s, j as int);
            }
            let key = &other.entries[j].key;
            let add = other.entries[j].amount;
            let cur = result.get(key);
            assert(cur == self.amount_of(key@));
            match cur.checked_add(add) {
                Some(v) => {
                    result.set(key.clone(), v);
                    assert forall|k: Seq<char>| result.amount_of(k) == self.amount_of(k) + amount_in(entries_map(s.take(j + 1)), k) by {
                        if k != key@ {
                            assert(result.amount_of(k) == prev.amount_of(k));
                        }
                    }
                },
                None => {
                    proof {
                        lemma_entries_map(other.entries@);
                        assert(other.amount_of(key@) == add);
                        assert(self.amount_of(key@) + other.amount_of(key@) > u128::MAX);
                    }
                    return None;
                },
            }
            j = j + 1;
        }
        proof {
            lemma_prefix_full(s);
        }
        Some(result)
    }

    /// The key-wise difference `self - other`; fails when `other` holds more
    /// than `self` under some key. Keys that reach zero are removed.
    pub fn checked_sub(&self, other: &AmountMap) -> (r: Option<AmountMap>)
        requires
            self.wf(),
            other.wf(),
        ensures
            match r {
                Some(m) => m.wf() && forall|k: Seq<char>| m.amount_of(k) == self.amount_of(k) - other.amount_of(k),
                None => exists|k: Seq<char>| self.amount_of(k) < other.amount_of(k),
            },
    {
        let mut result = self.copy();
        let ghost s = other.entries@;
        let mut j: usize = 0;
        while j < other.entries.len()
            invariant
                s == other.entries@,
                other.wf(),
                self.wf(),
                result.wf(),
                j <= s.len(),
                forall|k: Seq<char>| result.amount_of(k) == self.amount_of(k) - amount_in(entries_map(s.take(j as int)), k),
            decreases s.len() - j,
        {
            let ghost prev = result;
            proof {
                lemma_prefix_step(s, j as int);
            }
            let key = &other.entries[j].key;
            let sub = other.entries[j].amount;
            let cur = result.get(key);
            if cur < sub {
                proof {
                    lemma_entries_map(other.entries@);
                    assert(other.amount_of(key@) == sub);
                    assert(self.amount_of(key@) < other.amount_of(key@));
                }
                return None;
            }
            result.set(key.clone(), cur - sub);
            assert forall|k: Seq<char>| result.amount_of(k) == self.amount_of(k) - amount_in(entries_map(s.take(j + 1)), k) by {
                if k != key@ {
                    assert(result.amount_of(k) == prev.amount_of(k));
                }
            }
            j = j + 1;
        }
        proof {
            lemma_prefix_full(s);
        }
        Some(result)
    }

    /// What remains of `self` once `other` is taken off, key by key, never
    /// going below zero.
    pub fn saturating_sub(&self, other: &AmountMap) -> (m: AmountMap)
        requires
            self.wf(),
            other.wf(),
        ensures
            m.wf(),
            forall|k: Seq<char>| m.amount_of(k) == sat_sub(self.amount_of(k), other.amount_of(k)),
    {
        let mut result = self.copy();
        let ghost s = other.entries@;
        let mut j: usize = 0;
        while j < other.entries.len()
            invariant
                s == other.entries@,
                other.wf(),
                self.wf(),
                result.wf(),
                j <= s.len(),
                forall|k: Seq<char>| result.amount_of(k) == sat_sub(self.amount_of(k), amount_in(entries_map(s.take(j as int)), k)),
            decreases s.len() - j,
        {
            let ghost prev = result;
            proof {
                lemma_prefix_step(s, j as int);
            }
            let key = &other.entries[j].key;
            let sub = other.entries[j].amount;
            let cur = result.get(key);
            let next = if cur > sub { cur - sub } else { 0 };
            result.set(key.clone(), next);
            assert forall|k: Seq<char>| result.amount_of(k) == sat_sub(self.amount_of(k), amount_in(entries_map(s.take(j + 1)), k)) by {
                if k != key@ {
                    assert(result.amount_of(k) == prev.amount_of(k));
                }
            }
            j = j + 1;
        }
        proof {
            lemma_prefix_full(s);
        }
        result
    }

    /// Every amount multiplied by `fraction`, rounded down; keys that round to
    /// zero are dropped. Fails when some product leaves the range of `u128`.
    pub fn checked_mul_floor(&self, fraction: Decimal) -> (r: Result<AmountMap, MathError>)
        requires
            self.wf(),
        ensures
            match r {
                Ok(m) => m.wf() && forall|k: Seq<char>| m.amount_of(k) == mul_div(self.amount_of(k), fraction.atomics as int, DECIMAL_FRACTIONAL as int),
                Err(_) => exists|k: Seq<char>| mul_div(self.amount_of(k), fraction.atomics as int, DECIMAL_FRACTIONAL as int) > u128::MAX,
            },
    {
        let mut result = AmountMap::new();
        let ghost s = self.entries@;
        let mut j: usize = 0;
        while j < self.entries.len()
            invariant
                s == self.entries@,
                self.wf(),
                result.wf(),
                j <= s.len(),
                forall|k: Seq<char>| result.amount_of(k) == mul_div(amount_in(entries_map(s.take(j as int)), k), fraction.atomics as int, DECIMAL_FRACTIONAL as int),
            decreases s.len() - j,
        {
            let ghost prev = result;
            proof {
                lemma_prefix_step(s, j as int);
            }
            let key = &self.entries[j].key;
            let v = self.entries[j].amount;
            let m = match checked_mul_floor(v, fraction) {
                Ok(m) => m,
                Err(e) => {
                    proof {
                        assert(self.amount_of(key@) == v);
                    }
                    return Err(e);
                },
            };
            proof {
                assert(result.amount_of(key@) == 0);
            }
            result.set(key.clone(), m);
            assert forall|k: Seq<char>| result.amount_of(k) == mul_div(amount_in(entries_map(s.take(j + 1)), k), fraction.atomics as int, DECIMAL_FRACTIONAL as int) by {
                if k != key@ {
                    assert(result.amount_of(k) == prev.amount_of(k));
                }
            }
            j = j + 1;
        }
        proof {
            lemma_prefix_full(s);
        }
        Ok(result)
    }
}

} // verus!
