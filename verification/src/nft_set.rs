use vstd::prelude::*;

verus! {

/// One non-fungible token: its collection contract and its id.
#[derive(Debug, Clone, PartialEq, Eq)]
pub struct NftEntry {
    pub contract: String,
    pub token_id: String,
}

/// A set of non-fungible tokens, stored as a list without repeats.
#[derive(Debug, Clone, PartialEq, Eq)]
pub struct NftSet {
    pub entries: Vec<NftEntry>,
}

/// A token as a pair of its contract and its id.
pub open spec fn nft_key(e: NftEntry) -> (Seq<char>, Seq<char>) {
    (e.contract@, e.token_id@)
}

/// The set of tokens that a list stands for.
pub open spec fn nft_entries_set(s: Seq<NftEntry>) -> Set<(Seq<char>, Seq<char>)> {
    Set::new(|p: (Seq<char>, Seq<char>)| exists|i: int| 0 <= i < s.len() && nft_key(s[i]) == p)
}

/// No token occurs twice.
pub open spec fn nfts_unique(s: Seq<NftEntry>) -> bool {
    forall|i: int, j: int| 0 <= i < s.len() && 0 <= j < s.len() && i != j ==> nft_key(s[i]) != nft_key(s[j])
}

/// The set of the first `j + 1` tokens adds the `j`-th to that of the first `j`.
pub proof fn lemma_nft_prefix_step(s: Seq<NftEntry>, j: int)
    requires
        0 <= j < s.len(),
    ensures
        nft_entries_set(s.take(j + 1)) == nft_entries_set(s.take(j)).insert(nft_key(s[j])),
{
    let t1 = s.take(j + 1);
    let t0 = s.take(j);
    assert forall|q: (Seq<char>, Seq<char>)| nft_entries_set(t1).contains(q) == nft_entries_set(t0).insert(
        nft_key(s[j]),
    ).contains(q) by {
        if nft_entries_set(t1).contains(q) {
            let a = choose|a: int| 0 <= a < t1.len() && #[trigger] nft_key(t1[a]) == q;
            if a < j {
                assert(t0[a] == s[a]);
            }
        }
        if nft_entries_set(t0).contains(q) {
            let a = choose|a: int| 0 <= a < t0.len() && #[trigger] nft_key(t0[a]) == q;
            assert(t1[a] == s[a]);
        }
        if q == nft_key(s[j]) {
            assert(t1[j] == s[j]);
        }
    }
    assert(nft_entries_set(t1) =~= nft_entries_set(t0).insert(nft_key(s[j])));
}

impl NftSet {
    /// The set of tokens.
    pub open spec fn view(&self) -> Set<(Seq<char>, Seq<char>)> {
        nft_entries_set(self.entries@)
    }

    /// No token occurs twice.
    pub open spec fn wf(&self) -> bool {
        nfts_unique(self.entries@)
    }

    /// The empty set.
    pub fn new() -> (n: NftSet)
        ensures
            n.wf(),
            n@ == Set::<(Seq<char>, Seq<char>)>::empty(),
    {
        let n = NftSet { entries: Vec::new() };
        assert(n@ =~= Set::<(Seq<char>, Seq<char>)>::empty());
        n
    }

    /// An equal copy of this set.
    pub fn copy(&self) -> (n: NftSet)
        ensures
            n.entries@ == self.entries@,
    {
        let mut entries: Vec<NftEntry> = Vec::new();
        let mut i: usize = 0;
        while i < self.entries.len()
            invariant
                i <= self.entries.len(),
                entries@ == self.entries@.take(i as int),
            decreases self.entries.len() - i,
        {
            let e = NftEntry {
                contract: self.entries[i].contract.clone(),
                token_id: self.entries[i].token_id.clone(),
            };
            entries.push(e);
            assert(entries@ =~= self.entries@.take(i + 1));
            i = i + 1;
        }
        assert(entries@ =~= self.entries@);
        NftSet { entries }
    }

    /// Whether the set holds no token.
    pub fn is_empty(&self) -> (b: bool)
        ensures
            b == (self@ == Set::<(Seq<char>, Seq<char>)>::empty()),
    {
        if self.entries.len() == 0 {
            assert(self@ =~= Set::<(Seq<char>, Seq<char>)>::empty());
            true
        } else {
            assert(self@.contains(nft_key(self.entries@[0])));
            false
        }
    }

    /// The position of a token.
    pub fn find(&self, contract: &String, token_id: &String) -> (r: Option<usize>)
        ensures
            match r {
                Some(i) => i < self.entries.len() && nft_key(self.entries@[i as int]) == (contract@, token_id@),
                None => !self@.contains((contract@, token_id@)),
            },
    {
        let mut i: usize = 0;
        while i < self.entries.len()
            invariant
                i <= self.entries.len(),
                forall|j: int| 0 <= j < i ==> nft_key(self.entries@[j]) != (contract@, token_id@),
            decreases self.entries.len() - i,
        {
            if self.entries[i].contract == *contract && self.entries[i].token_id == *token_id {
                return Some(i);
            }
            i = i + 1;
        }
        None
    }

    /// Adds a token; nothing changes when it is already held.
    pub fn insert(&mut self, contract: String, token_id: String)
        requires
            old(self).wf(),
        ensures
            final(self).wf(),
            final(self)@ == old(self)@.insert((contract@, token_id@)),
    {
        match self.find(&contract, &token_id) {
            Some(_) => {
                assert(self@ =~= old(self)@.insert((contract@, token_id@)));
            },
            None => {
                let ghost s = self.entries@;
                let ghost p = (contract@, token_id@);
                self.entries.push(NftEntry { contract, token_id });
                assert(self.entries@ =~= s.push(NftEntry { contract, token_id }));
                assert forall|q: (Seq<char>, Seq<char>)| self@.contains(q) == old(self)@.insert(p).contains(q) by {
                    if q == p {
                        assert(nft_key(self.entries@[s.len() as int]) == p);
                    } else if old(self)@.contains(q) {
                        let i = choose|i: int| 0 <= i < s.len() && nft_key(s[i]) == q;
                        assert(nft_key(self.entries@[i]) == q);
                    } else if self@.contains(q) {
                        let i = choose|i: int| 0 <= i < self.entries@.len() && nft_key(self.entries@[i]) == q;
                        assert(i < s.len());
                        assert(self.entries@[i] == s[i]);
                    }
                }
                assert(self@ =~= old(self)@.insert(p));
            },
        }
    }

    /// Removes the token at position `i`.
    fn remove_at(&mut self, i: usize)
        requires
            old(self).wf(),
            i < old(self).entries.len(),
        ensures
            final(self).wf(),
            final(self)@ == old(self)@.remove(nft_key(old(self).entries@[i as int])),
    {
        let ghost s = self.entries@;
        let ghost p = nft_key(s[i as int]);
        self.entries.remove(i);
        assert(self.entries@ =~= s.remove(i as int));
        assert(nfts_unique(self.entries@)) by {
            assert forall|a: int, b: int| 0 <= a < self.entries@.len() && 0 <= b < self.entries@.len() && a != b
                implies nft_key(self.entries@[a]) != nft_key(self.entries@[b]) by {
                let a2 = if a < i { a } else { a + 1 };
                let b2 = if b < i { b } else { b + 1 };
                assert(self.entries@[a] == s[a2]);
                assert(self.entries@[b] == s[b2]);
            }
        }
        assert forall|q: (Seq<char>, Seq<char>)| self@.contains(q) == old(self)@.remove(p).contains(q) by {
            if self@.contains(q) {
                let a = choose|a: int| 0 <= a < self.entries@.len() && nft_key(self.entries@[a]) == q;
                let a2 = if a < i { a } else { a + 1 };
                assert(self.entries@[a] == s[a2]);
                assert(a2 != i);
            }
            if old(self)@.remove(p).contains(q) {
                let b = choose|b: int| 0 <= b < s.len() && nft_key(s[b]) == q;
                assert(b != i);
                let b2 = if b < i { b } else { b - 1 };
                assert(self.entries@[b2] == s[b]);
            }
        }
        assert(self@ =~= old(self)@.remove(p));
    }

    /// The union with `other`.
    pub fn union(&self, other: &NftSet) -> (n: NftSet)
        requires
            self.wf(),
        ensures
            n.wf(),
            n@ == self@.union(other@),
    {
        let mut result = self.copy();
        let ghost s = other.entries@;
        let mut j: usize = 0;
        while j < other.entries.len()
            invariant
                s == other.entries@,
                result.wf(),
                j <= s.len(),
                result@ == self@.union(nft_entries_set(s.take(j as int))),
            decreases s.len() - j,
        {
            let ghost prev = result@;
            let e = &other.entries[j];
            result.insert(e.contract.clone(), e.token_id.clone());
            proof {
                lemma_nft_prefix_step(s, j as int);
            }
            assert(result@ =~= self@.union(nft_entries_set(s.take(j + 1))));
            j = j + 1;
        }
        assert(s.take(s.len() as int) =~= s);
        result
    }

    /// The tokens of this set that `other` does not hold.
    pub fn difference(&self, other: &NftSet) -> (n: NftSet)
        requires
            self.wf(),
        ensures
            n.wf(),
            n@ == self@.difference(other@),
    {
        let mut result = self.copy();
        let ghost s = other.entries@;
        let mut j: usize = 0;
        while j < other.entries.len()
            invariant
                s == other.entries@,
                result.wf(),
                j <= s.len(),
                result@ == self@.difference(nft_entries_set(s.take(j as int))),
            decreases s.len() - j,
        {
            let e = &other.entries[j];
            let ghost p = nft_key(s[j as int]);
            match result.find(&e.contract, &e.token_id) {
                Some(i) => {
                    result.remove_at(i);
                },
                None => {
                    assert(result@ =~= result@.remove(p));
                },
            }
            proof {
                lemma_nft_prefix_step(s, j as int);
            }
            assert(result@ =~= self@.difference(nft_entries_set(s.take(j + 1))));
            j = j + 1;
        }
        assert(s.take(s.len() as int) =~= s);
        result
    }

    /// Whether every token of this set is also in `other`.
    pub fn is_subset_of(&self, other: &NftSet) -> (b: bool)
        ensures
            b == self@.subset_of(other@),
    {
        let mut i: usize = 0;
        while i < self.entries.len()
            invariant
                i <= self.entries.len(),
                forall|j: int| 0 <= j < i ==> other@.contains(nft_key(self.entries@[j])),
            decreases self.entries.len() - i,
        {
            match other.find(&self.entries[i].contract, &self.entries[i].token_id) {
                Some(_) => {},
                None => {
                    assert(self@.contains(nft_key(self.entries@[i as int])));
                    return false;
                },
            }
            i = i + 1;
        }
        assert forall|q: (Seq<char>, Seq<char>)| self@.contains(q) implies other@.contains(q) by {
            let a = choose|a: int| 0 <= a < self.entries@.len() && nft_key(self.entries@[a]) == q;
        }
        true
    }
}

} // verus!
