use vstd::prelude::*;

verus! {

/// Values keyed by addresses or names, stored as a list in which no key
/// occurs twice. Keys compare by their text.
#[derive(Debug)]
pub struct StrMap<T> {
    pub entries: Vec<(String, T)>,
}

/// No key occurs twice.
pub open spec fn keys_unique<T>(s: Seq<(String, T)>) -> bool {
    forall|i: int, j: int| 0 <= i < s.len() && 0 <= j < s.len() && i != j ==> s[i].0@ != s[j].0@
}

/// The map a list of entries stands for.
pub open spec fn str_entries_map<T>(s: Seq<(String, T)>) -> Map<Seq<char>, T> {
    Map::new(
        |k: Seq<char>| exists|i: int| 0 <= i < s.len() && s[i].0@ == k,
        |k: Seq<char>| s[choose|i: int| 0 <= i < s.len() && s[i].0@ == k].1,
    )
}

/// The entry at `i` is what the map holds under its key.
pub proof fn lemma_str_entry<T>(s: Seq<(String, T)>, i: int)
    requires
        keys_unique(s),
        0 <= i < s.len(),
    ensures
        str_entries_map(s).contains_key(s[i].0@),
        str_entries_map(s)[s[i].0@] == s[i].1,
{
    let k = s[i].0@;
    assert(exists|j: int| 0 <= j < s.len() && s[j].0@ == k);
    let j = choose|j: int| 0 <= j < s.len() && s[j].0@ == k;
    assert(j == i);
}

/// Replacing the entry at `i` by one with the same key changes the map at
/// that key alone.
pub proof fn lemma_str_update<T>(s: Seq<(String, T)>, i: int, e: (String, T))
    requires
        keys_unique(s),
        0 <= i < s.len(),
        e.0@ == s[i].0@,
    ensures
        keys_unique(s.update(i, e)),
        str_entries_map(s.update(i, e)) == str_entries_map(s).insert(e.0@, e.1),
{
    let t = s.update(i, e);
    assert forall|a: int, b: int| 0 <= a < t.len() && 0 <= b < t.len() && a != b implies t[a].0@ != t[b].0@ by {
        assert(t[a].0@ == s[a].0@);
        assert(t[b].0@ == s[b].0@);
    }
    let key = e.0@;
    assert forall|k: Seq<char>| #[trigger] str_entries_map(t).contains_key(k) == str_entries_map(s).insert(key, e.1).contains_key(k) by {
        if str_entries_map(s).contains_key(k) {
            let j = choose|j: int| 0 <= j < s.len() && s[j].0@ == k;
            assert(t[j].0@ == k);
        }
        if str_entries_map(t).contains_key(k) {
            let j = choose|j: int| 0 <= j < t.len() && t[j].0@ == k;
            assert(s[j].0@ == k);
        }
        if k == key {
            assert(t[i].0@ == k);
        }
    }
    assert forall|k: Seq<char>| #[trigger] str_entries_map(t).contains_key(k) implies str_entries_map(t)[k]
        == str_entries_map(s).insert(key, e.1)[k] by {
        let j = choose|j: int| 0 <= j < t.len() && t[j].0@ == k;
        lemma_str_entry(t, j);
        if k != key {
            assert(j != i);
            lemma_str_entry(s, j);
        } else {
            assert(j == i);
        }
    }
    assert(str_entries_map(t) =~= str_entries_map(s).insert(key, e.1));
}

/// Appending an entry with a new key adds that key alone.
pub proof fn lemma_str_push<T>(s: Seq<(String, T)>, e: (String, T))
    requires
        keys_unique(s),
        !str_entries_map(s).contains_key(e.0@),
    ensures
        keys_unique(s.push(e)),
        str_entries_map(s.push(e)) == str_entries_map(s).insert(e.0@, e.1),
{
    let t = s.push(e);
    let key = e.0@;
    assert forall|a: int, b: int| 0 <= a < t.len() && 0 <= b < t.len() && a != b implies t[a].0@ != t[b].0@ by {
        if a < s.len() && b < s.len() {
            assert(t[a] == s[a] && t[b] == s[b]);
        } else if a < s.len() {
            assert(t[a] == s[a]);
            assert(s[a].0@ != key);
        } else {
            assert(t[b] == s[b]);
            assert(s[b].0@ != key);
        }
    }
    assert forall|k: Seq<char>| #[trigger] str_entries_map(t).contains_key(k) == str_entries_map(s).insert(key, e.1).contains_key(k) by {
        if str_entries_map(s).contains_key(k) {
            let j = choose|j: int| 0 <= j < s.len() && s[j].0@ == k;
            assert(t[j].0@ == k);
        }
        if str_entries_map(t).contains_key(k) && k != key {
            let j = choose|j: int| 0 <= j < t.len() && t[j].0@ == k;
            assert(j < s.len());
            assert(s[j].0@ == k);
        }
        if k == key {
            assert(t[s.len() as int].0@ == k);
        }
    }
    assert forall|k: Seq<char>| #[trigger] str_entries_map(t).contains_key(k) implies str_entries_map(t)[k]
        == str_entries_map(s).insert(key, e.1)[k] by {
        let j = choose|j: int| 0 <= j < t.len() && t[j].0@ == k;
        lemma_str_entry(t, j);
        if k != key {
            assert(j < s.len());
            assert(t[j] == s[j]);
            lemma_str_entry(s, j);
        }
    }
    assert(str_entries_map(t) =~= str_entries_map(s).insert(key, e.1));
}

/// Removing the entry at `i` forgets its key and keeps every other.
pub proof fn lemma_str_remove<T>(s: Seq<(String, T)>, i: int)
    requires
        keys_unique(s),
        0 <= i < s.len(),
    ensures
        keys_unique(s.remove(i)),
        str_entries_map(s.remove(i)) == str_entries_map(s).remove(s[i].0@),
{
    let t = s.remove(i);
    let key = s[i].0@;
    assert forall|x: int| 0 <= x < t.len() implies t[x] == s[if x < i { x } else { x + 1 }] by {}
    assert forall|a: int, b: int| 0 <= a < t.len() && 0 <= b < t.len() && a != b implies t[a].0@ != t[b].0@ by {
        let a2 = if a < i { a } else { a + 1 };
        let b2 = if b < i { b } else { b + 1 };
        assert(t[a] == s[a2] && t[b] == s[b2]);
    }
    assert forall|k: Seq<char>| #[trigger] str_entries_map(t).contains_key(k) == str_entries_map(s).remove(key).contains_key(k) by {
        if str_entries_map(t).contains_key(k) {
            let x = choose|x: int| 0 <= x < t.len() && t[x].0@ == k;
            let x2 = if x < i { x } else { x + 1 };
            assert(t[x] == s[x2]);
            assert(x2 != i);
        }
        if str_entries_map(s).contains_key(k) && k != key {
            let y = choose|y: int| 0 <= y < s.len() && s[y].0@ == k;
            assert(y != i);
            let y2 = if y < i { y } else { y - 1 };
            assert(t[y2] == s[y]);
        }
    }
    assert forall|k: Seq<char>| #[trigger] str_entries_map(t).contains_key(k) implies str_entries_map(t)[k]
        == str_entries_map(s).remove(key)[k] by {
        let x = choose|x: int| 0 <= x < t.len() && t[x].0@ == k;
        lemma_str_entry(t, x);
        let x2 = if x < i { x } else { x + 1 };
        assert(t[x] == s[x2]);
        lemma_str_entry(s, x2);
    }
    assert(str_entries_map(t) =~= str_entries_map(s).remove(key));
}

impl<T> StrMap<T> {
    /// The map from keys to values.
    pub open spec fn view(&self) -> Map<Seq<char>, T> {
        str_entries_map(self.entries@)
    }

    /// No key occurs twice.
    pub open spec fn wf(&self) -> bool {
        keys_unique(self.entries@)
    }

    /// The empty map.
    pub fn new() -> (m: StrMap<T>)
        ensures
            m.wf(),
            m@ == Map::<Seq<char>, T>::empty(),
    {
        let m = StrMap { entries: Vec::new() };
        assert(m@ =~= Map::<Seq<char>, T>::empty());
        m
    }

    /// The position of the entry for `key`.
    pub fn find(&self, key: &String) -> (r: Option<usize>)
        requires
            self.wf(),
        ensures
            match r {
                Some(i) => i < self.entries.len() && self.entries@[i as int].0@ == key@ && self@.contains_key(key@)
                    && self@[key@] == self.entries@[i as int].1,
                None => !self@.contains_key(key@),
            },
    {
        let mut i: usize = 0;
        while i < self.entries.len()
            invariant
                self.wf(),
                i <= self.entries.len(),
                forall|j: int| 0 <= j < i ==> self.entries@[j].0@ != key@,
            decreases self.entries.len() - i,
        {
            if self.entries[i].0 == *key {
                proof {
                    lemma_str_entry(self.entries@, i as int);
                }
                return Some(i);
            }
            i = i + 1;
        }
        None
    }

    /// Whether `key` has an entry.
    pub fn contains(&self, key: &String) -> (b: bool)
        requires
            self.wf(),
        ensures
            b == self@.contains_key(key@),
    {
        self.find(key).is_some()
    }

    /// The value under `key`.
    pub fn get(&self, key: &String) -> (r: Option<&T>)
        requires
            self.wf(),
        ensures
            match r {
                Some(v) => self@.contains_key(key@) && self@[key@] == *v,
                None => !self@.contains_key(key@),
            },
    {
        match self.find(key) {
            Some(i) => Some(&self.entries[i].1),
            None => None,
        }
    }

    /// The value of the entry at `i`, to be changed in place; its key stays.
    pub fn value_mut(&mut self, i: usize) -> (r: &mut T)
        requires
            i < old(self).entries.len(),
        ensures
            *r == old(self).entries@[i as int].1,
            final(self).entries@ == old(self).entries@.update(
                i as int,
                (old(self).entries@[i as int].0, *final(r)),
            ),
    {
        &mut self.entries[i].1
    }

    /// Puts `value` under `key`, replacing what was there.
    pub fn insert(&mut self, key: String, value: T)
        requires
            old(self).wf(),
        ensures
            final(self).wf(),
            final(self)@ == old(self)@.insert(key@, value),
    {
        let ghost s = self.entries@;
        let ghost k = key@;
        match self.find(&key) {
            Some(i) => {
                proof {
                    lemma_str_update(s, i as int, (key, value));
                }
                self.entries.set(i, (key, value));
                assert(self.entries@ =~= s.update(i as int, (key, value)));
            },
            None => {
                proof {
                    lemma_str_push(s, (key, value));
                }
                self.entries.push((key, value));
                assert(self.entries@ =~= s.push((key, value)));
            },
        }
    }

    /// Removes the entry of `key`; tells whether there was one.
    pub fn remove(&mut self, key: &String) -> (found: bool)
        requires
            old(self).wf(),
        ensures
            final(self).wf(),
            found == old(self)@.contains_key(key@),
            final(self)@ == old(self)@.remove(key@),
    {
        let ghost s = self.entries@;
        match self.find(key) {
            Some(i) => {
                proof {
                    lemma_str_remove(s, i as int);
                }
                self.entries.remove(i);
                assert(self.entries@ =~= s.remove(i as int));
                true
            },
            None => {
                assert(self@ =~= old(self)@.remove(key@));
                false
            },
        }
    }
}

} // verus!
