use vstd::prelude::*;

verus! {

/// Values keyed by numeric ids, stored as a list without repeated ids.
#[derive(Debug)]
pub struct IdMap<T> {
    pub entries: Vec<(u128, T)>,
}

/// No id occurs twice.
pub open spec fn ids_unique<T>(s: Seq<(u128, T)>) -> bool {
    forall|i: int, j: int| 0 <= i < s.len() && 0 <= j < s.len() && i != j ==> s[i].0 != s[j].0
}

/// The map a list of entries stands for.
pub open spec fn id_entries_map<T>(s: Seq<(u128, T)>) -> Map<u128, T> {
    Map::new(
        |k: u128| exists|i: int| 0 <= i < s.len() && s[i].0 == k,
        |k: u128| s[choose|i: int| 0 <= i < s.len() && s[i].0 == k].1,
    )
}

/// The ids rise along the list.
pub open spec fn ids_increasing<T>(s: Seq<(u128, T)>) -> bool {
    forall|i: int, j: int| 0 <= i < j < s.len() ==> s[i].0 < s[j].0
}

/// The entry at `i` is what the map holds under its id.
pub proof fn lemma_id_entry<T>(s: Seq<(u128, T)>, i: int)
    requires
        ids_unique(s),
        0 <= i < s.len(),
    ensures
        id_entries_map(s).contains_key(s[i].0),
        id_entries_map(s)[s[i].0] == s[i].1,
{
    let k = s[i].0;
    assert(exists|j: int| 0 <= j < s.len() && s[j].0 == k);
    let j = choose|j: int| 0 <= j < s.len() && s[j].0 == k;
    assert(j == i);
}


/// Changing the value of one entry, keeping its id, changes the map at that
/// id alone.
pub proof fn lemma_id_update_value<T>(s: Seq<(u128, T)>, i: int, v: T)
    requires
        ids_unique(s),
        0 <= i < s.len(),
    ensures
        ids_unique(s.update(i, (s[i].0, v))),
        ids_increasing(s) ==> ids_increasing(s.update(i, (s[i].0, v))),
        id_entries_map(s.update(i, (s[i].0, v))) == id_entries_map(s).insert(s[i].0, v),
{
    let t = s.update(i, (s[i].0, v));
    assert forall|a: int, b: int| 0 <= a < t.len() && 0 <= b < t.len() && a != b implies t[a].0 != t[b].0 by {
        assert(t[a].0 == s[a].0);
        assert(t[b].0 == s[b].0);
    }
    if ids_increasing(s) {
        assert forall|a: int, b: int| 0 <= a < b < t.len() implies t[a].0 < t[b].0 by {
            assert(t[a].0 == s[a].0);
            assert(t[b].0 == s[b].0);
        }
    }
    let id = s[i].0;
    assert forall|k: u128| #[trigger] id_entries_map(t).contains_key(k) == id_entries_map(s).insert(id, v).contains_key(k) by {
        if id_entries_map(s).contains_key(k) {
            let j = choose|j: int| 0 <= j < s.len() && s[j].0 == k;
            assert(t[j].0 == k);
        }
        if id_entries_map(t).contains_key(k) {
            let j = choose|j: int| 0 <= j < t.len() && t[j].0 == k;
            assert(s[j].0 == k);
        }
        if k == id {
            assert(t[i].0 == k);
        }
    }
    assert forall|k: u128| #[trigger] id_entries_map(t).contains_key(k) implies id_entries_map(t)[k] == id_entries_map(s).insert(id, v)[k] by {
        let j = choose|j: int| 0 <= j < t.len() && t[j].0 == k;
        lemma_id_entry(t, j);
        if k != id {
            assert(j != i);
            lemma_id_entry(s, j);
        } else {
            assert(j == i);
        }
    }
    assert(id_entries_map(t) =~= id_entries_map(s).insert(id, v));
}

/// Appending an id above every id of the map keeps the ids rising.
pub proof fn lemma_id_push_increasing<T>(s: Seq<(u128, T)>, id: u128, v: T)
    requires
        ids_unique(s),
        ids_increasing(s),
        forall|k: u128| #[trigger] id_entries_map(s).contains_key(k) ==> k < id,
    ensures
        ids_increasing(s.push((id, v))),
{
    let t = s.push((id, v));
    assert forall|a: int, b: int| 0 <= a < b < t.len() implies t[a].0 < t[b].0 by {
        assert(t[a] == s[a]);
        if b < s.len() {
            assert(t[b] == s[b]);
        } else {
            lemma_id_entry(s, a);
        }
    }
}

impl<T> IdMap<T> {
    /// The map from ids to values.
    pub open spec fn view(&self) -> Map<u128, T> {
        id_entries_map(self.entries@)
    }

    /// No id occurs twice.
    pub open spec fn wf(&self) -> bool {
        ids_unique(self.entries@)
    }

    /// The empty map.
    pub fn new() -> (m: IdMap<T>)
        ensures
            m.wf(),
            m@ == Map::<u128, T>::empty(),
            m.entries@ == Seq::<(u128, T)>::empty(),
    {
        let m = IdMap { entries: Vec::new() };
        assert(m@ =~= Map::<u128, T>::empty());
        m
    }

    /// The position of the entry for `id`.
    pub fn find(&self, id: u128) -> (r: Option<usize>)
        requires
            self.wf(),
        ensures
            match r {
                Some(i) => i < self.entries.len() && self.entries@[i as int].0 == id && self@.contains_key(id)
                    && self@[id] == self.entries@[i as int].1,
                None => !self@.contains_key(id),
            },
    {
        let mut i: usize = 0;
        while i < self.entries.len()
            invariant
                self.wf(),
                i <= self.entries.len(),
                forall|j: int| 0 <= j < i ==> self.entries@[j].0 != id,
            decreases self.entries.len() - i,
        {
            if self.entries[i].0 == id {
                proof {
                    lemma_id_entry(self.entries@, i as int);
                }
                return Some(i);
            }
            i = i + 1;
        }
        None
    }

    /// Whether `id` has an entry.
    pub fn contains(&self, id: u128) -> (b: bool)
        requires
            self.wf(),
        ensures
            b == self@.contains_key(id),
    {
        self.find(id).is_some()
    }

    /// The value under `id`.
    pub fn get(&self, id: u128) -> (r: Option<&T>)
        requires
            self.wf(),
        ensures
            match r {
                Some(v) => self@.contains_key(id) && self@[id] == *v,
                None => !self@.contains_key(id),
            },
    {
        match self.find(id) {
            Some(i) => Some(&self.entries[i].1),
            None => None,
        }
    }

    /// The value of the entry at `i`, to be changed in place; its id stays.
    pub fn value_mut(&mut self, i: usize) -> (r: &mut T)
        requires
            i < old(self).entries.len(),
        ensures
            *r == old(self).entries@[i as int].1,
            final(self).entries@ == old(self).entries@.update(
                i as int,
                (old(self).entries@[i as int].0, *final(r)),
            ),
    {
        &mut self.entries[i].1
    }

    /// Puts `value` under `id`, replacing what was there.
    pub fn insert(&mut self, id: u128, value: T)
        requires
            old(self).wf(),
        ensures
            final(self).wf(),
            final(self)@ == old(self)@.insert(id, value),
            !old(self)@.contains_key(id) ==> final(self).entries@ == old(self).entries@.push((id, value)),
    {
        let ghost s = self.entries@;
        match self.find(id) {
            Some(i) => {
                self.entries.set(i, (id, value));
                let ghost t = self.entries@;
                assert(t =~= s.update(i as int, (id, value)));
                assert(ids_unique(t)) by {
                    assert forall|a: int, b: int| 0 <= a < t.len() && 0 <= b < t.len() && a != b implies t[a].0 != t[b].0 by {
                        assert(s[a].0 != s[b].0);
                    }
                }
                assert forall|k: u128| #[trigger] self@.contains_key(k) == old(self)@.insert(id, value).contains_key(k) by {
                    if k != id && old(self)@.contains_key(k) {
                        let j = choose|j: int| 0 <= j < s.len() && s[j].0 == k;
                        assert(t[j].0 == k);
                    }
                    if k != id && self@.contains_key(k) {
                        let j = choose|j: int| 0 <= j < t.len() && t[j].0 == k;
                        assert(s[j].0 == k);
                    }
                    if k == id {
                        assert(t[i as int].0 == k);
                    }
                }
                assert forall|k: u128| #[trigger] self@.contains_key(k) implies self@[k] == old(self)@.insert(id, value)[k] by {
                    let j = choose|j: int| 0 <= j < t.len() && t[j].0 == k;
                    lemma_id_entry(t, j);
                    if k != id {
                        assert(j != i);
                        assert(t[j] == s[j]);
                        lemma_id_entry(s, j);
                    }
                }
                assert(self@ =~= old(self)@.insert(id, value));
            },
            None => {
                self.entries.push((id, value));
                let ghost t = self.entries@;
                assert(t =~= s.push((id, value)));
                assert(ids_unique(t)) by {
                    assert forall|a: int, b: int| 0 <= a < t.len() && 0 <= b < t.len() && a != b implies t[a].0 != t[b].0 by {
                        if a < s.len() && b < s.len() {
                            assert(s[a].0 != s[b].0);
                        } else if a < s.len() {
                            assert(t[a] == s[a]);
                            assert(!old(self)@.contains_key(id));
                            assert(s[a].0 != id);
                        } else {
                            assert(t[b] == s[b]);
                            assert(s[b].0 != id);
                        }
                    }
                }
                assert forall|k: u128| #[trigger] self@.contains_key(k) == old(self)@.insert(id, value).contains_key(k) by {
                    if k != id && old(self)@.contains_key(k) {
                        let j = choose|j: int| 0 <= j < s.len() && s[j].0 == k;
                        assert(t[j].0 == k);
                    }
                    if k != id && self@.contains_key(k) {
                        let j = choose|j: int| 0 <= j < t.len() && t[j].0 == k;
                        assert(j < s.len());
                        assert(s[j].0 == k);
                    }
                    if k == id {
                        assert(t[s.len() as int].0 == k);
                    }
                }
                assert forall|k: u128| #[trigger] self@.contains_key(k) implies self@[k] == old(self)@.insert(id, value)[k] by {
                    let j = choose|j: int| 0 <= j < t.len() && t[j].0 == k;
                    lemma_id_entry(t, j);
                    if k != id {
                        assert(j < s.len());
                        assert(t[j] == s[j]);
                        lemma_id_entry(s, j);
                    }
                }
                assert(self@ =~= old(self)@.insert(id, value));
            },
        }
    }
}

} // verus!
