use vstd::prelude::*;
use crate::chain::Coin;
use crate::arena_core::listed;
use crate::order::{has_view, insert_sorted, str_lt, strictly_ascending};
use crate::str_map::StrMap;

verus! {

/// A service account linked to a discord user.
#[derive(Debug)]
pub struct DiscordConnection {
    /// The type of service connection.
    pub key: String,
    /// The service's connection username.
    pub username: String,
}

/// The discord profile an address is linked to.
#[derive(Debug)]
pub struct DiscordProfile {
    pub user_id: u64,
    /// The discord username.
    pub username: String,
    pub avatar_hash: Option<String>,
    pub connections: Option<Vec<DiscordConnection>>,
}

/// How to migrate the identity registry.
#[derive(Debug, Clone, Copy, PartialEq, Eq, Structural)]
pub enum MigrateMsg {
    FromCompatible,
}

/// Why an identity operation was refused.
#[derive(Debug, Clone, PartialEq, Eq)]
pub enum DiscordError {
    /// The registry has no owner.
    NoOwner,
    /// The sender is not the owner.
    NotOwner,
    /// The address has no discord profile.
    ProfileNotFound,
}

/// The registry linking addresses to discord profiles, with the faucet that
/// greets new users.
#[derive(Debug)]
pub struct DiscordIdentity {
    pub owner: Option<String>,
    pub faucet_amount: Coin,
    /// Profiles by address.
    pub profiles: StrMap<DiscordProfile>,
    /// Connections by discord user id.
    pub connections: Vec<(u64, Vec<DiscordConnection>)>,
}

/// The user ids with saved connections, each once.
pub open spec fn user_ids_unique(s: Seq<(u64, Vec<DiscordConnection>)>) -> bool {
    forall|i: int, j: int| 0 <= i < s.len() && 0 <= j < s.len() && i != j ==> s[i].0 != s[j].0
}

/// Whether some profile of the map carries `user_id`.
pub open spec fn user_id_taken(profiles: Map<Seq<char>, DiscordProfile>, user_id: u64) -> bool {
    exists|a: Seq<char>| #[trigger] profiles.contains_key(a) && profiles[a].user_id == user_id
}

/// Saving a profile with `user_id` for `addr` earns the faucet: the address
/// has no profile yet and no address has claimed the user id.
pub open spec fn earns_faucet(profiles: Map<Seq<char>, DiscordProfile>, addr: Seq<char>, user_id: u64) -> bool {
    !profiles.contains_key(addr) && !user_id_taken(profiles, user_id)
}

/// The faucet pays at most once per address and per discord user: once a
/// profile is saved for an address, saving a profile again for that address,
/// or for any address with the same discord user, earns nothing.
pub proof fn law_faucet_once(
    profiles: Map<Seq<char>, DiscordProfile>,
    addr: Seq<char>,
    profile: DiscordProfile,
    next_addr: Seq<char>,
    next_user_id: u64,
)
    requires
        next_addr == addr || next_user_id == profile.user_id,
    ensures
        !earns_faucet(profiles.insert(addr, profile), next_addr, next_user_id),
{
    let after = profiles.insert(addr, profile);
    assert(after.contains_key(addr) && after[addr].user_id == profile.user_id);
}

/// Whether one of the first `n` entries links `a` to `user_id`.
pub open spec fn linked_before(s: Seq<(String, DiscordProfile)>, n: int, a: Seq<char>, user_id: u64) -> bool {
    exists|j: int| 0 <= j < n && #[trigger] s[j].0@ == a && s[j].1.user_id == user_id
}

/// The connections saved for `user_id`, if any.
pub open spec fn connections_of(s: Seq<(u64, Vec<DiscordConnection>)>, user_id: u64) -> Option<Vec<DiscordConnection>> {
    if exists|i: int| 0 <= i < s.len() && s[i].0 == user_id {
        Some(s[choose|i: int| 0 <= i < s.len() && s[i].0 == user_id].1)
    } else {
        None
    }
}

/// Whether `sender` is the owner; the check itself.
pub open spec fn owner_check(owner: Option<String>, sender: Seq<char>) -> Option<DiscordError> {
    match owner {
        None => Some(DiscordError::NoOwner),
        Some(o) => if o@ == sender {
            None
        } else {
            Some(DiscordError::NotOwner)
        },
    }
}

impl DiscordIdentity {
    /// The maps are consistent.
    pub open spec fn wf(&self) -> bool {
        &&& self.profiles.wf()
        &&& user_ids_unique(self.connections@)
    }

    /// A registry owned by `owner` that hands out `faucet_amount`.
    pub fn new(owner: String, faucet_amount: Coin) -> (d: DiscordIdentity)
        ensures
            d.wf(),
            d.owner == Some(owner),
            d.faucet_amount == faucet_amount,
            d.profiles@ == Map::<Seq<char>, DiscordProfile>::empty(),
            d.connections@ == Seq::<(u64, Vec<DiscordConnection>)>::empty(),
    {
        DiscordIdentity { owner: Some(owner), faucet_amount, profiles: StrMap::new(), connections: Vec::new() }
    }

    /// Who may call what: saving one's own connections is open to all, and
    /// the registry may call itself; everything else is for the owner.
    pub fn authorize(&self, sender: &String, contract: &String, sets_connections: bool) -> (r: Result<(), DiscordError>)
        ensures
            sets_connections || sender@ == contract@ ==> r is Ok,
            !(sets_connections || sender@ == contract@) ==> match owner_check(self.owner, sender@) {
                Some(e) => r == Err::<(), DiscordError>(e),
                None => r is Ok,
            },
    {
        if sets_connections || *sender == *contract {
            return Ok(());
        }
        match &self.owner {
            None => Err(DiscordError::NoOwner),
            Some(o) => if *o == *sender {
                Ok(())
            } else {
                Err(DiscordError::NotOwner)
            },
        }
    }

    /// Whether some saved profile carries `user_id`.
    pub fn is_user_id_taken(&self, user_id: u64) -> (b: bool)
        requires
            self.wf(),
        ensures
            b == user_id_taken(self.profiles@, user_id),
    {
        let mut i: usize = 0;
        while i < self.profiles.entries.len()
            invariant
                self.wf(),
                i <= self.profiles.entries.len(),
                forall|j: int| 0 <= j < i ==> self.profiles.entries@[j].1.user_id != user_id,
            decreases self.profiles.entries.len() - i,
        {
            if self.profiles.entries[i].1.user_id == user_id {
                proof {
                    crate::str_map::lemma_str_entry(self.profiles.entries@, i as int);
                }
                return true;
            }
            i = i + 1;
        }
        proof {
            if user_id_taken(self.profiles@, user_id) {
                let a = choose|a: Seq<char>| #[trigger] self.profiles@.contains_key(a) && self.profiles@[a].user_id == user_id;
                let j = choose|j: int| 0 <= j < self.profiles.entries@.len() && self.profiles.entries@[j].0@ == a;
                crate::str_map::lemma_str_entry(self.profiles.entries@, j);
            }
        }
        false
    }

    /// Saves the profile of `addr`. A first profile for a discord user that
    /// no address has claimed yet earns the faucet amount, which is paid when
    /// the address holds none of its denomination; the returned coin is that
    /// payment, to be made after looking at the balance.
    pub fn set_profile(&mut self, addr: String, profile: DiscordProfile) -> (faucet: Option<Coin>)
        requires
            old(self).wf(),
        ensures
            final(self).wf(),
            final(self).profiles@ == old(self).profiles@.insert(addr@, profile),
            final(self).owner == old(self).owner,
            final(self).faucet_amount == old(self).faucet_amount,
            final(self).connections == old(self).connections,
            faucet is Some <==> earns_faucet(old(self).profiles@, addr@, profile.user_id),
            faucet matches Some(c) ==> c == old(self).faucet_amount,
    {
        let new_user = !self.profiles.contains(&addr) && !self.is_user_id_taken(profile.user_id);
        let faucet = if new_user {
            Some(Coin { denom: self.faucet_amount.denom.clone(), amount: self.faucet_amount.amount })
        } else {
            None
        };
        self.profiles.insert(addr, profile);
        faucet
    }

    /// The faucet payment for a new user, given what the user holds of the
    /// faucet's denomination: paid only to an empty wallet.
    pub fn faucet_payment(faucet: Option<Coin>, balance: u128) -> (r: Option<Coin>)
        ensures
            r == (if balance == 0 {
                faucet
            } else {
                None
            }),
    {
        if balance == 0 {
            faucet
        } else {
            None
        }
    }

    /// Sets the amount the faucet hands out.
    pub fn set_faucet_amount(&mut self, amount: Coin)
        ensures
            final(self).faucet_amount == amount,
            final(self).owner == old(self).owner,
            final(self).profiles == old(self).profiles,
            final(self).connections == old(self).connections,
    {
        self.faucet_amount = amount;
    }

    /// The profile of `addr`, if any.
    pub fn discord_profile(&self, addr: &String) -> (r: Option<&DiscordProfile>)
        requires
            self.wf(),
        ensures
            match r {
                Some(p) => self.profiles@.contains_key(addr@) && *p == self.profiles@[addr@],
                None => !self.profiles@.contains_key(addr@),
            },
    {
        self.profiles.get(addr)
    }

    /// The position of the connections saved for `user_id`.
    fn find_connections(&self, user_id: u64) -> (r: Option<usize>)
        requires
            self.wf(),
        ensures
            match r {
                Some(i) => i < self.connections.len() && self.connections@[i as int].0 == user_id
                    && connections_of(self.connections@, user_id) == Some(self.connections@[i as int].1),
                None => connections_of(self.connections@, user_id) is None,
            },
    {
        let mut i: usize = 0;
        while i < self.connections.len()
            invariant
                self.wf(),
                i <= self.connections.len(),
                forall|j: int| 0 <= j < i ==> self.connections@[j].0 != user_id,
            decreases self.connections.len() - i,
        {
            if self.connections[i].0 == user_id {
                proof {
                    let s = self.connections@;
                    let k = choose|k: int| 0 <= k < s.len() && s[k].0 == user_id;
                    assert(k == i);
                }
                return Some(i);
            }
            i = i + 1;
        }
        None
    }

    /// Saves the connections of the discord user that `sender` is linked to.
    pub fn set_connections(&mut self, sender: &String, connections: Vec<DiscordConnection>) -> (r: Result<(), DiscordError>)
        requires
            old(self).wf(),
        ensures
            final(self).wf(),
            final(self).owner == old(self).owner,
            final(self).faucet_amount == old(self).faucet_amount,
            final(self).profiles == old(self).profiles,
            !old(self).profiles@.contains_key(sender@) ==> r == Err::<(), DiscordError>(DiscordError::ProfileNotFound)
                && final(self).connections == old(self).connections,
            old(self).profiles@.contains_key(sender@) ==> r is Ok && {
                let id = old(self).profiles@[sender@].user_id;
                &&& connections_of(final(self).connections@, id) == Some(connections)
                &&& forall|other: u64| other != id ==> connections_of(final(self).connections@, other)
                    == connections_of(old(self).connections@, other)
            },
    {
        let user_id = match self.profiles.get(sender) {
            Some(p) => p.user_id,
            None => {
                return Err(DiscordError::ProfileNotFound);
            },
        };
        let ghost s = self.connections@;
        match self.find_connections(user_id) {
            Some(i) => {
                self.connections.set(i, (user_id, connections));
                let ghost t = self.connections@;
                assert(user_ids_unique(t)) by {
                    assert forall|a: int, b: int| 0 <= a < t.len() && 0 <= b < t.len() && a != b implies t[a].0 != t[b].0 by {
                        assert(t[a].0 == s[a].0 && t[b].0 == s[b].0);
                    }
                }
                assert(t[i as int].0 == user_id);
                let ghost k = choose|k: int| 0 <= k < t.len() && t[k].0 == user_id;
                assert(k == i);
                assert forall|other: u64| other != user_id implies connections_of(t, other) == connections_of(s, other) by {
                    if exists|x: int| 0 <= x < s.len() && s[x].0 == other {
                        let x = choose|x: int| 0 <= x < s.len() && s[x].0 == other;
                        assert(t[x] == s[x]);
                        let y = choose|y: int| 0 <= y < t.len() && t[y].0 == other;
                        assert(y == x);
                    }
                    if exists|x: int| 0 <= x < t.len() && t[x].0 == other {
                        let x = choose|x: int| 0 <= x < t.len() && t[x].0 == other;
                        assert(s[x] == t[x]);
                    }
                }
            },
            None => {
                self.connections.push((user_id, connections));
                let ghost t = self.connections@;
                assert(t =~= s.push((user_id, connections)));
                assert(user_ids_unique(t)) by {
                    assert forall|a: int, b: int| 0 <= a < t.len() && 0 <= b < t.len() && a != b implies t[a].0 != t[b].0 by {
                        if a < s.len() && b < s.len() {
                            assert(t[a] == s[a] && t[b] == s[b]);
                        } else if a < s.len() {
                            assert(t[a] == s[a]);
                        } else {
                            assert(t[b] == s[b]);
                        }
                    }
                }
                assert(t[s.len() as int].0 == user_id);
                let ghost k = choose|k: int| 0 <= k < t.len() && t[k].0 == user_id;
                assert(k == s.len());
                assert forall|other: u64| other != user_id implies connections_of(t, other) == connections_of(s, other) by {
                    if exists|x: int| 0 <= x < s.len() && s[x].0 == other {
                        let x = choose|x: int| 0 <= x < s.len() && s[x].0 == other;
                        assert(t[x] == s[x]);
                        let y = choose|y: int| 0 <= y < t.len() && t[y].0 == other;
                        assert(y == x);
                    }
                    if exists|x: int| 0 <= x < t.len() && t[x].0 == other {
                        let x = choose|x: int| 0 <= x < t.len() && t[x].0 == other;
                        assert(x < s.len());
                        assert(s[x] == t[x]);
                    }
                }
            },
        }
        Ok(())
    }

    /// The connections of the discord user that `addr` is linked to; `None`
    /// stands for none saved.
    pub fn discord_connections(&self, addr: &String) -> (r: Result<Option<&Vec<DiscordConnection>>, DiscordError>)
        requires
            self.wf(),
        ensures
            !self.profiles@.contains_key(addr@) ==> r == Err::<Option<&Vec<DiscordConnection>>, DiscordError>(
                DiscordError::ProfileNotFound,
            ),
            self.profiles@.contains_key(addr@) ==> (r matches Ok(c) && match c {
                Some(v) => connections_of(self.connections@, self.profiles@[addr@].user_id) == Some(*v),
                None => connections_of(self.connections@, self.profiles@[addr@].user_id) is None,
            }),
    {
        let user_id = match self.profiles.get(addr) {
            Some(p) => p.user_id,
            None => {
                return Err(DiscordError::ProfileNotFound);
            },
        };
        match self.find_connections(user_id) {
            Some(i) => Ok(Some(&self.connections[i].1)),
            None => Ok(None),
        }
    }

    /// The addresses linked to `user_id`, in descending address order.
    pub fn connected_wallets(&self, user_id: u64) -> (r: Vec<String>)
        requires
            self.wf(),
        ensures
            forall|a: Seq<char>| #[trigger]
                listed(r@, a) <==> (self.profiles@.contains_key(a) && self.profiles@[a].user_id == user_id),
            forall|i: int, j: int| 0 <= i < j < r.len() ==> str_lt(#[trigger] r@[j]@, #[trigger] r@[i]@),
    {
        let mut sorted: Vec<String> = Vec::new();
        let mut i: usize = 0;
        let ghost s = self.profiles.entries@;
        while i < self.profiles.entries.len()
            invariant
                self.wf(),
                s == self.profiles.entries@,
                i <= s.len(),
                strictly_ascending(sorted@),
                forall|a: Seq<char>| #[trigger] has_view(sorted@, a) <==> linked_before(s, i as int, a, user_id),
            decreases s.len() - i,
        {
            let ghost before = sorted@;
            let linked = self.profiles.entries[i].1.user_id == user_id;
            if linked {
                insert_sorted(&mut sorted, self.profiles.entries[i].0.clone());
            }
            proof {
                assert forall|b: Seq<char>| #[trigger] has_view(sorted@, b) <==> linked_before(s, i + 1, b, user_id) by {
                    if linked_before(s, i + 1, b, user_id) {
                        let j = choose|j: int| 0 <= j < i + 1 && #[trigger] s[j].0@ == b && s[j].1.user_id == user_id;
                        if j < i {
                            assert(linked_before(s, i as int, b, user_id));
                        }
                    }
                    if linked_before(s, i as int, b, user_id) {
                        let j = choose|j: int| 0 <= j < i && #[trigger] s[j].0@ == b && s[j].1.user_id == user_id;
                        assert(s[j].0@ == b);
                    }
                    if linked && b == s[i as int].0@ {
                        assert(s[i as int].0@ == b);
                    }
                }
            }
            i = i + 1;
        }
        let mut out: Vec<String> = Vec::new();
        let mut k: usize = sorted.len();
        let ghost t = sorted@;
        while k > 0
            invariant
                t == sorted@,
                k <= t.len(),
                out@.len() == t.len() - k,
                forall|x: int| #![trigger out@[x]] 0 <= x < out@.len() ==> out@[x] == t[t.len() - 1 - x],
            decreases k,
        {
            k = k - 1;
            let ghost before = out@;
            out.push(sorted[k].clone());
            proof {
                assert forall|x: int| #![trigger out@[x]] 0 <= x < out@.len() implies out@[x] == t[t.len() - 1 - x] by {
                    if x < before.len() {
                        assert(out@[x] == before[x]);
                    }
                }
            }
        }
        proof {
            assert forall|a: Seq<char>| #[trigger]
                listed(out@, a) <==> (self.profiles@.contains_key(a) && self.profiles@[a].user_id == user_id) by {
                if listed(out@, a) {
                    let x = choose|x: int| 0 <= x < out@.len() && #[trigger] out@[x]@ == a;
                    assert(out@[x] == t[t.len() - 1 - x]);
                    assert(has_view(t, a));
                }
                if has_view(t, a) {
                    let y = choose|y: int| 0 <= y < t.len() && #[trigger] t[y]@ == a;
                    assert(out@[t.len() - 1 - y] == t[y]);
                    assert(listed(out@, a));
                }
                if linked_before(s, s.len() as int, a, user_id) {
                    let j = choose|j: int| 0 <= j < s.len() && #[trigger] s[j].0@ == a && s[j].1.user_id == user_id;
                    crate::str_map::lemma_str_entry(s, j);
                }
                if self.profiles@.contains_key(a) && self.profiles@[a].user_id == user_id {
                    let j = choose|j: int| 0 <= j < s.len() && s[j].0@ == a;
                    crate::str_map::lemma_str_entry(s, j);
                    assert(linked_before(s, s.len() as int, a, user_id));
                }
            }
            assert forall|x: int, y: int| 0 <= x < y < out.len() implies str_lt(#[trigger] out@[y]@, #[trigger] out@[x]@) by {
                assert(out@[x] == t[t.len() - 1 - x]);
                assert(out@[y] == t[t.len() - 1 - y]);
            }
        }
        out
    }
}

} // verus!
