//! The mention/identity cache: a monotonic, best-effort mapping from a
//! Discord user ID to the last-known display name, populated opportunistically
//! from live events and used only for outbound content formatting. Entries
//! are never evicted; later observations win.

use std::collections::HashMap;
use vstd::prelude::*;

verus! {

broadcast use vstd::std_specs::hash::group_hash_axioms;

/// Maps a side-B (Discord) user identifier to the last-known display name.
pub struct MentionCache {
    map: HashMap<u64, String>,
}

impl View for MentionCache {
    type V = Map<u64, Seq<char>>;

    closed spec fn view(&self) -> Map<u64, Seq<char>> {
        self.map@.map_values(|s: String| s@)
    }
}

impl MentionCache {
    /// An empty cache; identities are learned only from live events.
    pub fn new() -> (r: MentionCache)
        ensures
            r@ == Map::<u64, Seq<char>>::empty(),
    {
        let r = MentionCache { map: HashMap::new() };
        proof {
            assert(r@ =~= Map::<u64, Seq<char>>::empty());
        }
        r
    }

    /// Cache lookup only, no network call; absence is not an error.
    pub fn resolve(&self, id: u64) -> (r: Option<String>)
        ensures
            match r {
                Some(name) => self@.contains_key(id) && name@ == self@[id],
                None => !self@.contains_key(id),
            },
    {
        match self.map.get(&id) {
            Some(name) => Some(name.clone()),
            None => None,
        }
    }

    /// Unconditional upsert, called whenever authoritative identity
    /// information arrives. Last write wins.
    pub fn observe(&mut self, id: u64, name: String)
        ensures
            final(self)@ == old(self)@.insert(id, name@),
    {
        let ghost before = self.map@;
        self.map.insert(id, name);
        proof {
            assert(self@ =~= old(self)@.insert(id, name@));
        }
    }

    /// Records a membership update: the guild nickname when one is set,
    /// otherwise the account's user name.
    pub fn observe_member(&mut self, id: u64, nick: Option<String>, username: String)
        ensures
            final(self)@ == old(self)@.insert(
                id,
                match nick {
                    Some(n) => n@,
                    None => username@,
                },
            ),
    {
        match nick {
            Some(n) => self.observe(id, n),
            None => self.observe(id, username),
        }
    }

    /// The number of identities cached so far.
    pub fn len(&self) -> (r: usize)
        ensures
            r == self@.dom().len(),
    {
        proof {
            assert(self@.dom() =~= self.map@.dom());
        }
        self.map.len()
    }
}

} // verus!
