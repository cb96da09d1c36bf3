//! A vocabulary that gives each distinct token string an integer id, in the
//! order in which the strings are first added.

use vstd::prelude::*;
use std::collections::HashMap;
use crate::keyed_map::KeyedMap;

verus! {

broadcast use vstd::std_specs::hash::group_hash_axioms;

/// Vocabulary of tokens with integer ids.
pub struct TernaryVocabulary {
    pub token_to_id: KeyedMap<String, u32>,
    pub id_to_token: HashMap<u32, String>,
}

impl TernaryVocabulary {
    /// The token stored under each id, as a character sequence.
    pub open spec fn id_names(&self) -> Map<u32, Seq<char>> {
        self.id_to_token@.map_values(|s: String| s@)
    }

    /// The ids handed out so far are exactly `0..len`, where `len` is the
    /// number of tokens, and the two maps are inverse to each other.
    pub open spec fn wf(&self) -> bool {
        &&& self.token_to_id@.dom().finite()
        &&& forall|id: u32| #[trigger] self.id_to_token@.contains_key(id) <==> id < self.spec_len()
        &&& forall|t: Seq<char>| #[trigger]
            self.token_to_id@.contains_key(t) ==> self.token_to_id@[t] < self.spec_len()
                && self.id_names()[self.token_to_id@[t]] == t
        &&& forall|id: u32| #[trigger]
            self.id_to_token@.contains_key(id) ==> self.token_to_id@.contains_key(
                self.id_names()[id],
            ) && self.token_to_id@[self.id_names()[id]] == id
    }

    /// Number of distinct tokens added.
    pub open spec fn spec_len(&self) -> nat {
        self.token_to_id@.dom().len()
    }

    pub fn new() -> (v: Self)
        ensures
            v.wf(),
            v.token_to_id@ == Map::<Seq<char>, u32>::empty(),
            v.id_to_token@ == Map::<u32, String>::empty(),
    {
        let v = Self { token_to_id: KeyedMap::new(), id_to_token: HashMap::new() };
        proof {
            assert(v.token_to_id@.dom() =~= Set::<Seq<char>>::empty());
        }
        v
    }

    /// The id of `token`: the one it already has, or else the next unused id.
    pub fn add(&mut self, token: &str) -> (id: u32)
        requires
            old(self).wf(),
            old(self).token_to_id@.contains_key(token@) || old(self).spec_len() < u32::MAX,
        ensures
            final(self).wf(),
            old(self).token_to_id@.contains_key(token@) ==> {
                &&& id == old(self).token_to_id@[token@]
                &&& final(self).token_to_id@ == old(self).token_to_id@
                &&& final(self).id_to_token@ == old(self).id_to_token@
            },
            !old(self).token_to_id@.contains_key(token@) ==> {
                &&& id as int == old(self).spec_len()
                &&& final(self).token_to_id@ == old(self).token_to_id@.insert(token@, id)
                &&& final(self).id_names() == old(self).id_names().insert(id, token@)
            },
    {
        match self.token_to_id.get(&token.to_owned()) {
            Some(id) => *id,
            None => {
                let ghost before = *self;
                let n = self.token_to_id.len();
                let id = n as u32;
                self.token_to_id.insert(token.to_owned(), id);
                self.id_to_token.insert(id, token.to_owned());
                proof {
                    assert(self.token_to_id@.dom() =~= before.token_to_id@.dom().insert(token@));
                    assert(self.id_names() =~= before.id_names().insert(id, token@));
                    assert forall|i: u32| #[trigger]
                        self.id_to_token@.contains_key(i) implies self.token_to_id@.contains_key(
                        self.id_names()[i],
                    ) && self.token_to_id@[self.id_names()[i]] == i by {
                        if i != id {
                            assert(before.id_to_token@.contains_key(i));
                            assert(before.id_names()[i] != token@);
                        }
                    }
                }
                id
            },
        }
    }

    pub fn get_id(&self, token: &str) -> (r: Option<u32>)
        ensures
            r == (if self.token_to_id@.contains_key(token@) {
                Some(self.token_to_id@[token@])
            } else {
                None
            }),
    {
        match self.token_to_id.get(&token.to_owned()) {
            Some(id) => Some(*id),
            None => None,
        }
    }

    pub fn get_token(&self, id: u32) -> (r: Option<&str>)
        ensures
            match r {
                Some(s) => self.id_to_token@.contains_key(id) && s@ == self.id_names()[id],
                None => !self.id_to_token@.contains_key(id),
            },
    {
        match self.id_to_token.get(&id) {
            Some(s) => Some(s.as_str()),
            None => None,
        }
    }

    pub fn len(&self) -> (n: usize)
        ensures
            n == self.spec_len(),
    {
        self.token_to_id.len()
    }

    pub fn is_empty(&self) -> (b: bool)
        ensures
            b == (self.spec_len() == 0),
    {
        self.token_to_id.len() == 0
    }
}

impl Default for TernaryVocabulary {
    fn default() -> (v: Self)
        ensures
            v.wf(),
            v.token_to_id@ == Map::<Seq<char>, u32>::empty(),
            v.id_to_token@ == Map::<u32, String>::empty(),
    {
        Self::new()
    }
}

/// In a well-formed vocabulary, the token stored under a token's id is that
/// token, and two tokens share an id only if they are the same token.
pub proof fn lemma_ids_identify_tokens(v: &TernaryVocabulary, a: Seq<char>, b: Seq<char>)
    requires
        v.wf(),
        v.token_to_id@.contains_key(a),
        v.token_to_id@.contains_key(b),
    ensures
        v.id_to_token@.contains_key(v.token_to_id@[a]),
        v.id_names()[v.token_to_id@[a]] == a,
        (v.token_to_id@[a] == v.token_to_id@[b]) <==> a == b,
{
}

} // verus!
