//! Hash collections keyed by text, with their contents as plain values: a
//! text-to-id map and a set of (node id, text) pairs.
use vstd::prelude::*;

verus! {

/// A hash map from texts to ids.
#[verifier::external_body]
pub struct TextIds {
    map: hashbrown::HashMap<String, usize>,
}

/// The entries of a text-to-id map.
pub uninterp spec fn text_ids(m: TextIds) -> Map<Seq<char>, usize>;

impl TextIds {
    /// An empty map (`hashbrown::HashMap::new`).
    #[verifier::external_body]
    pub(crate) fn new() -> (r: TextIds)
        ensures
            text_ids(r).dom().finite(),
            text_ids(r).dom().len() == 0,
    {
        TextIds { map: hashbrown::HashMap::new() }
    }

    /// The id of `k`, if it has one (`hashbrown::HashMap::get`).
    #[verifier::external_body]
    pub(crate) fn get(&self, k: &str) -> (r: Option<usize>)
        ensures
            r == (if text_ids(*self).contains_key(k@) {
                Some(text_ids(*self)[k@])
            } else {
                None
            }),
    {
        self.map.get(k).copied()
    }

    /// Give `k` the id `v` (`hashbrown::HashMap::insert`).
    #[verifier::external_body]
    pub(crate) fn insert(&mut self, k: String, v: usize)
        ensures
            text_ids(*final(self)) == text_ids(*old(self)).insert(k@, v),
    {
        self.map.insert(k, v);
    }
}

/// A hash set of (node id, text) pairs.
#[verifier::external_body]
pub struct SeenKeys {
    set: hashbrown::HashSet<(u32, String)>,
}

/// The members of a pair set.
pub uninterp spec fn seen_keys(s: SeenKeys) -> Set<(u32, Seq<char>)>;

impl SeenKeys {
    /// An empty set (`hashbrown::HashSet::new`).
    #[verifier::external_body]
    pub(crate) fn new() -> (r: SeenKeys)
        ensures
            seen_keys(r).finite(),
            seen_keys(r).len() == 0,
    {
        SeenKeys { set: hashbrown::HashSet::new() }
    }

    /// Add `(id, key)`, telling whether it was absent (`hashbrown::HashSet::insert`).
    #[verifier::external_body]
    pub(crate) fn insert(&mut self, id: u32, key: String) -> (added: bool)
        ensures
            seen_keys(*final(self)) == seen_keys(*old(self)).insert((id, key@)),
            added == !seen_keys(*old(self)).contains((id, key@)),
    {
        self.set.insert((id, key))
    }
}

} // verus!
