//! A table from texts to texts.
use vstd::hash_map::StringHashMap;
use vstd::prelude::*;

verus! {

/// A table from texts to texts, each key once.
pub struct Vocab {
    map: StringHashMap<String>,
}

impl View for Vocab {
    type V = Map<Seq<char>, Seq<char>>;

    closed spec fn view(&self) -> Map<Seq<char>, Seq<char>> {
        self.map@.map_values(|s: String| s@)
    }
}

/// What a table says of a key.
pub open spec fn lookup(m: Map<Seq<char>, Seq<char>>, k: Seq<char>) -> Option<Seq<char>> {
    if m.contains_key(k) {
        Some(m[k])
    } else {
        None
    }
}

impl Vocab {
    /// An empty table.
    pub fn new() -> (r: Vocab)
        ensures
            r@ == Map::<Seq<char>, Seq<char>>::empty(),
    {
        let r = Vocab { map: StringHashMap::new() };
        assert(r@ =~= Map::<Seq<char>, Seq<char>>::empty());
        r
    }

    /// Enters a value, in place of the one that the key had.
    pub fn insert(&mut self, k: String, v: String)
        ensures
            final(self)@ == old(self)@.insert(k@, v@),
    {
        self.map.insert(k, v);
        assert(self@ =~= old(self)@.insert(k@, v@));
    }

    /// The value of a key.
    pub fn get(&self, k: &str) -> (r: Option<&String>)
        ensures
            lookup(self@, k@) == (match r {
                Some(v) => Some(v@),
                None => None,
            }),
    {
        self.map.get(k)
    }

    /// A copy of the value of a key.
    pub fn copied(&self, k: &str) -> (r: Option<String>)
        ensures
            r.deep_view() == lookup(self@, k@),
    {
        match self.map.get(k) {
            Some(v) => Some(v.clone()),
            None => None,
        }
    }
}

} // verus!
