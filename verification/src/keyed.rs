//! A table keyed by texts that remembers the order in which its keys came.
use vstd::hash_map::StringHashMap;
use vstd::prelude::*;

verus! {

/// A table from texts to values, each key once, with its keys in the order in which they
/// were first entered.
#[verifier::reject_recursive_types(V)]
pub struct Keyed<V> {
    keys: Vec<String>,
    values: Vec<V>,
    index: StringHashMap<usize>,
}

impl<V> View for Keyed<V> {
    type V = Map<Seq<char>, V>;

    closed spec fn view(&self) -> Map<Seq<char>, V> {
        Map::new(
            |k: Seq<char>| self.index@.contains_key(k),
            |k: Seq<char>| self.values@[self.index@[k] as int],
        )
    }
}

impl<V> Keyed<V> {
    /// The keys in the order in which they were first entered.
    pub closed spec fn order(&self) -> Seq<Seq<char>> {
        self.keys@.map_values(|k: String| k@)
    }

    /// Whether every key has one value, and the index finds it.
    pub closed spec fn wf(&self) -> bool {
        &&& self.keys.len() == self.values.len()
        &&& forall|i: int|
            0 <= i < self.keys.len() ==> self.index@.contains_key(#[trigger] self.order()[i])
                && self.index@[self.order()[i]] == i
        &&& forall|k: Seq<char>| #[trigger]
            self.index@.contains_key(k) ==> self.index@[k] < self.keys.len()
                && self.order()[self.index@[k] as int] == k
    }

    /// The order lists every key, and each once.
    pub proof fn lemma_order(&self)
        requires
            self.wf(),
        ensures
            self.order().no_duplicates(),
            forall|k: Seq<char>| #[trigger] self@.contains_key(k) <==> self.order().contains(k),
            forall|i: int|
                0 <= i < self.order().len() ==> self@.contains_key(#[trigger] self.order()[i]),
    {
        let o = self.order();
        assert forall|i: int| 0 <= i < o.len() implies self@.contains_key(#[trigger] o[i]) by {
            assert(self.index@.contains_key(o[i]));
        }
        assert forall|i: int, j: int| 0 <= i < o.len() && 0 <= j < o.len() && i != j implies o[i]
            != o[j] by {
            assert(self.index@[o[i]] == i);
            assert(self.index@[o[j]] == j);
        }
        assert forall|k: Seq<char>| #[trigger] self@.contains_key(k) <==> o.contains(k) by {
            if self@.contains_key(k) {
                assert(self.index@.contains_key(k));
                assert(o[self.index@[k] as int] == k);
            }
            if o.contains(k) {
                let i = choose|i: int| 0 <= i < o.len() && o[i] == k;
                assert(self.index@.contains_key(o[i]));
            }
        }
    }

    /// An empty table.
    pub fn new() -> (r: Keyed<V>)
        ensures
            r.wf(),
            r@ == Map::<Seq<char>, V>::empty(),
            r.order() == Seq::<Seq<char>>::empty(),
    {
        let r = Keyed { keys: Vec::new(), values: Vec::new(), index: StringHashMap::new() };
        assert(r@ =~= Map::<Seq<char>, V>::empty());
        assert(r.order() =~= Seq::<Seq<char>>::empty());
        r
    }

    /// How many keys there are.
    pub fn len(&self) -> (r: usize)
        ensures
            r == self.order().len(),
    {
        self.keys.len()
    }

    /// The key at a place of the order.
    pub fn key(&self, i: usize) -> (r: &String)
        requires
            self.wf(),
            i < self.order().len(),
        ensures
            r@ == self.order()[i as int],
            self@.contains_key(r@),
    {
        assert(self.index@.contains_key(self.order()[i as int]));
        &self.keys[i]
    }

    /// The value of the key at a place of the order.
    pub fn value(&self, i: usize) -> (r: &V)
        requires
            self.wf(),
            i < self.order().len(),
        ensures
            self@.contains_key(self.order()[i as int]),
            *r == self@[self.order()[i as int]],
    {
        assert(self.index@.contains_key(self.order()[i as int]));
        &self.values[i]
    }

    /// The place of a key.
    pub fn find(&self, k: &str) -> (r: Option<usize>)
        requires
            self.wf(),
        ensures
            match r {
                Some(i) => i < self.order().len() && self.order()[i as int] == k@
                    && self@.contains_key(k@),
                None => !self@.contains_key(k@),
            },
    {
        match self.index.get(k) {
            Some(i) => Some(*i),
            None => None,
        }
    }

    /// Enters a new key behind the others.
    pub fn push(&mut self, k: String, v: V)
        requires
            old(self).wf(),
            !old(self)@.contains_key(k@),
        ensures
            final(self).wf(),
            final(self)@ == old(self)@.insert(k@, v),
            final(self).order() == old(self).order().push(k@),
    {
        let ghost before = self.order();
        let ghost was = self@;
        let ghost text = k@;
        let n = self.keys.len();
        proof {
            self.lemma_order();
            assert(!before.contains(text));
        }
        self.index.insert(k.clone(), n);
        self.keys.push(k);
        self.values.push(v);
        assert(self.order() =~= before.push(text));
        assert forall|i: int| 0 <= i < self.keys.len() implies self.index@.contains_key(
            #[trigger] self.order()[i],
        ) && self.index@[self.order()[i]] == i by {
            if i < n {
                assert(self.order()[i] == before[i]);
                assert(before.contains(before[i]));
            }
        }
        assert(self@ =~= was.insert(text, v));
    }

    /// Gives the key at a place another value.
    pub fn set(&mut self, i: usize, v: V)
        requires
            old(self).wf(),
            i < old(self).order().len(),
        ensures
            final(self).wf(),
            final(self)@ == old(self)@.insert(old(self).order()[i as int], v),
            final(self).order() == old(self).order(),
    {
        let ghost was = self@;
        let ghost before = self.order();
        let ghost k = self.order()[i as int];
        assert(self.index@.contains_key(k));
        self.values.set(i, v);
        assert(self.order() == before);
        assert forall|t: Seq<char>| #[trigger] self@.contains_key(t) implies self@[t] == was.insert(
            k,
            v,
        )[t] by {
            if t != k {
                assert(before[self.index@[t] as int] == t);
            }
        }
        assert(self@ =~= was.insert(k, v));
    }

    /// The value of the key at a place, to be changed there.
    pub fn value_mut(&mut self, i: usize) -> (r: &mut V)
        requires
            old(self).wf(),
            i < old(self).order().len(),
        ensures
            old(self)@.contains_key(old(self).order()[i as int]),
            *r == old(self)@[old(self).order()[i as int]],
            final(self).wf(),
            final(self)@ == old(self)@.insert(old(self).order()[i as int], *final(r)),
            final(self).order() == old(self).order(),
    {
        assert(self.index@.contains_key(self.order()[i as int]));
        &mut self.values[i]
    }

    /// The values in the order of their keys.
    pub fn into_values(self) -> (r: Vec<V>)
        requires
            self.wf(),
        ensures
            r.len() == self.order().len(),
            forall|i: int| 0 <= i < r.len() ==> #[trigger] r@[i] == self@[self.order()[i]],
    {
        let ghost whole = self;
        let r = self.values;
        assert forall|i: int| 0 <= i < r.len() implies #[trigger] r@[i] == whole@[whole.order()[i]] by {
            assert(whole.index@.contains_key(whole.order()[i]));
        }
        r
    }
}

} // verus!
