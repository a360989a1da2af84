//! A map keyed by string identifiers that remembers the order in which its
//! keys were first inserted.

use vstd::hash_map::StringHashMap;
use vstd::prelude::*;
use vstd::string::StringExecFns;

verus! {

/// A finite map from string identifiers to values.
///
/// Identifiers are compared by their characters, so the map is viewed as a
/// `Map` keyed by `Seq<char>`; values appear in it by their own views. The
/// entries can also be walked by position, in the order of first insertion
/// (see [`IdMap::order`]).
pub struct IdMap<'a, V> {
    ids: Vec<&'a str>,
    values: Vec<V>,
    slots: StringHashMap<usize>,
}

impl<'a, V: View> View for IdMap<'a, V> {
    type V = Map<Seq<char>, V::V>;

    closed spec fn view(&self) -> Map<Seq<char>, V::V> {
        Map::new(
            |id: Seq<char>| self.slots@.contains_key(id),
            |id: Seq<char>| self.values@[self.slots@[id] as int]@,
        )
    }
}

impl<'a, V: View> IdMap<'a, V> {
    /// The keys, in the order in which they were first inserted.
    pub closed spec fn order(&self) -> Seq<Seq<char>> {
        Seq::new(self.ids@.len(), |i: int| self.ids@[i]@)
    }

    /// Every key has exactly one position, and every position holds a key.
    pub closed spec fn wf(&self) -> bool {
        &&& self.slots@.dom().finite()
        &&& self.ids@.len() == self.values@.len()
        &&& self.ids@.len() == self.slots@.len()
        &&& forall|i: int|
            #![trigger self.ids@[i]]
            0 <= i < self.ids@.len() ==> self.slots@.contains_key(self.ids@[i]@)
                && self.slots@[self.ids@[i]@] == i
        &&& forall|id: Seq<char>| #[trigger]
            self.slots@.contains_key(id) ==> self.slots@[id] < self.ids@.len()
                && self.ids@[self.slots@[id] as int]@ == id
    }

    /// How the positional order relates to the map: it lists every key once.
    pub proof fn lemma_order(&self)
        requires
            self.wf(),
        ensures
            self@.dom().finite(),
            self.order().len() == self@.len(),
            self.order().no_duplicates(),
            forall|i: int|
                0 <= i < self.order().len() ==> self@.contains_key(#[trigger] self.order()[i]),
            forall|id: Seq<char>| #[trigger] self@.contains_key(id) ==> self.order().contains(id),
    {
        assert(self@.dom() =~= self.slots@.dom());
        assert forall|id: Seq<char>| #[trigger]
            self@.contains_key(id) implies self.order().contains(id) by {
            assert(self.slots@.contains_key(id));
            assert(self.order()[self.slots@[id] as int] == id);
        }
    }

    /// An empty map.
    pub fn new() -> (m: Self)
        ensures
            m.wf(),
            m@ == Map::<Seq<char>, V::V>::empty(),
            m.order() == Seq::<Seq<char>>::empty(),
    {
        let m = IdMap { ids: Vec::new(), values: Vec::new(), slots: StringHashMap::new() };
        assert(m@ =~= Map::<Seq<char>, V::V>::empty());
        assert(m.order() =~= Seq::<Seq<char>>::empty());
        m
    }

    /// The number of entries.
    pub fn len(&self) -> (n: usize)
        requires
            self.wf(),
        ensures
            n == self@.len(),
            n == self.order().len(),
    {
        proof {
            self.lemma_order();
        }
        self.ids.len()
    }

    /// Whether the map has no entry.
    pub fn is_empty(&self) -> (b: bool)
        requires
            self.wf(),
        ensures
            b == (self@.len() == 0),
    {
        proof {
            self.lemma_order();
        }
        self.ids.len() == 0
    }

    /// Records `value` under `id`. A key that is already present keeps its
    /// position and gets the new value; a new key goes to the end.
    pub fn insert(&mut self, id: &'a str, value: V)
        requires
            old(self).wf(),
        ensures
            final(self).wf(),
            final(self)@ == old(self)@.insert(id@, value@),
            old(self)@.contains_key(id@) ==> final(self).order() == old(self).order(),
            !old(self)@.contains_key(id@) ==> final(self).order() == old(self).order().push(id@),
    {
        let ghost before = *self;
        match self.slots.get(id) {
            Some(slot) => {
                let i: usize = *slot;
                self.values[i] = value;
                assert(self@ =~= before@.insert(id@, value@));
                assert(self.order() =~= before.order());
            },
            None => {
                let n: usize = self.ids.len();
                self.slots.insert(String::from_str(id), n);
                self.ids.push(id);
                self.values.push(value);
                assert(self@ =~= before@.insert(id@, value@));
                assert(self.order() =~= before.order().push(id@));
            },
        }
    }

    /// Whether `id` has an entry.
    pub fn contains_key(&self, id: &str) -> (b: bool)
        requires
            self.wf(),
        ensures
            b == self@.contains_key(id@),
    {
        self.slots.contains_key(id)
    }

    /// The value recorded under `id`, if there is one.
    pub fn get(&self, id: &str) -> (r: Option<&V>)
        requires
            self.wf(),
        ensures
            match r {
                Some(v) => self@.contains_key(id@) && v@ == self@[id@],
                None => !self@.contains_key(id@),
            },
    {
        match self.slots.get(id) {
            Some(slot) => Some(&self.values[*slot]),
            None => None,
        }
    }

    /// The position of `id` in the insertion order, if `id` has an entry.
    pub fn position(&self, id: &str) -> (at: Option<usize>)
        requires
            self.wf(),
        ensures
            match at {
                Some(i) => i < self.order().len() && self.order()[i as int] == id@,
                None => !self@.contains_key(id@),
            },
    {
        match self.slots.get(id) {
            Some(slot) => Some(*slot),
            None => None,
        }
    }

    /// The key at position `i` of the insertion order.
    pub fn id_at(&self, i: usize) -> (id: &'a str)
        requires
            self.wf(),
            i < self.order().len(),
        ensures
            id@ == self.order()[i as int],
    {
        self.ids[i]
    }

    /// The value of the key at position `i` of the insertion order.
    pub fn value_at(&self, i: usize) -> (v: &V)
        requires
            self.wf(),
            i < self.order().len(),
        ensures
            v@ == self@[self.order()[i as int]],
    {
        &self.values[i]
    }
}

} // verus!
