use vstd::prelude::*;
use crate::chunk_index::ChunkIndex;
use crate::chunk_index::comes_before;
use crate::chunk_index::has_index;
use crate::chunk_index::is_before;
use crate::chunk_index::lemma_before_carries;
use crate::chunk_index::lemma_order_is_total;
use crate::chunk_index::rising;
use crate::chunk_index::same_index;

verus! {

/// A map from region identifiers to values that keeps its entries in the
/// rising order of their identifiers: selector by selector, a region
/// before the regions inside it.
pub struct IndexMap<V> {
    pub keys: Vec<ChunkIndex>,
    pub values: Vec<V>,
}

impl<V: View> View for IndexMap<V> {
    type V = Map<Seq<u8>, V::V>;

    /// What the map holds: for each identifier among the keys, the view of
    /// the value at the identifier's place.
    open spec fn view(&self) -> Map<Seq<u8>, V::V> {
        Map::new(
            |k: Seq<u8>| has_index(self.keys@, k),
            |k: Seq<u8>| self.values@[self.slot_of(k)]@,
        )
    }
}

impl<V: View> IndexMap<V> {
    /// Every key has its value, the keys stand in rising order, and so
    /// no identifier is a key twice.
    pub open spec fn wf(&self) -> bool {
        &&& self.keys@.len() == self.values@.len()
        &&& rising(self.keys@)
        &&& forall|i: int, j: int|
            0 <= i < j < self.keys@.len() ==> (#[trigger] self.keys@[i])@ != (
            #[trigger] self.keys@[j])@
    }

    /// Keys in rising order are all different.
    pub proof fn lemma_rising_differ(keys: Seq<ChunkIndex>)
        requires
            rising(keys),
        ensures
            forall|i: int, j: int|
                0 <= i < j < keys.len() ==> (#[trigger] keys[i])@ != (#[trigger] keys[j])@,
    {
        assert forall|i: int, j: int| 0 <= i < j < keys.len() implies (#[trigger] keys[i])@ != (
        #[trigger] keys[j])@ by {
            lemma_order_is_total(keys[i]@, keys[j]@);
        }
    }

    /// A place at which `key` stands.
    pub open spec fn slot_of(&self, key: Seq<u8>) -> int {
        choose|i: int| 0 <= i < self.keys@.len() && (#[trigger] self.keys@[i])@ == key
    }

    /// The entry at place `i` is the map's entry for the key at `i`.
    pub proof fn lemma_slot(&self, i: int)
        requires
            self.wf(),
            0 <= i < self.keys@.len(),
        ensures
            self@.contains_key(self.keys@[i]@),
            self.slot_of(self.keys@[i]@) == i,
            self@[self.keys@[i]@] == self.values@[i]@,
    {
        let k = self.keys@[i]@;
        assert(has_index(self.keys@, k));
        let s = self.slot_of(k);
        if s < i {
            assert(self.keys@[s]@ != self.keys@[i]@);
        } else if i < s {
            assert(self.keys@[i]@ != self.keys@[s]@);
        }
    }

    /// A map without entries.
    pub fn new() -> (m: Self)
        ensures
            m.wf(),
            m@ == Map::<Seq<u8>, V::V>::empty(),
            m.keys@.len() == 0,
    {
        let m = IndexMap { keys: Vec::new(), values: Vec::new() };
        proof {
            assert(m@ =~= Map::<Seq<u8>, V::V>::empty());
        }
        m
    }

    /// The number of entries.
    pub fn len(&self) -> (n: usize)
        requires
            self.wf(),
        ensures
            n == self.keys@.len(),
            n == self@.dom().len(),
            self@.dom().finite(),
    {
        proof {
            self.lemma_dom_len(self.keys@.len() as int);
            assert(self.dom_upto(self.keys@.len() as int) =~= self@.dom());
        }
        self.keys.len()
    }

    /// The identifiers at the first `n` places.
    pub open spec fn dom_upto(&self, n: int) -> Set<Seq<u8>> {
        Set::new(|k: Seq<u8>| exists|i: int| 0 <= i < n && (#[trigger] self.keys@[i])@ == k)
    }

    /// The first `n` places hold `n` different identifiers.
    pub proof fn lemma_dom_len(&self, n: int)
        requires
            self.wf(),
            0 <= n <= self.keys@.len(),
        ensures
            self.dom_upto(n).finite(),
            self.dom_upto(n).len() == n,
        decreases n,
    {
        if n == 0 {
            assert(self.dom_upto(n) =~= Set::<Seq<u8>>::empty());
        } else {
            self.lemma_dom_len(n - 1);
            let k = self.keys@[n - 1]@;
            assert(!self.dom_upto(n - 1).contains(k));
            assert(self.dom_upto(n) =~= self.dom_upto(n - 1).insert(k));
        }
    }

    /// The place of `key`, if the map has it.
    pub fn position(&self, key: &[u8]) -> (r: Option<usize>)
        requires
            self.wf(),
        ensures
            match r {
                Some(i) => i < self.keys@.len() && self.keys@[i as int]@ == key@,
                None => !self@.contains_key(key@),
            },
    {
        let mut i: usize = 0;
        while i < self.keys.len()
            invariant
                i <= self.keys@.len(),
                forall|j: int| 0 <= j < i ==> (#[trigger] self.keys@[j])@ != key@,
            decreases self.keys@.len() - i,
        {
            if same_index(self.keys[i].as_slice(), key) {
                return Some(i);
            }
            i += 1;
        }
        None
    }

    /// Whether the map has `key`.
    pub fn contains_key(&self, key: &[u8]) -> (r: bool)
        requires
            self.wf(),
        ensures
            r == self@.contains_key(key@),
    {
        match self.position(key) {
            Some(i) => {
                proof {
                    self.lemma_slot(i as int);
                }
                true
            },
            None => false,
        }
    }

    /// The value of `key`, if the map has it.
    pub fn get(&self, key: &[u8]) -> (r: Option<&V>)
        requires
            self.wf(),
        ensures
            match r {
                Some(v) => self@.contains_key(key@) && self@[key@] == v@,
                None => !self@.contains_key(key@),
            },
    {
        match self.position(key) {
            Some(i) => {
                proof {
                    self.lemma_slot(i as int);
                }
                Some(&self.values[i])
            },
            None => None,
        }
    }

    /// Gives `key` the value `value`: in place where the map has the key,
    /// as a new entry at the key's place in the rising order where it has
    /// not.
    pub fn insert(&mut self, key: ChunkIndex, value: V)
        requires
            old(self).wf(),
        ensures
            final(self).wf(),
            final(self)@ == old(self)@.insert(key@, value@),
            old(self)@.contains_key(key@) ==> {
                &&& final(self).keys@ == old(self).keys@
                &&& forall|i: int|
                    0 <= i < final(self).keys@.len() ==> #[trigger] final(self).values@[i] == (
                    if final(self).keys@[i]@ == key@ {
                        value
                    } else {
                        old(self).values@[i]
                    })
            },
            !old(self)@.contains_key(key@) ==> exists|p: int|
                0 <= p <= old(self).keys@.len() && final(self).keys@ == #[trigger] old(self).keys@.insert(p, key) && final(self).values@ == old(self).values@.insert(p, value),
    {
        let ghost before = *self;
        match self.position(key.as_slice()) {
            Some(i) => {
                self.values[i] = value;
                proof {
                    before.lemma_slot(i as int);
                    assert forall|k: Seq<u8>| #[trigger] self@.contains_key(k) implies self@[k]
                        == before@.insert(key@, value@)[k] by {
                        let s = self.slot_of(k);
                        self.lemma_slot(s);
                        before.lemma_slot(s);
                    }
                    assert(self@ =~= before@.insert(key@, value@));
                }
            },
            None => {
                let mut p: usize = 0;
                let mut found = false;
                while p < self.keys.len() && !found
                    invariant
                        *self == before,
                        p <= self.keys@.len(),
                        forall|a: int| 0 <= a < p ==> comes_before((#[trigger] self.keys@[a])@, key@),
                        found ==> p < self.keys@.len() && !comes_before(self.keys@[p as int]@, key@),
                    decreases self.keys@.len() - p, (if found { 0int } else { 1int }),
                {
                    if is_before(self.keys[p].as_slice(), key.as_slice()) {
                        p += 1;
                    } else {
                        found = true;
                    }
                }
                let ghost key_view = key@;
                let ghost value_view = value@;
                self.keys.insert(p, key);
                self.values.insert(p, value);
                proof {
                    let n = before.keys@.len() as int;
                    let at = p as int;
                    before.keys@.insert_ensures(at, self.keys@[at]);
                    before.values@.insert_ensures(at, self.values@[at]);
                    assert(self.keys@[at]@ == key_view);
                    assert forall|i: int| 0 <= i < n + 1 && i != at implies #[trigger] self.keys@[i]
                        == before.keys@[if i < at { i } else { i - 1 }] && self.values@[i]
                        == before.values@[if i < at { i } else { i - 1 }] by {
                        if i > at {
                            assert(self.keys@[(i - 1) + 1] == before.keys@[i - 1]);
                            assert(self.values@[(i - 1) + 1] == before.values@[i - 1]);
                        }
                    }
                    if at < n {
                        assert(has_index(before.keys@, before.keys@[at]@));
                        lemma_order_is_total(before.keys@[at]@, key_view);
                    }
                    assert forall|i: int, j: int| 0 <= i < j < self.keys@.len() implies comes_before(
                        (#[trigger] self.keys@[i])@,
                        (#[trigger] self.keys@[j])@,
                    ) by {
                        let i0 = if i < at { i } else { i - 1 };
                        let j0 = if j < at { j } else { j - 1 };
                        if i == at {
                            if j0 > at {
                                assert(comes_before(before.keys@[at]@, before.keys@[j0]@));
                                lemma_before_carries(
                                    key_view,
                                    before.keys@[at]@,
                                    before.keys@[j0]@,
                                    0,
                                );
                            }
                        } else if j == at {
                        } else {
                            assert(comes_before(before.keys@[i0]@, before.keys@[j0]@));
                        }
                    }
                    Self::lemma_rising_differ(self.keys@);
                    assert forall|k: Seq<u8>| #[trigger]
                        before@.insert(key_view, value_view).contains_key(k) implies self@.contains_key(
                        k,
                    ) && self@[k] == before@.insert(key_view, value_view)[k] by {
                        if k == key_view {
                            self.lemma_slot(at);
                        } else {
                            let s = before.slot_of(k);
                            before.lemma_slot(s);
                            let t = if s < at { s } else { s + 1 };
                            assert(self.keys@[t] == before.keys@[s]);
                            self.lemma_slot(t);
                        }
                    }
                    assert forall|k: Seq<u8>| #[trigger]
                        self@.contains_key(k) implies before@.insert(
                        key_view,
                        value_view,
                    ).contains_key(k) by {
                        let t = self.slot_of(k);
                        if t != at {
                            let s = if t < at { t } else { t - 1 };
                            assert(self.keys@[t] == before.keys@[s]);
                            assert(has_index(before.keys@, k));
                        }
                    }
                    assert(self@ =~= before@.insert(key_view, value_view));
                }
            },
        }
    }

    /// Takes `key` and its value out; the entries behind it move up.
    pub fn remove(&mut self, key: &[u8]) -> (r: Option<V>)
        requires
            old(self).wf(),
        ensures
            final(self).wf(),
            final(self)@ == old(self)@.remove(key@),
            match r {
                Some(v) => old(self)@.contains_key(key@) && old(self)@[key@] == v@,
                None => !old(self)@.contains_key(key@),
            },
            r is None ==> final(self).keys@ == old(self).keys@ && final(self).values@ == old(self).values@,
            r is Some ==> exists|i: int|
                0 <= i < old(self).keys@.len() && (#[trigger] old(self).keys@[i])@ == key@ && final(self).keys@ == old(self).keys@.remove(i) && final(self).values@ == old(self).values@.remove(i),
    {
        let ghost before = *self;
        match self.position(key) {
            Some(i) => {
                self.keys.remove(i);
                let v = self.values.remove(i);
                proof {
                    before.lemma_slot(i as int);
                    assert forall|a: int, b: int| 0 <= a < b < self.keys@.len() implies comes_before(
                        (#[trigger] self.keys@[a])@,
                        (#[trigger] self.keys@[b])@,
                    ) by {
                        let a0 = if a < i { a } else { a + 1 };
                        let b0 = if b < i { b } else { b + 1 };
                        assert(self.keys@[a] == before.keys@[a0]);
                        assert(self.keys@[b] == before.keys@[b0]);
                        assert(comes_before(before.keys@[a0]@, before.keys@[b0]@));
                    }
                    Self::lemma_rising_differ(self.keys@);
                    assert forall|k: Seq<u8>| #[trigger]
                        before@.remove(key@).contains_key(k) implies self@.contains_key(k)
                        && self@[k] == before@.remove(key@)[k] by {
                        let s = before.slot_of(k);
                        before.lemma_slot(s);
                        let t = if s < i { s } else { s - 1 };
                        assert(self.keys@[t] == before.keys@[s]);
                        self.lemma_slot(t);
                    }
                    assert forall|k: Seq<u8>| #[trigger]
                        self@.contains_key(k) implies before@.remove(key@).contains_key(k) by {
                        let t = self.slot_of(k);
                        let s = if t < i { t } else { t + 1 };
                        assert(self.keys@[t] == before.keys@[s]);
                        before.lemma_slot(s);
                        assert(has_index(before.keys@, k));
                    }
                    assert(self@ =~= before@.remove(key@));
                }
                Some(v)
            },
            None => {
                proof {
                    assert(self@ =~= before@.remove(key@));
                }
                None
            },
        }
    }
}

/// A set of region identifiers that keeps them in rising order.
pub struct IndexSet(pub IndexMap<()>);

impl View for IndexSet {
    type V = Set<Seq<u8>>;

    open spec fn view(&self) -> Set<Seq<u8>> {
        self.0@.dom()
    }
}

impl IndexSet {
    /// No identifier is in the set twice.
    pub open spec fn wf(&self) -> bool {
        self.0.wf()
    }

    /// The identifiers of the set, in their order.
    pub open spec fn order(&self) -> Seq<Seq<u8>> {
        crate::chunk_index::index_views(self.0.keys@)
    }

    /// A set without identifiers.
    pub fn new() -> (s: Self)
        ensures
            s.wf(),
            s@ == Set::<Seq<u8>>::empty(),
    {
        let s = IndexSet(IndexMap::new());
        proof {
            assert(s@ =~= Set::<Seq<u8>>::empty());
        }
        s
    }

    /// Whether the set is empty.
    pub fn is_empty(&self) -> (r: bool)
        requires
            self.wf(),
        ensures
            r == (self@ == Set::<Seq<u8>>::empty()),
    {
        let n = self.0.len();
        proof {
            if n == 0 {
                assert(self@ =~= Set::<Seq<u8>>::empty());
            }
        }
        n == 0
    }

    /// Whether `index` is in the set.
    pub fn contains(&self, index: &[u8]) -> (r: bool)
        requires
            self.wf(),
        ensures
            r == self@.contains(index@),
    {
        self.0.contains_key(index)
    }

    /// Puts `index` into the set.
    pub fn insert(&mut self, index: ChunkIndex)
        requires
            old(self).wf(),
        ensures
            final(self).wf(),
            final(self)@ == old(self)@.insert(index@),
    {
        let ghost key = index@;
        self.0.insert(index, ());
        proof {
            assert(self@ =~= old(self)@.insert(key));
        }
    }

    /// Takes `index` out of the set.
    pub fn remove(&mut self, index: &[u8])
        requires
            old(self).wf(),
        ensures
            final(self).wf(),
            final(self)@ == old(self)@.remove(index@),
    {
        self.0.remove(index);
        proof {
            assert(self@ =~= old(self)@.remove(index@));
        }
    }
}

} // verus!
