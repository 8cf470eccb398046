//! The in-memory association map that the cache tables share.
//!
//! A [`KvMap`] keeps decoded keys together with their encoded bytes, and is
//! modelled as a map from encoded key bytes to values: the same keying the
//! persistent store uses, so cache contracts and store contracts compose.

use crate::adapt_to_db::AdaptToDb;
use crate::lex::bytes_eq;
use vstd::prelude::*;

verus! {

/// A cached value paired with the age at which it was last touched.
pub struct Aged<V> {
    /// The table-scoped logical time of the last touch.
    pub age: u64,
    /// The cached value.
    pub value: V,
}

/// One association of a key map: the decoded key, its encoded bytes, and
/// the value.
type Slot<K, V> = (K, Vec<u8>, V);

spec fn slots_index_of<K, V>(s: Seq<Slot<K, V>>, kb: Seq<u8>) -> int {
    choose|i: int| 0 <= i < s.len() && s[i].1@ == kb
}

spec fn slots_map<K, V>(s: Seq<Slot<K, V>>) -> Map<Seq<u8>, V> {
    Map::new(
        |kb: Seq<u8>| exists|i: int| 0 <= i < s.len() && s[i].1@ == kb,
        |kb: Seq<u8>| s[slots_index_of(s, kb)].2,
    )
}

spec fn slots_wf<K: AdaptToDb, V>(s: Seq<Slot<K, V>>) -> bool {
    &&& forall|i: int, j: int| 0 <= i < j < s.len() ==> s[i].1@ != s[j].1@
    &&& forall|i: int|
        0 <= i < s.len() ==> (#[trigger] s[i].0).db_wf() && s[i].1@ == s[i].0.db_bytes()
}

proof fn lemma_slots_map_at<K, V>(s: Seq<Slot<K, V>>, i: int)
    requires
        forall|p: int, q: int| 0 <= p < q < s.len() ==> s[p].1@ != s[q].1@,
        0 <= i < s.len(),
    ensures
        slots_map(s).dom().contains(s[i].1@),
        slots_map(s)[s[i].1@] == s[i].2,
{
    let kb = s[i].1@;
    let j = slots_index_of(s, kb);
    assert(0 <= j < s.len() && s[j].1@ == kb);
    if i != j {
        assert(s[i].1@ != s[j].1@);
    }
}

proof fn lemma_slots_map_contains<K, V>(s: Seq<Slot<K, V>>, kb: Seq<u8>)
    requires
        slots_map(s).dom().contains(kb),
    ensures
        exists|i: int| 0 <= i < s.len() && s[i].1@ == kb,
{
}

proof fn lemma_slots_map_len<K, V>(s: Seq<Slot<K, V>>)
    requires
        forall|p: int, q: int| 0 <= p < q < s.len() ==> s[p].1@ != s[q].1@,
    ensures
        slots_map(s).dom().finite(),
        slots_map(s).dom().len() == s.len(),
{
    broadcast use vstd::seq_lib::seq_to_set_is_finite;

    let keys = s.map_values(|e: Slot<K, V>| e.1@);
    assert(keys.no_duplicates()) by {
        assert forall|p: int, q: int| 0 <= p < q < keys.len() implies keys[p] != keys[q] by {
            assert(s[p].1@ != s[q].1@);
        }
    }
    assert(slots_map(s).dom() =~= keys.to_set()) by {
        assert forall|kb: Seq<u8>| slots_map(s).dom().contains(kb) implies keys.to_set()
            .contains(kb) by {
            let i = choose|i: int| 0 <= i < s.len() && s[i].1@ == kb;
            assert(keys[i] == kb);
        }
        assert forall|kb: Seq<u8>| keys.to_set().contains(kb) implies slots_map(s).dom()
            .contains(kb) by {
            let i = choose|i: int| 0 <= i < keys.len() && keys[i] == kb;
            assert(s[i].1@ == kb);
        }
    }
    keys.unique_seq_to_set();
}

/// An association map from keys to values, keyed by the keys' encoded
/// bytes.
pub struct KvMap<K, V> {
    slots: Vec<Slot<K, V>>,
}

impl<K: AdaptToDb, V> View for KvMap<K, V> {
    type V = Map<Seq<u8>, V>;

    closed spec fn view(&self) -> Map<Seq<u8>, V> {
        slots_map(self.slots@)
    }
}

impl<K: AdaptToDb, V> KvMap<K, V> {
    /// Key bytes are pairwise distinct and match their decoded keys.
    pub closed spec fn wf(&self) -> bool {
        slots_wf(self.slots@)
    }

    /// Creates an empty map.
    pub fn new() -> (r: KvMap<K, V>)
        ensures
            r.wf(),
            r@ =~= Map::empty(),
    {
        KvMap { slots: Vec::new() }
    }

    /// The number of resident entries.
    pub fn len(&self) -> (r: usize)
        requires
            self.wf(),
        ensures
            r == self@.dom().len(),
            self@.dom().finite(),
    {
        proof {
            lemma_slots_map_len(self.slots@);
        }
        self.slots.len()
    }

    /// The map holds finitely many entries.
    pub proof fn lemma_finite(&self)
        requires
            self.wf(),
        ensures
            self@.dom().finite(),
            self@.dom().len() <= usize::MAX,
    {
        lemma_slots_map_len(self.slots@);
        assert(vstd::std_specs::vec::spec_vec_len(&self.slots) == self.slots@.len());
    }

    /// Index of the slot holding `kb`, if any.
    fn find(&self, kb: &[u8]) -> (r: Option<usize>)
        ensures
            match r {
                Some(i) => i < self.slots@.len() && self.slots@[i as int].1@ == kb@,
                None => forall|i: int| 0 <= i < self.slots@.len() ==> self.slots@[i].1@ != kb@,
            },
    {
        let mut i: usize = 0;
        let n = self.slots.len();
        while i < n
            invariant
                i <= n,
                n == self.slots@.len(),
                forall|j: int| 0 <= j < i ==> self.slots@[j].1@ != kb@,
            decreases n - i,
        {
            if bytes_eq(self.slots[i].1.as_slice(), kb) {
                return Some(i);
            }
            i = i + 1;
        }
        None
    }

    /// Whether the map holds an entry for `kb`.
    pub fn contains(&self, kb: &[u8]) -> (r: bool)
        requires
            self.wf(),
        ensures
            r == self@.dom().contains(kb@),
    {
        match self.find(kb) {
            Some(i) => {
                proof {
                    lemma_slots_map_at(self.slots@, i as int);
                }
                true
            },
            None => {
                proof {
                    if self@.dom().contains(kb@) {
                        lemma_slots_map_contains(self.slots@, kb@);
                    }
                }
                false
            },
        }
    }

    /// The value stored under `kb`, if any.
    pub fn get(&self, kb: &[u8]) -> (r: Option<&V>)
        requires
            self.wf(),
        ensures
            match r {
                Some(v) => self@.dom().contains(kb@) && *v == self@[kb@],
                None => !self@.dom().contains(kb@),
            },
    {
        match self.find(kb) {
            Some(i) => {
                proof {
                    lemma_slots_map_at(self.slots@, i as int);
                }
                Some(&self.slots[i].2)
            },
            None => {
                proof {
                    if self@.dom().contains(kb@) {
                        lemma_slots_map_contains(self.slots@, kb@);
                    }
                }
                None
            },
        }
    }

    /// A mutable borrow of the value stored under `kb`, if any.
    pub fn get_mut(&mut self, kb: &[u8]) -> (r: Option<&mut V>)
        requires
            old(self).wf(),
        ensures
            match r {
                Some(v) => {
                    &&& old(self)@.dom().contains(kb@)
                    &&& *v == old(self)@[kb@]
                    &&& final(self).wf()
                    &&& final(self)@ == old(self)@.insert(kb@, *final(v))
                },
                None => !old(self)@.dom().contains(kb@) && *final(self) == *old(self),
            },
    {
        let ghost old_slots = self.slots@;
        match self.find(kb) {
            Some(i) => {
                proof {
                    lemma_slots_map_at(self.slots@, i as int);
                }
                let slot: &mut Slot<K, V> = &mut self.slots[i];
                let r: &mut V = &mut slot.2;
                proof {
                    let s1 = old_slots.update(
                        i as int,
                        (old_slots[i as int].0, old_slots[i as int].1, *final(r)),
                    );
                    assert forall|p: int, q: int| 0 <= p < q < s1.len() implies s1[p].1@ != s1[
                        q
                    ].1@ by {
                        assert(old_slots[p].1@ != old_slots[q].1@);
                    }
                    assert forall|p: int|
                        0 <= p < s1.len() implies (#[trigger] s1[p].0).db_wf() && s1[p].1@ == s1[
                        p
                    ].0.db_bytes() by {
                        assert(old_slots[p].0.db_wf() && old_slots[p].1@
                            == old_slots[p].0.db_bytes());
                    }
                    lemma_slots_update(old_slots, s1, i as int, kb@);
                }
                Some(r)
            },
            None => {
                proof {
                    if self@.dom().contains(kb@) {
                        lemma_slots_map_contains(self.slots@, kb@);
                    }
                }
                None
            },
        }
    }

    /// Inserts `value` under `key`, replacing any previous entry.
    pub fn insert(&mut self, key: K, kb: Vec<u8>, value: V)
        requires
            old(self).wf(),
            kb@ == key.db_bytes(),
            key.db_wf(),
        ensures
            final(self).wf(),
            final(self)@ == old(self)@.insert(kb@, value),
    {
        let ghost old_slots = self.slots@;
        match self.find(kb.as_slice()) {
            Some(i) => {
                self.slots.set(i, (key, kb, value));
                proof {
                    assert forall|p: int, q: int|
                        0 <= p < q < self.slots@.len() implies self.slots@[p].1@
                        != self.slots@[q].1@ by {
                        assert(old_slots[p].1@ != old_slots[q].1@);
                    }
                    lemma_slots_update(old_slots, self.slots@, i as int, kb@);
                }
            },
            None => {
                self.slots.push((key, kb, value));
                proof {
                    assert forall|p: int, q: int|
                        0 <= p < q < self.slots@.len() implies self.slots@[p].1@
                        != self.slots@[q].1@ by {
                        if q < self.slots@.len() - 1 {
                            assert(old_slots[p].1@ != old_slots[q].1@);
                        } else {
                            assert(old_slots[p].1@ != kb@);
                        }
                    }
                    lemma_slots_append(old_slots, self.slots@, kb@);
                }
            },
        }
    }

    /// Removes and returns the entry under `kb`, if any.
    pub fn remove(&mut self, kb: &[u8]) -> (r: Option<V>)
        requires
            old(self).wf(),
        ensures
            final(self).wf(),
            final(self)@ == old(self)@.remove(kb@),
            match r {
                Some(v) => old(self)@.dom().contains(kb@) && v == old(self)@[kb@],
                None => !old(self)@.dom().contains(kb@),
            },
    {
        let ghost old_slots = self.slots@;
        match self.find(kb) {
            Some(i) => {
                let slot = self.slots.remove(i);
                proof {
                    lemma_slots_map_at(old_slots, i as int);
                }
                proof {
                    assert forall|p: int, q: int|
                        0 <= p < q < self.slots@.len() implies self.slots@[p].1@
                        != self.slots@[q].1@ by {
                        let p0: int = if p < i {
                            p
                        } else {
                            p + 1
                        };
                        let q0: int = if q < i {
                            q
                        } else {
                            q + 1
                        };
                        assert(old_slots[p0].1@ != old_slots[q0].1@);
                    }
                    assert forall|p: int|
                        0 <= p < self.slots@.len() implies (#[trigger] self.slots@[p].0).db_wf()
                        && self.slots@[p].1@ == self.slots@[p].0.db_bytes() by {
                        let p0: int = if p < i {
                            p
                        } else {
                            p + 1
                        };
                        assert(old_slots[p0].0.db_wf() && old_slots[p0].1@
                            == old_slots[p0].0.db_bytes());
                    }
                    lemma_slots_remove(old_slots, self.slots@, i as int, kb@);
                }
                Some(slot.2)
            },
            None => {
                proof {
                    assert(slots_map(old_slots) =~= slots_map(old_slots).remove(kb@)) by {
                        if slots_map(old_slots).dom().contains(kb@) {
                            lemma_slots_map_contains(old_slots, kb@);
                        }
                    }
                    if slots_map(old_slots).dom().contains(kb@) {
                        lemma_slots_map_contains(old_slots, kb@);
                    }
                }
                None
            },
        }
    }

    /// The resident associations, in residence order.
    pub fn slots(&self) -> (r: &Vec<(K, Vec<u8>, V)>)
        requires
            self.wf(),
        ensures
            r@.len() == self@.dom().len(),
            forall|i: int|
                0 <= i < r@.len() ==> self@.dom().contains(#[trigger] r@[i].1@) && self@[r@[i].1@]
                    == r@[i].2 && r@[i].1@ == r@[i].0.db_bytes() && r@[i].0.db_wf(),
            forall|i: int, j: int| 0 <= i < j < r@.len() ==> r@[i].1@ != r@[j].1@,
            forall|kb: Seq<u8>|
                self@.dom().contains(kb) ==> exists|i: int| 0 <= i < r@.len() && (#[trigger] r@[
                    i
                ].1)@ == kb,
    {
        proof {
            lemma_slots_map_len(self.slots@);
            assert forall|i: int| 0 <= i < self.slots@.len() implies self@.dom().contains(
                #[trigger] self.slots@[i].1@,
            ) && self@[self.slots@[i].1@] == self.slots@[i].2 by {
                lemma_slots_map_at(self.slots@, i);
            }
            assert forall|kb: Seq<u8>| self@.dom().contains(kb) implies exists|i: int|
                0 <= i < self.slots@.len() && (#[trigger] self.slots@[i].1)@ == kb by {
                lemma_slots_map_contains(self.slots@, kb);
            }
        }
        &self.slots
    }
}

/// The key of a least-recently-touched entry of an aged map.
#[verifier::opaque]
pub open spec fn lru_victim<V>(m: Map<Seq<u8>, Aged<V>>) -> Seq<u8> {
    choose|kb: Seq<u8>|
        m.dom().contains(kb) && forall|kb2: Seq<u8>|
            #[trigger] m.dom().contains(kb2) ==> m[kb].age <= m[kb2].age
}

/// If the map has a least-recently-touched entry at all, `lru_victim` names
/// one: a resident entry no younger than any other.
pub proof fn lemma_lru_victim_min<V>(m: Map<Seq<u8>, Aged<V>>, witness: Seq<u8>)
    requires
        m.dom().contains(witness),
        forall|kb2: Seq<u8>| #[trigger] m.dom().contains(kb2) ==> m[witness].age <= m[kb2].age,
    ensures
        m.dom().contains(lru_victim(m)),
        forall|kb2: Seq<u8>|
            #[trigger] m.dom().contains(kb2) ==> m[lru_victim(m)].age <= m[kb2].age,
{
    reveal(lru_victim);
    assert(m.dom().contains(witness) && forall|kb2: Seq<u8>|
        #[trigger] m.dom().contains(kb2) ==> m[witness].age <= m[kb2].age);
}

/// An aged map after capacity pressure: at capacity, the least-recently
/// touched entry leaves; below it, nothing changes.
pub open spec fn evict_if_full<V>(m: Map<Seq<u8>, Aged<V>>, cap: nat) -> Map<Seq<u8>, Aged<V>> {
    if m.dom().len() >= cap {
        m.remove(lru_victim(m))
    } else {
        m
    }
}

/// With pairwise distinct ages, any minimal-age key is the victim the
/// specification names.
pub proof fn lemma_victim_unique<V>(m: Map<Seq<u8>, Aged<V>>, kb: Seq<u8>)
    requires
        m.dom().contains(kb),
        forall|kb2: Seq<u8>| #[trigger] m.dom().contains(kb2) ==> m[kb].age <= m[kb2].age,
        forall|kb1: Seq<u8>, kb2: Seq<u8>|
            #![trigger m[kb1].age, m[kb2].age]
            m.dom().contains(kb1) && m.dom().contains(kb2) && kb1 != kb2 ==> m[kb1].age
                != m[kb2].age,
    ensures
        lru_victim(m) == kb,
{
    lemma_lru_victim_min(m, kb);
    let w = lru_victim(m);
    if w != kb {
        assert(m[w].age <= m[kb].age);
        assert(m[kb].age <= m[w].age);
    }
}

impl<K: AdaptToDb, V> KvMap<K, Aged<V>> {
    /// The key of an entry with the smallest age, if the map is not empty.
    pub fn min_age_key(&self) -> (r: Option<Vec<u8>>)
        requires
            self.wf(),
        ensures
            match r {
                Some(kb) => self@.dom().contains(kb@) && (forall|kb2: Seq<u8>|
                    #[trigger] self@.dom().contains(kb2) ==> self@[kb@].age <= self@[kb2].age),
                None => self@.dom() =~= Set::<Seq<u8>>::empty(),
            },
    {
        let mut best: Option<usize> = None;
        let mut i: usize = 0;
        let n = self.slots.len();
        while i < n
            invariant
                i <= n,
                n == self.slots@.len(),
                self.wf(),
                match best {
                    Some(b) => b < i && (forall|j: int|
                        0 <= j < i ==> self.slots@[b as int].2.age <= #[trigger] self.slots@[
                            j
                        ].2.age),
                    None => i == 0,
                },
            decreases n - i,
        {
            let better = match best {
                Some(b) => self.slots[i].2.age < self.slots[b].2.age,
                None => true,
            };
            if better {
                best = Some(i);
            }
            i = i + 1;
        }
        match best {
            Some(b) => {
                proof {
                    lemma_slots_map_at(self.slots@, b as int);
                    assert forall|kb2: Seq<u8>| #[trigger] self@.dom().contains(kb2)
                        implies self@[self.slots@[b as int].1@].age <= self@[kb2].age by {
                        lemma_slots_map_contains(self.slots@, kb2);
                        let j = choose|j: int| 0 <= j < self.slots@.len() && self.slots@[j].1@
                            == kb2;
                        lemma_slots_map_at(self.slots@, j);
                    }
                }
                Some(vstd::slice::slice_to_vec(self.slots[b].1.as_slice()))
            },
            None => {
                proof {
                    assert forall|kb2: Seq<u8>| !self@.dom().contains(kb2) by {
                        if self@.dom().contains(kb2) {
                            lemma_slots_map_contains(self.slots@, kb2);
                        }
                    }
                }
                None
            },
        }
    }
}

/// Replacing the value of the slot at `i` updates the map at its key.
proof fn lemma_slots_update<K, V>(s0: Seq<Slot<K, V>>, s1: Seq<Slot<K, V>>, i: int, kb: Seq<u8>)
    requires
        forall|p: int, q: int| 0 <= p < q < s0.len() ==> s0[p].1@ != s0[q].1@,
        forall|p: int, q: int| 0 <= p < q < s1.len() ==> s1[p].1@ != s1[q].1@,
        0 <= i < s0.len(),
        s1.len() == s0.len(),
        s0[i].1@ == kb,
        s1[i].1@ == kb,
        forall|j: int| 0 <= j < s0.len() && j != i ==> s1[j] == s0[j],
    ensures
        slots_map(s1) =~= slots_map(s0).insert(kb, s1[i].2),
{
    assert forall|k2: Seq<u8>| slots_map(s1).dom().contains(k2) <==> slots_map(s0).insert(
        kb,
        s1[i].2,
    ).dom().contains(k2) by {
        if slots_map(s1).dom().contains(k2) {
            let j = choose|j: int| 0 <= j < s1.len() && s1[j].1@ == k2;
            if j != i {
                lemma_slots_map_at(s0, j);
            }
        }
        if slots_map(s0).insert(kb, s1[i].2).dom().contains(k2) {
            if k2 == kb {
                lemma_slots_map_at(s1, i);
            } else {
                let j = choose|j: int| 0 <= j < s0.len() && s0[j].1@ == k2;
                lemma_slots_map_at(s1, j);
            }
        }
    }
    assert forall|k2: Seq<u8>| slots_map(s1).dom().contains(k2) implies slots_map(s1)[k2]
        == slots_map(s0).insert(kb, s1[i].2)[k2] by {
        let j = choose|j: int| 0 <= j < s1.len() && s1[j].1@ == k2;
        lemma_slots_map_at(s1, j);
        if k2 == kb {
            if j != i {
                assert(s1[j].1@ != s1[i].1@);
            }
        } else {
            lemma_slots_map_at(s0, j);
        }
    }
}

/// Appending a slot with a fresh key inserts it into the map.
proof fn lemma_slots_append<K, V>(s0: Seq<Slot<K, V>>, s1: Seq<Slot<K, V>>, kb: Seq<u8>)
    requires
        forall|p: int, q: int| 0 <= p < q < s0.len() ==> s0[p].1@ != s0[q].1@,
        forall|p: int, q: int| 0 <= p < q < s1.len() ==> s1[p].1@ != s1[q].1@,
        s1.len() == s0.len() + 1,
        s1[s0.len() as int].1@ == kb,
        forall|j: int| 0 <= j < s0.len() ==> s1[j] == s0[j],
        forall|j: int| 0 <= j < s0.len() ==> s0[j].1@ != kb,
    ensures
        slots_map(s1) =~= slots_map(s0).insert(kb, s1[s0.len() as int].2),
{
    let v = s1[s0.len() as int].2;
    assert forall|k2: Seq<u8>| slots_map(s1).dom().contains(k2) <==> slots_map(s0).insert(
        kb,
        v,
    ).dom().contains(k2) by {
        if slots_map(s1).dom().contains(k2) {
            let j = choose|j: int| 0 <= j < s1.len() && s1[j].1@ == k2;
            if j < s0.len() {
                lemma_slots_map_at(s0, j);
            }
        }
        if slots_map(s0).insert(kb, v).dom().contains(k2) {
            if k2 == kb {
                lemma_slots_map_at(s1, s0.len() as int);
            } else {
                let j = choose|j: int| 0 <= j < s0.len() && s0[j].1@ == k2;
                lemma_slots_map_at(s1, j);
            }
        }
    }
    assert forall|k2: Seq<u8>| slots_map(s1).dom().contains(k2) implies slots_map(s1)[k2]
        == slots_map(s0).insert(kb, v)[k2] by {
        let j = choose|j: int| 0 <= j < s1.len() && s1[j].1@ == k2;
        lemma_slots_map_at(s1, j);
        if k2 == kb {
            if j != s0.len() {
                assert(s1[j].1@ != s1[s0.len() as int].1@);
            }
        } else {
            lemma_slots_map_at(s0, j);
        }
    }
}

/// Removing the slot at `i` removes its key from the map.
proof fn lemma_slots_remove<K, V>(s0: Seq<Slot<K, V>>, s1: Seq<Slot<K, V>>, i: int, kb: Seq<u8>)
    requires
        forall|p: int, q: int| 0 <= p < q < s0.len() ==> s0[p].1@ != s0[q].1@,
        forall|p: int, q: int| 0 <= p < q < s1.len() ==> s1[p].1@ != s1[q].1@,
        0 <= i < s0.len(),
        s0[i].1@ == kb,
        s1.len() == s0.len() - 1,
        forall|j: int| 0 <= j < i ==> s1[j] == s0[j],
        forall|j: int| i <= j < s1.len() ==> s1[j] == s0[j + 1],
    ensures
        slots_map(s1) =~= slots_map(s0).remove(kb),
{
    assert forall|k2: Seq<u8>| slots_map(s1).dom().contains(k2) <==> slots_map(s0).remove(
        kb,
    ).dom().contains(k2) by {
        if slots_map(s1).dom().contains(k2) {
            let j = choose|j: int| 0 <= j < s1.len() && s1[j].1@ == k2;
            let j0: int = if j < i {
                j
            } else {
                j + 1
            };
            lemma_slots_map_at(s0, j0);
            if k2 == kb {
                assert(s0[j0].1@ != s0[i].1@);
            }
        }
        if slots_map(s0).remove(kb).dom().contains(k2) {
            let j = choose|j: int| 0 <= j < s0.len() && s0[j].1@ == k2;
            if j != i {
                let j1: int = if j < i {
                    j
                } else {
                    j - 1
                };
                lemma_slots_map_at(s1, j1);
            }
        }
    }
    assert forall|k2: Seq<u8>| slots_map(s1).dom().contains(k2) implies slots_map(s1)[k2]
        == slots_map(s0).remove(kb)[k2] by {
        let j = choose|j: int| 0 <= j < s1.len() && s1[j].1@ == k2;
        lemma_slots_map_at(s1, j);
        let j0: int = if j < i {
            j
        } else {
            j + 1
        };
        lemma_slots_map_at(s0, j0);
    }
}

} // verus!
