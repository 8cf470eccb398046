//! The single-level LRU cache table.
//!
//! A bounded working set of the underlying table is kept in memory; when
//! the capacity is reached, the least recently touched entry is discarded.
//! Every write goes through to the table first.

use crate::adapt_to_db::AdaptToDb;
use crate::db::Db;
use crate::encrypt::{aes256_gcm_decrypt, aes256_gcm_encrypt, derived_nonce};
use crate::error::Error;
use crate::kv_map::{Aged, KvMap, evict_if_full, lemma_victim_unique};
use crate::store::Store;
use crate::update_from::UpdateFrom;
use vstd::prelude::*;

verus! {

/// A table that keeps in memory only a bounded number of entries, evicting
/// the least recently touched one when full.
pub struct LruTable<K, V, S> {
    age: u64,
    capacity: usize,
    db: Db<K, S>,
    map: KvMap<K, Aged<V>>,
}

impl<K: AdaptToDb, V: AdaptToDb, S: Store> View for LruTable<K, V, S> {
    type V = Map<Seq<u8>, Aged<V>>;

    closed spec fn view(&self) -> Map<Seq<u8>, Aged<V>> {
        self.map@
    }
}

impl<K: AdaptToDb, V: AdaptToDb, S: Store> LruTable<K, V, S> {
    /// The cache's bookkeeping is intact: at most `capacity` resident
    /// entries, with pairwise distinct ages no newer than the clock.
    pub closed spec fn wf(&self) -> bool {
        &&& self.map.wf()
        &&& self.capacity >= 1
        &&& self.map@.dom().finite()
        &&& self.map@.dom().len() <= self.capacity
        &&& forall|kb: Seq<u8>|
            #[trigger] self.map@.dom().contains(kb) ==> self.map@[kb].age <= self.age
        &&& forall|kb1: Seq<u8>, kb2: Seq<u8>|
            #![trigger self.map@[kb1].age, self.map@[kb2].age]
            self.map@.dom().contains(kb1) && self.map@.dom().contains(kb2) && kb1 != kb2
                ==> self.map@[kb1].age != self.map@[kb2].age
    }

    /// The logical clock: bumped on every touch.
    pub closed spec fn age_spec(&self) -> u64 {
        self.age
    }

    /// The configured capacity.
    pub closed spec fn capacity_spec(&self) -> nat {
        self.capacity as nat
    }

    /// What the underlying store durably holds.
    pub closed spec fn store_map(&self) -> Map<Seq<u8>, Seq<u8>> {
        self.db.raw()
    }

    /// The encryption key in use, if any.
    pub closed spec fn cipher_key(&self) -> Option<Seq<u8>> {
        self.db.cipher_key()
    }

    /// The bytes stored for value bytes `vb` under encoded key `kb`.
    pub open spec fn seals(&self, kb: Seq<u8>, vb: Seq<u8>) -> Seq<u8> {
        match self.cipher_key() {
            Some(key) => aes256_gcm_encrypt(key, derived_nonce(kb), vb),
            None => vb,
        }
    }

    /// The value bytes recovered from stored bytes `sb` under encoded key
    /// `kb`, if they open at all.
    pub open spec fn opens(&self, kb: Seq<u8>, sb: Seq<u8>) -> Option<Seq<u8>> {
        match self.cipher_key() {
            Some(key) => aes256_gcm_decrypt(key, derived_nonce(kb), sb),
            None => Some(sb),
        }
    }

    /// The resident entry count never exceeds the configured capacity.
    pub proof fn lemma_capacity_invariant(&self)
        requires
            self.wf(),
        ensures
            self@.dom().finite(),
            self@.dom().len() <= self.capacity_spec(),
            self.capacity_spec() >= 1,
    {
    }

    /// A value written is the value read back, and the entry being written
    /// is never the one evicted by its own insertion: even when the write
    /// evicts the least recently touched entry, the key just written holds
    /// the written value afterwards.
    pub proof fn lemma_put_then_get(m: Map<Seq<u8>, Aged<V>>, cap: nat, kb: Seq<u8>, e: Aged<V>)
        ensures
            evict_if_full(m, cap).insert(kb, e).dom().contains(kb),
            evict_if_full(m, cap).insert(kb, e)[kb] == e,
            m.insert(kb, e).dom().contains(kb),
            m.insert(kb, e)[kb] == e,
    {
    }

    /// Creates the cache over a table, with a fixed capacity.
    pub fn with_capacity(db: Db<K, S>, capacity: usize) -> (r: LruTable<K, V, S>)
        requires
            capacity > 0,
        ensures
            r.wf(),
            r@ =~= Map::<Seq<u8>, Aged<V>>::empty(),
            r.store_map() == db.raw(),
            r.cipher_key() == db.cipher_key(),
            r.capacity_spec() == capacity,
            r.age_spec() == 0,
    {
        LruTable { age: 0, capacity, db, map: KvMap::new() }
    }

    /// The number of resident entries.
    pub fn len(&self) -> (r: usize)
        requires
            self.wf(),
        ensures
            r == self@.dom().len(),
    {
        self.map.len()
    }

    /// The configured capacity.
    pub fn capacity(&self) -> (r: usize)
        ensures
            r == self.capacity_spec(),
    {
        self.capacity
    }

    /// The current value of the logical clock.
    pub fn age(&self) -> (r: u64)
        ensures
            r == self.age_spec(),
    {
        self.age
    }

    /// Whether the table (resident or durable) holds a value for the key.
    pub fn contains_key(&self, key: &K) -> (r: Result<bool, Error>)
        requires
            self.wf(),
        ensures
            match r {
                Ok(b) => b == (self@.dom().contains(key.db_bytes()) || self.store_map().dom()
                    .contains(key.db_bytes())),
                Err(e) => e is StoreError && !self@.dom().contains(key.db_bytes()),
            },
    {
        let kb = key.to_db();
        if self.map.contains(kb.as_slice()) {
            Ok(true)
        } else {
            self.db.contains_key(key)
        }
    }

    /// Removes a key from the table and from the cache.
    pub fn delete(&mut self, key: &K) -> (r: Result<(), Error>)
        requires
            old(self).wf(),
        ensures
            final(self).wf(),
            final(self).cipher_key() == old(self).cipher_key(),
            final(self).capacity_spec() == old(self).capacity_spec(),
            final(self).age_spec() == old(self).age_spec(),
            match r {
                Ok(()) => {
                    &&& final(self)@ == old(self)@.remove(key.db_bytes())
                    &&& final(self).store_map() == old(self).store_map().remove(key.db_bytes())
                },
                Err(e) => {
                    &&& e is StoreError
                    &&& final(self)@ == old(self)@
                    &&& (final(self).store_map() == old(self).store_map() || final(self).store_map() == old(self).store_map().remove(key.db_bytes()))
                },
            },
    {
        let kb = key.to_db();
        match self.db.delete(key) {
            Ok(()) => {
                self.map.remove(kb.as_slice());
                proof {
                    lemma_remove_len(old(self)@, key.db_bytes());
                }
                Ok(())
            },
            Err(e) => Err(e),
        }
    }

    /// Makes room for one more entry: at capacity, discards the least
    /// recently touched one.
    fn ensure_capacity(&mut self)
        requires
            old(self).wf(),
        ensures
            final(self).wf(),
            final(self).cipher_key() == old(self).cipher_key(),
            final(self).capacity_spec() == old(self).capacity_spec(),
            final(self).age_spec() == old(self).age_spec(),
            final(self).store_map() == old(self).store_map(),
            final(self)@ == evict_if_full(old(self)@, old(self).capacity_spec()),
            final(self)@.dom().len() < old(self).capacity_spec(),
    {
        let len = self.map.len();
        if len == self.capacity {
            match self.map.min_age_key() {
                Some(kb) => {
                    proof {
                        lemma_victim_unique(self.map@, kb@);
                        lemma_remove_len(self.map@, kb@);
                    }
                    self.map.remove(kb.as_slice());
                },
                None => {
                    proof {
                        vstd::set_lib::lemma_set_empty_equivalency_len(self.map@.dom());
                    }
                    vstd::pervasive::unreached::<()>();
                },
            }
        }
    }

    /// The value for the key: from the cache when resident, loaded from the
    /// table otherwise (making room first). Every hit or load refreshes the
    /// entry's age; a miss on the table changes no entry.
    #[verifier::rlimit(60)]
    pub fn get(&mut self, key: &K) -> (r: Result<Option<&V>, Error>)
        requires
            old(self).wf(),
            old(self).age_spec() < u64::MAX,
        ensures
            final(self).wf(),
            final(self).cipher_key() == old(self).cipher_key(),
            final(self).capacity_spec() == old(self).capacity_spec(),
            final(self).store_map() == old(self).store_map(),
            ({
                let kb = key.db_bytes();
                let cap = old(self).capacity_spec();
                match r {
                    Ok(Some(v)) => {
                        &&& final(self).age_spec() == old(self).age_spec() + 1
                        &&& if old(self)@.dom().contains(kb) {
                            &&& *v == old(self)@[kb].value
                            &&& final(self)@ == old(self)@.insert(
                                kb,
                                (Aged {
                                    age: (old(self).age_spec() + 1) as u64,
                                    value: old(self)@[kb].value,
                                }),
                            )
                        } else {
                            &&& old(self).store_map().dom().contains(kb)
                            &&& old(self).opens(kb, old(self).store_map()[kb]) == Some(
                                v.db_bytes(),
                            )
                            &&& v.db_wf()
                            &&& final(self)@ == evict_if_full(old(self)@, cap).insert(
                                kb,
                                (Aged { age: (old(self).age_spec() + 1) as u64, value: *v }),
                            )
                        }
                    },
                    Ok(None) => {
                        &&& !old(self)@.dom().contains(kb)
                        &&& !old(self).store_map().dom().contains(kb)
                        &&& final(self)@ == evict_if_full(old(self)@, cap)
                        &&& final(self).age_spec() == old(self).age_spec()
                    },
                    Err(e) => {
                        &&& (e is StoreError || e is Crypto || e is Serialize)
                        &&& !old(self)@.dom().contains(kb)
                        &&& final(self)@ == evict_if_full(old(self)@, cap)
                        &&& final(self).age_spec() == old(self).age_spec()
                    },
                }
            }),
    {
        let kb = key.to_db();
        let new_age = self.age + 1;
        if self.map.contains(kb.as_slice()) {
            self.age = new_age;
            match self.map.get_mut(kb.as_slice()) {
                Some(a) => {
                    a.age = new_age;
                },
                None => {
                    return vstd::pervasive::unreached();
                },
            }
            match self.map.get(kb.as_slice()) {
                Some(a) => Ok(Some(&a.value)),
                None => vstd::pervasive::unreached(),
            }
        } else {
            self.ensure_capacity();
            match self.db.get(key) {
                Ok(Some(dv)) => {
                    let v: V = match dv.to_inner() {
                        Ok(v) => v,
                        Err(e) => {
                            return Err(e);
                        },
                    };
                    let k = match K::from_db(kb.as_slice()) {
                        Ok(k) => k,
                        Err(_) => {
                            return vstd::pervasive::unreached();
                        },
                    };
                    self.age = new_age;
                    let ghost m_pre = self.map@;
                    self.map.insert(k, kb, Aged { age: new_age, value: v });
                    proof {
                        lemma_insert_len(m_pre, key.db_bytes(), self.map@[key.db_bytes()]);
                        assert(m_pre.insert(key.db_bytes(), self.map@[key.db_bytes()])
                            == self.map@);
                    }
                    let kb2 = key.to_db();
                    match self.map.get(kb2.as_slice()) {
                        Some(a) => Ok(Some(&a.value)),
                        None => vstd::pervasive::unreached(),
                    }
                },
                Ok(None) => Ok(None),
                Err(e) => Err(e),
            }
        }
    }

    /// Writes the value through to the table, then caches it (making room
    /// first if the key was not resident).
    #[verifier::rlimit(60)]
    pub fn put(&mut self, key: &K, value: V) -> (r: Result<(), Error>)
        requires
            old(self).wf(),
            old(self).age_spec() < u64::MAX,
        ensures
            final(self).wf(),
            final(self).cipher_key() == old(self).cipher_key(),
            final(self).capacity_spec() == old(self).capacity_spec(),
            ({
                let kb = key.db_bytes();
                let cap = old(self).capacity_spec();
                match r {
                    Ok(()) => {
                        &&& final(self).age_spec() == old(self).age_spec() + 1
                        &&& final(self).store_map() == old(self).store_map().insert(
                            kb,
                            old(self).seals(kb, value.db_bytes()),
                        )
                        &&& old(self).opens(kb, old(self).seals(kb, value.db_bytes())) == Some(
                            value.db_bytes(),
                        )
                        &&& final(self)@ == (if old(self)@.dom().contains(kb) {
                            old(self)@
                        } else {
                            evict_if_full(old(self)@, cap)
                        }).insert(
                            kb,
                            (Aged { age: (old(self).age_spec() + 1) as u64, value: value }),
                        )
                    },
                    Err(e) => {
                        &&& (e is StoreError || e is Crypto)
                        &&& final(self)@ == old(self)@
                        &&& final(self).age_spec() == old(self).age_spec()
                        &&& (final(self).store_map() == old(self).store_map() || final(self).store_map() == old(self).store_map().insert(
                            kb,
                            old(self).seals(kb, value.db_bytes()),
                        ))
                    },
                }
            }),
    {
        let kb = key.to_db();
        match self.db.put(key, &value) {
            Ok(()) => {},
            Err(e) => {
                return Err(e);
            },
        }
        let ghost old_map = self.map@;
        if self.map.contains(kb.as_slice()) {
            self.map.remove(kb.as_slice());
            proof {
                lemma_remove_len(old_map, key.db_bytes());
            }
        } else {
            self.ensure_capacity();
        }
        self.touch_insert(key, kb, value);
        proof {
            let kbs = key.db_bytes();
            let entry = self@[kbs];
            assert(old_map.remove(kbs).insert(kbs, entry) =~= old_map.insert(kbs, entry));
        }
        Ok(())
    }

    /// Bumps the clock and caches `nv` under `key` with the fresh age.
    fn touch_insert(&mut self, key: &K, kb: Vec<u8>, nv: V)
        requires
            old(self).wf(),
            old(self).age_spec() < u64::MAX,
            kb@ == key.db_bytes(),
            key.db_wf(),
            old(self)@.dom().len() < old(self).capacity_spec(),
        ensures
            final(self).wf(),
            final(self).cipher_key() == old(self).cipher_key(),
            final(self).capacity_spec() == old(self).capacity_spec(),
            final(self).store_map() == old(self).store_map(),
            final(self).age_spec() == old(self).age_spec() + 1,
            final(self)@ == old(self)@.insert(
                key.db_bytes(),
                (Aged { age: (old(self).age_spec() + 1) as u64, value: nv }),
            ),
    {
        let ghost old_map = self.map@;
        let new_age = self.age + 1;
        self.age = new_age;
        let k = match K::from_db(kb.as_slice()) {
            Ok(k) => k,
            Err(_) => {
                return vstd::pervasive::unreached();
            },
        };
        self.map.insert(k, kb, Aged { age: new_age, value: nv });
        proof {
            let kbs = key.db_bytes();
            lemma_insert_len(old_map, kbs, self.map@[kbs]);
            // The new entry is the youngest; the rest keep their distinct,
            // older ages.
            assert forall|kb2: Seq<u8>| #[trigger] self.map@.dom().contains(kb2)
                implies self.map@[kb2].age <= self.age by {
                if kb2 != kbs {
                    assert(old_map.dom().contains(kb2) && self.map@[kb2] == old_map[kb2]);
                }
            }
            assert forall|kb1: Seq<u8>, kb2: Seq<u8>|
                #![trigger self.map@[kb1].age, self.map@[kb2].age]
                self.map@.dom().contains(kb1) && self.map@.dom().contains(kb2) && kb1
                    != kb2 implies self.map@[kb1].age != self.map@[kb2].age by {
                if kb1 != kbs && kb2 != kbs {
                    assert(old_map.dom().contains(kb1) && self.map@[kb1] == old_map[kb1]);
                    assert(old_map.dom().contains(kb2) && self.map@[kb2] == old_map[kb2]);
                    assert(old_map[kb1].age != old_map[kb2].age);
                } else if kb1 == kbs {
                    assert(old_map.dom().contains(kb2) && self.map@[kb2] == old_map[kb2]);
                } else {
                    assert(old_map.dom().contains(kb1) && self.map@[kb1] == old_map[kb1]);
                }
            }
        }
    }

    /// Reads and decodes the durable value for `key`, if any.
    fn read_value(db: &Db<K, S>, key: &K) -> (r: Result<Option<V>, Error>)
        ensures
            match r {
                Ok(Some(v)) => {
                    &&& db.raw().dom().contains(key.db_bytes())
                    &&& db.opens(key.db_bytes(), db.raw()[key.db_bytes()]) == Some(v.db_bytes())
                    &&& v.db_wf()
                },
                Ok(None) => !db.raw().dom().contains(key.db_bytes()),
                Err(e) => e is StoreError || e is Crypto || e is Serialize,
            },
    {
        match db.get(key) {
            Ok(Some(dv)) => match dv.to_inner::<V>() {
                Ok(w) => Ok(Some(w)),
                Err(e) => Err(e),
            },
            Ok(None) => Ok(None),
            Err(e) => Err(e),
        }
    }

    /// Computes a new value from the previous one (resident, or read from
    /// the table), writes it through, and caches it.
    #[verifier::rlimit(100)]
    pub fn update<U: UpdateFrom<V>>(&mut self, key: &K, update: U) -> (r: Result<(), Error>)
        requires
            old(self).wf(),
            old(self).age_spec() < u64::MAX,
        ensures
            final(self).wf(),
            final(self).cipher_key() == old(self).cipher_key(),
            final(self).capacity_spec() == old(self).capacity_spec(),
            ({
                let kb = key.db_bytes();
                let cap = old(self).capacity_spec();
                match r {
                    Ok(()) => exists|prior: Option<V>|
                        #![trigger update.update_spec(prior)]
                        {
                            &&& (match prior {
                                Some(p) => if old(self)@.dom().contains(kb) {
                                    p == old(self)@[kb].value
                                } else {
                                    &&& old(self).store_map().dom().contains(kb)
                                    &&& old(self).opens(kb, old(self).store_map()[kb]) == Some(
                                        p.db_bytes(),
                                    )
                                    &&& p.db_wf()
                                },
                                None => !old(self)@.dom().contains(kb) && !old(self).store_map().dom().contains(kb),
                            })
                            &&& ({
                                let nv = update.update_spec(prior);
                                &&& final(self).age_spec() == old(self).age_spec() + 1
                                &&& final(self).store_map() == old(self).store_map().insert(
                                    kb,
                                    old(self).seals(kb, nv.db_bytes()),
                                )
                                &&& old(self).opens(kb, old(self).seals(kb, nv.db_bytes()))
                                    == Some(nv.db_bytes())
                                &&& final(self)@ == (if old(self)@.dom().contains(kb) {
                                    old(self)@
                                } else {
                                    evict_if_full(old(self)@, cap)
                                }).insert(
                                    kb,
                                    (Aged {
                                        age: (old(self).age_spec() + 1) as u64,
                                        value: nv,
                                    }),
                                )
                            })
                        },
                    Err(e) => {
                        &&& (e is StoreError || e is Crypto || e is Serialize)
                        &&& final(self)@ == old(self)@.remove(kb)
                        &&& final(self).age_spec() == old(self).age_spec()
                        &&& (final(self).store_map() == old(self).store_map() || exists|sb: Seq<u8>|
                            #![trigger old(self).store_map().insert(kb, sb)]
                            final(self).store_map() == old(self).store_map().insert(kb, sb))
                    },
                }
            }),
    {
        let kb = key.to_db();
        let ghost old_map = self.map@;
        let was_resident: bool;
        let prior: Option<V>;
        match self.map.remove(kb.as_slice()) {
            Some(a) => {
                was_resident = true;
                prior = Some(a.value);
            },
            None => {
                was_resident = false;
                match Self::read_value(&self.db, key) {
                    Ok(p) => {
                        prior = p;
                    },
                    Err(e) => {
                        return Err(e);
                    },
                }
            },
        }
        let ghost prior_spec = prior;
        let nv = update.update_from(prior);
        match self.db.put(key, &nv) {
            Ok(()) => {},
            Err(e) => {
                return Err(e);
            },
        }
        if !was_resident {
            self.ensure_capacity();
        } else {
            proof {
                lemma_remove_len(old_map, key.db_bytes());
            }
        }
        self.touch_insert(key, kb, nv);
        proof {
            let kbs = key.db_bytes();
            let entry = (Aged {
                age: (old(self).age_spec() + 1) as u64,
                value: update.update_spec(prior_spec),
            });
            assert(old_map.remove(kbs).insert(kbs, entry) =~= old_map.insert(kbs, entry));
            if !was_resident {
                assert(old_map.remove(kbs) =~= old_map);
            }
        }
        Ok(())
    }

    /// `update`, then a mutable borrow of the entry just written. Changes
    /// made through the borrow stay in the cache only; they are not written
    /// through.
    #[verifier::rlimit(60)]
    pub fn update_and_get<U: UpdateFrom<V>>(&mut self, key: &K, update: U) -> (r: Result<
        &mut V,
        Error,
    >)
        requires
            old(self).wf(),
            old(self).age_spec() < u64::MAX,
        ensures
            final(self).wf(),
            final(self).cipher_key() == old(self).cipher_key(),
            final(self).capacity_spec() == old(self).capacity_spec(),
            match r {
                Ok(v) => {
                    &&& final(self)@.dom().contains(key.db_bytes())
                    &&& final(self)@[key.db_bytes()] == (Aged {
                        age: (old(self).age_spec() + 1) as u64,
                        value: *final(v),
                    })
                    &&& final(self).age_spec() == old(self).age_spec() + 1
                },
                Err(e) => {
                    &&& (e is StoreError || e is Crypto || e is Serialize)
                    &&& final(self)@ == old(self)@.remove(key.db_bytes())
                    &&& final(self).age_spec() == old(self).age_spec()
                },
            },
    {
        match self.update(key, update) {
            Ok(()) => {},
            Err(e) => {
                return Err(e);
            },
        }
        let kb = key.to_db();
        match self.map.get_mut(kb.as_slice()) {
            Some(a) => Ok(&mut a.value),
            None => vstd::pervasive::unreached(),
        }
    }
}

/// A removed key shrinks a finite domain.
proof fn lemma_remove_len<V>(m: Map<Seq<u8>, Aged<V>>, kb: Seq<u8>)
    requires
        m.dom().finite(),
    ensures
        m.remove(kb).dom().finite(),
        m.dom().contains(kb) ==> m.remove(kb).dom().len() == m.dom().len() - 1,
        !m.dom().contains(kb) ==> m.remove(kb).dom() =~= m.dom(),
{
    assert(m.remove(kb).dom() =~= m.dom().remove(kb));
}

/// An inserted key grows a finite domain by at most one.
proof fn lemma_insert_len<V>(m: Map<Seq<u8>, Aged<V>>, kb: Seq<u8>, v: Aged<V>)
    requires
        m.dom().finite(),
    ensures
        m.insert(kb, v).dom().finite(),
        m.insert(kb, v).dom().len() <= m.dom().len() + 1,
        m.dom().contains(kb) ==> m.insert(kb, v).dom().len() == m.dom().len(),
        !m.dom().contains(kb) ==> m.insert(kb, v).dom().len() == m.dom().len() + 1,
{
    assert(m.insert(kb, v).dom() =~= m.dom().insert(kb));
}



} // verus!
