//! The full-mirror cache table: the whole underlying table, held in memory.
//!
//! Construction loads every entry with one forward scan. Reads are answered
//! from memory alone; writes go through to the table first and are then
//! mirrored. An `update` whose store write fails re-reads the key to bring
//! the mirror back in line with whatever is durably present, and still
//! reports the original error.

use crate::adapt_to_db::AdaptToDb;
use crate::db::{Db, IteratorMode};
use crate::encrypt::{aes256_gcm_decrypt, aes256_gcm_encrypt, derived_nonce};
use crate::error::Error;
use crate::kv_map::KvMap;
use crate::store::Store;
use crate::update_from::UpdateFrom;
use vstd::prelude::*;

verus! {

/// A fully in-memory mirrored table.
pub struct MemTable<K, V, S> {
    db: Db<K, S>,
    map: KvMap<K, V>,
}

impl<K: AdaptToDb, V: AdaptToDb, S: Store> View for MemTable<K, V, S> {
    type V = Map<Seq<u8>, V>;

    closed spec fn view(&self) -> Map<Seq<u8>, V> {
        self.map@
    }
}

impl<K: AdaptToDb, V: AdaptToDb, S: Store> MemTable<K, V, S> {
    /// The mirror's bookkeeping is intact.
    pub closed spec fn wf(&self) -> bool {
        self.map.wf()
    }

    /// What the underlying store durably holds.
    pub closed spec fn store_map(&self) -> Map<Seq<u8>, Seq<u8>> {
        self.db.raw()
    }

    /// The encryption key in use, if any.
    pub closed spec fn cipher_key(&self) -> Option<Seq<u8>> {
        self.db.cipher_key()
    }

    /// The bytes stored for value bytes `vb` under encoded key `kb`.
    pub open spec fn seals(&self, kb: Seq<u8>, vb: Seq<u8>) -> Seq<u8> {
        match self.cipher_key() {
            Some(key) => aes256_gcm_encrypt(key, derived_nonce(kb), vb),
            None => vb,
        }
    }

    /// The value bytes recovered from stored bytes `sb` under encoded key
    /// `kb`, if they open at all.
    pub open spec fn opens(&self, kb: Seq<u8>, sb: Seq<u8>) -> Option<Seq<u8>> {
        match self.cipher_key() {
            Some(key) => aes256_gcm_decrypt(key, derived_nonce(kb), sb),
            None => Some(sb),
        }
    }

    /// A value written is the value read back: a successful `put` leaves
    /// the written value in the mirror under its key, and `get` answers
    /// from the mirror, so a read of the same key returns that value.
    pub proof fn lemma_put_then_get(m: Map<Seq<u8>, V>, kb: Seq<u8>, value: V)
        ensures
            m.insert(kb, value).dom().contains(kb),
            m.insert(kb, value)[kb] == value,
    {
    }

    /// Loads the whole table into memory.
    pub fn new(db: Db<K, S>) -> (r: Result<MemTable<K, V, S>, Error>)
        ensures
            match r {
                Ok(t) => {
                    &&& t.wf()
                    &&& t.store_map() == db.raw()
                    &&& t.cipher_key() == db.cipher_key()
                    &&& t@.dom() =~= db.raw().dom()
                    &&& forall|kb: Seq<u8>|
                        #[trigger] t@.dom().contains(kb) ==> db.opens(kb, db.raw()[kb]) == Some(
                            t@[kb].db_bytes(),
                        ) && t@[kb].db_wf()
                },
                Err(e) => e is StoreError || e is Crypto || e is Serialize,
            },
    {
        let mut map = KvMap::<K, V>::new();
        let mut it = match db.iter(IteratorMode::Start) {
            Ok(i) => i,
            Err(e) => {
                return Err(e);
            },
        };
        loop
            invariant
                it.src() == db.raw(),
                it.key_of() == db.cipher_key(),
                it.dir_spec() is Forward,
                map.wf(),
                forall|kb: Seq<u8>|
                    #[trigger] map@.dom().contains(kb) ==> db.raw().dom().contains(kb)
                        && !it.pending(kb),
                forall|kb: Seq<u8>|
                    db.raw().dom().contains(kb) && !(#[trigger] it.pending(kb)) ==> map@.dom()
                        .contains(kb),
                forall|kb: Seq<u8>|
                    #[trigger] map@.dom().contains(kb) ==> db.opens(kb, db.raw()[kb]) == Some(
                        map@[kb].db_bytes(),
                    ) && map@[kb].db_wf(),
            ensures
                map.wf(),
                forall|kb: Seq<u8>|
                    #[trigger] map@.dom().contains(kb) ==> db.raw().dom().contains(kb),
                forall|kb: Seq<u8>|
                    db.raw().dom().contains(kb) ==> #[trigger] map@.dom().contains(kb),
                forall|kb: Seq<u8>|
                    #[trigger] map@.dom().contains(kb) ==> db.opens(kb, db.raw()[kb]) == Some(
                        map@[kb].db_bytes(),
                    ) && map@[kb].db_wf(),
            decreases it.remaining().len(),
        {
            let ghost pre_it = it;
            match it.next() {
                Ok(Some(kv)) => {
                    let k = match kv.key() {
                        Ok(k) => k,
                        Err(e) => {
                            return Err(e);
                        },
                    };
                    let v = match kv.value::<V>() {
                        Ok(v) => v,
                        Err(e) => {
                            return Err(e);
                        },
                    };
                    let kb = vstd::slice::slice_to_vec(kv.key_as_bytes().as_slice());
                    map.insert(k, kb, v);
                    proof {
                        crate::db::Iter::lemma_step_decreases(pre_it, it, kv.key_spec());
                        // Nothing between the old position and the yielded key
                        // was skipped: a key no longer pending is either
                        // collected or the one just yielded.
                        assert forall|kb2: Seq<u8>|
                            db.raw().dom().contains(kb2) && !(#[trigger] it.pending(kb2))
                            implies map@.dom().contains(kb2) by {
                            if kb2 != kv.key_spec() && pre_it.pending(kb2) {
                                // minimality: the yielded key comes no later
                                assert(crate::lex::lex_le(kv.key_spec(), kb2));
                            }
                        }
                    }
                },
                Ok(None) => {
                    proof {
                        assert forall|kb2: Seq<u8>|
                            db.raw().dom().contains(kb2) implies map@.dom().contains(kb2) by {
                            assert(!pre_it.pending(kb2));
                        }
                    }
                    break ;
                },
                Err(e) => {
                    return Err(e);
                },
            }
        }
        Ok(MemTable { db, map })
    }

    /// Whether the table holds a value for the key.
    pub fn contains_key(&self, key: &K) -> (r: bool)
        requires
            self.wf(),
        ensures
            r == self@.dom().contains(key.db_bytes()),
    {
        let kb = key.to_db();
        self.map.contains(kb.as_slice())
    }

    /// The resident value for the key, if any. Reads memory alone.
    pub fn get(&self, key: &K) -> (r: Option<&V>)
        requires
            self.wf(),
        ensures
            match r {
                Some(v) => self@.dom().contains(key.db_bytes()) && *v == self@[key.db_bytes()],
                None => !self@.dom().contains(key.db_bytes()),
            },
    {
        let kb = key.to_db();
        self.map.get(kb.as_slice())
    }

    /// Removes the key from the table, returning the mirrored value if the
    /// key was resident.
    pub fn delete(&mut self, key: &K) -> (r: Result<Option<V>, Error>)
        requires
            old(self).wf(),
        ensures
            final(self).cipher_key() == old(self).cipher_key(),
            old(self).wf() ==> final(self).wf(),
            match r {
                Ok(Some(v)) => {
                    &&& old(self)@.dom().contains(key.db_bytes())
                    &&& v == old(self)@[key.db_bytes()]
                    &&& final(self)@ == old(self)@.remove(key.db_bytes())
                    &&& final(self).store_map() == old(self).store_map().remove(key.db_bytes())
                },
                Ok(None) => {
                    &&& !old(self)@.dom().contains(key.db_bytes())
                    &&& final(self)@ == old(self)@
                    &&& final(self).store_map() == old(self).store_map()
                },
                Err(e) => {
                    &&& e is StoreError
                    &&& old(self)@.dom().contains(key.db_bytes())
                    &&& final(self)@ == old(self)@
                    &&& (final(self).store_map() == old(self).store_map() || final(self).store_map() == old(self).store_map().remove(key.db_bytes()))
                },
            },
    {
        let kb = key.to_db();
        if self.map.contains(kb.as_slice()) {
            match self.db.delete(key) {
                Ok(()) => Ok(self.map.remove(kb.as_slice())),
                Err(e) => Err(e),
            }
        } else {
            Ok(None)
        }
    }

    /// The resident value for the key; when absent, computes one, persists
    /// it, mirrors it, and returns it.
    pub fn get_or_init<F: FnOnce() -> V>(&mut self, key: &K, f: F) -> (r: Result<&V, Error>)
        requires
            old(self).wf(),
            call_requires(f, ()),
        ensures
            final(self).wf(),
            final(self).cipher_key() == old(self).cipher_key(),
            match r {
                Ok(v) => if old(self)@.dom().contains(key.db_bytes()) {
                    &&& *v == old(self)@[key.db_bytes()]
                    &&& final(self)@ == old(self)@
                    &&& final(self).store_map() == old(self).store_map()
                } else {
                    &&& call_ensures(f, (), *v)
                    &&& final(self)@ == old(self)@.insert(key.db_bytes(), *v)
                    &&& final(self).store_map() == old(self).store_map().insert(
                        key.db_bytes(),
                        old(self).seals(key.db_bytes(), v.db_bytes()),
                    )
                    &&& final(self).opens(
                        key.db_bytes(),
                        old(self).seals(key.db_bytes(), v.db_bytes()),
                    ) == Some(v.db_bytes())
                },
                Err(e) => {
                    &&& e is StoreError || e is Crypto
                    &&& !old(self)@.dom().contains(key.db_bytes())
                    &&& final(self)@ == old(self)@
                },
            },
    {
        let kb = key.to_db();
        if !self.map.contains(kb.as_slice()) {
            let v = f();
            match self.db.put(key, &v) {
                Ok(()) => {
                    let k = match K::from_db(kb.as_slice()) {
                        Ok(k) => k,
                        Err(_) => {
                            return vstd::pervasive::unreached();
                        },
                    };
                    self.map.insert(k, kb, v);
                },
                Err(e) => {
                    return Err(e);
                },
            }
        }
        let kb2 = key.to_db();
        match self.map.get(kb2.as_slice()) {
            Some(v) => Ok(v),
            None => vstd::pervasive::unreached(),
        }
    }

    /// The resident value for the key; when absent, persists and mirrors
    /// the default value before returning it.
    pub fn get_or_default(&mut self, key: &K) -> (r: Result<&V, Error>) where V: Default
        requires
            old(self).wf(),
        ensures
            final(self).wf(),
            final(self).cipher_key() == old(self).cipher_key(),
            match r {
                Ok(v) => if old(self)@.dom().contains(key.db_bytes()) {
                    &&& *v == old(self)@[key.db_bytes()]
                    &&& final(self)@ == old(self)@
                    &&& final(self).store_map() == old(self).store_map()
                } else {
                    &&& final(self)@ == old(self)@.insert(key.db_bytes(), *v)
                    &&& final(self).store_map() == old(self).store_map().insert(
                        key.db_bytes(),
                        old(self).seals(key.db_bytes(), v.db_bytes()),
                    )
                },
                Err(e) => {
                    &&& e is StoreError || e is Crypto
                    &&& !old(self)@.dom().contains(key.db_bytes())
                    &&& final(self)@ == old(self)@
                },
            },
    {
        let kb = key.to_db();
        if !self.map.contains(kb.as_slice()) {
            let v = V::default();
            match self.db.put(key, &v) {
                Ok(()) => {
                    let k = match K::from_db(kb.as_slice()) {
                        Ok(k) => k,
                        Err(_) => {
                            return vstd::pervasive::unreached();
                        },
                    };
                    self.map.insert(k, kb, v);
                },
                Err(e) => {
                    return Err(e);
                },
            }
        }
        let kb2 = key.to_db();
        match self.map.get(kb2.as_slice()) {
            Some(v) => Ok(v),
            None => vstd::pervasive::unreached(),
        }
    }

    /// The resident associations.
    pub fn iter(&self) -> (r: &Vec<(K, Vec<u8>, V)>)
        requires
            self.wf(),
        ensures
            r@.len() == self@.dom().len(),
            forall|i: int|
                0 <= i < r@.len() ==> self@.dom().contains(#[trigger] r@[i].1@) && self@[r@[i].1@]
                    == r@[i].2 && r@[i].1@ == r@[i].0.db_bytes(),
            forall|kb: Seq<u8>|
                self@.dom().contains(kb) ==> exists|i: int| 0 <= i < r@.len() && (#[trigger] r@[
                    i
                ].1)@ == kb,
    {
        self.map.slots()
    }

    /// Writes the value through to the table, then mirrors it.
    pub fn put(&mut self, key: &K, value: V) -> (r: Result<(), Error>)
        requires
            old(self).wf(),
        ensures
            final(self).wf(),
            final(self).cipher_key() == old(self).cipher_key(),
            match r {
                Ok(()) => {
                    &&& final(self)@ == old(self)@.insert(key.db_bytes(), value)
                    &&& final(self).store_map() == old(self).store_map().insert(
                        key.db_bytes(),
                        old(self).seals(key.db_bytes(), value.db_bytes()),
                    )
                    &&& final(self).opens(
                        key.db_bytes(),
                        old(self).seals(key.db_bytes(), value.db_bytes()),
                    ) == Some(value.db_bytes())
                },
                Err(e) => {
                    &&& e is StoreError || e is Crypto
                    &&& final(self)@ == old(self)@
                    &&& (final(self).store_map() == old(self).store_map() || final(self).store_map() == old(self).store_map().insert(
                        key.db_bytes(),
                        old(self).seals(key.db_bytes(), value.db_bytes()),
                    ))
                },
            },
    {
        let kb = key.to_db();
        match self.db.put(key, &value) {
            Ok(()) => {
                let k = match K::from_db(kb.as_slice()) {
                    Ok(k) => k,
                    Err(_) => {
                        proof {
                            K::lemma_prefix_free(key, key);
                        }
                        return vstd::pervasive::unreached();
                    },
                };
                self.map.insert(k, kb, value);
                Ok(())
            },
            Err(e) => Err(e),
        }
    }

    /// Computes a new value from the resident one, writes it through, and
    /// mirrors it. If the store write fails, the mirror is re-read from the
    /// table so that it shows whatever is durably present (a secondary read
    /// failure is swallowed), and the original write error is returned.
    pub fn update<U: UpdateFrom<V>>(&mut self, key: K, update: U) -> (r: Result<(), Error>)
        requires
            old(self).wf(),
        ensures
            final(self).wf(),
            final(self).cipher_key() == old(self).cipher_key(),
            ({
                let kb = key.db_bytes();
                let prior = if old(self)@.dom().contains(kb) {
                    Some(old(self)@[kb])
                } else {
                    None
                };
                let nv = update.update_spec(prior);
                let sealed = old(self).seals(kb, nv.db_bytes());
                match r {
                    Ok(()) => {
                        &&& final(self)@ == old(self)@.insert(kb, nv)
                        &&& final(self).store_map() == old(self).store_map().insert(kb, sealed)
                        &&& final(self).opens(kb, sealed) == Some(nv.db_bytes())
                    },
                    Err(e) => {
                        &&& e is StoreError || e is Crypto
                        &&& (final(self).store_map() == old(self).store_map() || final(self).store_map() == old(self).store_map().insert(kb, sealed))
                        &&& (final(self)@ == old(self)@.remove(kb) || (final(self).store_map().dom().contains(kb) && final(self)@ == old(self)@.remove(
                            kb,
                        ).insert(kb, final(self)@[kb]) && final(self).opens(
                            kb,
                            final(self).store_map()[kb],
                        ) == Some(final(self)@[kb].db_bytes()) && final(self)@[kb].db_wf()))
                    },
                }
            }),
    {
        let kb = key.to_db();
        let prior = self.map.remove(kb.as_slice());
        let nv = update.update_from(prior);
        match self.db.put(&key, &nv) {
            Ok(()) => {
                self.map.insert(key, kb, nv);
                Ok(())
            },
            Err(e) => {
                // Bring the mirror back in line with whatever is durable.
                match self.db.get(&key) {
                    Ok(Some(dv)) => match dv.to_inner::<V>() {
                        Ok(w) => {
                            self.map.insert(key, kb, w);
                        },
                        Err(_) => {},
                    },
                    Ok(None) => {},
                    Err(_) => {},
                }
                Err(e)
            },
        }
    }
}

} // verus!
