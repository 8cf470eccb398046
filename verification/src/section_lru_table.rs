//! The two-level, sectioned LRU cache table.
//!
//! The on-disk key is the pair (section, key); whole sections are loaded
//! with one bounded forward scan and evicted as a unit, least recently
//! touched first. Loading a section scans from (section, smallest key) and
//! stops at the first stored key of another section: the order-preserving,
//! prefix-free key encoding keeps each section's entries contiguous.

use crate::adapt_to_db::AdaptToDb;
use crate::db::{Db, Direction};
use crate::encrypt::{aes256_gcm_decrypt, aes256_gcm_encrypt, derived_nonce};
use crate::error::Error;
use crate::kv_map::{Aged, KvMap, evict_if_full, lemma_victim_unique};
use crate::lex::{lex_le, is_prefix, lemma_lex_lt_common_prefix, lemma_prefix_range_contiguous,
    bytes_eq};
use crate::min_value::MinValue;
use crate::store::Store;
use vstd::prelude::*;

verus! {

/// A table that keeps whole sections of records in memory and evicts the
/// least recently touched section.
pub struct SectionLruTable<S, K, V, St> {
    age: u64,
    capacity: usize,
    db: Db<(S, K), St>,
    map: KvMap<S, Aged<KvMap<K, V>>>,
}

impl<S: AdaptToDb, K: AdaptToDb + MinValue, V: AdaptToDb, St: Store> SectionLruTable<
    S,
    K,
    V,
    St,
> {
    /// The resident sections: encoded section bytes to the section's age
    /// and its map of encoded key bytes to values.
    pub closed spec fn sections(&self) -> Map<Seq<u8>, Aged<Map<Seq<u8>, V>>> {
        Map::new(
            |sb: Seq<u8>| self.map@.dom().contains(sb),
            |sb: Seq<u8>| Aged { age: self.map@[sb].age, value: self.map@[sb].value@ },
        )
    }

    /// The cache's bookkeeping is intact.
    pub closed spec fn wf(&self) -> bool {
        &&& self.map.wf()
        &&& self.capacity >= 1
        &&& self.map@.dom().finite()
        &&& self.map@.dom().len() <= self.capacity
        &&& forall|sb: Seq<u8>|
            #[trigger] self.map@.dom().contains(sb) ==> self.map@[sb].age <= self.age
                && self.map@[sb].value.wf()
        &&& forall|sb1: Seq<u8>, sb2: Seq<u8>|
            #![trigger self.map@[sb1].age, self.map@[sb2].age]
            self.map@.dom().contains(sb1) && self.map@.dom().contains(sb2) && sb1 != sb2
                ==> self.map@[sb1].age != self.map@[sb2].age
    }

    /// The logical clock: bumped on every touch.
    pub closed spec fn age_spec(&self) -> u64 {
        self.age
    }

    /// The configured capacity, counted in sections.
    pub closed spec fn capacity_spec(&self) -> nat {
        self.capacity as nat
    }

    /// What the underlying store durably holds.
    pub closed spec fn store_map(&self) -> Map<Seq<u8>, Seq<u8>> {
        self.db.raw()
    }

    /// The encryption key in use, if any.
    pub closed spec fn cipher_key(&self) -> Option<Seq<u8>> {
        self.db.cipher_key()
    }

    /// The bytes stored for value bytes `vb` under encoded key `kb`.
    pub open spec fn seals(&self, kb: Seq<u8>, vb: Seq<u8>) -> Seq<u8> {
        match self.cipher_key() {
            Some(key) => aes256_gcm_encrypt(key, derived_nonce(kb), vb),
            None => vb,
        }
    }

    /// The value bytes recovered from stored bytes `sb` under encoded key
    /// `kb`, if they open at all.
    pub open spec fn opens(&self, kb: Seq<u8>, sb: Seq<u8>) -> Option<Seq<u8>> {
        match self.cipher_key() {
            Some(key) => aes256_gcm_decrypt(key, derived_nonce(kb), sb),
            None => Some(sb),
        }
    }

    /// What a freshly loaded section holds: one entry for every stored key
    /// of the section at or after the scan's lower bound, with the opened
    /// value bytes it decodes from.
    pub open spec fn section_loaded(&self, sb: Seq<u8>, inner: Map<Seq<u8>, V>) -> bool {
        &&& forall|t: Seq<u8>|
            #[trigger] inner.dom().contains(t) <==> (self.store_map().dom().contains(sb + t)
                && lex_le(K::min_bytes(), t))
        &&& forall|t: Seq<u8>|
            #[trigger] inner.dom().contains(t) ==> self.opens(sb + t, self.store_map()[sb + t])
                == Some(inner[t].db_bytes()) && inner[t].db_wf()
    }

    /// The resident section count never exceeds the configured capacity.
    pub proof fn lemma_capacity_invariant(&self)
        requires
            self.wf(),
        ensures
            self.sections().dom().finite(),
            self.sections().dom().len() <= self.capacity_spec(),
            self.capacity_spec() >= 1,
    {
        assert(self.sections().dom() =~= self.map@.dom());
    }

    /// Creates the cache over a table, with a fixed capacity in sections.
    pub fn with_capacity(db: Db<(S, K), St>, capacity: usize) -> (r: SectionLruTable<S, K, V, St>)
        requires
            capacity > 0,
        ensures
            r.wf(),
            r.sections() =~= Map::<Seq<u8>, Aged<Map<Seq<u8>, V>>>::empty(),
            r.store_map() == db.raw(),
            r.cipher_key() == db.cipher_key(),
            r.capacity_spec() == capacity,
            r.age_spec() == 0,
    {
        SectionLruTable { age: 0, capacity, db, map: KvMap::new() }
    }

    /// The number of resident sections.
    pub fn len(&self) -> (r: usize)
        requires
            self.wf(),
        ensures
            r == self.sections().dom().len(),
    {
        proof {
            assert(self.sections().dom() =~= self.map@.dom());
        }
        self.map.len()
    }

    /// The configured capacity, counted in sections.
    pub fn capacity(&self) -> (r: usize)
        ensures
            r == self.capacity_spec(),
    {
        self.capacity
    }

    /// The current value of the logical clock.
    pub fn age(&self) -> (r: u64)
        ensures
            r == self.age_spec(),
    {
        self.age
    }

    /// Whether the table (resident section or durable store) holds a value
    /// for the key.
    pub fn contains_key(&self, section: &S, key: &K) -> (r: Result<bool, Error>)
        requires
            self.wf(),
        ensures
            match r {
                Ok(b) => b == (if self.sections().dom().contains(section.db_bytes()) {
                    self.sections()[section.db_bytes()].value.dom().contains(key.db_bytes())
                } else {
                    self.store_map().dom().contains(section.db_bytes() + key.db_bytes())
                }),
                Err(e) => e is StoreError && !self.sections().dom().contains(
                    section.db_bytes(),
                ),
            },
    {
        let sb = section.to_db();
        match self.map.get(sb.as_slice()) {
            Some(a) => Ok(a.value.contains(key.to_db().as_slice())),
            None => {
                let mut full = sb;
                let mut kb = key.to_db();
                full.append(&mut kb);
                self.db.contains_raw(full.as_slice())
            },
        }
    }

    /// Removes a key from the table, mirroring the removal into the
    /// section's map only when the section is resident.
    pub fn delete(&mut self, section: &S, key: &K) -> (r: Result<(), Error>)
        requires
            old(self).wf(),
        ensures
            final(self).wf(),
            final(self).cipher_key() == old(self).cipher_key(),
            final(self).capacity_spec() == old(self).capacity_spec(),
            final(self).age_spec() == old(self).age_spec(),
            ({
                let sb = section.db_bytes();
                let kb = key.db_bytes();
                match r {
                    Ok(()) => if old(self).sections().dom().contains(sb) {
                        if old(self).sections()[sb].value.dom().contains(kb) {
                            &&& final(self).store_map() == old(self).store_map().remove(sb + kb)
                            &&& final(self).sections() == old(self).sections().insert(
                                sb,
                                (Aged {
                                    age: old(self).sections()[sb].age,
                                    value: old(self).sections()[sb].value.remove(kb),
                                }),
                            )
                        } else {
                            &&& final(self).store_map() == old(self).store_map()
                            &&& final(self).sections() == old(self).sections()
                        }
                    } else {
                        &&& final(self).store_map() == old(self).store_map().remove(sb + kb)
                        &&& final(self).sections() == old(self).sections()
                    },
                    Err(e) => {
                        &&& e is StoreError
                        &&& (old(self).sections().dom().contains(sb) ==> old(self).sections()[sb].value.dom().contains(kb))
                        &&& final(self).sections() == old(self).sections()
                        &&& (final(self).store_map() == old(self).store_map() || final(self).store_map() == old(self).store_map().remove(sb + kb))
                    },
                }
            }),
    {
        let sb = section.to_db();
        let kb = key.to_db();
        let mut full = vstd::slice::slice_to_vec(sb.as_slice());
        let mut kb2 = vstd::slice::slice_to_vec(kb.as_slice());
        full.append(&mut kb2);
        let resident = self.map.contains(sb.as_slice());
        if resident {
            let ghost old_map = self.map@;
            let mut member = false;
            match self.map.get(sb.as_slice()) {
                Some(a) => {
                    member = a.value.contains(kb.as_slice());
                },
                None => {
                    return vstd::pervasive::unreached();
                },
            }
            if member {
                match self.db.delete_raw(full.as_slice()) {
                    Ok(()) => {},
                    Err(e) => {
                        return Err(e);
                    },
                }
                match self.map.get_mut(sb.as_slice()) {
                    Some(a) => {
                        a.value.remove(kb.as_slice());
                        proof {
                            assert(final(a).age == old_map[sb@].age);
                        }
                    },
                    None => {
                        return vstd::pervasive::unreached();
                    },
                }
                proof {
                    assert(self.sections() =~= old(self).sections().insert(
                        section.db_bytes(),
                        (Aged {
                            age: old(self).sections()[section.db_bytes()].age,
                            value: old(self).sections()[section.db_bytes()].value.remove(
                                key.db_bytes(),
                            ),
                        }),
                    ));
                }
                Ok(())
            } else {
                Ok(())
            }
        } else {
            match self.db.delete_raw(full.as_slice()) {
                Ok(()) => {
                    proof {
                        assert(self.sections() =~= old(self).sections());
                    }
                    Ok(())
                },
                Err(e) => Err(e),
            }
        }
    }

    /// Makes room for one more section: at capacity, discards the least
    /// recently touched one.
    fn ensure_capacity(&mut self)
        requires
            old(self).wf(),
        ensures
            final(self).wf(),
            final(self).cipher_key() == old(self).cipher_key(),
            final(self).capacity_spec() == old(self).capacity_spec(),
            final(self).age_spec() == old(self).age_spec(),
            final(self).store_map() == old(self).store_map(),
            final(self).sections() == evict_if_full(
                old(self).sections(),
                old(self).capacity_spec(),
            ),
            final(self).sections().dom().len() < old(self).capacity_spec(),
    {
        proof {
            assert(self.sections().dom() =~= self.map@.dom());
        }
        let len = self.map.len();
        if len == self.capacity {
            match self.map.min_age_key() {
                Some(sb) => {
                    proof {
                        let secs = self.sections();
                        assert forall|sb2: Seq<u8>| #[trigger] secs.dom().contains(sb2)
                            implies secs[sb@].age <= secs[sb2].age by {
                            assert(self.map@[sb@].age <= self.map@[sb2].age);
                        }
                        assert forall|sb1: Seq<u8>, sb2: Seq<u8>|
                            #![trigger secs[sb1].age, secs[sb2].age]
                            secs.dom().contains(sb1) && secs.dom().contains(sb2) && sb1
                                != sb2 implies secs[sb1].age != secs[sb2].age by {
                            assert(self.map@[sb1].age != self.map@[sb2].age);
                        }
                        lemma_victim_unique(secs, sb@);
                        assert(secs.dom().len() == self.map@.dom().len());
                    }
                    let ghost old_secs = self.sections();
                    self.map.remove(sb.as_slice());
                    proof {
                        assert(self.sections() =~= old_secs.remove(sb@));
                        assert(self.sections().dom() =~= old_secs.dom().remove(sb@));
                        assert(self.sections().dom() =~= self.map@.dom());
                    }
                },
                None => {
                    proof {
                        vstd::set_lib::lemma_set_empty_equivalency_len(self.map@.dom());
                    }
                    vstd::pervasive::unreached::<()>();
                },
            }
        } else {
            proof {
                assert(self.sections().dom().len() == self.map@.dom().len());
            }
        }
    }

    /// Loads one section from the table: a forward scan from
    /// (section, smallest key) that stops at the first stored key of
    /// another section, or at the end of the store.
    fn load_section(db: &Db<(S, K), St>, section: &S, sb: &Vec<u8>) -> (r: Result<
        KvMap<K, V>,
        Error,
    >)
        requires
            sb@ == section.db_bytes(),
            section.db_wf(),
        ensures
            match r {
                Ok(inner) => {
                    &&& inner.wf()
                    &&& forall|t: Seq<u8>|
                        #[trigger] inner@.dom().contains(t) <==> (db.raw().dom().contains(
                            sb@ + t,
                        ) && lex_le(K::min_bytes(), t))
                    &&& forall|t: Seq<u8>|
                        #[trigger] inner@.dom().contains(t) ==> db.opens(
                            sb@ + t,
                            db.raw()[sb@ + t],
                        ) == Some(inner@[t].db_bytes()) && inner@[t].db_wf()
                },
                Err(e) => e is StoreError || e is Crypto || e is Serialize,
            },
    {
        let minv = K::min_value();
        let mut min_kb = minv.to_db();
        let mut lower = vstd::slice::slice_to_vec(sb.as_slice());
        lower.append(&mut min_kb);
        proof {
            assert(lower@ == sb@ + K::min_bytes());
        }
        let ghost lower_s = lower@;
        let mut it = db.iter_from_raw(lower, Direction::Forward);
        let mut inner = KvMap::<K, V>::new();
        proof {
            assert forall|t: Seq<u8>| lex_le(K::min_bytes(), t) implies lex_le(
                lower_s,
                sb@ + t,
            ) by {
                lemma_lex_lt_common_prefix(sb@, K::min_bytes(), t);
                if K::min_bytes() == t {
                    assert(sb@ + K::min_bytes() =~= sb@ + t);
                }
            }
        }
        loop
            invariant
                it.src() == db.raw(),
                it.key_of() == db.cipher_key(),
                it.dir_spec() is Forward,
                inner.wf(),
                sb@ == section.db_bytes(),
                section.db_wf(),
                lower_s == sb@ + K::min_bytes(),
                forall|t: Seq<u8>|
                    #[trigger] inner@.dom().contains(t) ==> db.raw().dom().contains(sb@ + t)
                        && lex_le(K::min_bytes(), t) && !it.pending(sb@ + t),
                forall|t: Seq<u8>|
                    #[trigger] inner@.dom().contains(t) ==> db.opens(sb@ + t, db.raw()[sb@ + t])
                        == Some(inner@[t].db_bytes()) && inner@[t].db_wf(),
                forall|t: Seq<u8>|
                    db.raw().dom().contains(sb@ + t) && lex_le(K::min_bytes(), t) && !(
                    #[trigger] it.pending(sb@ + t)) ==> inner@.dom().contains(t),
                forall|j: Seq<u8>| #[trigger] it.pending(j) ==> lex_le(lower_s, j),
                forall|t: Seq<u8>|
                    #[trigger] lex_le(K::min_bytes(), t) ==> lex_le(lower_s, sb@ + t),
                forall|other: K|
                    #[trigger] other.db_wf() ==> lex_le(K::min_bytes(), other.db_bytes()),
            decreases it.remaining().len(),
        {
            let ghost pre_it = it;
            match it.next() {
                Ok(Some(kv)) => {
                    let pair: (S, K) = match kv.key() {
                        Ok(p) => p,
                        Err(e) => {
                            return Err(e);
                        },
                    };
                    let s_bytes = pair.0.to_db();
                    proof {
                        assert(kv.key_spec() == pair.0.db_bytes() + pair.1.db_bytes());
                    }
                    if bytes_eq(s_bytes.as_slice(), sb.as_slice()) {
                        let v: V = match kv.value() {
                            Ok(v) => v,
                            Err(e) => {
                                return Err(e);
                            },
                        };
                        let kbytes = kv.key_as_bytes();
                        let t = vstd::slice::slice_to_vec(
                            vstd::slice::slice_subrange(
                                kbytes.as_slice(),
                                s_bytes.len(),
                                kbytes.len(),
                            ),
                        );
                        proof {
                            assert(t@ =~= pair.1.db_bytes());
                            assert(sb@ + t@ =~= kv.key_spec());
                        }
                        inner.insert(pair.1, t, v);
                        proof {
                            crate::db::Iter::lemma_step_decreases(pre_it, it, kv.key_spec());
                            // No same-section key between the old position and
                            // the yielded key was skipped.
                            assert forall|t2: Seq<u8>|
                                db.raw().dom().contains(sb@ + t2) && lex_le(K::min_bytes(), t2)
                                    && !(#[trigger] it.pending(sb@ + t2)) implies inner@.dom()
                                .contains(t2) by {
                                if sb@ + t2 != kv.key_spec() && pre_it.pending(sb@ + t2) {
                                    assert(lex_le(kv.key_spec(), sb@ + t2));
                                }
                                if sb@ + t2 == kv.key_spec() {
                                    assert(t2 =~= (sb@ + t2).skip(sb@.len() as int));
                                }
                            }
                            // Every yielded same-section key lies at or after
                            // the lower bound.
                            assert(pair.0.db_wf() && pair.1.db_wf());
                            assert(lex_le(K::min_bytes(), pair.1.db_bytes()));
                        }
                    } else {
                        // A key of another section: the section is complete.
                        // Any same-section key still ahead would place this
                        // key inside the section, against prefix-freeness.
                        proof {
                            assert forall|t2: Seq<u8>|
                                db.raw().dom().contains(sb@ + t2) && lex_le(
                                    K::min_bytes(),
                                    t2,
                                ) implies inner@.dom().contains(t2) by {
                                if pre_it.pending(sb@ + t2) {
                                    assert(lex_le(kv.key_spec(), sb@ + t2));
                                    assert(lex_le(lower_s, kv.key_spec()));
                                    assert(is_prefix(sb@, lower_s)) by {
                                        assert(sb@ =~= lower_s.subrange(0, sb@.len() as int));
                                    }
                                    assert(is_prefix(sb@, sb@ + t2)) by {
                                        assert(sb@ =~= (sb@ + t2).subrange(0, sb@.len() as int));
                                    }
                                    lemma_prefix_range_contiguous(
                                        sb@,
                                        lower_s,
                                        kv.key_spec(),
                                        sb@ + t2,
                                    );
                                    // The section part of the yielded key then
                                    // equals the section scanned for.
                                    lemma_prefix_pins_section::<S>(
                                        section,
                                        &pair.0,
                                        kv.key_spec(),
                                        pair.1.db_bytes(),
                                    );
                                }
                            }
                        }
                        return Ok(inner);
                    }
                },
                Ok(None) => {
                    proof {
                        assert forall|t2: Seq<u8>|
                            db.raw().dom().contains(sb@ + t2) && lex_le(
                                K::min_bytes(),
                                t2,
                            ) implies inner@.dom().contains(t2) by {
                            assert(!pre_it.pending(sb@ + t2));
                        }
                    }
                    return Ok(inner);
                },
                Err(e) => {
                    return Err(e);
                },
            }
        }
    }

    /// Brings the section into memory (evicting one first when at
    /// capacity) and refreshes its age.
    fn ensure_section_loaded(&mut self, section: S) -> (r: Result<(), Error>)
        requires
            old(self).wf(),
            old(self).age_spec() < u64::MAX,
        ensures
            final(self).wf(),
            final(self).cipher_key() == old(self).cipher_key(),
            final(self).capacity_spec() == old(self).capacity_spec(),
            final(self).store_map() == old(self).store_map(),
            ({
                let sb = section.db_bytes();
                let cap = old(self).capacity_spec();
                match r {
                    Ok(()) => {
                        &&& final(self).age_spec() == old(self).age_spec() + 1
                        &&& final(self).sections().dom().contains(sb)
                        &&& if old(self).sections().dom().contains(sb) {
                            final(self).sections() == old(self).sections().insert(
                                sb,
                                (Aged {
                                    age: (old(self).age_spec() + 1) as u64,
                                    value: old(self).sections()[sb].value,
                                }),
                            )
                        } else {
                            &&& old(self).section_loaded(sb, final(self).sections()[sb].value)
                            &&& final(self).sections() == evict_if_full(
                                old(self).sections(),
                                cap,
                            ).insert(
                                sb,
                                (Aged {
                                    age: (old(self).age_spec() + 1) as u64,
                                    value: final(self).sections()[sb].value,
                                }),
                            )
                        }
                    },
                    Err(e) => {
                        &&& (e is StoreError || e is Crypto || e is Serialize)
                        &&& !old(self).sections().dom().contains(sb)
                        &&& final(self).sections() == evict_if_full(old(self).sections(), cap)
                        &&& final(self).age_spec() == old(self).age_spec()
                    },
                }
            }),
    {
        let sb = section.to_db();
        let new_age = self.age + 1;
        if !self.map.contains(sb.as_slice()) {
            self.ensure_capacity();
            let inner = match Self::load_section(&self.db, &section, &sb) {
                Ok(i) => i,
                Err(e) => {
                    proof {
                        assert(self.sections().dom() =~= self.map@.dom());
                    }
                    return Err(e);
                },
            };
            self.age = new_age;
            let ghost old_secs = self.sections();
            let ghost m_pre = self.map@;
            proof {
                let sbs = section.db_bytes();
                // The section was not resident, and eviction adds nothing.
                assert(old(self).sections().dom() =~= old(self).map@.dom());
                assert(self.sections().dom() =~= m_pre.dom());
                assert(!m_pre.dom().contains(sbs));
            }
            self.map.insert(section, sb, Aged { age: new_age, value: inner });
            proof {
                let sbs = section.db_bytes();
                assert(self.map@.dom() =~= m_pre.dom().insert(sbs));
                assert(self.map@.dom().len() == m_pre.dom().len() + 1) by {
                    assert(!m_pre.dom().contains(sbs));
                }
                assert(self.sections() =~= old_secs.insert(
                    sbs,
                    (Aged { age: new_age, value: inner@ }),
                ));
                assert forall|sb2: Seq<u8>| #[trigger] self.map@.dom().contains(sb2)
                    implies self.map@[sb2].age <= self.age && self.map@[sb2].value.wf() by {
                    if sb2 != sbs {
                        assert(m_pre.dom().contains(sb2) && self.map@[sb2] == m_pre[sb2]);
                    }
                }
                assert forall|sb1: Seq<u8>, sb2: Seq<u8>|
                    #![trigger self.map@[sb1].age, self.map@[sb2].age]
                    self.map@.dom().contains(sb1) && self.map@.dom().contains(sb2) && sb1
                        != sb2 implies self.map@[sb1].age != self.map@[sb2].age by {
                    if sb1 != sbs && sb2 != sbs {
                        assert(m_pre.dom().contains(sb1) && self.map@[sb1] == m_pre[sb1]);
                        assert(m_pre.dom().contains(sb2) && self.map@[sb2] == m_pre[sb2]);
                        assert(m_pre[sb1].age != m_pre[sb2].age);
                    } else if sb1 == sbs {
                        assert(m_pre.dom().contains(sb2) && self.map@[sb2] == m_pre[sb2]);
                    } else {
                        assert(m_pre.dom().contains(sb1) && self.map@[sb1] == m_pre[sb1]);
                    }
                }
            }
            Ok(())
        } else {
            self.age = new_age;
            let ghost m_pre = self.map@;
            match self.map.get_mut(sb.as_slice()) {
                Some(a) => {
                    a.age = new_age;
                },
                None => {
                    return vstd::pervasive::unreached();
                },
            }
            proof {
                let sbs = section.db_bytes();
                assert(self.map@.dom() =~= m_pre.dom());
                assert(self.sections() =~= old(self).sections().insert(
                    sbs,
                    (Aged {
                        age: new_age,
                        value: old(self).sections()[sbs].value,
                    }),
                ));
                assert forall|sb2: Seq<u8>| #[trigger] self.map@.dom().contains(sb2)
                    implies self.map@[sb2].age <= self.age && self.map@[sb2].value.wf() by {
                    if sb2 != sbs {
                        assert(m_pre.dom().contains(sb2) && self.map@[sb2] == m_pre[sb2]);
                    }
                }
                assert forall|sb1: Seq<u8>, sb2: Seq<u8>|
                    #![trigger self.map@[sb1].age, self.map@[sb2].age]
                    self.map@.dom().contains(sb1) && self.map@.dom().contains(sb2) && sb1
                        != sb2 implies self.map@[sb1].age != self.map@[sb2].age by {
                    if sb1 != sbs && sb2 != sbs {
                        assert(m_pre.dom().contains(sb1) && self.map@[sb1] == m_pre[sb1]);
                        assert(m_pre.dom().contains(sb2) && self.map@[sb2] == m_pre[sb2]);
                        assert(m_pre[sb1].age != m_pre[sb2].age);
                    } else if sb1 == sbs {
                        assert(m_pre.dom().contains(sb2) && self.map@[sb2] == m_pre[sb2]);
                    } else {
                        assert(m_pre.dom().contains(sb1) && self.map@[sb1] == m_pre[sb1]);
                    }
                }
            }
            Ok(())
        }
    }

    /// The value for the key within its section, loading the section first
    /// if it is not resident.
    pub fn get(&mut self, section: S, key: &K) -> (r: Result<Option<&V>, Error>)
        requires
            old(self).wf(),
            old(self).age_spec() < u64::MAX,
        ensures
            final(self).wf(),
            final(self).cipher_key() == old(self).cipher_key(),
            final(self).capacity_spec() == old(self).capacity_spec(),
            final(self).store_map() == old(self).store_map(),
            ({
                let sb = section.db_bytes();
                let kb = key.db_bytes();
                let cap = old(self).capacity_spec();
                match r {
                    Ok(v) => {
                        &&& final(self).sections().dom().contains(sb)
                        &&& (match v {
                            Some(w) => final(self).sections()[sb].value.dom().contains(kb)
                                && *w == final(self).sections()[sb].value[kb],
                            None => !final(self).sections()[sb].value.dom().contains(kb),
                        })
                        &&& final(self).age_spec() == old(self).age_spec() + 1
                        &&& if old(self).sections().dom().contains(sb) {
                            final(self).sections() == old(self).sections().insert(
                                sb,
                                (Aged {
                                    age: (old(self).age_spec() + 1) as u64,
                                    value: old(self).sections()[sb].value,
                                }),
                            )
                        } else {
                            &&& old(self).section_loaded(sb, final(self).sections()[sb].value)
                            &&& final(self).sections() == evict_if_full(
                                old(self).sections(),
                                cap,
                            ).insert(
                                sb,
                                (Aged {
                                    age: (old(self).age_spec() + 1) as u64,
                                    value: final(self).sections()[sb].value,
                                }),
                            )
                        }
                    },
                    Err(e) => {
                        &&& (e is StoreError || e is Crypto || e is Serialize)
                        &&& !old(self).sections().dom().contains(sb)
                        &&& final(self).sections() == evict_if_full(old(self).sections(), cap)
                        &&& final(self).age_spec() == old(self).age_spec()
                    },
                }
            }),
    {
        let sb = section.to_db();
        match self.ensure_section_loaded(section) {
            Ok(()) => {},
            Err(e) => {
                return Err(e);
            },
        }
        let kb = key.to_db();
        match self.map.get(sb.as_slice()) {
            Some(a) => Ok(a.value.get(kb.as_slice())),
            None => vstd::pervasive::unreached(),
        }
    }

    /// The whole resident map of a section, loading it first if needed.
    pub fn get_section(&mut self, section: S) -> (r: Result<&KvMap<K, V>, Error>)
        requires
            old(self).wf(),
            old(self).age_spec() < u64::MAX,
        ensures
            final(self).wf(),
            final(self).cipher_key() == old(self).cipher_key(),
            final(self).capacity_spec() == old(self).capacity_spec(),
            final(self).store_map() == old(self).store_map(),
            ({
                let sb = section.db_bytes();
                let cap = old(self).capacity_spec();
                match r {
                    Ok(m) => {
                        &&& final(self).sections().dom().contains(sb)
                        &&& m.wf()
                        &&& m@ == final(self).sections()[sb].value
                        &&& final(self).age_spec() == old(self).age_spec() + 1
                        &&& if old(self).sections().dom().contains(sb) {
                            final(self).sections() == old(self).sections().insert(
                                sb,
                                (Aged {
                                    age: (old(self).age_spec() + 1) as u64,
                                    value: old(self).sections()[sb].value,
                                }),
                            )
                        } else {
                            &&& old(self).section_loaded(sb, m@)
                            &&& final(self).sections() == evict_if_full(
                                old(self).sections(),
                                cap,
                            ).insert(
                                sb,
                                (Aged { age: (old(self).age_spec() + 1) as u64, value: m@ }),
                            )
                        }
                    },
                    Err(e) => {
                        &&& (e is StoreError || e is Crypto || e is Serialize)
                        &&& !old(self).sections().dom().contains(sb)
                        &&& final(self).sections() == evict_if_full(old(self).sections(), cap)
                        &&& final(self).age_spec() == old(self).age_spec()
                    },
                }
            }),
    {
        let sb = section.to_db();
        match self.ensure_section_loaded(section) {
            Ok(()) => {},
            Err(e) => {
                return Err(e);
            },
        }
        match self.map.get(sb.as_slice()) {
            Some(a) => Ok(&a.value),
            None => vstd::pervasive::unreached(),
        }
    }

    /// Writes the value through to the table under the composite key, then
    /// loads the section (if needed) and mirrors the value into it.
    pub fn put(&mut self, section: S, key: &K, value: V) -> (r: Result<(), Error>)
        requires
            old(self).wf(),
            old(self).age_spec() < u64::MAX,
        ensures
            final(self).wf(),
            final(self).cipher_key() == old(self).cipher_key(),
            final(self).capacity_spec() == old(self).capacity_spec(),
            ({
                let sb = section.db_bytes();
                let kb = key.db_bytes();
                let cap = old(self).capacity_spec();
                let sealed = old(self).seals(sb + kb, value.db_bytes());
                let mid = old(self).store_map().insert(sb + kb, sealed);
                match r {
                    Ok(()) => {
                        &&& final(self).store_map() == mid
                        &&& old(self).opens(sb + kb, sealed) == Some(value.db_bytes())
                        &&& final(self).age_spec() == old(self).age_spec() + 1
                        &&& final(self).sections().dom().contains(sb)
                        &&& final(self).sections()[sb].age == (old(self).age_spec() + 1) as u64
                        &&& final(self).sections()[sb].value.dom().contains(kb)
                        &&& final(self).sections()[sb].value[kb] == value
                        &&& if old(self).sections().dom().contains(sb) {
                            final(self).sections() == old(self).sections().insert(
                                sb,
                                (Aged {
                                    age: (old(self).age_spec() + 1) as u64,
                                    value: old(self).sections()[sb].value.insert(kb, value),
                                }),
                            )
                        } else {
                            &&& (forall|t: Seq<u8>|
                                t != kb ==> ((#[trigger] final(self).sections()[sb].value.dom().contains(t)) <==> (mid.dom()
                                    .contains(sb + t) && lex_le(K::min_bytes(), t))))
                            &&& (forall|t: Seq<u8>|
                                t != kb && (#[trigger] final(self).sections()[sb].value.dom().contains(t)) ==> old(self).opens(
                                    sb + t,
                                    mid[sb + t],
                                ) == Some(final(self).sections()[sb].value[t].db_bytes())
                                    && final(self).sections()[sb].value[t].db_wf())
                            &&& final(self).sections() == evict_if_full(
                                old(self).sections(),
                                cap,
                            ).insert(
                                sb,
                                (Aged {
                                    age: (old(self).age_spec() + 1) as u64,
                                    value: final(self).sections()[sb].value,
                                }),
                            )
                        }
                    },
                    Err(e) => {
                        &&& (e is StoreError || e is Crypto || e is Serialize)
                        &&& (final(self).store_map() == old(self).store_map() || final(self).store_map() == mid)
                        &&& final(self).age_spec() == old(self).age_spec()
                        &&& (final(self).sections() == old(self).sections() || final(self).sections() == evict_if_full(old(self).sections(), cap))
                        &&& (final(self).sections() == old(self).sections() || final(self).store_map() == mid)
                    },
                }
            }),
    {
        let sb = section.to_db();
        let kb = key.to_db();
        let vb = value.to_db();
        let mut full = vstd::slice::slice_to_vec(sb.as_slice());
        let mut kb2 = vstd::slice::slice_to_vec(kb.as_slice());
        full.append(&mut kb2);
        match self.db.put_raw(full.as_slice(), vb.as_slice()) {
            Ok(()) => {},
            Err(e) => {
                return Err(e);
            },
        }
        match self.ensure_section_loaded(section) {
            Ok(()) => {},
            Err(e) => {
                return Err(e);
            },
        }
        let k = match K::from_db(kb.as_slice()) {
            Ok(k) => k,
            Err(_) => {
                return vstd::pervasive::unreached();
            },
        };
        let ghost pre_secs = self.sections();
        match self.map.get_mut(sb.as_slice()) {
            Some(a) => {
                a.value.insert(k, kb, value);
                proof {
                    assert(final(a).age == pre_secs[section.db_bytes()].age);
                }
            },
            None => {
                return vstd::pervasive::unreached();
            },
        }
        proof {
            let sbs = section.db_bytes();
            let kbs = key.db_bytes();
            assert(self.sections() =~= pre_secs.insert(
                sbs,
                (Aged {
                    age: pre_secs[sbs].age,
                    value: pre_secs[sbs].value.insert(kbs, value),
                }),
            ));
            assert(self.sections().dom() =~= pre_secs.dom());
        }
        Ok(())
    }
}

/// A key of the scanned section that is prefixed by the section's bytes has
/// the section itself as its first component: the section part of a pair
/// key is pinned by prefix-freeness.
proof fn lemma_prefix_pins_section<S: AdaptToDb>(
    section: &S,
    s_dec: &S,
    j: Seq<u8>,
    rest: Seq<u8>,
)
    requires
        section.db_wf(),
        s_dec.db_wf(),
        j == s_dec.db_bytes() + rest,
        is_prefix(section.db_bytes(), j),
    ensures
        s_dec.db_bytes() == section.db_bytes(),
{
    let sb = section.db_bytes();
    let sd = s_dec.db_bytes();
    if sd.len() <= sb.len() {
        assert(is_prefix(sd, sb)) by {
            assert(sd =~= sb.subrange(0, sd.len() as int)) by {
                assert forall|i: int| 0 <= i < sd.len() implies sd[i] == sb[i] by {
                    assert(sd[i] == j[i]);
                    assert(sb[i] == j.subrange(0, sb.len() as int)[i]);
                }
            }
        }
        S::lemma_prefix_free(s_dec, section);
    } else {
        assert(is_prefix(sb, sd)) by {
            assert(sb =~= sd.subrange(0, sb.len() as int)) by {
                assert forall|i: int| 0 <= i < sb.len() implies sb[i] == sd[i] by {
                    assert(sd[i] == j[i]);
                    assert(sb[i] == j.subrange(0, sb.len() as int)[i]);
                }
            }
        }
        S::lemma_prefix_free(section, s_dec);
    }
}

} // verus!
