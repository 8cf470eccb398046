//! The persistent typed table: the codec, the ordered byte store, and an
//! optional authenticated-encryption layer over stored values.
//!
//! Keys are encoded through [`AdaptToDb`]; the encoded bytes are the store
//! keys, so the store's byte-lexicographic order is the domain order. With
//! an encryption key configured, value bytes are sealed on write and opened
//! on read, under a nonce derived from the encoded key bytes.

use crate::adapt_to_db::AdaptToDb;
use crate::encrypt::{Aes256Cipher, Encrypt, aes256_gcm_decrypt, aes256_gcm_encrypt,
    derived_nonce};
use crate::error::Error;
use crate::lex::{lex_lt, lex_le, lemma_lex_le_transitive};
use crate::store::Store;
use vstd::prelude::*;

verus! {

/// The direction of a table scan.
#[derive(Debug, Clone, Copy, PartialEq, Eq, Structural)]
pub enum Direction {
    Forward,
    Reverse,
}

/// Where a table scan starts.
#[derive(Debug)]
pub enum IteratorMode<K> {
    /// At the last entry, scanning backwards.
    End,
    /// At the given key (the first entry at or after it when scanning
    /// forward; the last entry at or before it when scanning backwards).
    From(K, Direction),
    /// At the first entry, scanning forward.
    Start,
}

/// A persistent, ordered, typed table over an ordered byte store.
pub struct Db<K, S> {
    store: S,
    cipher: Option<Aes256Cipher>,
    _k: core::marker::PhantomData<K>,
}

impl<K: AdaptToDb, S: Store> Db<K, S> {
    /// The stored entries: encoded keys to stored (possibly sealed) bytes.
    pub closed spec fn raw(&self) -> Map<Seq<u8>, Seq<u8>> {
        self.store.contents()
    }

    /// The encryption key in use, if any.
    pub closed spec fn cipher_key(&self) -> Option<Seq<u8>> {
        match self.cipher {
            Some(c) => Some(c.key_spec()),
            None => None,
        }
    }

    /// The bytes stored for value bytes `vb` under encoded key `kb`.
    pub open spec fn seals(&self, kb: Seq<u8>, vb: Seq<u8>) -> Seq<u8> {
        match self.cipher_key() {
            Some(key) => aes256_gcm_encrypt(key, derived_nonce(kb), vb),
            None => vb,
        }
    }

    /// The value bytes recovered from stored bytes `sb` under encoded key
    /// `kb`, if they open at all.
    pub open spec fn opens(&self, kb: Seq<u8>, sb: Seq<u8>) -> Option<Seq<u8>> {
        match self.cipher_key() {
            Some(key) => aes256_gcm_decrypt(key, derived_nonce(kb), sb),
            None => Some(sb),
        }
    }

    /// Opens a table over the given store, storing values in the clear.
    pub fn open(store: S) -> (r: Db<K, S>)
        ensures
            r.raw() == store.contents(),
            r.cipher_key() is None,
    {
        Db { store, cipher: None, _k: core::marker::PhantomData }
    }

    /// Opens a table over the given store, sealing values with
    /// AES-256-GCM under the given key.
    pub fn open_encrypted(store: S, key: &[u8; 32]) -> (r: Db<K, S>)
        ensures
            r.raw() == store.contents(),
            r.cipher_key() == Some(key@),
    {
        Db { store, cipher: Some(Aes256Cipher::new(key)), _k: core::marker::PhantomData }
    }

    /// A value written is the value read back: a successful write leaves
    /// the store holding, under the encoded key, exactly the sealed bytes of
    /// the written value, which the write's contract shows open back to the
    /// value's encoding; a following read of the same key therefore yields
    /// that encoding.
    pub proof fn lemma_put_then_get(raw: Map<Seq<u8>, Seq<u8>>, kb: Seq<u8>, sealed: Seq<u8>)
        ensures
            raw.insert(kb, sealed).dom().contains(kb),
            raw.insert(kb, sealed)[kb] == sealed,
    {
    }

    /// The store holds finitely many entries.
    pub proof fn lemma_raw_finite(&self)
        ensures
            self.raw().dom().finite(),
    {
        self.store.lemma_finite();
    }

    /// Whether the table holds an entry for `key`.
    pub fn contains_key(&self, key: &K) -> (r: Result<bool, Error>)
        ensures
            match r {
                Ok(b) => b == self.raw().dom().contains(key.db_bytes()),
                Err(e) => e is StoreError,
            },
    {
        let kb = key.to_db();
        match self.store.get(kb.as_slice()) {
            Ok(Some(_)) => Ok(true),
            Ok(None) => Ok(false),
            Err(e) => Err(e),
        }
    }

    /// Reads the value stored under `key`, still encoded, already opened.
    pub fn get(&self, key: &K) -> (r: Result<Option<DbValue>, Error>)
        ensures
            match r {
                Ok(Some(dv)) => self.raw().dom().contains(key.db_bytes()) && self.opens(
                    key.db_bytes(),
                    self.raw()[key.db_bytes()],
                ) == Some(dv@),
                Ok(None) => !self.raw().dom().contains(key.db_bytes()),
                Err(e) => e is StoreError || (e is Crypto && self.raw().dom().contains(
                    key.db_bytes(),
                ) && self.opens(key.db_bytes(), self.raw()[key.db_bytes()]) is None),
            },
    {
        let kb = key.to_db();
        match self.store.get(kb.as_slice()) {
            Ok(Some(sb)) => {
                match &self.cipher {
                    Some(c) => match c.decrypt(sb.as_slice(), kb.as_slice()) {
                        Ok(vb) => Ok(Some(DbValue { bytes: vb })),
                        Err(e) => Err(e),
                    },
                    None => Ok(Some(DbValue { bytes: sb })),
                }
            },
            Ok(None) => Ok(None),
            Err(e) => Err(e),
        }
    }

    /// Writes `value` under `key`, sealing it if the table is encrypted.
    pub fn put<V: AdaptToDb>(&mut self, key: &K, value: &V) -> (r: Result<(), Error>)
        ensures
            final(self).cipher_key() == old(self).cipher_key(),
            match r {
                Ok(()) => {
                    &&& final(self).raw() == old(self).raw().insert(
                        key.db_bytes(),
                        old(self).seals(key.db_bytes(), value.db_bytes()),
                    )
                    &&& old(self).opens(
                        key.db_bytes(),
                        old(self).seals(key.db_bytes(), value.db_bytes()),
                    ) == Some(value.db_bytes())
                },
                Err(e) => {
                    &&& e is StoreError || e is Crypto
                    &&& (old(self).cipher_key() is None ==> e is StoreError)
                    &&& (final(self).raw() == old(self).raw() || final(self).raw() == old(
                        self,
                    ).raw().insert(
                        key.db_bytes(),
                        old(self).seals(key.db_bytes(), value.db_bytes()),
                    ))
                },
            },
    {
        let kb = key.to_db();
        let vb = value.to_db();
        let sealed: Vec<u8> = match &self.cipher {
            Some(c) => match c.encrypt(vb.as_slice(), kb.as_slice()) {
                Ok(ct) => ct,
                Err(e) => {
                    return Err(e);
                },
            },
            None => vb,
        };
        self.store.put(kb.as_slice(), sealed.as_slice())
    }

    /// Removes the entry under `key`, if any.
    pub fn delete(&mut self, key: &K) -> (r: Result<(), Error>)
        ensures
            final(self).cipher_key() == old(self).cipher_key(),
            match r {
                Ok(()) => final(self).raw() == old(self).raw().remove(key.db_bytes()),
                Err(e) => e is StoreError && (final(self).raw() == old(self).raw()
                    || final(self).raw() == old(self).raw().remove(key.db_bytes())),
            },
    {
        let kb = key.to_db();
        self.store.delete(kb.as_slice())
    }

    /// Whether the table holds an entry for the encoded key.
    pub(crate) fn contains_raw(&self, kb: &[u8]) -> (r: Result<bool, Error>)
        ensures
            match r {
                Ok(b) => b == self.raw().dom().contains(kb@),
                Err(e) => e is StoreError,
            },
    {
        match self.store.get(kb) {
            Ok(Some(_)) => Ok(true),
            Ok(None) => Ok(false),
            Err(e) => Err(e),
        }
    }

    /// Writes already-encoded value bytes under an encoded key, sealing
    /// them if the table is encrypted.
    pub(crate) fn put_raw(&mut self, kb: &[u8], vb: &[u8]) -> (r: Result<(), Error>)
        ensures
            final(self).cipher_key() == old(self).cipher_key(),
            match r {
                Ok(()) => {
                    &&& final(self).raw() == old(self).raw().insert(
                        kb@,
                        old(self).seals(kb@, vb@),
                    )
                    &&& old(self).opens(kb@, old(self).seals(kb@, vb@)) == Some(vb@)
                },
                Err(e) => {
                    &&& e is StoreError || e is Crypto
                    &&& (old(self).cipher_key() is None ==> e is StoreError)
                    &&& (final(self).raw() == old(self).raw() || final(self).raw() == old(
                        self,
                    ).raw().insert(kb@, old(self).seals(kb@, vb@)))
                },
            },
    {
        let sealed: Vec<u8> = match &self.cipher {
            Some(c) => match c.encrypt(vb, kb) {
                Ok(ct) => ct,
                Err(e) => {
                    return Err(e);
                },
            },
            None => vstd::slice::slice_to_vec(vb),
        };
        self.store.put(kb, sealed.as_slice())
    }

    /// Removes the entry under an encoded key, if any.
    pub(crate) fn delete_raw(&mut self, kb: &[u8]) -> (r: Result<(), Error>)
        ensures
            final(self).cipher_key() == old(self).cipher_key(),
            match r {
                Ok(()) => final(self).raw() == old(self).raw().remove(kb@),
                Err(e) => e is StoreError && (final(self).raw() == old(self).raw()
                    || final(self).raw() == old(self).raw().remove(kb@)),
            },
    {
        self.store.delete(kb)
    }

    /// Starts a scan at the given encoded key.
    pub(crate) fn iter_from_raw(&self, seek: Vec<u8>, dir: Direction) -> (r: Iter<K, S>)
        ensures
            r.src() == self.raw(),
            r.key_of() == self.cipher_key(),
            r.dir_spec() == dir,
            forall|j: Seq<u8>|
                r.pending(j) <==> (if dir is Forward {
                    lex_le(seek@, j)
                } else {
                    lex_le(j, seek@)
                }),
    {
        Iter { db: self, dir, seek: Some(seek), pos: None, started: false }
    }

    /// Starts a scan of the table.
    pub fn iter(&self, mode: IteratorMode<K>) -> (r: Result<Iter<K, S>, Error>)
        ensures
            match r {
                Ok(it) => {
                    &&& it.src() == self.raw()
                    &&& it.key_of() == self.cipher_key()
                    &&& it.dir_spec() == (match mode {
                        IteratorMode::End => Direction::Reverse,
                        IteratorMode::From(_, d) => d,
                        IteratorMode::Start => Direction::Forward,
                    })
                    &&& forall|j: Seq<u8>|
                        it.pending(j) <==> (match mode {
                            IteratorMode::End => true,
                            IteratorMode::From(k, Direction::Forward) => lex_le(k.db_bytes(), j),
                            IteratorMode::From(k, Direction::Reverse) => lex_le(j, k.db_bytes()),
                            IteratorMode::Start => true,
                        })
                },
                Err(_) => false,
            },
    {
        let (dir, seek) = match &mode {
            IteratorMode::End => (Direction::Reverse, None),
            IteratorMode::From(k, d) => (*d, Some(k.to_db())),
            IteratorMode::Start => (Direction::Forward, None),
        };
        Ok(Iter { db: self, dir, seek, pos: None, started: false })
    }
}

/// A value read from the table, opened but not yet decoded.
pub struct DbValue {
    bytes: Vec<u8>,
}

impl View for DbValue {
    type V = Seq<u8>;

    closed spec fn view(&self) -> Seq<u8> {
        self.bytes@
    }
}

impl DbValue {
    /// Decodes the value.
    pub fn to_inner<V: AdaptToDb>(&self) -> (r: Result<V, Error>)
        ensures
            match r {
                Ok(v) => v.db_wf() && v.db_bytes() == self@,
                Err(e) => e is Serialize && (forall|v: V| v.db_wf() ==> v.db_bytes() != self@),
            },
    {
        V::from_db(self.bytes.as_slice())
    }
}

/// One entry yielded by a table scan, opened but not yet decoded.
pub struct DbKeyValue<K> {
    key_bytes: Vec<u8>,
    value_bytes: Vec<u8>,
    _k: core::marker::PhantomData<K>,
}

impl<K: AdaptToDb> DbKeyValue<K> {
    /// The encoded key bytes of the entry.
    pub closed spec fn key_spec(&self) -> Seq<u8> {
        self.key_bytes@
    }

    /// The opened value bytes of the entry.
    pub closed spec fn value_spec(&self) -> Seq<u8> {
        self.value_bytes@
    }

    /// Decodes the key.
    pub fn key(&self) -> (r: Result<K, Error>)
        ensures
            match r {
                Ok(k) => k.db_wf() && k.db_bytes() == self.key_spec(),
                Err(e) => e is Serialize && (forall|k: K|
                    k.db_wf() ==> k.db_bytes() != self.key_spec()),
            },
    {
        K::from_db(self.key_bytes.as_slice())
    }

    /// The encoded key bytes of the entry.
    pub fn key_as_bytes(&self) -> (r: &Vec<u8>)
        ensures
            r@ == self.key_spec(),
    {
        &self.key_bytes
    }

    /// Decodes the value.
    pub fn value<V: AdaptToDb>(&self) -> (r: Result<V, Error>)
        ensures
            match r {
                Ok(v) => v.db_wf() && v.db_bytes() == self.value_spec(),
                Err(e) => e is Serialize && (forall|v: V|
                    v.db_wf() ==> v.db_bytes() != self.value_spec()),
            },
    {
        V::from_db(self.value_bytes.as_slice())
    }

    /// The opened value bytes of the entry.
    pub fn value_as_bytes(&self) -> (r: &Vec<u8>)
        ensures
            r@ == self.value_spec(),
    {
        &self.value_bytes
    }
}

/// An ordered scan over a table. The first call of [`Iter::next`] yields
/// the entry the scan was positioned on; every further call advances first.
pub struct Iter<'a, K, S> {
    db: &'a Db<K, S>,
    dir: Direction,
    seek: Option<Vec<u8>>,
    pos: Option<Vec<u8>>,
    started: bool,
}

impl<'a, K: AdaptToDb, S: Store> Iter<'a, K, S> {
    /// The stored entries the scan walks over.
    pub closed spec fn src(&self) -> Map<Seq<u8>, Seq<u8>> {
        self.db.raw()
    }

    /// The encryption key of the table being scanned, if any.
    pub closed spec fn key_of(&self) -> Option<Seq<u8>> {
        self.db.cipher_key()
    }

    /// The value bytes recovered from stored bytes, as the table opens them.
    pub open spec fn opens(&self, kb: Seq<u8>, sb: Seq<u8>) -> Option<Seq<u8>> {
        match self.key_of() {
            Some(key) => aes256_gcm_decrypt(key, derived_nonce(kb), sb),
            None => Some(sb),
        }
    }

    /// The scan's direction.
    pub closed spec fn dir_spec(&self) -> Direction {
        self.dir
    }

    /// Whether the stored key `j` is still ahead of the scan.
    pub closed spec fn pending(&self, j: Seq<u8>) -> bool {
        if !self.started {
            match (self.dir, self.seek) {
                (Direction::Forward, Some(s)) => lex_le(s@, j),
                (Direction::Reverse, Some(s)) => lex_le(j, s@),
                (_, None) => true,
            }
        } else {
            match (self.dir, self.pos) {
                (Direction::Forward, Some(p)) => lex_lt(p@, j),
                (Direction::Reverse, Some(p)) => lex_lt(j, p@),
                (_, None) => false,
            }
        }
    }

    /// The stored keys still ahead of the scan.
    pub open spec fn remaining(&self) -> Set<Seq<u8>> {
        self.src().dom().filter(|j: Seq<u8>| self.pending(j))
    }

    /// A yielded entry leaves strictly fewer entries ahead of the scan:
    /// loops over a scan terminate.
    pub proof fn lemma_step_decreases(pre: Self, post: Self, k: Seq<u8>)
        requires
            post.src() == pre.src(),
            pre.src().dom().contains(k),
            pre.pending(k),
            !post.pending(k),
            forall|j: Seq<u8>| post.pending(j) ==> pre.pending(j),
        ensures
            pre.remaining().finite(),
            post.remaining().finite(),
            post.remaining().len() < pre.remaining().len(),
    {
        pre.db.store.lemma_finite();
        vstd::set_lib::lemma_len_subset(pre.remaining(), pre.src().dom());
        vstd::set_lib::lemma_len_subset(post.remaining(), post.src().dom());
        post.remaining().lemma_subset_not_in_lt(pre.remaining(), k);
    }

    /// What remains is always a finite part of the table.
    pub proof fn lemma_remaining_finite(&self)
        ensures
            self.remaining().finite(),
            self.remaining().len() <= self.src().dom().len(),
    {
        self.db.store.lemma_finite();
        vstd::set_lib::lemma_len_subset(self.remaining(), self.src().dom());
    }

    /// Yields the next entry of the scan, or `None` when it is exhausted.
    pub fn next(&mut self) -> (r: Result<Option<DbKeyValue<K>>, Error>)
        ensures
            final(self).src() == old(self).src(),
            final(self).key_of() == old(self).key_of(),
            final(self).dir_spec() == old(self).dir_spec(),
            match r {
                Ok(Some(kv)) => {
                    &&& old(self).src().dom().contains(kv.key_spec())
                    &&& old(self).pending(kv.key_spec())
                    &&& forall|j: Seq<u8>|
                        old(self).src().dom().contains(j) && old(self).pending(j) ==> (
                        if old(self).dir_spec() is Forward {
                            lex_le(kv.key_spec(), j)
                        } else {
                            lex_le(j, kv.key_spec())
                        })
                    &&& old(self).opens(kv.key_spec(), old(self).src()[kv.key_spec()])
                        == Some(kv.value_spec())
                    &&& forall|j: Seq<u8>|
                        final(self).pending(j) <==> (old(self).pending(j) && j
                            != kv.key_spec() && (if old(self).dir_spec() is Forward {
                            lex_lt(kv.key_spec(), j)
                        } else {
                            lex_lt(j, kv.key_spec())
                        }))
                },
                Ok(None) => {
                    &&& forall|j: Seq<u8>|
                        old(self).src().dom().contains(j) ==> !old(self).pending(j)
                    &&& forall|j: Seq<u8>| !final(self).pending(j)
                },
                Err(e) => (e is StoreError || e is Crypto) && *final(self) == *old(self),
            },
    {
        let empty_key: Vec<u8> = Vec::new();
        let step = if !self.started {
            match (self.dir, &self.seek) {
                (Direction::Forward, Some(s)) => self.db.store.first_at_or_after(s.as_slice()),
                (Direction::Reverse, Some(s)) => self.db.store.last_at_or_before(s.as_slice()),
                (Direction::Forward, None) => self.db.store.first_at_or_after(
                    empty_key.as_slice(),
                ),
                (Direction::Reverse, None) => self.db.store.last(),
            }
        } else {
            match (self.dir, &self.pos) {
                (Direction::Forward, Some(p)) => self.db.store.first_after(p.as_slice()),
                (Direction::Reverse, Some(p)) => self.db.store.last_before(p.as_slice()),
                (_, None) => Ok(None),
            }
        };
        proof {
            assert forall|j: Seq<u8>| lex_le(empty_key@, j) by {
                if j.len() == 0 {
                    assert(j =~= empty_key@);
                }
            }
        }
        match step {
            Ok(Some((kb, sb))) => {
                let vb: Vec<u8> = match &self.db.cipher {
                    Some(c) => match c.decrypt(sb.as_slice(), kb.as_slice()) {
                        Ok(p) => p,
                        Err(e) => {
                            return Err(e);
                        },
                    },
                    None => sb,
                };
                let key_copy = vstd::slice::slice_to_vec(kb.as_slice());
                self.started = true;
                self.pos = Some(kb);
                proof {
                    let k = key_copy@;
                    // The yielded key was ahead, and it is the extreme one.
                    assert forall|j: Seq<u8>|
                        old(self).src().dom().contains(j) && old(self).pending(j) implies (
                    if old(self).dir_spec() is Forward {
                        lex_le(k, j)
                    } else {
                        lex_le(j, k)
                    }) by {
                        if !old(self).started {
                            if old(self).seek is Some {
                                let s = old(self).seek.unwrap()@;
                                if old(self).dir_spec() is Forward {
                                    assert(lex_le(s, j));
                                } else {
                                    assert(lex_le(j, s));
                                }
                            } else {
                                if old(self).dir_spec() is Forward {
                                    assert(lex_le(empty_key@, j));
                                }
                            }
                        } else {
                            let p = old(self).pos.unwrap()@;
                            if old(self).dir_spec() is Forward {
                                assert(lex_lt(p, j));
                            } else {
                                assert(lex_lt(j, p));
                            }
                        }
                    }
                    // Exactly the keys beyond the yielded one stay pending.
                    assert forall|j: Seq<u8>|
                        final(self).pending(j) <==> (old(self).pending(j) && j != k && (
                        if old(self).dir_spec() is Forward {
                            lex_lt(k, j)
                        } else {
                            lex_lt(j, k)
                        })) by {
                        crate::lex::lemma_lex_trichotomy(k, j);
                        if old(self).dir_spec() is Forward {
                            if lex_lt(k, j) {
                                if !old(self).started {
                                    if old(self).seek is Some {
                                        lemma_lex_le_transitive(old(self).seek.unwrap()@, k, j);
                                    }
                                } else {
                                    crate::lex::lemma_lex_lt_transitive(
                                        old(self).pos.unwrap()@,
                                        k,
                                        j,
                                    );
                                }
                            }
                        } else {
                            if lex_lt(j, k) {
                                if !old(self).started {
                                    if old(self).seek is Some {
                                        lemma_lex_le_transitive(j, k, old(self).seek.unwrap()@);
                                    }
                                } else {
                                    crate::lex::lemma_lex_lt_transitive(
                                        j,
                                        k,
                                        old(self).pos.unwrap()@,
                                    );
                                }
                            }
                        }
                    }
                }
                Ok(
                    Some(
                        DbKeyValue {
                            key_bytes: key_copy,
                            value_bytes: vb,
                            _k: core::marker::PhantomData,
                        },
                    ),
                )
            },
            Ok(None) => {
                self.started = true;
                self.pos = None;
                proof {
                    assert forall|j: Seq<u8>|
                        old(self).src().dom().contains(j) implies !old(self).pending(j) by {
                        if !old(self).started {
                            if old(self).seek is Some {
                                let s = old(self).seek.unwrap()@;
                                if old(self).dir_spec() is Forward {
                                    assert(!lex_le(s, j));
                                } else {
                                    assert(!lex_le(j, s));
                                }
                            } else {
                                if old(self).dir_spec() is Forward {
                                    assert(lex_le(empty_key@, j));
                                    assert(!lex_le(empty_key@, j));
                                }
                            }
                        }
                    }
                }
                Ok(None)
            },
            Err(e) => Err(e),
        }
    }
}

} // verus!
