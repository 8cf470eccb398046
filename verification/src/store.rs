//! The ordered byte store underneath the tables.
//!
//! The persistent store is an external collaborator: the tables only rely on
//! the boundary stated here. [`VecStore`] is an in-memory implementation,
//! verified against the same boundary, that the tests run on; a
//! disk-backed implementation lives with the embedding application.
//! [`FaultStore`] wraps any store and makes a chosen number of writes fail,
//! to exercise the failure-recovery paths.

use crate::error::Error;
use crate::lex::{lex_lt, lex_le, bytes_eq, bytes_lex_lt, lemma_lex_trichotomy,
    lemma_lex_le_transitive};
use vstd::prelude::*;

verus! {

/// The model of a store's contents: encoded keys to stored value bytes.
/// Named so that an unverified store binding can write the ghost member's
/// signature without naming the proof library.
pub type StoreContents = Map<Seq<u8>, Seq<u8>>;

/// An ordered, persistent map from byte keys to byte values, given at its
/// boundary: point reads and writes, and ordered neighbour queries.
///
/// Reads and writes may fail with a `StoreError` at any time (the medium
/// decides); a failed write either took effect or did not.
pub trait Store: Sized {
    /// The stored entries: encoded keys to stored value bytes.
    spec fn contents(&self) -> StoreContents;

    /// A store holds finitely many entries.
    proof fn lemma_finite(&self)
        ensures
            self.contents().dom().finite(),
    ;

    /// Reads the value stored under `key`.
    fn get(&self, key: &[u8]) -> (r: Result<Option<Vec<u8>>, Error>)
        ensures
            match r {
                Ok(Some(v)) => self.contents().dom().contains(key@) && v@
                    == self.contents()[key@],
                Ok(None) => !self.contents().dom().contains(key@),
                Err(e) => e is StoreError,
            },
    ;

    /// Stores `value` under `key`.
    fn put(&mut self, key: &[u8], value: &[u8]) -> (r: Result<(), Error>)
        ensures
            match r {
                Ok(()) => final(self).contents() == old(self).contents().insert(key@, value@),
                Err(e) => e is StoreError && (final(self).contents() == old(self).contents()
                    || final(self).contents() == old(self).contents().insert(key@, value@)),
            },
    ;

    /// Removes the entry under `key`, if any.
    fn delete(&mut self, key: &[u8]) -> (r: Result<(), Error>)
        ensures
            match r {
                Ok(()) => final(self).contents() == old(self).contents().remove(key@),
                Err(e) => e is StoreError && (final(self).contents() == old(self).contents()
                    || final(self).contents() == old(self).contents().remove(key@)),
            },
    ;

    /// The entry with the smallest key at or after `lower`.
    fn first_at_or_after(&self, lower: &[u8]) -> (r: Result<Option<(Vec<u8>, Vec<u8>)>, Error>)
        ensures
            match r {
                Ok(Some(kv)) => {
                    &&& self.contents().dom().contains(kv.0@)
                    &&& kv.1@ == self.contents()[kv.0@]
                    &&& lex_le(lower@, kv.0@)
                    &&& forall|j: Seq<u8>|
                        self.contents().dom().contains(j) && lex_le(lower@, j) ==> lex_le(
                            kv.0@,
                            j,
                        )
                },
                Ok(None) => forall|j: Seq<u8>|
                    self.contents().dom().contains(j) ==> !lex_le(lower@, j),
                Err(e) => e is StoreError,
            },
    ;

    /// The entry with the smallest key strictly after `lower`.
    fn first_after(&self, lower: &[u8]) -> (r: Result<Option<(Vec<u8>, Vec<u8>)>, Error>)
        ensures
            match r {
                Ok(Some(kv)) => {
                    &&& self.contents().dom().contains(kv.0@)
                    &&& kv.1@ == self.contents()[kv.0@]
                    &&& lex_lt(lower@, kv.0@)
                    &&& forall|j: Seq<u8>|
                        self.contents().dom().contains(j) && lex_lt(lower@, j) ==> lex_le(
                            kv.0@,
                            j,
                        )
                },
                Ok(None) => forall|j: Seq<u8>|
                    self.contents().dom().contains(j) ==> !lex_lt(lower@, j),
                Err(e) => e is StoreError,
            },
    ;

    /// The entry with the largest key at or before `upper`.
    fn last_at_or_before(&self, upper: &[u8]) -> (r: Result<Option<(Vec<u8>, Vec<u8>)>, Error>)
        ensures
            match r {
                Ok(Some(kv)) => {
                    &&& self.contents().dom().contains(kv.0@)
                    &&& kv.1@ == self.contents()[kv.0@]
                    &&& lex_le(kv.0@, upper@)
                    &&& forall|j: Seq<u8>|
                        self.contents().dom().contains(j) && lex_le(j, upper@) ==> lex_le(
                            j,
                            kv.0@,
                        )
                },
                Ok(None) => forall|j: Seq<u8>|
                    self.contents().dom().contains(j) ==> !lex_le(j, upper@),
                Err(e) => e is StoreError,
            },
    ;

    /// The entry with the largest key strictly before `upper`.
    fn last_before(&self, upper: &[u8]) -> (r: Result<Option<(Vec<u8>, Vec<u8>)>, Error>)
        ensures
            match r {
                Ok(Some(kv)) => {
                    &&& self.contents().dom().contains(kv.0@)
                    &&& kv.1@ == self.contents()[kv.0@]
                    &&& lex_lt(kv.0@, upper@)
                    &&& forall|j: Seq<u8>|
                        self.contents().dom().contains(j) && lex_lt(j, upper@) ==> lex_le(
                            j,
                            kv.0@,
                        )
                },
                Ok(None) => forall|j: Seq<u8>|
                    self.contents().dom().contains(j) ==> !lex_lt(j, upper@),
                Err(e) => e is StoreError,
            },
    ;

    /// The entry with the largest key of all.
    fn last(&self) -> (r: Result<Option<(Vec<u8>, Vec<u8>)>, Error>)
        ensures
            match r {
                Ok(Some(kv)) => {
                    &&& self.contents().dom().contains(kv.0@)
                    &&& kv.1@ == self.contents()[kv.0@]
                    &&& forall|j: Seq<u8>|
                        self.contents().dom().contains(j) ==> lex_le(j, kv.0@)
                },
                Ok(None) => self.contents().dom() =~= Set::empty(),
                Err(e) => e is StoreError,
            },
    ;
}

/// The contents of an association list of byte entries, as a map.
pub closed spec fn entries_index_of(s: Seq<(Vec<u8>, Vec<u8>)>, k: Seq<u8>) -> int {
    choose|i: int| 0 <= i < s.len() && s[i].0@ == k
}

/// The map held by an association list with pairwise distinct keys.
pub closed spec fn entries_map(s: Seq<(Vec<u8>, Vec<u8>)>) -> Map<Seq<u8>, Seq<u8>> {
    Map::new(
        |k: Seq<u8>| exists|i: int| 0 <= i < s.len() && s[i].0@ == k,
        |k: Seq<u8>| s[entries_index_of(s, k)].1@,
    )
}

/// Keys of the list are pairwise distinct.
pub open spec fn entries_distinct(s: Seq<(Vec<u8>, Vec<u8>)>) -> bool {
    forall|i: int, j: int| 0 <= i < j < s.len() ==> s[i].0@ != s[j].0@
}

/// For a distinct-keyed list, each entry is the map entry of its key.
proof fn lemma_entries_map_at(s: Seq<(Vec<u8>, Vec<u8>)>, i: int)
    requires
        entries_distinct(s),
        0 <= i < s.len(),
    ensures
        entries_map(s).dom().contains(s[i].0@),
        entries_map(s)[s[i].0@] == s[i].1@,
{
    let k = s[i].0@;
    let j = entries_index_of(s, k);
    assert(0 <= j < s.len() && s[j].0@ == k);
    if i != j {
        assert(s[i].0@ != s[j].0@);
    }
}

/// A key in the map names some entry of the list.
proof fn lemma_entries_map_contains(s: Seq<(Vec<u8>, Vec<u8>)>, k: Seq<u8>)
    requires
        entries_map(s).dom().contains(k),
    ensures
        exists|i: int| 0 <= i < s.len() && s[i].0@ == k,
{
}

/// The domain of the map is the (finite) set of keys of the list.
proof fn lemma_entries_map_finite(s: Seq<(Vec<u8>, Vec<u8>)>)
    ensures
        entries_map(s).dom().finite(),
{
    broadcast use vstd::seq_lib::seq_to_set_is_finite;

    let keys = s.map_values(|e: (Vec<u8>, Vec<u8>)| e.0@);
    assert(entries_map(s).dom() =~= keys.to_set()) by {
        assert forall|k: Seq<u8>| entries_map(s).dom().contains(k) implies keys.to_set()
            .contains(k) by {
            let i = choose|i: int| 0 <= i < s.len() && s[i].0@ == k;
            assert(keys[i] == k);
        }
        assert forall|k: Seq<u8>| keys.to_set().contains(k) implies entries_map(s).dom()
            .contains(k) by {
            let i = choose|i: int| 0 <= i < keys.len() && keys[i] == k;
            assert(s[i].0@ == k);
        }
    }
    assert(keys.to_set().finite());
}

/// An in-memory implementation of the store boundary, for tests and for
/// tables that need no persistence.
pub struct VecStore {
    entries: Vec<(Vec<u8>, Vec<u8>)>,
}

impl VecStore {
    #[verifier::type_invariant]
    closed spec fn wf(&self) -> bool {
        entries_distinct(self.entries@)
    }

    /// Creates an empty store.
    pub fn new() -> (r: VecStore)
        ensures
            r.contents() =~= Map::empty(),
    {
        VecStore { entries: Vec::new() }
    }

    /// Index of the entry holding `key`, if any.
    fn find(&self, key: &[u8]) -> (r: Option<usize>)
        ensures
            match r {
                Some(i) => i < self.entries@.len() && self.entries@[i as int].0@ == key@,
                None => forall|i: int|
                    0 <= i < self.entries@.len() ==> self.entries@[i].0@ != key@,
            },
    {
        let mut i: usize = 0;
        let n = self.entries.len();
        while i < n
            invariant
                i <= n,
                n == self.entries@.len(),
                forall|j: int| 0 <= j < i ==> self.entries@[j].0@ != key@,
            decreases n - i,
        {
            if bytes_eq(self.entries[i].0.as_slice(), key) {
                return Some(i);
            }
            i = i + 1;
        }
        None
    }
}

/// Whether `k` lies within the scanned side of `bound` (`None`: no bound).
spec fn scan_matches(k: Seq<u8>, bound: Option<Seq<u8>>, forward: bool, strict: bool) -> bool {
    match bound {
        Option::None => true,
        Option::Some(b) => if forward {
            if strict {
                lex_lt(b, k)
            } else {
                lex_le(b, k)
            }
        } else {
            if strict {
                lex_lt(k, b)
            } else {
                lex_le(k, b)
            }
        },
    }
}

/// The view of an optional byte-slice bound.
spec fn bound_view(bound: Option<&[u8]>) -> Option<Seq<u8>> {
    match bound {
        Option::None => Option::None,
        Option::Some(b) => Option::Some(b@),
    }
}

impl VecStore {
    /// The extreme (least for forward scans, greatest for reverse ones)
    /// entry among those on the scanned side of `bound`.
    fn scan_extreme(&self, bound: Option<&[u8]>, forward: bool, strict: bool) -> (r: Option<
        (Vec<u8>, Vec<u8>),
    >)
        requires
            self.wf(),
        ensures
            match r {
                Some(kv) => {
                    &&& self.contents().dom().contains(kv.0@)
                    &&& kv.1@ == self.contents()[kv.0@]
                    &&& scan_matches(kv.0@, bound_view(bound), forward, strict)
                    &&& forall|j: Seq<u8>|
                        self.contents().dom().contains(j) && scan_matches(
                            j,
                            bound_view(bound),
                            forward,
                            strict,
                        ) ==> (if forward {
                            lex_le(kv.0@, j)
                        } else {
                            lex_le(j, kv.0@)
                        })
                },
                None => forall|j: Seq<u8>|
                    self.contents().dom().contains(j) ==> !scan_matches(
                        j,
                        bound_view(bound),
                        forward,
                        strict,
                    ),
            },
    {
        let ghost bv = bound_view(bound);
        let mut best: Option<usize> = None;
        let mut i: usize = 0;
        let n = self.entries.len();
        while i < n
            invariant
                i <= n,
                n == self.entries@.len(),
                self.wf(),
                bv == bound_view(bound),
                match best {
                    Some(b) => {
                        &&& b < i
                        &&& scan_matches(self.entries@[b as int].0@, bv, forward, strict)
                        &&& forall|j: int|
                            0 <= j < i && scan_matches(
                                self.entries@[j].0@,
                                bv,
                                forward,
                                strict,
                            ) ==> (if forward {
                                lex_le(self.entries@[b as int].0@, self.entries@[j].0@)
                            } else {
                                lex_le(self.entries@[j].0@, self.entries@[b as int].0@)
                            })
                    },
                    None => forall|j: int|
                        0 <= j < i ==> !scan_matches(self.entries@[j].0@, bv, forward, strict),
                },
            decreases n - i,
        {
            let ghost prev_best = best;
            let k = self.entries[i].0.as_slice();
            let matches = match bound {
                Option::None => true,
                Option::Some(b) => {
                    proof {
                        lemma_lex_trichotomy(k@, b@);
                    }
                    if forward {
                        if strict {
                            bytes_lex_lt(b, k)
                        } else {
                            !bytes_lex_lt(k, b)
                        }
                    } else {
                        if strict {
                            bytes_lex_lt(k, b)
                        } else {
                            !bytes_lex_lt(b, k)
                        }
                    }
                },
            };
            if matches {
                let better = match best {
                    Some(b) => {
                        let bk = self.entries[b].0.as_slice();
                        if forward {
                            bytes_lex_lt(k, bk)
                        } else {
                            bytes_lex_lt(bk, k)
                        }
                    },
                    None => true,
                };
                if better {
                    best = Some(i);
                    proof {
                        if prev_best is Some {
                            let pb = prev_best.unwrap() as int;
                            let kb = self.entries@[pb].0@;
                            let ki = self.entries@[i as int].0@;
                            assert forall|j: int|
                                0 <= j < i + 1 && scan_matches(
                                    self.entries@[j].0@,
                                    bv,
                                    forward,
                                    strict,
                                ) implies (if forward {
                                lex_le(ki, self.entries@[j].0@)
                            } else {
                                lex_le(self.entries@[j].0@, ki)
                            }) by {
                                if j < i {
                                    let kj = self.entries@[j].0@;
                                    if forward {
                                        lemma_lex_le_transitive(ki, kb, kj);
                                    } else {
                                        lemma_lex_le_transitive(kj, kb, ki);
                                    }
                                }
                            }
                        }
                    }
                } else {
                    proof {
                        let pb = best.unwrap() as int;
                        lemma_lex_trichotomy(self.entries@[pb].0@, self.entries@[i as int].0@);
                    }
                }
            }
            i = i + 1;
        }
        match best {
            Some(b) => {
                let kv = (
                    vstd::slice::slice_to_vec(self.entries[b].0.as_slice()),
                    vstd::slice::slice_to_vec(self.entries[b].1.as_slice()),
                );
                proof {
                    lemma_entries_map_at(self.entries@, b as int);
                    assert forall|j: Seq<u8>|
                        self.contents().dom().contains(j) && scan_matches(
                            j,
                            bv,
                            forward,
                            strict,
                        ) implies (if forward {
                        lex_le(self.entries@[b as int].0@, j)
                    } else {
                        lex_le(j, self.entries@[b as int].0@)
                    }) by {
                        lemma_entries_map_contains(self.entries@, j);
                    }
                }
                Some(kv)
            },
            None => {
                proof {
                    assert forall|j: Seq<u8>|
                        self.contents().dom().contains(j) implies !scan_matches(
                        j,
                        bv,
                        forward,
                        strict,
                    ) by {
                        lemma_entries_map_contains(self.entries@, j);
                    }
                }
                None
            },
        }
    }
}

impl Store for VecStore {
    closed spec fn contents(&self) -> Map<Seq<u8>, Seq<u8>> {
        entries_map(self.entries@)
    }

    proof fn lemma_finite(&self) {
        lemma_entries_map_finite(self.entries@);
    }

    fn get(&self, key: &[u8]) -> (r: Result<Option<Vec<u8>>, Error>) {
        proof {
            use_type_invariant(&*self);
        }
        match self.find(key) {
            Some(i) => {
                proof {
                    lemma_entries_map_at(self.entries@, i as int);
                }
                Ok(Some(vstd::slice::slice_to_vec(self.entries[i].1.as_slice())))
            },
            None => {
                proof {
                    if self.contents().dom().contains(key@) {
                        lemma_entries_map_contains(self.entries@, key@);
                    }
                }
                Ok(None)
            },
        }
    }

    fn put(&mut self, key: &[u8], value: &[u8]) -> (r: Result<(), Error>) {
        proof {
            use_type_invariant(&*self);
        }
        let k = vstd::slice::slice_to_vec(key);
        let v = vstd::slice::slice_to_vec(value);
        let found = self.find(key);
        let ghost old_entries = self.entries@;
        let mut entries: Vec<(Vec<u8>, Vec<u8>)> = Vec::new();
        core::mem::swap(&mut entries, &mut self.entries);
        match found {
            Some(i) => {
                entries.set(i, (k, v));
                proof {
                    assert(entries_distinct(entries@)) by {
                        assert forall|p: int, q: int|
                            0 <= p < q < entries@.len() implies entries@[p].0@ != entries@[
                            q
                        ].0@ by {
                            assert(old_entries[p].0@ != old_entries[q].0@);
                        }
                    }
                    lemma_put_update(old_entries, entries@, i as int, key@, value@);
                }
            },
            None => {
                entries.push((k, v));
                proof {
                    assert(entries_distinct(entries@)) by {
                        assert forall|p: int, q: int|
                            0 <= p < q < entries@.len() implies entries@[p].0@ != entries@[
                            q
                        ].0@ by {
                            if q < entries@.len() - 1 {
                                assert(old_entries[p].0@ != old_entries[q].0@);
                            } else {
                                assert(old_entries[p].0@ != key@);
                            }
                        }
                    }
                    lemma_put_append(old_entries, entries@, key@, value@);
                }
            },
        }
        self.entries = entries;
        Ok(())
    }

    fn delete(&mut self, key: &[u8]) -> (r: Result<(), Error>) {
        proof {
            use_type_invariant(&*self);
        }
        let found = self.find(key);
        let ghost old_entries = self.entries@;
        match found {
            Some(i) => {
                let mut entries: Vec<(Vec<u8>, Vec<u8>)> = Vec::new();
                core::mem::swap(&mut entries, &mut self.entries);
                entries.remove(i);
                proof {
                    assert(entries_distinct(entries@)) by {
                        assert forall|p: int, q: int|
                            0 <= p < q < entries@.len() implies entries@[p].0@ != entries@[
                            q
                        ].0@ by {
                            let p0: int = if p < i {
                                p
                            } else {
                                p + 1
                            };
                            let q0: int = if q < i {
                                q
                            } else {
                                q + 1
                            };
                            assert(old_entries[p0].0@ != old_entries[q0].0@);
                        }
                    }
                    lemma_delete_remove(old_entries, entries@, i as int, key@);
                }
                self.entries = entries;
                Ok(())
            },
            None => {
                proof {
                    assert(entries_map(old_entries) =~= entries_map(old_entries).remove(key@))
                        by {
                        if entries_map(old_entries).dom().contains(key@) {
                            lemma_entries_map_contains(old_entries, key@);
                        }
                    }
                }
                Ok(())
            },
        }
    }

    fn first_at_or_after(&self, lower: &[u8]) -> (r: Result<Option<(Vec<u8>, Vec<u8>)>, Error>) {
        proof {
            use_type_invariant(&*self);
        }
        Ok(self.scan_extreme(Some(lower), true, false))
    }

    fn first_after(&self, lower: &[u8]) -> (r: Result<Option<(Vec<u8>, Vec<u8>)>, Error>) {
        proof {
            use_type_invariant(&*self);
        }
        Ok(self.scan_extreme(Some(lower), true, true))
    }

    fn last_at_or_before(&self, upper: &[u8]) -> (r: Result<Option<(Vec<u8>, Vec<u8>)>, Error>) {
        proof {
            use_type_invariant(&*self);
        }
        Ok(self.scan_extreme(Some(upper), false, false))
    }

    fn last_before(&self, upper: &[u8]) -> (r: Result<Option<(Vec<u8>, Vec<u8>)>, Error>) {
        proof {
            use_type_invariant(&*self);
        }
        Ok(self.scan_extreme(Some(upper), false, true))
    }

    fn last(&self) -> (r: Result<Option<(Vec<u8>, Vec<u8>)>, Error>) {
        proof {
            use_type_invariant(&*self);
        }
        let r = self.scan_extreme(None, false, false);
        proof {
            if r is None {
                assert forall|j: Seq<u8>| !self.contents().dom().contains(j) by {
                    if self.contents().dom().contains(j) {
                        assert(!scan_matches(j, Option::None, false, false));
                    }
                }
                assert(self.contents().dom() =~= Set::empty());
            }
        }
        Ok(r)
    }
}

/// Replacing the entry at `i` updates the map at its key.
proof fn lemma_put_update(
    s0: Seq<(Vec<u8>, Vec<u8>)>,
    s1: Seq<(Vec<u8>, Vec<u8>)>,
    i: int,
    k: Seq<u8>,
    v: Seq<u8>,
)
    requires
        entries_distinct(s0),
        entries_distinct(s1),
        0 <= i < s0.len(),
        s1.len() == s0.len(),
        s0[i].0@ == k,
        s1[i].0@ == k,
        s1[i].1@ == v,
        forall|j: int| 0 <= j < s0.len() && j != i ==> s1[j] == s0[j],
    ensures
        entries_map(s1) =~= entries_map(s0).insert(k, v),
{
    assert forall|k2: Seq<u8>| entries_map(s1).dom().contains(k2) <==> entries_map(
        s0,
    ).insert(k, v).dom().contains(k2) by {
        if entries_map(s1).dom().contains(k2) {
            let j = choose|j: int| 0 <= j < s1.len() && s1[j].0@ == k2;
            if j != i {
                lemma_entries_map_at(s0, j);
            }
        }
        if entries_map(s0).insert(k, v).dom().contains(k2) {
            if k2 == k {
                lemma_entries_map_at(s1, i);
            } else {
                let j = choose|j: int| 0 <= j < s0.len() && s0[j].0@ == k2;
                lemma_entries_map_at(s1, j);
            }
        }
    }
    assert forall|k2: Seq<u8>| entries_map(s1).dom().contains(k2) implies entries_map(s1)[k2]
        == entries_map(s0).insert(k, v)[k2] by {
        let j = choose|j: int| 0 <= j < s1.len() && s1[j].0@ == k2;
        lemma_entries_map_at(s1, j);
        if k2 == k {
            if j != i {
                assert(s1[j].0@ != s1[i].0@);
            }
        } else {
            lemma_entries_map_at(s0, j);
        }
    }
}

/// Appending a fresh key inserts it into the map.
proof fn lemma_put_append(
    s0: Seq<(Vec<u8>, Vec<u8>)>,
    s1: Seq<(Vec<u8>, Vec<u8>)>,
    k: Seq<u8>,
    v: Seq<u8>,
)
    requires
        entries_distinct(s0),
        entries_distinct(s1),
        s1.len() == s0.len() + 1,
        s1[s0.len() as int].0@ == k,
        s1[s0.len() as int].1@ == v,
        forall|j: int| 0 <= j < s0.len() ==> s1[j] == s0[j],
        forall|j: int| 0 <= j < s0.len() ==> s0[j].0@ != k,
    ensures
        entries_map(s1) =~= entries_map(s0).insert(k, v),
{
    assert forall|k2: Seq<u8>| entries_map(s1).dom().contains(k2) <==> entries_map(
        s0,
    ).insert(k, v).dom().contains(k2) by {
        if entries_map(s1).dom().contains(k2) {
            let j = choose|j: int| 0 <= j < s1.len() && s1[j].0@ == k2;
            if j < s0.len() {
                lemma_entries_map_at(s0, j);
            }
        }
        if entries_map(s0).insert(k, v).dom().contains(k2) {
            if k2 == k {
                lemma_entries_map_at(s1, s0.len() as int);
            } else {
                let j = choose|j: int| 0 <= j < s0.len() && s0[j].0@ == k2;
                lemma_entries_map_at(s1, j);
            }
        }
    }
    assert forall|k2: Seq<u8>| entries_map(s1).dom().contains(k2) implies entries_map(s1)[k2]
        == entries_map(s0).insert(k, v)[k2] by {
        let j = choose|j: int| 0 <= j < s1.len() && s1[j].0@ == k2;
        lemma_entries_map_at(s1, j);
        if k2 == k {
            if j != s0.len() {
                assert(s1[j].0@ != s1[s0.len() as int].0@);
            }
        } else {
            lemma_entries_map_at(s0, j);
        }
    }
}

/// Removing the entry at `i` removes its key from the map.
proof fn lemma_delete_remove(
    s0: Seq<(Vec<u8>, Vec<u8>)>,
    s1: Seq<(Vec<u8>, Vec<u8>)>,
    i: int,
    k: Seq<u8>,
)
    requires
        entries_distinct(s0),
        entries_distinct(s1),
        0 <= i < s0.len(),
        s0[i].0@ == k,
        s1.len() == s0.len() - 1,
        forall|j: int| 0 <= j < i ==> s1[j] == s0[j],
        forall|j: int| i <= j < s1.len() ==> s1[j] == s0[j + 1],
    ensures
        entries_map(s1) =~= entries_map(s0).remove(k),
{
    assert forall|k2: Seq<u8>| entries_map(s1).dom().contains(k2) <==> entries_map(s0).remove(
        k,
    ).dom().contains(k2) by {
        if entries_map(s1).dom().contains(k2) {
            let j = choose|j: int| 0 <= j < s1.len() && s1[j].0@ == k2;
            let j0: int = if j < i {
                j
            } else {
                j + 1
            };
            lemma_entries_map_at(s0, j0);
            if k2 == k {
                assert(s0[j0].0@ != s0[i].0@);
            }
        }
        if entries_map(s0).remove(k).dom().contains(k2) {
            let j = choose|j: int| 0 <= j < s0.len() && s0[j].0@ == k2;
            if j != i {
                let j1: int = if j < i {
                    j
                } else {
                    j - 1
                };
                lemma_entries_map_at(s1, j1);
            }
        }
    }
    assert forall|k2: Seq<u8>| entries_map(s1).dom().contains(k2) implies entries_map(s1)[k2]
        == entries_map(s0).remove(k)[k2] by {
        let j = choose|j: int| 0 <= j < s1.len() && s1[j].0@ == k2;
        lemma_entries_map_at(s1, j);
        let j0: int = if j < i {
            j
        } else {
            j + 1
        };
        lemma_entries_map_at(s0, j0);
    }
}

/// A store wrapper that makes a planned stretch of writes fail, for
/// exercising the failure-recovery paths of the tables: the first
/// `ok_writes` writes go through, the next `failing_writes` fail without
/// touching the store, and everything after that goes through again.
pub struct FaultStore<S> {
    inner: S,
    ok_writes: usize,
    failing_writes: usize,
}

impl<S: Store> FaultStore<S> {
    /// How many write failures are still planned.
    pub closed spec fn pending_failures(&self) -> nat {
        self.failing_writes as nat
    }

    /// Wraps a store; no failures are planned.
    pub fn new(inner: S) -> (r: FaultStore<S>)
        ensures
            r.contents() == inner.contents(),
            r.pending_failures() == 0,
    {
        FaultStore { inner, ok_writes: 0, failing_writes: 0 }
    }

    /// Wraps a store with a failure plan: `ok_writes` writes succeed, then
    /// `failing_writes` writes fail, then writes succeed again. Reads are
    /// never affected.
    pub fn with_plan(inner: S, ok_writes: usize, failing_writes: usize) -> (r: FaultStore<S>)
        ensures
            r.contents() == inner.contents(),
            r.pending_failures() == failing_writes,
    {
        FaultStore { inner, ok_writes, failing_writes }
    }
}

impl<S: Store> Store for FaultStore<S> {
    closed spec fn contents(&self) -> Map<Seq<u8>, Seq<u8>> {
        self.inner.contents()
    }

    proof fn lemma_finite(&self) {
        self.inner.lemma_finite();
    }

    fn get(&self, key: &[u8]) -> (r: Result<Option<Vec<u8>>, Error>) {
        self.inner.get(key)
    }

    fn put(&mut self, key: &[u8], value: &[u8]) -> (r: Result<(), Error>) {
        if self.ok_writes > 0 {
            self.ok_writes = self.ok_writes - 1;
            self.inner.put(key, value)
        } else if self.failing_writes > 0 {
            self.failing_writes = self.failing_writes - 1;
            Err(Error::StoreError("injected write failure".to_owned()))
        } else {
            self.inner.put(key, value)
        }
    }

    fn delete(&mut self, key: &[u8]) -> (r: Result<(), Error>) {
        if self.ok_writes > 0 {
            self.ok_writes = self.ok_writes - 1;
            self.inner.delete(key)
        } else if self.failing_writes > 0 {
            self.failing_writes = self.failing_writes - 1;
            Err(Error::StoreError("injected write failure".to_owned()))
        } else {
            self.inner.delete(key)
        }
    }

    fn first_at_or_after(&self, lower: &[u8]) -> (r: Result<Option<(Vec<u8>, Vec<u8>)>, Error>) {
        self.inner.first_at_or_after(lower)
    }

    fn first_after(&self, lower: &[u8]) -> (r: Result<Option<(Vec<u8>, Vec<u8>)>, Error>) {
        self.inner.first_after(lower)
    }

    fn last_at_or_before(&self, upper: &[u8]) -> (r: Result<Option<(Vec<u8>, Vec<u8>)>, Error>) {
        self.inner.last_at_or_before(upper)
    }

    fn last_before(&self, upper: &[u8]) -> (r: Result<Option<(Vec<u8>, Vec<u8>)>, Error>) {
        self.inner.last_before(upper)
    }

    fn last(&self) -> (r: Result<Option<(Vec<u8>, Vec<u8>)>, Error>) {
        self.inner.last()
    }
}

} // verus!
