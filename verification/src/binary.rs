//! Delayed-decoding payload wrappers.
//!
//! A [`Binary`] (and its encrypted sibling [`Crypted`]) holds a value in
//! its serialized form, borrowed from the wire or owned, so that one record
//! can embed another without decoding it until it is asked for.

use crate::adapt_to_db::{AdaptToDb, delimit, delimited, lemma_delimited_order,
    lemma_delimited_prefix_free, undelimit_prefix};
use crate::lex::lex_lt;
use crate::encrypt::Encrypt;
use crate::error::Error;
use vstd::prelude::*;

verus! {

/// Bytes that are either borrowed from elsewhere or owned by the wrapper.
enum Data<'a> {
    Owned(Vec<u8>),
    Ref(&'a [u8]),
}

impl<'a> Data<'a> {
    spec fn data_bytes(&self) -> Seq<u8> {
        match self {
            Data::Owned(v) => v@,
            Data::Ref(v) => v@,
        }
    }

    fn as_bytes(&self) -> (r: &[u8])
        ensures
            r@ == self.data_bytes(),
    {
        match self {
            Data::Owned(v) => v.as_slice(),
            Data::Ref(v) => v,
        }
    }

    fn as_ref(&self) -> (r: Data<'_>)
        ensures
            r.data_bytes() == self.data_bytes(),
    {
        Data::Ref(self.as_bytes())
    }

    fn to_owned(&self) -> (r: Data<'static>)
        ensures
            r.data_bytes() == self.data_bytes(),
    {
        Data::Owned(vstd::slice::slice_to_vec(self.as_bytes()))
    }
}

/// A value kept in its serialized form, decoded only on demand.
pub struct Binary<'a>(Data<'a>);

impl<'a> View for Binary<'a> {
    type V = Seq<u8>;

    closed spec fn view(&self) -> Seq<u8> {
        self.0.data_bytes()
    }
}

impl<'a> Binary<'a> {
    /// Serializes a value into an owned payload.
    pub fn with_ref<T: AdaptToDb>(value: &T) -> (r: Result<Binary<'a>, Error>)
        ensures
            match r {
                Ok(b) => b@ == value.db_bytes(),
                Err(_) => false,
            },
    {
        Ok(Binary(Data::Owned(value.to_db())))
    }

    /// The payload's serialized bytes.
    pub fn as_bytes(&self) -> (r: &[u8])
        ensures
            r@ == self@,
    {
        self.0.as_bytes()
    }

    /// A non-owning view over the same bytes.
    pub fn as_ref(&self) -> (r: Binary<'_>)
        ensures
            r@ == self@,
    {
        Binary(self.0.as_ref())
    }

    /// Decodes the payload.
    pub fn to_inner<T: AdaptToDb>(&self) -> (r: Result<T, Error>)
        ensures
            match r {
                Ok(v) => v.db_wf() && v.db_bytes() == self@,
                Err(e) => e is Serialize && (forall|v: T| v.db_wf() ==> v.db_bytes() != self@),
            },
    {
        T::from_db(self.0.as_bytes())
    }
}

/// A value kept in its serialized and encrypted form, decrypted and decoded
/// only on demand.
pub struct Crypted<'a>(Data<'a>);

impl<'a> View for Crypted<'a> {
    type V = Seq<u8>;

    closed spec fn view(&self) -> Seq<u8> {
        self.0.data_bytes()
    }
}

impl<'a> Crypted<'a> {
    /// Serializes a value and seals it under the given nonce.
    pub fn with_ref<T: AdaptToDb, E: Encrypt>(value: &T, nonce: &[u8], cypher: &E) -> (r: Result<
        Crypted<'static>,
        Error,
    >)
        ensures
            match r {
                Ok(c) => c@ == cypher.enc_spec(value.db_bytes(), nonce@) && cypher.dec_spec(
                    c@,
                    nonce@,
                ) == Some(value.db_bytes()),
                Err(e) => e is Crypto,
            },
    {
        let bytes = value.to_db();
        match cypher.encrypt(bytes.as_slice(), nonce) {
            Ok(ct) => Ok(Crypted(Data::Owned(ct))),
            Err(e) => Err(e),
        }
    }

    /// A non-owning view over the same bytes.
    pub fn as_ref(&self) -> (r: Crypted<'_>)
        ensures
            r@ == self@,
    {
        Crypted(self.0.as_ref())
    }

    /// Opens the payload under the given nonce and decodes it.
    pub fn to_inner<T: AdaptToDb, E: Encrypt>(&self, nonce: &[u8], cypher: &E) -> (r: Result<
        T,
        Error,
    >)
        ensures
            match r {
                Ok(v) => v.db_wf() && cypher.dec_spec(self@, nonce@) == Some(v.db_bytes())
                    && cypher.enc_spec(v.db_bytes(), nonce@) == self@,
                Err(e) => {
                    &&& (e is Crypto || e is Serialize)
                    &&& (e is Crypto ==> cypher.dec_spec(self@, nonce@) is None)
                    &&& (e is Serialize ==> cypher.dec_spec(self@, nonce@) is Some && (forall|
                        v: T,
                    |
                        v.db_wf() ==> Some(v.db_bytes()) != cypher.dec_spec(self@, nonce@)))
                    &&& ((forall|pt: Seq<u8>| #[trigger] cypher.enc_spec(pt, nonce@) != self@)
                        ==> e is Crypto)
                },
            },
    {
        let plain = match cypher.decrypt(self.0.as_bytes(), nonce) {
            Ok(p) => p,
            Err(e) => {
                return Err(e);
            },
        };
        T::from_db(plain.as_slice())
    }

    /// Copies the payload into owned storage, extending its lifetime.
    pub fn to_owned(&self) -> (r: Crypted<'static>)
        ensures
            r@ == self@,
    {
        Crypted(self.0.to_owned())
    }
}

impl<'a> AdaptToDb for Binary<'a> {
    open spec fn db_bytes(&self) -> Seq<u8> {
        delimited(self@)
    }

    open spec fn db_wf(&self) -> bool {
        true
    }

    open spec fn db_lt(&self, other: &Self) -> bool {
        lex_lt(self@, other@)
    }

    fn to_db(&self) -> (r: Vec<u8>) {
        delimit(self.0.as_bytes())
    }

    fn from_db_prefix(bytes: &[u8]) -> (r: Result<(Self, usize), Error>) {
        match undelimit_prefix(bytes) {
            Ok((v, n)) => Ok((Binary(Data::Owned(v)), n)),
            Err(e) => {
                proof {
                    assert forall|v: Binary<'a>, n: int|
                        v.db_wf() && 0 <= n <= bytes@.len() implies v.db_bytes()
                        != bytes@.subrange(0, n) by {
                        assert(delimited(v@) != bytes@.subrange(0, n));
                    }
                }
                Err(e)
            },
        }
    }

    proof fn lemma_prefix_free(a: &Self, b: &Self) {
        lemma_delimited_prefix_free(a@, b@);
    }

    proof fn lemma_lt_order(a: &Self, b: &Self) {
        lemma_delimited_order(a@, b@);
    }
}

impl<'a> AdaptToDb for Crypted<'a> {
    open spec fn db_bytes(&self) -> Seq<u8> {
        delimited(self@)
    }

    open spec fn db_wf(&self) -> bool {
        true
    }

    open spec fn db_lt(&self, other: &Self) -> bool {
        lex_lt(self@, other@)
    }

    fn to_db(&self) -> (r: Vec<u8>) {
        delimit(self.0.as_bytes())
    }

    fn from_db_prefix(bytes: &[u8]) -> (r: Result<(Self, usize), Error>) {
        match undelimit_prefix(bytes) {
            Ok((v, n)) => Ok((Crypted(Data::Owned(v)), n)),
            Err(e) => {
                proof {
                    assert forall|v: Crypted<'a>, n: int|
                        v.db_wf() && 0 <= n <= bytes@.len() implies v.db_bytes()
                        != bytes@.subrange(0, n) by {
                        assert(delimited(v@) != bytes@.subrange(0, n));
                    }
                }
                Err(e)
            },
        }
    }

    proof fn lemma_prefix_free(a: &Self, b: &Self) {
        lemma_delimited_prefix_free(a@, b@);
    }

    proof fn lemma_lt_order(a: &Self, b: &Self) {
        lemma_delimited_order(a@, b@);
    }
}

} // verus!
