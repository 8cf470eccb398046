//! The smallest representable value of a key type, used as the lower bound
//! of sectioned range scans.

use crate::adapt_to_db::{AdaptToDb, delimited, lemma_delimited_order};
use crate::be::{be_bytes, lemma_be_bytes_len};
use crate::lex::{lex_le, lex_lt};
use vstd::prelude::*;

verus! {

/// A key type with a smallest value under the domain ordering: no encoding
/// of the type comes before the smallest value's encoding.
pub trait MinValue: AdaptToDb {
    /// The encoding of the smallest representable value.
    spec fn min_bytes() -> Seq<u8>;

    /// The smallest representable value.
    fn min_value() -> (r: Self)
        ensures
            r.db_wf(),
            r.db_bytes() == Self::min_bytes(),
            forall|other: Self|
                #[trigger] other.db_wf() ==> lex_le(Self::min_bytes(), other.db_bytes()),
    ;
}

/// An all-zero byte string comes no later than any byte string at least as
/// long.
proof fn lemma_zeros_lex_le(n: nat, s: Seq<u8>)
    requires
        n <= s.len(),
    ensures
        lex_le(Seq::new(n, |i: int| 0u8), s),
    decreases n,
{
    let z = Seq::new(n, |i: int| 0u8);
    if n == 0 {
        if s.len() == 0 {
            assert(z =~= s);
        }
    } else {
        if s[0] == 0 {
            lemma_zeros_lex_le((n - 1) as nat, s.drop_first());
            assert(z.drop_first() =~= Seq::new((n - 1) as nat, |i: int| 0u8));
            if z.drop_first() == s.drop_first() {
                assert(z.len() == s.len());
                assert forall|i: int| 0 <= i < z.len() implies z[i] == s[i] by {
                    if i > 0 {
                        assert(z.drop_first()[i - 1] == s.drop_first()[i - 1]);
                    }
                }
                assert(z =~= s);
            }
        }
    }
}

/// The encoding of zero is all zero bytes.
proof fn lemma_be_zero(len: nat)
    ensures
        be_bytes(0, len) =~= Seq::new(len, |i: int| 0u8),
    decreases len,
{
    if len > 0 {
        lemma_be_zero((len - 1) as nat);
    }
}

impl MinValue for u64 {
    open spec fn min_bytes() -> Seq<u8> {
        be_bytes(0, 8)
    }

    fn min_value() -> (r: Self) {
        proof {
            lemma_be_bytes_len(0, 8);
            lemma_be_zero(8);
            assert forall|other: u64| #[trigger] other.db_wf() implies lex_le(
                (0u64).db_bytes(),
                other.db_bytes(),
            ) by {
                lemma_be_bytes_len(other as nat, 8);
                lemma_zeros_lex_le(8, other.db_bytes());
            }
        }
        0
    }
}

impl MinValue for u32 {
    open spec fn min_bytes() -> Seq<u8> {
        be_bytes(0, 4)
    }

    fn min_value() -> (r: Self) {
        proof {
            lemma_be_bytes_len(0, 4);
            lemma_be_zero(4);
            assert forall|other: u32| #[trigger] other.db_wf() implies lex_le(
                (0u32).db_bytes(),
                other.db_bytes(),
            ) by {
                lemma_be_bytes_len(other as nat, 4);
                lemma_zeros_lex_le(4, other.db_bytes());
            }
        }
        0
    }
}

/// The empty payload's wire form comes no later than any other payload's.
proof fn lemma_delimited_min(s: Seq<u8>)
    ensures
        lex_le(delimited(Seq::<u8>::empty()), delimited(s)),
{
    if s.len() == 0 {
        assert(delimited(Seq::<u8>::empty()) =~= delimited(s));
    } else {
        assert(lex_lt(Seq::<u8>::empty(), s));
        lemma_delimited_order(Seq::<u8>::empty(), s);
    }
}

impl MinValue for String {
    open spec fn min_bytes() -> Seq<u8> {
        delimited(Seq::<u8>::empty())
    }

    fn min_value() -> (r: Self) {
        let r = String::new();
        proof {
            assert(vstd::utf8::encode_utf8(r@) =~= Seq::<u8>::empty());
            assert forall|other: String| #[trigger] other.db_wf() implies lex_le(
                Self::min_bytes(),
                other.db_bytes(),
            ) by {
                lemma_delimited_min(vstd::utf8::encode_utf8(other@));
            }
        }
        r
    }
}

impl MinValue for Vec<u8> {
    open spec fn min_bytes() -> Seq<u8> {
        delimited(Seq::<u8>::empty())
    }

    fn min_value() -> (r: Self) {
        let r: Vec<u8> = Vec::new();
        proof {
            assert(r@ =~= Seq::<u8>::empty());
            assert forall|other: Vec<u8>| #[trigger] other.db_wf() implies lex_le(
                Self::min_bytes(),
                other.db_bytes(),
            ) by {
                lemma_delimited_min(other@);
            }
        }
        r
    }
}

} // verus!
