//! The codec capability: a canonical, order-preserving byte form for domain
//! types.
//!
//! Every key and value type of the tables implements [`AdaptToDb`]. The
//! encoding is *prefix-free* (no encoding is a proper prefix of another),
//! which makes concatenated composite keys uniquely decodable, and it
//! *preserves the domain order* byte-lexicographically, which is what makes
//! range scans over encoded keys meaningful.
//!
//! Unsigned integers encode as fixed-width big-endian bytes; signed integers
//! are offset by half their range first, so that byte order matches numeric
//! order over the whole range; byte strings and text are escaped and
//! terminated so that their plain byte-lexicographic order carries over to
//! the wire unchanged.

use crate::be::{be_bytes, be_encode, be_decode, be_val, pow256, lemma_be_bytes_len,
    lemma_be_bytes_be_val, lemma_be_val_bound, lemma_be_bytes_order, lemma_pow256_bounds};
use crate::error::Error;
use crate::lex::{lex_lt, is_prefix, lemma_lex_lt_append_both, lemma_lex_lt_common_prefix,
    lemma_lex_lt_irreflexive};
use vstd::prelude::*;
use vstd::string::{StrSliceExecFns, StringSliceAdditionalSpecFns};

verus! {

/// A type with a canonical, prefix-free, order-preserving byte encoding.
pub trait AdaptToDb: Sized {
    /// The canonical byte encoding of this value.
    spec fn db_bytes(&self) -> Seq<u8>;

    /// Whether the value is small enough to encode at run time. Every value
    /// produced or consumed by the executable codec satisfies this; only
    /// unbounded ghost values can fall outside it.
    spec fn db_wf(&self) -> bool;

    /// The domain ordering that the byte encoding preserves.
    spec fn db_lt(&self, other: &Self) -> bool;

    /// Encodes the value into bytes.
    fn to_db(&self) -> (r: Vec<u8>)
        ensures
            r@ == self.db_bytes(),
            self.db_wf(),
    ;

    /// Decodes one value from the front of `bytes`, returning it together
    /// with the number of bytes it occupied.
    fn from_db_prefix(bytes: &[u8]) -> (r: Result<(Self, usize), Error>)
        ensures
            match r {
                Ok(p) => p.1 <= bytes@.len() && p.0.db_wf() && p.0.db_bytes()
                    == bytes@.subrange(0, p.1 as int),
                Err(e) => e is Serialize && (forall|v: Self, n: int|
                    #![trigger v.db_bytes(), bytes@.subrange(0, n)]
                    v.db_wf() && 0 <= n <= bytes@.len() ==> v.db_bytes() != bytes@.subrange(
                        0,
                        n,
                    )),
            },
    ;

    /// No encoding is a proper prefix of another encoding.
    proof fn lemma_prefix_free(a: &Self, b: &Self)
        requires
            a.db_wf(),
            b.db_wf(),
            is_prefix(a.db_bytes(), b.db_bytes()),
        ensures
            a.db_bytes() == b.db_bytes(),
    ;

    /// The byte encoding preserves the domain ordering.
    proof fn lemma_lt_order(a: &Self, b: &Self)
        requires
            a.db_wf(),
            b.db_wf(),
            a.db_lt(b),
        ensures
            lex_lt(a.db_bytes(), b.db_bytes()),
    ;

    /// Decodes a value from exactly the whole of `bytes`.
    fn from_db(bytes: &[u8]) -> (r: Result<Self, Error>)
        ensures
            match r {
                Ok(v) => v.db_wf() && v.db_bytes() == bytes@,
                Err(e) => e is Serialize && (forall|v: Self|
                    v.db_wf() ==> v.db_bytes() != bytes@),
            },
    {
        match Self::from_db_prefix(bytes) {
            Ok((v, n)) => {
                if n == bytes.len() {
                    proof {
                        assert(bytes@.subrange(0, bytes@.len() as int) =~= bytes@);
                    }
                    Ok(v)
                } else {
                    proof {
                        // A valid shorter prefix rules out a full-length decode.
                        assert forall|w: Self| w.db_wf() implies w.db_bytes() != bytes@ by {
                            if w.db_bytes() == bytes@ {
                                assert(is_prefix(v.db_bytes(), w.db_bytes()));
                                Self::lemma_prefix_free(&v, &w);
                            }
                        }
                    }
                    Err(Error::Serialize)
                }
            },
            Err(e) => {
                proof {
                    assert(bytes@.subrange(0, bytes@.len() as int) =~= bytes@);
                    assert forall|w: Self| w.db_wf() implies w.db_bytes() != bytes@ by {
                        assert(w.db_wf() ==> w.db_bytes() != bytes@.subrange(
                            0,
                            bytes@.len() as int,
                        ));
                    }
                }
                Err(e)
            },
        }
    }
}

/// The escaped form of a byte payload: every zero byte becomes the pair
/// 0x00 0xFF; every other byte stands as itself.
pub open spec fn escaped(s: Seq<u8>) -> Seq<u8>
    decreases s.len(),
{
    if s.len() == 0 {
        Seq::empty()
    } else if s[0] == 0 {
        seq![0u8, 0xffu8] + escaped(s.drop_first())
    } else {
        seq![s[0]] + escaped(s.drop_first())
    }
}

/// A payload in its delimited wire form: escaped, then terminated with the
/// pair 0x00 0x00. Concatenated wire forms split unambiguously (the pair
/// 0x00 0xFF is a literal zero, 0x00 0x00 the end), and plain byte order of
/// payloads is byte order of wire forms, because the terminator's second
/// byte sorts below every escaped token.
pub open spec fn delimited(s: Seq<u8>) -> Seq<u8> {
    escaped(s) + seq![0u8, 0u8]
}

/// Escaping at least keeps the length and at most doubles it.
proof fn lemma_escaped_len(s: Seq<u8>)
    ensures
        s.len() <= escaped(s).len() <= 2 * s.len(),
    decreases s.len(),
{
    if s.len() > 0 {
        lemma_escaped_len(s.drop_first());
    }
}

/// Escaping one more byte appends its token.
proof fn lemma_escaped_snoc(s: Seq<u8>, b: u8)
    ensures
        escaped(s.push(b)) == escaped(s) + (if b == 0 {
            seq![0u8, 0xffu8]
        } else {
            seq![b]
        }),
    decreases s.len(),
{
    let tok: Seq<u8> = if b == 0 {
        seq![0u8, 0xffu8]
    } else {
        seq![b]
    };
    if s.len() == 0 {
        assert((s.push(b)).len() == 1 && (s.push(b))[0] == b);
        assert(s.push(b).drop_first() =~= Seq::<u8>::empty());
        assert(escaped(s.push(b)) == tok + escaped(s.push(b).drop_first()));
        assert(escaped(s.push(b)) =~= escaped(s) + tok);
    } else {
        assert(s.push(b).drop_first() =~= s.drop_first().push(b));
        lemma_escaped_snoc(s.drop_first(), b);
        let head: Seq<u8> = if s[0] == 0 {
            seq![0u8, 0xffu8]
        } else {
            seq![s[0]]
        };
        assert(escaped(s.push(b)) == head + escaped(s.drop_first().push(b)));
        assert(head + (escaped(s.drop_first()) + tok) =~= (head + escaped(s.drop_first()))
            + tok);
    }
}

/// A payload's first token stands at the front of its wire form.
proof fn lemma_delimited_head(s: Seq<u8>)
    requires
        s.len() > 0,
    ensures
        delimited(s) =~= (if s[0] == 0 {
            seq![0u8, 0xffu8]
        } else {
            seq![s[0]]
        }) + delimited(s.drop_first()),
{
    let tok: Seq<u8> = if s[0] == 0 {
        seq![0u8, 0xffu8]
    } else {
        seq![s[0]]
    };
    assert(escaped(s) == tok + escaped(s.drop_first()));
    assert((tok + escaped(s.drop_first())) + seq![0u8, 0u8] =~= tok + (escaped(s.drop_first())
        + seq![0u8, 0u8]));
}

/// Byte order of payloads is byte order of their wire forms.
pub proof fn lemma_delimited_order(p: Seq<u8>, q: Seq<u8>)
    requires
        lex_lt(p, q),
    ensures
        lex_lt(delimited(p), delimited(q)),
    decreases p.len(),
{
    if p.len() == 0 {
        // q is nonempty; the terminator's second byte sorts below any token.
        assert(delimited(p) =~= seq![0u8, 0u8]);
        lemma_delimited_head(q);
        if q[0] == 0 {
            assert(delimited(q)[0] == 0u8 && delimited(q)[1] == 0xffu8);
            assert(delimited(p).drop_first() =~= seq![0u8]);
            assert(delimited(q).drop_first()[0] == 0xffu8);
            assert(lex_lt(delimited(p).drop_first(), delimited(q).drop_first()));
        } else {
            assert(delimited(q)[0] == q[0]);
        }
    } else {
        lemma_delimited_head(p);
        lemma_delimited_head(q);
        if p[0] == q[0] {
            lemma_delimited_order(p.drop_first(), q.drop_first());
            let tok: Seq<u8> = if p[0] == 0 {
                seq![0u8, 0xffu8]
            } else {
                seq![p[0]]
            };
            lemma_lex_lt_common_prefix(
                tok,
                delimited(p.drop_first()),
                delimited(q.drop_first()),
            );
        } else {
            // p[0] < q[0] and q[0] > 0: the first wire byte decides.
            assert(delimited(q)[0] == q[0]);
            if p[0] == 0 {
                assert(delimited(p)[0] == 0u8);
            } else {
                assert(delimited(p)[0] == p[0]);
            }
        }
    }
}

/// Distinct payloads never have one wire form a prefix of the other.
pub proof fn lemma_delimited_prefix_free(p: Seq<u8>, q: Seq<u8>)
    requires
        is_prefix(delimited(p), delimited(q)),
    ensures
        p == q,
    decreases p.len(),
{
    assert forall|i: int| 0 <= i < delimited(p).len() implies delimited(p)[i] == delimited(q)[
        i
    ] by {
        assert(delimited(p)[i] == delimited(q).subrange(0, delimited(p).len() as int)[i]);
    }
    if p.len() == 0 {
        if q.len() > 0 {
            lemma_delimited_head(q);
            assert(delimited(p) =~= seq![0u8, 0u8]);
            if q[0] == 0 {
                assert(delimited(q)[1] == 0xffu8);
            } else {
                assert(delimited(q)[0] == q[0]);
            }
        } else {
            assert(p =~= q);
        }
    } else if q.len() == 0 {
        lemma_escaped_len(p);
        assert(delimited(q) =~= seq![0u8, 0u8]);
    } else {
        lemma_delimited_head(p);
        lemma_delimited_head(q);
        let pd = p.drop_first();
        let qd = q.drop_first();
        if p[0] == 0 {
            assert(delimited(p)[0] == 0u8 && delimited(p)[1] == 0xffu8);
            assert(q[0] == 0) by {
                if q[0] != 0 {
                    assert(delimited(q)[0] == q[0]);
                }
            }
            assert(is_prefix(delimited(pd), delimited(qd))) by {
                assert forall|i: int| 0 <= i < delimited(pd).len() implies delimited(pd)[i]
                    == delimited(qd)[i] by {
                    assert(delimited(pd)[i] == delimited(p)[i + 2]);
                    assert(delimited(qd)[i] == delimited(q)[i + 2]);
                }
                assert(delimited(pd) =~= delimited(qd).subrange(
                    0,
                    delimited(pd).len() as int,
                ));
            }
            lemma_delimited_prefix_free(pd, qd);
        } else {
            assert(delimited(p)[0] == p[0]);
            assert(q[0] == p[0]) by {
                if q[0] == 0 {
                    assert(delimited(q)[0] == 0u8);
                } else {
                    assert(delimited(q)[0] == q[0]);
                }
            }
            assert(is_prefix(delimited(pd), delimited(qd))) by {
                assert forall|i: int| 0 <= i < delimited(pd).len() implies delimited(pd)[i]
                    == delimited(qd)[i] by {
                    assert(delimited(pd)[i] == delimited(p)[i + 1]);
                    assert(delimited(qd)[i] == delimited(q)[i + 1]);
                }
                assert(delimited(pd) =~= delimited(qd).subrange(
                    0,
                    delimited(pd).len() as int,
                ));
            }
            lemma_delimited_prefix_free(pd, qd);
        }
        assert forall|i: int| 0 <= i < p.len() implies p[i] == q[i] by {
            if i > 0 {
                assert(p.drop_first()[i - 1] == q.drop_first()[i - 1]);
            }
        }
        assert(p =~= q);
    }
}

/// The one way a wire form parses from the front of a byte string: the
/// payload and the bytes consumed, or nothing when no wire form starts
/// there.
pub open spec fn parse_delimited(b: Seq<u8>) -> Option<(Seq<u8>, int)>
    decreases b.len(),
{
    if b.len() == 0 {
        Option::None
    } else if b[0] != 0 {
        match parse_delimited(b.drop_first()) {
            Option::Some(r) => Option::Some((seq![b[0]] + r.0, r.1 + 1)),
            Option::None => Option::None,
        }
    } else if b.len() == 1 {
        Option::None
    } else if b[1] == 0 {
        Option::Some((Seq::empty(), 2))
    } else if b[1] == 0xff {
        match parse_delimited(b.skip(2)) {
            Option::Some(r) => Option::Some((seq![0u8] + r.0, r.1 + 2)),
            Option::None => Option::None,
        }
    } else {
        Option::None
    }
}

/// What the parse returns is a wire form standing at the front.
proof fn lemma_parse_sound(b: Seq<u8>)
    requires
        parse_delimited(b) is Some,
    ensures
        ({
            let r = parse_delimited(b).unwrap();
            &&& 2 <= r.1 <= b.len()
            &&& delimited(r.0) == b.subrange(0, r.1)
        }),
    decreases b.len(),
{
    if b[0] != 0 {
        lemma_parse_sound(b.drop_first());
        let r1 = parse_delimited(b.drop_first()).unwrap();
        let p = seq![b[0]] + r1.0;
        assert(p[0] == b[0] && p.drop_first() =~= r1.0);
        lemma_delimited_head(p);
        assert(seq![b[0]] + b.drop_first().subrange(0, r1.1) =~= b.subrange(0, r1.1 + 1));
    } else if b[1] == 0 {
        assert(delimited(Seq::<u8>::empty()) =~= seq![0u8, 0u8]);
        assert(b.subrange(0, 2) =~= seq![0u8, 0u8]);
    } else {
        lemma_parse_sound(b.skip(2));
        let r1 = parse_delimited(b.skip(2)).unwrap();
        let p = seq![0u8] + r1.0;
        assert(p[0] == 0u8 && p.drop_first() =~= r1.0);
        lemma_delimited_head(p);
        assert(seq![0u8, 0xffu8] + b.skip(2).subrange(0, r1.1) =~= b.subrange(0, r1.1 + 2));
    }
}

/// A wire form at the front is found by the parse, exactly: the parse is a
/// function, so a byte string starts at most one wire form.
pub proof fn lemma_parse_complete(p: Seq<u8>, b: Seq<u8>, n: int)
    requires
        0 <= n <= b.len(),
        delimited(p) == b.subrange(0, n),
    ensures
        parse_delimited(b) == Option::Some((p, n)),
    decreases p.len(),
{
    assert(n == delimited(p).len());
    assert forall|i: int| 0 <= i < n implies b[i] == delimited(p)[i] by {
        assert(delimited(p)[i] == b.subrange(0, n)[i]);
    }
    if p.len() == 0 {
        assert(delimited(p) =~= seq![0u8, 0u8]);
        assert(n == 2 && b[0] == 0u8 && b[1] == 0u8);
        assert(p =~= Seq::<u8>::empty());
    } else {
        lemma_delimited_head(p);
        let pd = p.drop_first();
        if p[0] != 0 {
            assert(b[0] == p[0]);
            assert(delimited(pd) =~= b.drop_first().subrange(0, n - 1)) by {
                assert forall|i: int| 0 <= i < delimited(pd).len() implies delimited(pd)[i]
                    == b.drop_first()[i] by {
                    assert(delimited(pd)[i] == delimited(p)[i + 1]);
                }
            }
            lemma_parse_complete(pd, b.drop_first(), n - 1);
            assert(seq![p[0]] + pd =~= p);
        } else {
            assert(b[0] == 0u8 && b[1] == 0xffu8);
            assert(delimited(pd) =~= b.skip(2).subrange(0, n - 2)) by {
                assert forall|i: int| 0 <= i < delimited(pd).len() implies delimited(pd)[i]
                    == b.skip(2)[i] by {
                    assert(delimited(pd)[i] == delimited(p)[i + 2]);
                }
            }
            lemma_parse_complete(pd, b.skip(2), n - 2);
            assert(seq![0u8] + pd =~= p);
        }
    }
}

/// Writes a payload in its delimited wire form.
pub(crate) fn delimit(payload: &[u8]) -> (r: Vec<u8>)
    ensures
        r@ == delimited(payload@),
{
    let mut r: Vec<u8> = Vec::new();
    let mut i: usize = 0;
    let n = payload.len();
    proof {
        assert(payload@.subrange(0, 0) =~= Seq::<u8>::empty());
    }
    while i < n
        invariant
            i <= n,
            n == payload@.len(),
            r@ == escaped(payload@.subrange(0, i as int)),
        decreases n - i,
    {
        let ghost pre = payload@.subrange(0, i as int);
        let b = payload[i];
        if b == 0 {
            r.push(0);
            r.push(0xff);
        } else {
            r.push(b);
        }
        proof {
            assert(payload@.subrange(0, i + 1) =~= pre.push(b));
            lemma_escaped_snoc(pre, b);
            if b == 0 {
                assert(r@ =~= escaped(pre) + seq![0u8, 0xffu8]);
            } else {
                assert(r@ =~= escaped(pre) + seq![b]);
            }
        }
        i = i + 1;
    }
    r.push(0);
    r.push(0);
    proof {
        assert(payload@.subrange(0, n as int) =~= payload@);
        assert(r@ =~= escaped(payload@) + seq![0u8, 0u8]);
    }
    r
}

/// Reads one delimited payload from the front of `bytes`.
pub(crate) fn undelimit_prefix(bytes: &[u8]) -> (r: Result<(Vec<u8>, usize), Error>)
    ensures
        match r {
            Ok(p) => p.1 <= bytes@.len() && delimited(p.0@) == bytes@.subrange(0, p.1 as int),
            Err(e) => e is Serialize && (forall|s: Seq<u8>, n: int|
                #![trigger delimited(s), bytes@.subrange(0, n)]
                0 <= n <= bytes@.len() ==> delimited(s) != bytes@.subrange(0, n)),
        },
{
    let mut out: Vec<u8> = Vec::new();
    let mut i: usize = 0;
    let n = bytes.len();
    proof {
        assert(bytes@.skip(0) =~= bytes@);
        if parse_delimited(bytes@) is Some {
            let pr = parse_delimited(bytes@).unwrap();
            assert(out@ =~= pr.0.subrange(0, 0));
            assert(pr.0.skip(0) =~= pr.0);
        }
    }
    loop
        invariant
            i <= n,
            n == bytes@.len(),
            match parse_delimited(bytes@) {
                Option::Some(pr) => {
                    &&& out@.len() <= pr.0.len()
                    &&& out@ == pr.0.subrange(0, out@.len() as int)
                    &&& parse_delimited(bytes@.skip(i as int)) == Option::Some(
                        (pr.0.skip(out@.len() as int), pr.1 - i),
                    )
                },
                Option::None => parse_delimited(bytes@.skip(i as int)) is None,
            },
        decreases n - i,
    {
        let ghost rest = bytes@.skip(i as int);
        if i >= n {
            proof {
                assert(rest.len() == 0);
                lemma_no_parse_no_form(bytes@);
            }
            return Err(Error::Serialize);
        }
        let b = bytes[i];
        proof {
            assert(rest[0] == bytes@[i as int]);
        }
        if b != 0 {
            proof {
                assert(rest.drop_first() =~= bytes@.skip(i + 1));
                if parse_delimited(bytes@) is Some {
                    let pr = parse_delimited(bytes@).unwrap();
                    let tail = pr.0.skip(out@.len() as int);
                    assert(parse_delimited(rest) == Option::Some((tail, pr.1 - i)));
                    assert(parse_delimited(rest.drop_first()) is Some);
                    let r1 = parse_delimited(rest.drop_first()).unwrap();
                    assert(tail == seq![b] + r1.0 && pr.1 - i == r1.1 + 1);
                    assert(tail.len() >= 1);
                    assert(pr.0.len() > out@.len());
                    assert(tail[0] == b);
                    assert(pr.0[out@.len() as int] == b) by {
                        assert(tail[0] == pr.0[out@.len() as int + 0]);
                    }
                    assert(out@.push(b) =~= pr.0.subrange(0, out@.len() as int + 1));
                    assert(r1.0 =~= tail.drop_first());
                    assert(tail.drop_first() =~= pr.0.skip(out@.len() as int + 1));
                }
            }
            out.push(b);
            i = i + 1;
        } else {
            if i + 1 >= n {
                proof {
                    assert(rest.len() == 1);
                    lemma_no_parse_no_form(bytes@);
                }
                return Err(Error::Serialize);
            }
            let c = bytes[i + 1];
            proof {
                assert(rest[1] == bytes@[i + 1]);
            }
            if c == 0 {
                proof {
                    assert(parse_delimited(rest) == Option::Some((Seq::<u8>::empty(), 2int)));
                    assert(parse_delimited(bytes@) is Some);
                    let pr = parse_delimited(bytes@).unwrap();
                    assert(pr.0.skip(out@.len() as int) =~= Seq::<u8>::empty());
                    assert(pr.0.skip(out@.len() as int).len() == 0);
                    assert(out@ =~= pr.0);
                    assert(pr.1 == i + 2);
                    lemma_parse_sound(bytes@);
                }
                return Ok((out, i + 2));
            } else if c == 0xff {
                proof {
                    assert(rest.skip(2) =~= bytes@.skip(i + 2));
                    if parse_delimited(bytes@) is Some {
                        let pr = parse_delimited(bytes@).unwrap();
                        let tail = pr.0.skip(out@.len() as int);
                        assert(parse_delimited(rest) == Option::Some((tail, pr.1 - i)));
                        assert(parse_delimited(rest.skip(2)) is Some);
                        let r1 = parse_delimited(rest.skip(2)).unwrap();
                        assert(tail == seq![0u8] + r1.0 && pr.1 - i == r1.1 + 2);
                        assert(tail.len() >= 1);
                        assert(pr.0.len() > out@.len());
                        assert(tail[0] == 0u8);
                        assert(pr.0[out@.len() as int] == 0u8) by {
                            assert(tail[0] == pr.0[out@.len() as int + 0]);
                        }
                        assert(out@.push(0u8) =~= pr.0.subrange(0, out@.len() as int + 1));
                        assert(r1.0 =~= tail.drop_first());
                        assert(tail.drop_first() =~= pr.0.skip(out@.len() as int + 1));
                    }
                }
                out.push(0);
                i = i + 2;
            } else {
                proof {
                    lemma_no_parse_no_form(bytes@);
                }
                return Err(Error::Serialize);
            }
        }
    }
}

/// Where the parse finds nothing, no wire form stands at the front.
proof fn lemma_no_parse_no_form(b: Seq<u8>)
    requires
        parse_delimited(b) is None,
    ensures
        forall|s: Seq<u8>, n: int|
            #![trigger delimited(s), b.subrange(0, n)]
            0 <= n <= b.len() ==> delimited(s) != b.subrange(0, n),
{
    assert forall|s: Seq<u8>, n: int|
        0 <= n <= b.len() implies delimited(s) != b.subrange(0, n) by {
        if delimited(s) == b.subrange(0, n) {
            lemma_parse_complete(s, b, n);
        }
    }
}

/// Decodes a `len`-byte big-endian unsigned value from the front of `bytes`.
fn unsigned_from_db_prefix(bytes: &[u8], len: usize) -> (r: Result<(u64, usize), Error>)
    requires
        1 <= len <= 8,
    ensures
        match r {
            Ok(p) => {
                &&& p.1 == len
                &&& p.1 <= bytes@.len()
                &&& be_bytes(p.0 as nat, len as nat) == bytes@.subrange(0, len as int)
                &&& (p.0 as nat) < pow256(len as nat)
            },
            Err(e) => e is Serialize && bytes@.len() < len,
        },
{
    if bytes.len() < len {
        Err(Error::Serialize)
    } else {
        let x = be_decode(bytes, 0, len);
        proof {
            let s = bytes@.subrange(0, len as int);
            lemma_be_bytes_be_val(s);
            lemma_be_val_bound(s);
        }
        Ok((x, len))
    }
}

impl AdaptToDb for u64 {
    open spec fn db_bytes(&self) -> Seq<u8> {
        be_bytes(*self as nat, 8)
    }

    open spec fn db_wf(&self) -> bool {
        true
    }

    open spec fn db_lt(&self, other: &Self) -> bool {
        *self < *other
    }

    fn to_db(&self) -> (r: Vec<u8>) {
        proof {
            lemma_pow256_bounds();
        }
        be_encode(*self, 8)
    }

    fn from_db_prefix(bytes: &[u8]) -> (r: Result<(Self, usize), Error>) {
        match unsigned_from_db_prefix(bytes, 8) {
            Ok((x, n)) => Ok((x, n)),
            Err(e) => {
                proof {
                    assert forall|v: u64, n: int|
                        0 <= n <= bytes@.len() implies v.db_bytes() != bytes@.subrange(0, n) by {
                        lemma_be_bytes_len(v as nat, 8);
                    }
                }
                Err(e)
            },
        }
    }

    proof fn lemma_prefix_free(a: &Self, b: &Self) {
        lemma_be_bytes_len(*a as nat, 8);
        lemma_be_bytes_len(*b as nat, 8);
        assert(a.db_bytes() =~= b.db_bytes().subrange(0, 8));
        assert(b.db_bytes() =~= b.db_bytes().subrange(0, 8));
    }

    proof fn lemma_lt_order(a: &Self, b: &Self) {
        lemma_pow256_bounds();
        lemma_be_bytes_order(*a as nat, *b as nat, 8);
    }
}

impl AdaptToDb for u32 {
    open spec fn db_bytes(&self) -> Seq<u8> {
        be_bytes(*self as nat, 4)
    }

    open spec fn db_wf(&self) -> bool {
        true
    }

    open spec fn db_lt(&self, other: &Self) -> bool {
        *self < *other
    }

    fn to_db(&self) -> (r: Vec<u8>) {
        proof {
            lemma_pow256_bounds();
        }
        be_encode(*self as u64, 4)
    }

    fn from_db_prefix(bytes: &[u8]) -> (r: Result<(Self, usize), Error>) {
        match unsigned_from_db_prefix(bytes, 4) {
            Ok((x, n)) => {
                proof {
                    lemma_pow256_bounds();
                }
                Ok((x as u32, n))
            },
            Err(e) => {
                proof {
                    assert forall|v: u32, n: int|
                        0 <= n <= bytes@.len() implies v.db_bytes() != bytes@.subrange(0, n) by {
                        lemma_be_bytes_len(v as nat, 4);
                    }
                }
                Err(e)
            },
        }
    }

    proof fn lemma_prefix_free(a: &Self, b: &Self) {
        lemma_be_bytes_len(*a as nat, 4);
        lemma_be_bytes_len(*b as nat, 4);
        assert(a.db_bytes() =~= b.db_bytes().subrange(0, 4));
        assert(b.db_bytes() =~= b.db_bytes().subrange(0, 4));
    }

    proof fn lemma_lt_order(a: &Self, b: &Self) {
        lemma_pow256_bounds();
        lemma_be_bytes_order(*a as nat, *b as nat, 4);
    }
}

impl AdaptToDb for u16 {
    open spec fn db_bytes(&self) -> Seq<u8> {
        be_bytes(*self as nat, 2)
    }

    open spec fn db_wf(&self) -> bool {
        true
    }

    open spec fn db_lt(&self, other: &Self) -> bool {
        *self < *other
    }

    fn to_db(&self) -> (r: Vec<u8>) {
        proof {
            lemma_pow256_bounds();
        }
        be_encode(*self as u64, 2)
    }

    fn from_db_prefix(bytes: &[u8]) -> (r: Result<(Self, usize), Error>) {
        match unsigned_from_db_prefix(bytes, 2) {
            Ok((x, n)) => {
                proof {
                    lemma_pow256_bounds();
                }
                Ok((x as u16, n))
            },
            Err(e) => {
                proof {
                    assert forall|v: u16, n: int|
                        0 <= n <= bytes@.len() implies v.db_bytes() != bytes@.subrange(0, n) by {
                        lemma_be_bytes_len(v as nat, 2);
                    }
                }
                Err(e)
            },
        }
    }

    proof fn lemma_prefix_free(a: &Self, b: &Self) {
        lemma_be_bytes_len(*a as nat, 2);
        lemma_be_bytes_len(*b as nat, 2);
        assert(a.db_bytes() =~= b.db_bytes().subrange(0, 2));
        assert(b.db_bytes() =~= b.db_bytes().subrange(0, 2));
    }

    proof fn lemma_lt_order(a: &Self, b: &Self) {
        lemma_pow256_bounds();
        lemma_be_bytes_order(*a as nat, *b as nat, 2);
    }
}

impl AdaptToDb for u8 {
    open spec fn db_bytes(&self) -> Seq<u8> {
        be_bytes(*self as nat, 1)
    }

    open spec fn db_wf(&self) -> bool {
        true
    }

    open spec fn db_lt(&self, other: &Self) -> bool {
        *self < *other
    }

    fn to_db(&self) -> (r: Vec<u8>) {
        proof {
            lemma_pow256_bounds();
        }
        be_encode(*self as u64, 1)
    }

    fn from_db_prefix(bytes: &[u8]) -> (r: Result<(Self, usize), Error>) {
        match unsigned_from_db_prefix(bytes, 1) {
            Ok((x, n)) => {
                proof {
                    lemma_pow256_bounds();
                }
                Ok((x as u8, n))
            },
            Err(e) => {
                proof {
                    assert forall|v: u8, n: int|
                        0 <= n <= bytes@.len() implies v.db_bytes() != bytes@.subrange(0, n) by {
                        lemma_be_bytes_len(v as nat, 1);
                    }
                }
                Err(e)
            },
        }
    }

    proof fn lemma_prefix_free(a: &Self, b: &Self) {
        lemma_be_bytes_len(*a as nat, 1);
        lemma_be_bytes_len(*b as nat, 1);
        assert(a.db_bytes() =~= b.db_bytes().subrange(0, 1));
        assert(b.db_bytes() =~= b.db_bytes().subrange(0, 1));
    }

    proof fn lemma_lt_order(a: &Self, b: &Self) {
        lemma_pow256_bounds();
        lemma_be_bytes_order(*a as nat, *b as nat, 1);
    }
}

/// A signed value shifted by half its range, so that byte order of the
/// encoding matches numeric order of the value.
pub open spec fn offset_i64(x: i64) -> nat {
    (x + 0x8000_0000_0000_0000) as nat
}

pub open spec fn offset_i32(x: i32) -> nat {
    (x + 0x8000_0000) as nat
}

impl AdaptToDb for i64 {
    open spec fn db_bytes(&self) -> Seq<u8> {
        be_bytes(offset_i64(*self), 8)
    }

    open spec fn db_wf(&self) -> bool {
        true
    }

    open spec fn db_lt(&self, other: &Self) -> bool {
        *self < *other
    }

    fn to_db(&self) -> (r: Vec<u8>) {
        proof {
            lemma_pow256_bounds();
        }
        let w: u64 = if *self >= 0 {
            (*self as u64) + 0x8000_0000_0000_0000u64
        } else {
            ((*self + i64::MAX) + 1) as u64
        };
        be_encode(w, 8)
    }

    fn from_db_prefix(bytes: &[u8]) -> (r: Result<(Self, usize), Error>) {
        match unsigned_from_db_prefix(bytes, 8) {
            Ok((w, n)) => {
                let v: i64 = if w >= 0x8000_0000_0000_0000u64 {
                    (w - 0x8000_0000_0000_0000u64) as i64
                } else {
                    ((w as i64) - i64::MAX) - 1
                };
                proof {
                    assert(offset_i64(v) == w as nat);
                }
                Ok((v, n))
            },
            Err(e) => {
                proof {
                    assert forall|v: i64, n: int|
                        0 <= n <= bytes@.len() implies v.db_bytes() != bytes@.subrange(0, n) by {
                        lemma_be_bytes_len(offset_i64(v), 8);
                    }
                }
                Err(e)
            },
        }
    }

    proof fn lemma_prefix_free(a: &Self, b: &Self) {
        lemma_be_bytes_len(offset_i64(*a), 8);
        lemma_be_bytes_len(offset_i64(*b), 8);
        assert(a.db_bytes() =~= b.db_bytes().subrange(0, 8));
        assert(b.db_bytes() =~= b.db_bytes().subrange(0, 8));
    }

    proof fn lemma_lt_order(a: &Self, b: &Self) {
        lemma_pow256_bounds();
        lemma_be_bytes_order(offset_i64(*a), offset_i64(*b), 8);
    }
}

impl AdaptToDb for i32 {
    open spec fn db_bytes(&self) -> Seq<u8> {
        be_bytes(offset_i32(*self), 4)
    }

    open spec fn db_wf(&self) -> bool {
        true
    }

    open spec fn db_lt(&self, other: &Self) -> bool {
        *self < *other
    }

    fn to_db(&self) -> (r: Vec<u8>) {
        proof {
            lemma_pow256_bounds();
        }
        let w: u64 = ((*self as i64) + 0x8000_0000i64) as u64;
        be_encode(w, 4)
    }

    fn from_db_prefix(bytes: &[u8]) -> (r: Result<(Self, usize), Error>) {
        match unsigned_from_db_prefix(bytes, 4) {
            Ok((w, n)) => {
                proof {
                    lemma_pow256_bounds();
                }
                let v: i32 = ((w as i64) - 0x8000_0000i64) as i32;
                proof {
                    assert(offset_i32(v) == w as nat);
                }
                Ok((v, n))
            },
            Err(e) => {
                proof {
                    assert forall|v: i32, n: int|
                        0 <= n <= bytes@.len() implies v.db_bytes() != bytes@.subrange(0, n) by {
                        lemma_be_bytes_len(offset_i32(v), 4);
                    }
                }
                Err(e)
            },
        }
    }

    proof fn lemma_prefix_free(a: &Self, b: &Self) {
        lemma_be_bytes_len(offset_i32(*a), 4);
        lemma_be_bytes_len(offset_i32(*b), 4);
        assert(a.db_bytes() =~= b.db_bytes().subrange(0, 4));
        assert(b.db_bytes() =~= b.db_bytes().subrange(0, 4));
    }

    proof fn lemma_lt_order(a: &Self, b: &Self) {
        lemma_pow256_bounds();
        lemma_be_bytes_order(offset_i32(*a), offset_i32(*b), 4);
    }
}

pub open spec fn offset_i16(x: i16) -> nat {
    (x + 0x8000) as nat
}

pub open spec fn offset_i8(x: i8) -> nat {
    (x + 0x80) as nat
}

impl AdaptToDb for i16 {
    open spec fn db_bytes(&self) -> Seq<u8> {
        be_bytes(offset_i16(*self), 2)
    }

    open spec fn db_wf(&self) -> bool {
        true
    }

    open spec fn db_lt(&self, other: &Self) -> bool {
        *self < *other
    }

    fn to_db(&self) -> (r: Vec<u8>) {
        proof {
            lemma_pow256_bounds();
        }
        let w: u64 = ((*self as i64) + 0x8000i64) as u64;
        be_encode(w, 2)
    }

    fn from_db_prefix(bytes: &[u8]) -> (r: Result<(Self, usize), Error>) {
        match unsigned_from_db_prefix(bytes, 2) {
            Ok((w, n)) => {
                proof {
                    lemma_pow256_bounds();
                }
                let v: i16 = ((w as i64) - 0x8000i64) as i16;
                proof {
                    assert(offset_i16(v) == w as nat);
                }
                Ok((v, n))
            },
            Err(e) => {
                proof {
                    assert forall|v: i16, n: int|
                        0 <= n <= bytes@.len() implies v.db_bytes() != bytes@.subrange(0, n) by {
                        lemma_be_bytes_len(offset_i16(v), 2);
                    }
                }
                Err(e)
            },
        }
    }

    proof fn lemma_prefix_free(a: &Self, b: &Self) {
        lemma_be_bytes_len(offset_i16(*a), 2);
        lemma_be_bytes_len(offset_i16(*b), 2);
        assert(a.db_bytes() =~= b.db_bytes().subrange(0, 2));
        assert(b.db_bytes() =~= b.db_bytes().subrange(0, 2));
    }

    proof fn lemma_lt_order(a: &Self, b: &Self) {
        lemma_pow256_bounds();
        lemma_be_bytes_order(offset_i16(*a), offset_i16(*b), 2);
    }
}

impl AdaptToDb for i8 {
    open spec fn db_bytes(&self) -> Seq<u8> {
        be_bytes(offset_i8(*self), 1)
    }

    open spec fn db_wf(&self) -> bool {
        true
    }

    open spec fn db_lt(&self, other: &Self) -> bool {
        *self < *other
    }

    fn to_db(&self) -> (r: Vec<u8>) {
        proof {
            lemma_pow256_bounds();
        }
        let w: u64 = ((*self as i64) + 0x80i64) as u64;
        be_encode(w, 1)
    }

    fn from_db_prefix(bytes: &[u8]) -> (r: Result<(Self, usize), Error>) {
        match unsigned_from_db_prefix(bytes, 1) {
            Ok((w, n)) => {
                proof {
                    lemma_pow256_bounds();
                }
                let v: i8 = ((w as i64) - 0x80i64) as i8;
                proof {
                    assert(offset_i8(v) == w as nat);
                }
                Ok((v, n))
            },
            Err(e) => {
                proof {
                    assert forall|v: i8, n: int|
                        0 <= n <= bytes@.len() implies v.db_bytes() != bytes@.subrange(0, n) by {
                        lemma_be_bytes_len(offset_i8(v), 1);
                    }
                }
                Err(e)
            },
        }
    }

    proof fn lemma_prefix_free(a: &Self, b: &Self) {
        lemma_be_bytes_len(offset_i8(*a), 1);
        lemma_be_bytes_len(offset_i8(*b), 1);
        assert(a.db_bytes() =~= b.db_bytes().subrange(0, 1));
        assert(b.db_bytes() =~= b.db_bytes().subrange(0, 1));
    }

    proof fn lemma_lt_order(a: &Self, b: &Self) {
        lemma_pow256_bounds();
        lemma_be_bytes_order(offset_i8(*a), offset_i8(*b), 1);
    }
}

impl AdaptToDb for Vec<u8> {
    open spec fn db_bytes(&self) -> Seq<u8> {
        delimited(self@)
    }

    open spec fn db_wf(&self) -> bool {
        true
    }

    open spec fn db_lt(&self, other: &Self) -> bool {
        lex_lt(self@, other@)
    }

    fn to_db(&self) -> (r: Vec<u8>) {
        delimit(self.as_slice())
    }

    fn from_db_prefix(bytes: &[u8]) -> (r: Result<(Self, usize), Error>) {
        match undelimit_prefix(bytes) {
            Ok((v, n)) => Ok((v, n)),
            Err(e) => {
                proof {
                    assert forall|v: Vec<u8>, n: int|
                        v.db_wf() && 0 <= n <= bytes@.len() implies v.db_bytes()
                        != bytes@.subrange(0, n) by {
                        assert(delimited(v@) != bytes@.subrange(0, n));
                    }
                }
                Err(e)
            },
        }
    }

    proof fn lemma_prefix_free(a: &Self, b: &Self) {
        lemma_delimited_prefix_free(a@, b@);
    }

    proof fn lemma_lt_order(a: &Self, b: &Self) {
        lemma_delimited_order(a@, b@);
    }
}

/// Relies on `core::str::from_utf8`: it succeeds exactly on valid UTF-8
/// input, returning the text whose byte encoding is that input.
#[verifier::external_body]
fn str_from_utf8<'a>(v: &'a [u8]) -> (r: Option<&'a str>)
    ensures
        match r {
            Some(s) => s.spec_bytes() == v@,
            None => !vstd::utf8::valid_utf8(v@),
        },
{
    core::str::from_utf8(v).ok()
}

impl AdaptToDb for String {
    open spec fn db_bytes(&self) -> Seq<u8> {
        delimited(vstd::utf8::encode_utf8(self@))
    }

    open spec fn db_wf(&self) -> bool {
        true
    }

    open spec fn db_lt(&self, other: &Self) -> bool {
        lex_lt(vstd::utf8::encode_utf8(self@), vstd::utf8::encode_utf8(other@))
    }

    fn to_db(&self) -> (r: Vec<u8>) {
        let payload = self.as_str().as_bytes_vec();
        delimit(payload.as_slice())
    }

    fn from_db_prefix(bytes: &[u8]) -> (r: Result<(Self, usize), Error>) {
        match undelimit_prefix(bytes) {
            Ok((v, n)) => {
                match str_from_utf8(v.as_slice()) {
                    Some(s) => {
                        let owned = s.to_owned();
                        proof {
                            assert(vstd::utf8::encode_utf8(owned@) == v@);
                        }
                        Ok((owned, n))
                    },
                    None => {
                        proof {
                            broadcast use vstd::utf8::encode_utf8_valid_utf8;

                            // The parse is a function, so any matching text
                            // would carry the very payload that is not UTF-8.
                            assert forall|w: String, n2: int|
                                w.db_wf() && 0 <= n2 <= bytes@.len() implies w.db_bytes()
                                != bytes@.subrange(0, n2) by {
                                if w.db_bytes() == bytes@.subrange(0, n2) {
                                    lemma_parse_complete(
                                        vstd::utf8::encode_utf8(w@),
                                        bytes@,
                                        n2,
                                    );
                                    lemma_parse_complete(v@, bytes@, n as int);
                                    assert(vstd::utf8::valid_utf8(v@));
                                }
                            }
                        }
                        Err(Error::Serialize)
                    },
                }
            },
            Err(e) => {
                proof {
                    assert forall|w: String, n2: int|
                        w.db_wf() && 0 <= n2 <= bytes@.len() implies w.db_bytes()
                        != bytes@.subrange(0, n2) by {
                        assert(delimited(vstd::utf8::encode_utf8(w@)) != bytes@.subrange(
                            0,
                            n2,
                        ));
                    }
                }
                Err(e)
            },
        }
    }

    proof fn lemma_prefix_free(a: &Self, b: &Self) {
        lemma_delimited_prefix_free(vstd::utf8::encode_utf8(a@), vstd::utf8::encode_utf8(b@));
    }

    proof fn lemma_lt_order(a: &Self, b: &Self) {
        lemma_delimited_order(vstd::utf8::encode_utf8(a@), vstd::utf8::encode_utf8(b@));
    }
}

impl<A: AdaptToDb, B: AdaptToDb> AdaptToDb for (A, B) {
    open spec fn db_bytes(&self) -> Seq<u8> {
        self.0.db_bytes() + self.1.db_bytes()
    }

    open spec fn db_wf(&self) -> bool {
        self.0.db_wf() && self.1.db_wf()
    }

    open spec fn db_lt(&self, other: &Self) -> bool {
        self.0.db_lt(&other.0) || (self.0.db_bytes() == other.0.db_bytes() && self.1.db_lt(
            &other.1,
        ))
    }

    fn to_db(&self) -> (r: Vec<u8>) {
        let mut r = self.0.to_db();
        let mut s = self.1.to_db();
        r.append(&mut s);
        r
    }

    fn from_db_prefix(bytes: &[u8]) -> (r: Result<(Self, usize), Error>) {
        match A::from_db_prefix(bytes) {
            Ok((a, n1)) => {
                let rest = vstd::slice::slice_subrange(bytes, n1, bytes.len());
                match B::from_db_prefix(rest) {
                    Ok((b, n2)) => {
                        proof {
                            assert(a.db_bytes() + b.db_bytes() =~= bytes@.subrange(
                                0,
                                n1 + n2,
                            )) by {
                                assert(b.db_bytes() == bytes@.subrange(
                                    n1 as int,
                                    bytes@.len() as int,
                                ).subrange(0, n2 as int));
                            }
                        }
                        Ok(((a, b), n1 + n2))
                    },
                    Err(e) => {
                        proof {
                            assert forall|v: (A, B), n: int|
                                v.db_wf() && 0 <= n <= bytes@.len() implies v.db_bytes()
                                != bytes@.subrange(0, n) by {
                                if v.db_bytes() == bytes@.subrange(0, n) {
                                    lemma_pair_component_pins::<A, B>(
                                        bytes@,
                                        &a,
                                        n1 as int,
                                        &v,
                                        n,
                                    );
                                    // The second component of v then decodes from
                                    // `rest`, which B reported impossible.
                                    let nb = n - n1;
                                    assert(v.db_bytes() == v.0.db_bytes() + v.1.db_bytes());
                                    assert(v.db_bytes().len() == bytes@.subrange(0, n).len());
                                    assert(v.1.db_bytes().len() == nb);
                                    assert(v.1.db_bytes() == rest@.subrange(0, nb)) by {
                                        assert(v.1.db_bytes() == bytes@.subrange(0, n).subrange(
                                            n1 as int,
                                            n,
                                        )) by {
                                            assert(v.0.db_bytes() + v.1.db_bytes()
                                                == bytes@.subrange(0, n));
                                            assert(v.1.db_bytes() =~= (v.0.db_bytes()
                                                + v.1.db_bytes()).subrange(n1 as int, n));
                                        }
                                        assert(bytes@.subrange(0, n).subrange(n1 as int, n)
                                            =~= rest@.subrange(0, nb));
                                    }
                                }
                            }
                        }
                        Err(e)
                    },
                }
            },
            Err(e) => {
                proof {
                    assert forall|v: (A, B), n: int|
                        v.db_wf() && 0 <= n <= bytes@.len() implies v.db_bytes()
                        != bytes@.subrange(0, n) by {
                        if v.db_bytes() == bytes@.subrange(0, n) {
                            let na = v.0.db_bytes().len() as int;
                            assert(v.db_bytes() == v.0.db_bytes() + v.1.db_bytes());
                            assert(v.db_bytes().len() == bytes@.subrange(0, n).len());
                            assert(na <= n);
                            assert(v.0.db_bytes() == bytes@.subrange(0, na)) by {
                                assert(v.0.db_bytes() =~= (v.0.db_bytes()
                                    + v.1.db_bytes()).subrange(0, na));
                                assert(bytes@.subrange(0, n).subrange(0, na) =~= bytes@.subrange(
                                    0,
                                    na,
                                ));
                            }
                        }
                    }
                }
                Err(e)
            },
        }
    }

    proof fn lemma_prefix_free(a: &Self, b: &Self) {
        let x1 = a.0.db_bytes();
        let y1 = a.1.db_bytes();
        let x2 = b.0.db_bytes();
        let y2 = b.1.db_bytes();
        let p1 = x1 + y1;
        let p2 = x2 + y2;
        assert(p1 == p2.subrange(0, p1.len() as int));
        if x1.len() <= x2.len() {
            assert(is_prefix(x1, x2)) by {
                assert(x1 =~= x2.subrange(0, x1.len() as int)) by {
                    assert forall|i: int| 0 <= i < x1.len() implies x1[i] == x2[i] by {
                        assert(x1[i] == p1[i]);
                        assert(p1[i] == p2.subrange(0, p1.len() as int)[i]);
                        assert(x2[i] == p2[i]);
                    }
                }
            }
            A::lemma_prefix_free(&a.0, &b.0);
            assert(is_prefix(y1, y2)) by {
                assert(y1 =~= y2.subrange(0, y1.len() as int)) by {
                    assert forall|i: int| 0 <= i < y1.len() implies y1[i] == y2[i] by {
                        assert(y1[i] == p1[x1.len() + i]);
                        assert(p1[x1.len() + i] == p2.subrange(0, p1.len() as int)[x1.len()
                            + i]);
                        assert(y2[i] == p2[x2.len() + i]);
                    }
                }
            }
            B::lemma_prefix_free(&a.1, &b.1);
        } else {
            assert(is_prefix(x2, x1)) by {
                assert(x2 =~= x1.subrange(0, x2.len() as int)) by {
                    assert forall|i: int| 0 <= i < x2.len() implies x2[i] == x1[i] by {
                        assert(x1[i] == p1[i]);
                        assert(p1[i] == p2.subrange(0, p1.len() as int)[i]);
                        assert(x2[i] == p2[i]);
                    }
                }
            }
            A::lemma_prefix_free(&b.0, &a.0);
        }
    }

    proof fn lemma_lt_order(a: &Self, b: &Self) {
        let x1 = a.0.db_bytes();
        let y1 = a.1.db_bytes();
        let x2 = b.0.db_bytes();
        let y2 = b.1.db_bytes();
        if a.0.db_lt(&b.0) {
            A::lemma_lt_order(&a.0, &b.0);
            assert(!is_prefix(x1, x2)) by {
                if is_prefix(x1, x2) {
                    A::lemma_prefix_free(&a.0, &b.0);
                    lemma_lex_lt_irreflexive(x1);
                }
            }
            lemma_lex_lt_append_both(x1, x2, y1, y2);
        } else {
            B::lemma_lt_order(&a.1, &b.1);
            lemma_lex_lt_common_prefix(x1, y1, y2);
        }
    }
}

/// If a pair decodes as a prefix of `bytes` and a component decode pinned
/// `n1` bytes for the first component, the pair's first component occupies
/// exactly those bytes.
proof fn lemma_pair_component_pins<A: AdaptToDb, B: AdaptToDb>(
    bytes: Seq<u8>,
    a: &A,
    n1: int,
    v: &(A, B),
    n: int,
)
    requires
        a.db_wf(),
        v.db_wf(),
        0 <= n1 <= bytes.len(),
        0 <= n <= bytes.len(),
        a.db_bytes() == bytes.subrange(0, n1),
        v.db_bytes() == bytes.subrange(0, n),
    ensures
        v.0.db_bytes() == a.db_bytes(),
        v.0.db_bytes().len() == n1,
        n1 <= n,
{
    let na = v.0.db_bytes().len() as int;
    assert(v.db_bytes() == v.0.db_bytes() + v.1.db_bytes());
    assert(v.db_bytes().len() == bytes.subrange(0, n).len());
    assert(na <= n);
    assert(v.0.db_bytes() == bytes.subrange(0, na)) by {
        assert(v.0.db_bytes() =~= (v.0.db_bytes() + v.1.db_bytes()).subrange(0, na));
        assert(bytes.subrange(0, n).subrange(0, na) =~= bytes.subrange(0, na));
    }
    if na <= n1 {
        assert(is_prefix(v.0.db_bytes(), a.db_bytes())) by {
            assert(bytes.subrange(0, n1).subrange(0, na) =~= bytes.subrange(0, na));
        }
        A::lemma_prefix_free(&v.0, a);
    } else {
        assert(is_prefix(a.db_bytes(), v.0.db_bytes())) by {
            assert(bytes.subrange(0, na).subrange(0, n1) =~= bytes.subrange(0, n1));
        }
        A::lemma_prefix_free(a, &v.0);
    }
}

} // verus!
