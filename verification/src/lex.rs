//! Byte-lexicographic order on byte sequences.
//!
//! The on-disk keys of the storage layer are byte strings ordered
//! lexicographically; everything the tables promise about iteration order
//! and section contiguity reduces to facts about this order.

use vstd::prelude::*;

verus! {

/// `a` comes strictly before `b` in byte-lexicographic order.
/// A proper prefix comes before every extension of itself.
pub open spec fn lex_lt(a: Seq<u8>, b: Seq<u8>) -> bool
    decreases a.len(),
{
    if b.len() == 0 {
        false
    } else if a.len() == 0 {
        true
    } else if a[0] < b[0] {
        true
    } else if a[0] == b[0] {
        lex_lt(a.drop_first(), b.drop_first())
    } else {
        false
    }
}

/// `a` comes before `b`, or equals it.
pub open spec fn lex_le(a: Seq<u8>, b: Seq<u8>) -> bool {
    lex_lt(a, b) || a == b
}

/// `a` is a (not necessarily proper) prefix of `b`.
pub open spec fn is_prefix(a: Seq<u8>, b: Seq<u8>) -> bool {
    a.len() <= b.len() && a == b.subrange(0, a.len() as int)
}

/// Length of the longest common prefix of `a` and `b`.
pub open spec fn common_len(a: Seq<u8>, b: Seq<u8>) -> nat
    decreases a.len(),
{
    if a.len() == 0 || b.len() == 0 {
        0
    } else if a[0] == b[0] {
        1 + common_len(a.drop_first(), b.drop_first())
    } else {
        0
    }
}

/// The common prefix is a prefix of both sequences, and the next bytes
/// (where both exist) differ.
pub proof fn lemma_common_len(a: Seq<u8>, b: Seq<u8>)
    ensures
        common_len(a, b) <= a.len(),
        common_len(a, b) <= b.len(),
        a.subrange(0, common_len(a, b) as int) == b.subrange(0, common_len(a, b) as int),
        common_len(a, b) < a.len() && common_len(a, b) < b.len() ==> a[common_len(a, b) as int]
            != b[common_len(a, b) as int],
    decreases a.len(),
{
    if a.len() == 0 || b.len() == 0 {
        assert(a.subrange(0, 0) =~= b.subrange(0, 0));
    } else if a[0] == b[0] {
        lemma_common_len(a.drop_first(), b.drop_first());
        let c = common_len(a, b) as int;
        assert forall|i: int| 0 <= i < c implies a[i] == b[i] by {
            if i > 0 {
                assert(a.drop_first().subrange(0, c - 1)[i - 1] == b.drop_first().subrange(
                    0,
                    c - 1,
                )[i - 1]);
            }
        }
        assert(a.subrange(0, c) =~= b.subrange(0, c));
        if c < a.len() && c < b.len() {
            assert(a[c] == a.drop_first()[c - 1]);
            assert(b[c] == b.drop_first()[c - 1]);
        }
    } else {
        assert(a.subrange(0, 0) =~= b.subrange(0, 0));
    }
}

/// `lex_lt` is decided at the first position where the sequences differ:
/// either one sequence is a proper prefix of the other, or the byte at the
/// end of the common prefix decides.
pub proof fn lemma_lex_lt_common(a: Seq<u8>, b: Seq<u8>)
    ensures
        lex_lt(a, b) <==> {
            let c = common_len(a, b);
            ||| (c == a.len() && a.len() < b.len())
            ||| (c < a.len() && c < b.len() && a[c as int] < b[c as int])
        },
    decreases a.len(),
{
    if a.len() == 0 || b.len() == 0 {
    } else if a[0] == b[0] {
        lemma_lex_lt_common(a.drop_first(), b.drop_first());
        let c = common_len(a, b) as int;
        if c < a.len() && c < b.len() {
            assert(a[c] == a.drop_first()[c - 1]);
            assert(b[c] == b.drop_first()[c - 1]);
        }
    } else {
    }
}

/// Equal sequences have no deciding position, so `lex_lt` is irreflexive.
pub proof fn lemma_lex_lt_irreflexive(a: Seq<u8>)
    ensures
        !lex_lt(a, a),
    decreases a.len(),
{
    if a.len() > 0 {
        lemma_lex_lt_irreflexive(a.drop_first());
    }
}

/// Exactly one of `a < b`, `a == b`, `b < a` holds.
pub proof fn lemma_lex_trichotomy(a: Seq<u8>, b: Seq<u8>)
    ensures
        lex_lt(a, b) || lex_lt(b, a) || a == b,
        lex_lt(a, b) ==> !lex_lt(b, a) && a != b,
        lex_lt(b, a) ==> !lex_lt(a, b) && a != b,
    decreases a.len(),
{
    lemma_lex_lt_irreflexive(a);
    lemma_lex_lt_irreflexive(b);
    if a.len() == 0 || b.len() == 0 {
        if a.len() == b.len() {
            assert(a =~= b);
        }
    } else if a[0] == b[0] {
        lemma_lex_trichotomy(a.drop_first(), b.drop_first());
        if a.drop_first() == b.drop_first() {
            assert forall|i: int| 0 <= i < a.len() implies a[i] == b[i] by {
                if i > 0 {
                    assert(a.drop_first()[i - 1] == b.drop_first()[i - 1]);
                }
            }
            assert(a =~= b);
        }
    }
}

/// `lex_lt` is transitive.
pub proof fn lemma_lex_lt_transitive(a: Seq<u8>, b: Seq<u8>, c: Seq<u8>)
    requires
        lex_lt(a, b),
        lex_lt(b, c),
    ensures
        lex_lt(a, c),
    decreases a.len(),
{
    if a.len() == 0 {
        assert(c.len() > 0);
    } else if b.len() == 0 {
    } else if c.len() == 0 {
    } else {
        if a[0] == b[0] && b[0] == c[0] {
            lemma_lex_lt_transitive(a.drop_first(), b.drop_first(), c.drop_first());
        }
    }
}

/// `lex_le` is transitive.
pub proof fn lemma_lex_le_transitive(a: Seq<u8>, b: Seq<u8>, c: Seq<u8>)
    requires
        lex_le(a, b),
        lex_le(b, c),
    ensures
        lex_le(a, c),
{
    if a != b && b != c {
        lemma_lex_lt_transitive(a, b, c);
    }
}

/// A proper prefix comes strictly before its extensions.
pub proof fn lemma_prefix_lex_lt(a: Seq<u8>, b: Seq<u8>)
    requires
        is_prefix(a, b),
        a.len() < b.len(),
    ensures
        lex_lt(a, b),
    decreases a.len(),
{
    if a.len() > 0 {
        assert(a[0] == b.subrange(0, a.len() as int)[0]);
        assert(a.drop_first() =~= b.drop_first().subrange(0, a.len() - 1));
        lemma_prefix_lex_lt(a.drop_first(), b.drop_first());
    }
}

/// With an identical prefix in front, order is decided by the tails.
pub proof fn lemma_lex_lt_common_prefix(p: Seq<u8>, x: Seq<u8>, y: Seq<u8>)
    ensures
        lex_lt(p + x, p + y) == lex_lt(x, y),
    decreases p.len(),
{
    if p.len() == 0 {
        assert(p + x =~= x);
        assert(p + y =~= y);
    } else {
        assert((p + x).drop_first() =~= p.drop_first() + x);
        assert((p + y).drop_first() =~= p.drop_first() + y);
        lemma_lex_lt_common_prefix(p.drop_first(), x, y);
    }
}

/// If `a < b` and `a` is not a prefix of `b`, then every extension of `a`
/// stays before every extension of `b`.
pub proof fn lemma_lex_lt_append_both(a: Seq<u8>, b: Seq<u8>, x: Seq<u8>, y: Seq<u8>)
    requires
        lex_lt(a, b),
        !is_prefix(a, b),
    ensures
        lex_lt(a + x, b + y),
{
    lemma_common_len(a, b);
    lemma_lex_lt_common(a, b);
    lemma_lex_lt_common(a + x, b + y);
    let c = common_len(a, b);
    // Since a < b and a is not a prefix of b, the deciding byte exists in both.
    if c == a.len() {
        assert(a =~= a.subrange(0, c as int));
        assert(is_prefix(a, b));
    }
    assert(c < a.len() && c < b.len() && a[c as int] < b[c as int]);
    lemma_common_len(a + x, b + y);
    let d = common_len(a + x, b + y);
    assert((a + x).subrange(0, c as int) =~= a.subrange(0, c as int));
    assert((b + y).subrange(0, c as int) =~= b.subrange(0, c as int));
    // The common prefix of the extensions is exactly c.
    assert((a + x)[c as int] == a[c as int]);
    assert((b + y)[c as int] == b[c as int]);
    if d < c {
        lemma_common_len_ge(a + x, b + y, c);
    }
    if d > c {
        assert((a + x).subrange(0, d as int)[c as int] == (b + y).subrange(0, d as int)[
            c as int
        ]);
    }
    assert(d == c);
}

/// If two sequences agree on their first `n` bytes, their common prefix is
/// at least `n` long.
proof fn lemma_common_len_ge(a: Seq<u8>, b: Seq<u8>, n: nat)
    requires
        n <= a.len(),
        n <= b.len(),
        a.subrange(0, n as int) == b.subrange(0, n as int),
    ensures
        common_len(a, b) >= n,
    decreases n,
{
    if n > 0 {
        assert(a[0] == a.subrange(0, n as int)[0]);
        assert(b[0] == b.subrange(0, n as int)[0]);
        assert(a.drop_first().subrange(0, n - 1) =~= a.subrange(0, n as int).drop_first());
        assert(b.drop_first().subrange(0, n - 1) =~= b.subrange(0, n as int).drop_first());
        lemma_common_len_ge(a.drop_first(), b.drop_first(), (n - 1) as nat);
    }
}

/// Keys sharing a prefix `p` are contiguous: a key between two `p`-prefixed
/// keys is itself `p`-prefixed.
pub proof fn lemma_prefix_range_contiguous(p: Seq<u8>, lo: Seq<u8>, mid: Seq<u8>, hi: Seq<u8>)
    requires
        is_prefix(p, lo),
        is_prefix(p, hi),
        lex_le(lo, mid),
        lex_le(mid, hi),
    ensures
        is_prefix(p, mid),
{
    if !is_prefix(p, mid) {
        lemma_common_len(p, mid);
        lemma_lex_lt_common(p, mid);
        let c = common_len(p, mid);
        if c == p.len() {
            assert(p =~= mid.subrange(0, p.len() as int));
            assert(is_prefix(p, mid));
        } else if c == mid.len() {
            // mid is a proper prefix of p, hence of lo; so mid < lo.
            assert(mid =~= p.subrange(0, mid.len() as int));
            assert(mid =~= lo.subrange(0, mid.len() as int)) by {
                assert(p == lo.subrange(0, p.len() as int));
                assert(p.subrange(0, mid.len() as int) =~= lo.subrange(0, mid.len() as int));
            }
            assert(mid.len() < lo.len());
            lemma_prefix_lex_lt(mid, lo);
            lemma_lex_trichotomy(lo, mid);
        } else if p[c as int] > mid[c as int] {
            // mid < lo at position c.
            assert(lo.subrange(0, c as int) =~= p.subrange(0, c as int)) by {
                assert(p == lo.subrange(0, p.len() as int));
                assert(p.subrange(0, c as int) =~= lo.subrange(0, c as int));
            }
            assert(lo[c as int] == p[c as int]) by {
                assert(p == lo.subrange(0, p.len() as int));
            }
            lemma_common_len_ge(mid, lo, c);
            lemma_common_len(mid, lo);
            assert(common_len(mid, lo) == c) by {
                if common_len(mid, lo) > c {
                    assert(mid.subrange(0, common_len(mid, lo) as int)[c as int]
                        == lo.subrange(0, common_len(mid, lo) as int)[c as int]);
                }
            }
            lemma_lex_lt_common(mid, lo);
            assert(lex_lt(mid, lo));
            lemma_lex_trichotomy(lo, mid);
        } else {
            // hi < mid at position c.
            assert(hi.subrange(0, c as int) =~= p.subrange(0, c as int)) by {
                assert(p == hi.subrange(0, p.len() as int));
                assert(p.subrange(0, c as int) =~= hi.subrange(0, c as int));
            }
            assert(hi[c as int] == p[c as int]) by {
                assert(p == hi.subrange(0, p.len() as int));
            }
            lemma_common_len_ge(hi, mid, c);
            lemma_common_len(hi, mid);
            assert(common_len(hi, mid) == c) by {
                if common_len(hi, mid) > c {
                    assert(hi.subrange(0, common_len(hi, mid) as int)[c as int]
                        == mid.subrange(0, common_len(hi, mid) as int)[c as int]);
                }
            }
            lemma_lex_lt_common(hi, mid);
            assert(lex_lt(hi, mid));
            lemma_lex_trichotomy(mid, hi);
        }
    }
}

/// Compares two byte slices in lexicographic order.
pub fn bytes_lex_lt(a: &[u8], b: &[u8]) -> (r: bool)
    ensures
        r == lex_lt(a@, b@),
{
    let mut i: usize = 0;
    let min: usize = if a.len() < b.len() {
        a.len()
    } else {
        b.len()
    };
    while i < min
        invariant
            0 <= i <= min,
            min <= a@.len(),
            min <= b@.len(),
            min == if a@.len() < b@.len() {
                a@.len() as int
            } else {
                b@.len() as int
            },
            a@.subrange(0, i as int) == b@.subrange(0, i as int),
        decreases min - i,
    {
        let x = a[i];
        let y = b[i];
        if x < y {
            proof {
                lemma_common_len_ge(a@, b@, i as nat);
                lemma_common_len(a@, b@);
                assert(common_len(a@, b@) == i) by {
                    if common_len(a@, b@) > i {
                        assert(a@.subrange(0, common_len(a@, b@) as int)[i as int]
                            == b@.subrange(0, common_len(a@, b@) as int)[i as int]);
                    }
                }
                lemma_lex_lt_common(a@, b@);
            }
            return true;
        }
        if x > y {
            proof {
                lemma_common_len_ge(a@, b@, i as nat);
                lemma_common_len(a@, b@);
                assert(common_len(a@, b@) == i) by {
                    if common_len(a@, b@) > i {
                        assert(a@.subrange(0, common_len(a@, b@) as int)[i as int]
                            == b@.subrange(0, common_len(a@, b@) as int)[i as int]);
                    }
                }
                lemma_lex_lt_common(a@, b@);
            }
            return false;
        }
        proof {
            assert(a@.subrange(0, i + 1) =~= a@.subrange(0, i as int) + seq![a@[i as int]]);
            assert(b@.subrange(0, i + 1) =~= b@.subrange(0, i as int) + seq![b@[i as int]]);
        }
        i = i + 1;
    }
    proof {
        lemma_common_len_ge(a@, b@, min as nat);
        lemma_common_len(a@, b@);
        lemma_lex_lt_common(a@, b@);
        if a@.len() == b@.len() {
            assert(a@ =~= a@.subrange(0, min as int));
            assert(b@ =~= b@.subrange(0, min as int));
            lemma_lex_lt_irreflexive(a@);
        }
    }
    a.len() < b.len()
}

/// Tests two byte slices for equality.
pub fn bytes_eq(a: &[u8], b: &[u8]) -> (r: bool)
    ensures
        r == (a@ == b@),
{
    if a.len() != b.len() {
        return false;
    }
    let mut i: usize = 0;
    while i < a.len()
        invariant
            0 <= i <= a@.len(),
            a@.len() == b@.len(),
            a@.subrange(0, i as int) == b@.subrange(0, i as int),
        decreases a@.len() - i,
    {
        if a[i] != b[i] {
            return false;
        }
        proof {
            assert(a@.subrange(0, i + 1) =~= a@.subrange(0, i as int) + seq![a@[i as int]]);
            assert(b@.subrange(0, i + 1) =~= b@.subrange(0, i as int) + seq![b@[i as int]]);
        }
        i = i + 1;
    }
    proof {
        assert(a@ =~= a@.subrange(0, a@.len() as int));
        assert(b@ =~= b@.subrange(0, b@.len() as int));
    }
    true
}

} // verus!
