//! Fixed-width big-endian encoding of unsigned values.
//!
//! Equal-width big-endian byte strings compare lexicographically exactly as
//! the values they encode compare numerically; this is what lets range scans
//! over encoded keys follow the domain order.

use crate::lex::{lex_lt, lemma_lex_lt_append_both, lemma_lex_lt_common_prefix,
    lemma_lex_lt_irreflexive};
use vstd::arithmetic::div_mod::{lemma_fundamental_div_mod, lemma_multiply_divide_lt};
use vstd::prelude::*;

verus! {

/// 256 raised to the power `n`.
pub open spec fn pow256(n: nat) -> nat
    decreases n,
{
    if n == 0 {
        1
    } else {
        256 * pow256((n - 1) as nat)
    }
}

/// The `len`-byte big-endian encoding of `x`.
pub open spec fn be_bytes(x: nat, len: nat) -> Seq<u8>
    decreases len,
{
    if len == 0 {
        Seq::empty()
    } else {
        be_bytes(x / 256, (len - 1) as nat) + seq![(x % 256) as u8]
    }
}

/// The value encoded by a big-endian byte string.
pub open spec fn be_val(s: Seq<u8>) -> nat
    decreases s.len(),
{
    if s.len() == 0 {
        0
    } else {
        (be_val(s.drop_last()) * 256 + s.last()) as nat
    }
}

pub proof fn lemma_pow256_bounds()
    ensures
        pow256(1) == 0x100,
        pow256(2) == 0x10000,
        pow256(4) == 0x1_0000_0000,
        pow256(8) == 0x1_0000_0000_0000_0000,
{
    reveal_with_fuel(pow256, 9);
}

pub proof fn lemma_pow256_monotonic(m: nat, n: nat)
    requires
        m <= n,
    ensures
        pow256(m) <= pow256(n),
        pow256(m) >= 1,
    decreases n,
{
    if n > 0 {
        if m <= n - 1 {
            lemma_pow256_monotonic(m, (n - 1) as nat);
        } else {
            lemma_pow256_monotonic((m - 1) as nat, (n - 1) as nat);
        }
    }
}

pub proof fn lemma_be_bytes_len(x: nat, len: nat)
    ensures
        be_bytes(x, len).len() == len,
    decreases len,
{
    if len > 0 {
        lemma_be_bytes_len(x / 256, (len - 1) as nat);
    }
}

/// The encoded value is recovered from the bytes: decoding inverts encoding.
pub proof fn lemma_be_val_be_bytes(x: nat, len: nat)
    requires
        x < pow256(len),
    ensures
        be_val(be_bytes(x, len)) == x,
    decreases len,
{
    if len == 0 {
    } else {
        lemma_multiply_divide_lt(x as int, 256, pow256((len - 1) as nat) as int);
        lemma_be_val_be_bytes(x / 256, (len - 1) as nat);
        lemma_be_bytes_len(x / 256, (len - 1) as nat);
        let s = be_bytes(x, len);
        assert(s.drop_last() =~= be_bytes(x / 256, (len - 1) as nat));
        assert(s.last() == (x % 256) as u8);
        lemma_fundamental_div_mod(x as int, 256);
    }
}

/// Encoding the value of a byte string gives the byte string back.
pub proof fn lemma_be_bytes_be_val(s: Seq<u8>)
    ensures
        be_bytes(be_val(s), s.len()) == s,
    decreases s.len(),
{
    if s.len() > 0 {
        let q = be_val(s.drop_last());
        let r = s.last() as nat;
        let x = be_val(s);
        assert(x == q * 256 + r);
        vstd::arithmetic::div_mod::lemma_fundamental_div_mod_converse(
            x as int,
            256,
            q as int,
            r as int,
        );
        lemma_be_bytes_be_val(s.drop_last());
        assert(be_bytes(x, s.len()) == be_bytes(x / 256, (s.len() - 1) as nat) + seq![
            (x % 256) as u8,
        ]);
        assert(be_bytes(x / 256, (s.len() - 1) as nat) + seq![(x % 256) as u8] =~= s);
    } else {
        assert(be_bytes(0, 0) =~= s);
    }
}

pub proof fn lemma_be_val_bound(s: Seq<u8>)
    ensures
        be_val(s) < pow256(s.len()),
    decreases s.len(),
{
    if s.len() > 0 {
        lemma_be_val_bound(s.drop_last());
    }
}

/// Numeric order of values is byte-lexicographic order of their equal-width
/// encodings.
pub proof fn lemma_be_bytes_order(x: nat, y: nat, len: nat)
    requires
        x < y,
        y < pow256(len),
    ensures
        lex_lt(be_bytes(x, len), be_bytes(y, len)),
    decreases len,
{
    lemma_be_bytes_len(x, len);
    lemma_be_bytes_len(y, len);
    let sx = be_bytes(x, len);
    let sy = be_bytes(y, len);
    lemma_fundamental_div_mod(x as int, 256);
    lemma_fundamental_div_mod(y as int, 256);
    if x / 256 == y / 256 {
        // Same leading bytes; the last byte decides.
        let p = be_bytes(x / 256, (len - 1) as nat);
        assert(x % 256 < y % 256);
        lemma_lex_lt_common_prefix(p, seq![(x % 256) as u8], seq![(y % 256) as u8]);
        assert(lex_lt(seq![(x % 256) as u8], seq![(y % 256) as u8]));
    } else {
        assert(x / 256 < y / 256) by {
            vstd::arithmetic::div_mod::lemma_div_is_ordered(x as int, y as int, 256);
        }
        lemma_multiply_divide_lt(y as int, 256, pow256((len - 1) as nat) as int);
        lemma_be_bytes_order(x / 256, y / 256, (len - 1) as nat);
        let px = be_bytes(x / 256, (len - 1) as nat);
        let py = be_bytes(y / 256, (len - 1) as nat);
        lemma_be_bytes_len(x / 256, (len - 1) as nat);
        lemma_be_bytes_len(y / 256, (len - 1) as nat);
        // Equal lengths and strictly ordered, so px is not a prefix of py.
        assert(!crate::lex::is_prefix(px, py)) by {
            if crate::lex::is_prefix(px, py) {
                assert(px =~= py.subrange(0, py.len() as int));
                assert(py =~= py.subrange(0, py.len() as int));
                lemma_lex_lt_irreflexive(px);
            }
        }
        lemma_lex_lt_append_both(px, py, seq![(x % 256) as u8], seq![(y % 256) as u8]);
    }
}

/// Writes the `len`-byte big-endian encoding of `x`.
pub fn be_encode(x0: u64, len: usize) -> (r: Vec<u8>)
    requires
        (x0 as nat) < pow256(len as nat),
    ensures
        r@ == be_bytes(x0 as nat, len as nat),
        r@.len() == len,
{
    let mut r: Vec<u8> = Vec::new();
    let mut x = x0;
    let mut k: usize = 0;
    proof {
        assert(be_bytes(x0 as nat, len as nat) =~= be_bytes(x0 as nat, len as nat) + r@);
    }
    while k < len
        invariant
            k <= len,
            r@.len() == k,
            be_bytes(x0 as nat, len as nat) == be_bytes(x as nat, (len - k) as nat) + r@,
        decreases len - k,
    {
        let ghost r_old = r@;
        let ghost m = (len - k) as nat;
        let b = (x % 256) as u8;
        r.insert(0, b);
        proof {
            assert(r@ =~= seq![b] + r_old);
            assert(be_bytes(x as nat, m) == be_bytes((x as nat) / 256, (m - 1) as nat) + seq![
                ((x as nat) % 256) as u8,
            ]);
            assert((be_bytes((x as nat) / 256, (m - 1) as nat) + seq![b]) + r_old =~= be_bytes(
                (x as nat) / 256,
                (m - 1) as nat,
            ) + (seq![b] + r_old));
            assert((x as nat) / 256 == (x / 256) as nat);
        }
        x = x / 256;
        k = k + 1;
    }
    proof {
        assert(be_bytes(x as nat, 0) + r@ =~= r@);
        lemma_be_bytes_len(x0 as nat, len as nat);
    }
    r
}

/// Reads the value of `len` big-endian bytes starting at `off`.
pub fn be_decode(bytes: &[u8], off: usize, len: usize) -> (x: u64)
    requires
        off + len <= bytes@.len(),
        len <= 8,
    ensures
        x as nat == be_val(bytes@.subrange(off as int, off as int + len as int)),
{
    let mut x: u64 = 0;
    let mut i: usize = 0;
    let n = bytes.len();
    proof {
        lemma_pow256_bounds();
        assert(bytes@.subrange(off as int, off as int) =~= Seq::<u8>::empty());
    }
    while i < len
        invariant
            i <= len,
            len <= 8,
            n == bytes@.len(),
            off + len <= n,
            x as nat == be_val(bytes@.subrange(off as int, off as int + i as int)),
            (x as nat) < pow256(i as nat),
            pow256(8) == 0x1_0000_0000_0000_0000,
        decreases len - i,
    {
        let b = bytes[off + i];
        proof {
            lemma_pow256_monotonic(i as nat, 7);
            lemma_pow256_bounds();
            assert((x as nat) * 256 + 255 < 0x1_0000_0000_0000_0000) by {
                assert((x as nat) <= pow256(7) - 1);
                assert((x as nat) * 256 <= (pow256(7) - 1) * 256) by (nonlinear_arith)
                    requires
                        (x as nat) <= pow256(7) - 1,
                ;
            }
            let s = bytes@.subrange(off as int, off as int + i as int + 1);
            assert(s.drop_last() =~= bytes@.subrange(off as int, off as int + i as int));
            assert(s.last() == bytes@[off as int + i as int]);
        }
        x = x * 256 + (b as u64);
        i = i + 1;
        proof {
            assert((x as nat) < pow256(i as nat)) by {
                lemma_be_val_bound(bytes@.subrange(off as int, off as int + i as int));
            }
        }
    }
    x
}

} // verus!
