//! Order-preserving encoding of 64-bit sequence numbers into 8-byte keys.
//!
//! A sequence number is written big-endian (most significant byte first), so
//! that for the non-negative numbers the byte-lexicographic order of the
//! encoded keys equals the numeric order of the numbers.

use crate::order::lex_lt;
use vstd::arithmetic::div_mod::{
    lemma_div_is_ordered, lemma_fundamental_div_mod, lemma_multiply_divide_lt,
};
use vstd::prelude::*;

verus! {

/// The low `len` bytes of `n`, written most significant first.
pub open spec fn be_bytes(n: u64, len: nat) -> Seq<u8>
    decreases len,
{
    if len == 0 {
        Seq::empty()
    } else {
        be_bytes(n / 256, (len - 1) as nat).push((n % 256) as u8)
    }
}

/// The 8-byte key that encodes sequence number `n` (two's complement bits,
/// big-endian).
pub open spec fn key_of(n: i64) -> Seq<u8> {
    be_bytes(n as u64, 8)
}

/// The numeric value of a byte string read as a big-endian integer.
pub open spec fn val_of(s: Seq<u8>) -> nat
    decreases s.len(),
{
    if s.len() == 0 {
        0
    } else {
        (val_of(s.drop_last()) * 256 + s.last()) as nat
    }
}

/// The sequence number that an 8-byte key decodes to.
pub open spec fn decoded(s: Seq<u8>) -> i64 {
    (val_of(s) as u64) as i64
}

/// 256 to the power `k`.
pub open spec fn pow256(k: nat) -> nat
    decreases k,
{
    if k == 0 {
        1
    } else {
        256 * pow256((k - 1) as nat)
    }
}

pub proof fn lemma_pow256_8()
    ensures
        pow256(8) == 0x1_0000_0000_0000_0000,
{
    reveal_with_fuel(pow256, 9);
}

pub proof fn lemma_pow256_increases(a: nat, b: nat)
    requires
        a <= b,
    ensures
        pow256(a) <= pow256(b),
    decreases b,
{
    if a < b {
        lemma_pow256_increases(a, (b - 1) as nat);
    }
}

pub proof fn lemma_be_bytes_len(n: u64, len: nat)
    ensures
        be_bytes(n, len).len() == len,
    decreases len,
{
    if len > 0 {
        lemma_be_bytes_len(n / 256, (len - 1) as nat);
    }
}

/// Decoding inverts encoding: the value of the big-endian bytes of `n`
/// is `n` again, provided `n` fits in `len` bytes.
pub proof fn lemma_val_of_be_bytes(n: u64, len: nat)
    requires
        n < pow256(len),
    ensures
        val_of(be_bytes(n, len)) == n,
    decreases len,
{
    if len == 0 {
        assert(n == 0);
    } else {
        let prefix = be_bytes(n / 256, (len - 1) as nat);
        let whole = be_bytes(n, len);
        lemma_be_bytes_len(n / 256, (len - 1) as nat);
        assert(whole.drop_last() =~= prefix);
        assert(((n / 256) as int) < pow256((len - 1) as nat) as int) by {
            lemma_multiply_divide_lt(n as int, 256, pow256((len - 1) as nat) as int);
        }
        lemma_val_of_be_bytes(n / 256, (len - 1) as nat);
        assert(256 * ((n as int) / 256) + (n as int) % 256 == n as int) by {
            lemma_fundamental_div_mod(n as int, 256);
        }
    }
}

/// Pushing one more byte keeps a strict order that already holds.
proof fn lemma_lex_push_lt(x: Seq<u8>, y: Seq<u8>, a: u8, b: u8)
    requires
        x.len() == y.len(),
        lex_lt(x, y),
    ensures
        lex_lt(x.push(a), y.push(b)),
    decreases x.len(),
{
    if x.len() > 0 {
        assert(x.push(a)[0] == x[0]);
        assert(y.push(b)[0] == y[0]);
        if x[0] == y[0] {
            assert(x.push(a).skip(1) =~= x.skip(1).push(a));
            assert(y.push(b).skip(1) =~= y.skip(1).push(b));
            lemma_lex_push_lt(x.skip(1), y.skip(1), a, b);
        }
    }
}

/// Equal prefixes are ordered by the byte pushed after them.
proof fn lemma_lex_push_last(x: Seq<u8>, a: u8, b: u8)
    requires
        a < b,
    ensures
        lex_lt(x.push(a), x.push(b)),
    decreases x.len(),
{
    if x.len() == 0 {
        assert(x.push(a)[0] == a);
        assert(x.push(b)[0] == b);
    } else {
        assert(x.push(a)[0] == x[0]);
        assert(x.push(b)[0] == x[0]);
        assert(x.push(a).skip(1) =~= x.skip(1).push(a));
        assert(x.push(b).skip(1) =~= x.skip(1).push(b));
        lemma_lex_push_last(x.skip(1), a, b);
    }
}

/// Big-endian encoding preserves order: smaller numbers give
/// lexicographically smaller byte strings.
pub proof fn lemma_be_bytes_order(n: u64, m: u64, len: nat)
    requires
        n < m,
        m < pow256(len),
    ensures
        lex_lt(be_bytes(n, len), be_bytes(m, len)),
    decreases len,
{
    let np = n / 256;
    let mp = m / 256;
    assert((np as int) <= (mp as int)) by {
        lemma_div_is_ordered(n as int, m as int, 256);
    }
    assert((mp as int) < pow256((len - 1) as nat) as int) by {
        lemma_multiply_divide_lt(m as int, 256, pow256((len - 1) as nat) as int);
    }
    lemma_be_bytes_len(np, (len - 1) as nat);
    lemma_be_bytes_len(mp, (len - 1) as nat);
    if np < mp {
        lemma_be_bytes_order(np, mp, (len - 1) as nat);
        lemma_lex_push_lt(
            be_bytes(np, (len - 1) as nat),
            be_bytes(mp, (len - 1) as nat),
            (n % 256) as u8,
            (m % 256) as u8,
        );
    } else {
        assert(n % 256 < m % 256) by {
            lemma_fundamental_div_mod(n as int, 256);
            lemma_fundamental_div_mod(m as int, 256);
        }
        lemma_lex_push_last(be_bytes(np, (len - 1) as nat), (n % 256) as u8, (m % 256) as u8);
    }
}

/// Keys of non-negative sequence numbers are ordered exactly as the numbers.
pub proof fn lemma_key_order(a: i64, b: i64)
    requires
        0 <= a < b,
    ensures
        lex_lt(key_of(a), key_of(b)),
{
    assert(a as u64 == a as int && b as u64 == b as int) by (bit_vector)
        requires
            0 <= a < b,
    ;
    lemma_pow256_8();
    lemma_be_bytes_order(a as u64, b as u64, 8);
}

/// Every encoded key is 8 bytes long.
pub proof fn lemma_key_len(n: i64)
    ensures
        key_of(n).len() == 8,
{
    lemma_be_bytes_len(n as u64, 8);
}

/// Decoding an encoded key gives back the sequence number.
pub proof fn lemma_key_roundtrip(n: i64)
    ensures
        decoded(key_of(n)) == n,
{
    lemma_pow256_8();
    lemma_val_of_be_bytes(n as u64, 8);
    assert((n as u64) as i64 == n) by (bit_vector);
}

/// Encoding is injective: distinct sequence numbers have distinct keys.
pub proof fn lemma_key_injective(a: i64, b: i64)
    requires
        key_of(a) == key_of(b),
    ensures
        a == b,
{
    lemma_key_roundtrip(a);
    lemma_key_roundtrip(b);
}

/// Encode a sequence number as its 8-byte big-endian key.
pub fn encode_key(n: i64) -> (r: Vec<u8>)
    ensures
        r@ == key_of(n),
        r@.len() == 8,
{
    let x0: u64 = #[verifier::truncate] (n as u64);
    let x1: u64 = x0 / 256;
    let x2: u64 = x1 / 256;
    let x3: u64 = x2 / 256;
    let x4: u64 = x3 / 256;
    let x5: u64 = x4 / 256;
    let x6: u64 = x5 / 256;
    let x7: u64 = x6 / 256;
    let mut r: Vec<u8> = Vec::new();
    r.push((x7 % 256) as u8);
    r.push((x6 % 256) as u8);
    r.push((x5 % 256) as u8);
    r.push((x4 % 256) as u8);
    r.push((x3 % 256) as u8);
    r.push((x2 % 256) as u8);
    r.push((x1 % 256) as u8);
    r.push((x0 % 256) as u8);
    proof {
        assert(be_bytes(x7 / 256, 0) =~= Seq::<u8>::empty());
        assert(be_bytes(x7, 1) =~= Seq::<u8>::empty().push((x7 % 256) as u8));
        assert(be_bytes(x6, 2) =~= be_bytes(x7, 1).push((x6 % 256) as u8));
        assert(be_bytes(x5, 3) =~= be_bytes(x6, 2).push((x5 % 256) as u8));
        assert(be_bytes(x4, 4) =~= be_bytes(x5, 3).push((x4 % 256) as u8));
        assert(be_bytes(x3, 5) =~= be_bytes(x4, 4).push((x3 % 256) as u8));
        assert(be_bytes(x2, 6) =~= be_bytes(x3, 5).push((x2 % 256) as u8));
        assert(be_bytes(x1, 7) =~= be_bytes(x2, 6).push((x1 % 256) as u8));
        assert(be_bytes(x0, 8) =~= be_bytes(x1, 7).push((x0 % 256) as u8));
        assert(r@ =~= key_of(n));
        lemma_key_len(n);
    }
    r
}

/// Decode an 8-byte big-endian key back into a sequence number; any byte
/// string of another length is rejected.
pub fn decode_key(k: &[u8]) -> (r: Option<i64>)
    ensures
        match r {
            Some(v) => k@.len() == 8 && v == decoded(k@),
            None => k@.len() != 8,
        },
{
    if k.len() != 8 {
        return None;
    }
    let mut acc: u64 = 0;
    let mut i: usize = 0;
    while i < 8
        invariant
            0 <= i <= 8,
            k@.len() == 8,
            acc == val_of(k@.subrange(0, i as int)),
            acc < pow256(i as nat),
        decreases 8 - i,
    {
        proof {
            lemma_pow256_increases((i + 1) as nat, 8);
            lemma_pow256_8();
            let ki: u8 = k@[i as int];
            assert(val_of(k@.subrange(0, i + 1)) == val_of(k@.subrange(0, i as int)) * 256 + ki)
                by {
                assert(k@.subrange(0, i + 1).drop_last() =~= k@.subrange(0, i as int));
                assert(k@.subrange(0, i + 1).last() == k@[i as int]);
            }
        }
        acc = acc * 256 + (k[i] as u64);
        i = i + 1;
    }
    proof {
        assert(k@.subrange(0, 8) =~= k@);
    }
    Some(acc as i64)
}

} // verus!
