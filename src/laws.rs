//! Properties of whole encoded and decoded streams, for both unit widths.
use vstd::prelude::*;

use vstd::arithmetic::div_mod::lemma_mod_sub_multiples_vanish;

use crate::cipher::extended::Extended;
use crate::cipher::{
    decoded, encoded, kept, kept_bytes, kept_pair, pair_at, pair_bytes, pair_count, Cipher,
    Simple,
};

verus! {

/// A byte with bit 7 clear is kept whole.
proof fn lemma_kept_seven_bit(b: u8)
    requires
        b < 0x80,
    ensures
        kept(b) == b,
{
    assert(b < 0x80 ==> b & 0x7F == b) by (bit_vector);
}

/// An encoded stream holds one unit of `N` bytes per pair of the input.
pub proof fn lemma_encoded_len<C: Cipher<N>, const N: usize>(c: C, s: Seq<u8>)
    ensures
        encoded(c, s).len() == pair_count(s.len() as int) * N,
    decreases s.len(),
{
    let n = N as int;
    if s.len() == 0 {
        assert(pair_count(0) == 0);
        assert(0 * n == 0);
    } else if s.len() == 1 {
        c.lemma_unit((s[0], None));
        assert(pair_count(1) == 1);
        assert(1 * n == n);
    } else {
        c.lemma_unit((s[0], Some(s[1])));
        lemma_encoded_len(c, s.skip(2));
        let p = pair_count(s.len() - 2);
        assert(pair_count(s.len() as int) == p + 1);
        assert((p + 1) * n == p * n + n) by (nonlinear_arith);
        assert(encoded(c, s) == c.unit_of((s[0], Some(s[1]))) + encoded(c, s.skip(2)));
    }
}

/// The `k`-th unit of an encoded stream is the encoding of the `k`-th pair
/// of the input: units come out in the order the pairs went in.
pub proof fn lemma_unit_order<C: Cipher<N>, const N: usize>(c: C, s: Seq<u8>, k: int)
    requires
        0 <= k < pair_count(s.len() as int),
    ensures
        k * N + N <= encoded(c, s).len(),
        encoded(c, s).subrange(k * N, k * N + N) == c.unit_of(pair_at(s, k)),
    decreases k,
{
    lemma_encoded_len(c, s);
    assert(k * N + N <= pair_count(s.len() as int) * N) by (nonlinear_arith)
        requires
            k < pair_count(s.len() as int),
            N >= 0,
    ;
    if s.len() == 1 {
        assert(k == 0);
        assert(k * N == 0);
        assert(encoded(c, s).subrange(0, N as int) =~= encoded(c, s));
    } else {
        let u = c.unit_of((s[0], Some(s[1])));
        let rest = encoded(c, s.skip(2));
        c.lemma_unit((s[0], Some(s[1])));
        if k == 0 {
            assert(k * N == 0) by (nonlinear_arith)
                requires
                    k == 0,
            ;
            assert((u + rest).subrange(0, N as int) =~= u);
        } else {
            lemma_unit_order(c, s.skip(2), k - 1);
            assert(k * N == (k - 1) * N + N) by (nonlinear_arith);
            assert((u + rest).subrange(k * N, k * N + N) =~= rest.subrange(
                (k - 1) * N,
                (k - 1) * N + N,
            ));
            assert(pair_at(s.skip(2), k - 1) == pair_at(s, k));
        }
    }
}

/// Decoding an encoded stream gives back every byte, in order, with bit 7
/// dropped.
pub proof fn lemma_decode_encode<C: Cipher<N>, const N: usize>(c: C, s: Seq<u8>)
    ensures
        decoded(c, encoded(c, s)) == kept_bytes(s),
    decreases s.len(),
{
    if s.len() == 0 {
        assert(kept_bytes(s) =~= seq![]);
    } else if s.len() == 1 {
        let u = c.unit_of((s[0], None));
        c.lemma_unit((s[0], None));
        assert(u.take(N as int) =~= u);
        assert(u.skip(N as int) =~= seq![]);
        assert(decoded(c, u) == pair_bytes(c.pair_of(u)) + decoded(c, seq![]));
        assert(kept_bytes(s) =~= pair_bytes(kept_pair((s[0], None))) + seq![]);
    } else {
        let p = (s[0], Some(s[1]));
        let u = c.unit_of(p);
        let rest = encoded(c, s.skip(2));
        c.lemma_unit(p);
        assert((u + rest).take(N as int) =~= u);
        assert((u + rest).skip(N as int) =~= rest);
        lemma_decode_encode(c, s.skip(2));
        assert(encoded(c, s) == u + rest);
        assert(decoded(c, u + rest) == pair_bytes(c.pair_of(u)) + decoded(c, rest));
        assert(kept_bytes(s) =~= pair_bytes(kept_pair(p)) + kept_bytes(s.skip(2)));
    }
}

/// Bytes with bit 7 clear survive a round trip exactly.
proof fn lemma_round_trip<C: Cipher<N>, const N: usize>(c: C, s: Seq<u8>)
    requires
        forall|i: int| 0 <= i < s.len() ==> s[i] < 0x80,
    ensures
        decoded(c, encoded(c, s)) == s,
{
    lemma_decode_encode(c, s);
    assert forall|i: int| 0 <= i < s.len() implies kept_bytes(s)[i] == s[i] by {
        lemma_kept_seven_bit(s[i]);
    }
    assert(kept_bytes(s) =~= s);
}

/// A stream of even length whose bytes have bit 7 clear decodes back to
/// itself.
pub proof fn lemma_round_trip_even<C: Cipher<N>, const N: usize>(c: C, s: Seq<u8>)
    requires
        s.len() % 2 == 0,
        forall|i: int| 0 <= i < s.len() ==> s[i] < 0x80,
    ensures
        decoded(c, encoded(c, s)) == s,
{
    lemma_round_trip(c, s);
}

/// A stream of odd length whose bytes have bit 7 clear decodes back to
/// itself; its last unit carries the absent flag and decodes to the last
/// byte alone.
pub proof fn lemma_round_trip_odd<C: Cipher<N>, const N: usize>(c: C, s: Seq<u8>)
    requires
        s.len() % 2 == 1,
        forall|i: int| 0 <= i < s.len() ==> s[i] < 0x80,
    ensures
        decoded(c, encoded(c, s)) == s,
        encoded(c, s).len() >= N,
        c.pair_of(encoded(c, s).skip(encoded(c, s).len() - N)) == (s.last(), None::<u8>),
        pair_bytes(c.pair_of(encoded(c, s).skip(encoded(c, s).len() - N))) == seq![s.last()],
{
    lemma_round_trip(c, s);
    let k = pair_count(s.len() as int) - 1;
    lemma_unit_order(c, s, k);
    lemma_encoded_len(c, s);
    assert(k * N + N == pair_count(s.len() as int) * N) by (nonlinear_arith)
        requires
            k == pair_count(s.len() as int) - 1,
    ;
    let e = encoded(c, s);
    assert(e.skip(e.len() - N) =~= e.subrange(k * N, k * N + N));
    assert(pair_at(s, k) == (s.last(), None::<u8>));
    c.lemma_unit((s.last(), None));
    lemma_kept_seven_bit(s.last());
}

/// Of a single byte only bits 0 to 6 survive; where bit 7 is set the byte
/// does not come back.
pub proof fn lemma_high_bit_dropped<C: Cipher<N>, const N: usize>(c: C, b: u8)
    ensures
        decoded(c, encoded(c, seq![b])) == seq![(b & 0x40) | (b & 0x3F)],
        b & 0x80 != 0 ==> decoded(c, encoded(c, seq![b])) != seq![b],
{
    lemma_decode_encode(c, seq![b]);
    assert(kept_bytes(seq![b]) =~= seq![kept(b)]);
    assert(b & 0x7F == (b & 0x40) | (b & 0x3F)) by (bit_vector);
    assert(b & 0x80 != 0 ==> b & 0x7F != b) by (bit_vector);
    if b & 0x80 != 0 {
        assert(seq![kept(b)][0] != seq![b][0]);
    }
}

/// Every narrow unit has three bytes and a lead byte whose high nibble is
/// `0xE`.
pub proof fn lemma_narrow_units(s: Seq<u8>, k: int)
    requires
        0 <= k < pair_count(s.len() as int),
    ensures
        encoded(Simple {  }, s).len() == pair_count(s.len() as int) * 3,
        encoded(Simple {  }, s)[3 * k] & 0xF0 == 0xE0,
{
    let c = Simple {  };
    lemma_encoded_len(c, s);
    lemma_unit_order(c, s, k);
    let p = pair_at(s, k);
    let a = p.0;
    assert(encoded(c, s)[3 * k] == encoded(c, s).subrange(k * 3, k * 3 + 3)[0]);
    match p.1 {
        Some(b) => {
            assert(((0xE0u8 | ((a & 0x40) >> 5) | ((b & 0x40) >> 6)) & 0xF0) == 0xE0)
                by (bit_vector);
        },
        None => {
            assert(((0xE0u8 | 4u8 | ((a & 0x40) >> 5)) & 0xF0) == 0xE0) by (bit_vector);
        },
    }
}

/// Every wide unit has four bytes and the lead byte `0xF0`.
pub proof fn lemma_wide_units(s: Seq<u8>, k: int)
    requires
        0 <= k < pair_count(s.len() as int),
    ensures
        encoded(Extended, s).len() == pair_count(s.len() as int) * 4,
        encoded(Extended, s)[4 * k] == 0xF0,
{
    let c = Extended;
    lemma_encoded_len(c, s);
    lemma_unit_order(c, s, k);
    assert(encoded(c, s)[4 * k] == encoded(c, s).subrange(k * 4, k * 4 + 4)[0]);
}

/// A partial unit at the end of a stream is dropped: decoding reads only
/// the whole units before it.
pub proof fn lemma_truncated_tail<C: Cipher<N>, const N: usize>(c: C, s: Seq<u8>)
    ensures
        N > 0,
        decoded(c, s) == decoded(c, s.take(s.len() - s.len() as int % (N as int))),
    decreases s.len(),
{
    c.lemma_unit((0, None));
    let n = N as int;
    let t = s.take(s.len() as int - s.len() as int % n);
    if s.len() < n {
        assert(s.len() as int % n == s.len()) by (nonlinear_arith)
            requires
                0 <= s.len() as int && s.len() < n,
        ;
        assert(t.len() == 0);
    } else {
        let len = s.len() as int;
        lemma_mod_sub_multiples_vanish(len, n);
        assert((len - n) % n <= len - n) by (nonlinear_arith)
            requires
                len - n >= 0,
                n > 0,
        ;
        assert(-n + len == len - n);
        assert(t.len() >= n);
        let r = s.skip(n);
        lemma_truncated_tail(c, r);
        assert(t.take(n) =~= s.take(n));
        assert(t.skip(n) =~= r.take(r.len() as int - r.len() as int % n));
    }
}

} // verus!
