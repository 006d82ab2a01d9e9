//! The codec contract shared by both unit widths, the narrow (three-byte)
//! variant, and the spec-level model of whole encoded streams.
pub mod encrypt;
pub mod extended;

use vstd::prelude::*;
use vstd::utf8::{decode_utf8, valid_utf8};

use self::encrypt::{encrypt_pairs, BytePairs, SliceSource};

verus! {

/// One or two consecutive input bytes; the second is absent only for the
/// odd tail of a stream.
pub type BytePair = (u8, Option<u8>);

pub const LOWER_BITS_MASK: u8 = 0b0011_1111;

/// The absent flag: set in a unit's marker when the pair has no second byte.
pub const SINGLE_CHAR_MASK: u8 = 0b0000_0100;

/// The fixed top bits of every continuation byte.
pub const CONTINUATION: u8 = 0b1000_0000;

pub const NARROW_LEAD: u8 = 0b1110_0000;

/// Bit 6 of a byte: the one high bit that an encoded unit carries.
pub open spec fn sig_bit(b: u8) -> u8 {
    b & 0x40
}

/// Bits 0 to 5 of a byte.
pub open spec fn low_bits(b: u8) -> u8 {
    b & 0x3F
}

/// What survives of a byte after a trip through a unit: bit 7 is dropped.
pub open spec fn kept(b: u8) -> u8 {
    b & 0x7F
}

pub open spec fn kept_pair(p: BytePair) -> BytePair {
    (
        kept(p.0),
        match p.1 {
            Some(b) => Some(kept(b)),
            None => None,
        },
    )
}

pub open spec fn kept_bytes(s: Seq<u8>) -> Seq<u8> {
    s.map_values(|b: u8| kept(b))
}

/// The bytes a pair stands for, in order.
pub open spec fn pair_bytes(p: BytePair) -> Seq<u8> {
    match p.1 {
        Some(b) => seq![p.0, b],
        None => seq![p.0],
    }
}

/// The `k`-th pair of a byte stream.
pub open spec fn pair_at(s: Seq<u8>, k: int) -> BytePair {
    (s[2 * k], if 2 * k + 1 < s.len() { Some(s[2 * k + 1]) } else { None })
}

/// The number of pairs, and so of units, that a stream of `len` bytes makes.
pub open spec fn pair_count(len: int) -> int {
    (len + 1) / 2
}

/// The encoding of a whole stream: one unit per pair, in order.
pub open spec fn encoded<C: Cipher<N>, const N: usize>(c: C, s: Seq<u8>) -> Seq<u8>
    decreases s.len(),
{
    if s.len() == 0 {
        seq![]
    } else if s.len() == 1 {
        c.unit_of((s[0], None))
    } else {
        c.unit_of((s[0], Some(s[1]))) + encoded(c, s.skip(2))
    }
}

/// The decoding of a whole stream: each full unit in turn, a partial tail
/// dropped.
pub open spec fn decoded<C: Cipher<N>, const N: usize>(c: C, s: Seq<u8>) -> Seq<u8>
    decreases s.len(),
{
    if N == 0 || s.len() < N {
        seq![]
    } else {
        pair_bytes(c.pair_of(s.take(N as int))) + decoded(c, s.skip(N as int))
    }
}

/// Why a byte stream could not be turned into text: it is not well-formed
/// UTF-8.
#[derive(Debug, Clone, Copy, PartialEq, Eq)]
pub struct DecodingError {}

/// Relies on `String::from_utf8`: it accepts exactly the well-formed UTF-8
/// byte sequences and yields the characters they encode.
#[verifier::external_body]
fn text_from_bytes(bytes: Vec<u8>) -> (r: Result<String, DecodingError>)
    ensures
        r is Ok <==> valid_utf8(bytes@),
        r matches Ok(s) ==> s@ == decode_utf8(bytes@),
{
    match String::from_utf8(bytes) {
        Ok(s) => Ok(s),
        Err(_) => Err(DecodingError {  }),
    }
}

/// Capacity hint for encoding `data` into units of `width` bytes: one unit
/// per pair, saturating at `usize::MAX`.
pub fn encrypt_size(data: &[u8], width: usize) -> (r: usize)
    ensures
        r == if pair_count(data@.len() as int) * width <= usize::MAX {
            pair_count(data@.len() as int) * width
        } else {
            usize::MAX as int
        },
{
    let num_chars_needed: usize = if data.len() % 2 == 0 {
        data.len() / 2
    } else {
        (data.len() / 2) + 1
    };
    match num_chars_needed.checked_mul(width) {
        Some(n) => n,
        None => usize::MAX,
    }
}

/// Capacity hint for decoding `data` from units of `width` bytes: two bytes
/// per whole unit counted, halved (an undercount, never exact).
pub fn decrypt_size(data: &[u8], width: usize) -> (r: usize)
    requires
        width > 0,
    ensures
        r == data@.len() as int / (width as int) / 2,
{
    let num_encrypted_chars = data.len() / width;
    num_encrypted_chars / 2
}

/// A codec that maps a byte pair to a unit of `N` bytes and back.
pub trait Cipher<const N: usize>: Sized {
    /// The unit that `pair` encodes to.
    spec fn unit_of(&self, pair: BytePair) -> Seq<u8>;

    /// The pair that a unit decodes to; defined on any `N` bytes.
    spec fn pair_of(&self, unit: Seq<u8>) -> BytePair;

    /// Each unit has `N` bytes and decodes to the pair it came from, bit 7
    /// of each byte dropped.
    proof fn lemma_unit(&self, pair: BytePair)
        ensures
            N > 0,
            self.unit_of(pair).len() == N,
            self.pair_of(self.unit_of(pair)) == kept_pair(pair),
    ;

    fn encrypt_char_pair(&self, pair: BytePair) -> (r: [u8; N])
        ensures
            r@ == self.unit_of(pair),
    ;

    fn decrypt_char_pair(&self, encrypted: [u8; N]) -> (r: BytePair)
        ensures
            r == self.pair_of(encrypted@),
    ;
}

/// The narrow variant: three-byte units. The lead byte's high nibble is
/// `0xE`; its low three bits are the marker (absent flag, then the high bits
/// of the first and second byte).
#[derive(Debug, Clone, Copy, PartialEq, Eq)]
pub struct Simple {}

impl Cipher<3> for Simple {
    open spec fn unit_of(&self, pair: BytePair) -> Seq<u8> {
        match pair.1 {
            Some(c1) => seq![
                NARROW_LEAD | (sig_bit(pair.0) >> 5) | (sig_bit(c1) >> 6),
                CONTINUATION | low_bits(pair.0),
                CONTINUATION | low_bits(c1),
            ],
            None => seq![
                NARROW_LEAD | SINGLE_CHAR_MASK | (sig_bit(pair.0) >> 5),
                CONTINUATION | low_bits(pair.0),
                CONTINUATION,
            ],
        }
    }

    open spec fn pair_of(&self, unit: Seq<u8>) -> BytePair {
        let c0 = ((unit[0] & 2) << 5) | low_bits(unit[1]);
        if unit[0] & SINGLE_CHAR_MASK != 0 {
            (c0, None)
        } else {
            (c0, Some(((unit[0] & 1) << 6) | low_bits(unit[2])))
        }
    }

    proof fn lemma_unit(&self, pair: BytePair) {
        let a = pair.0;
        match pair.1 {
            Some(b) => {
                assert({
                    let m = 0xE0u8 | ((a & 0x40) >> 5) | ((b & 0x40) >> 6);
                    &&& m & 4 == 0
                    &&& ((m & 2) << 5) | ((0x80u8 | (a & 0x3F)) & 0x3F) == a & 0x7F
                    &&& ((m & 1) << 6) | ((0x80u8 | (b & 0x3F)) & 0x3F) == b & 0x7F
                }) by (bit_vector);
            },
            None => {
                assert({
                    let m = 0xE0u8 | 4u8 | ((a & 0x40) >> 5);
                    &&& m & 4 != 0
                    &&& ((m & 2) << 5) | ((0x80u8 | (a & 0x3F)) & 0x3F) == a & 0x7F
                }) by (bit_vector);
            },
        }
    }

    fn encrypt_char_pair(&self, pair: BytePair) -> (r: [u8; 3])
        ensures
            r[0] & 0xF0 == 0xE0,
    {
        match pair.1 {
            Some(c1) => Self::encrypt_ascii_char_pair(pair.0, c1),
            None => Self::encrypt_single_ascii_char(pair.0),
        }
    }

    fn decrypt_char_pair(&self, encrypted: [u8; 3]) -> (r: BytePair) {
        Self::decrypt_chars2(encrypted[0], encrypted[1], encrypted[2])
    }
}

impl Simple {
    fn encrypt_ascii_char_pair(c0: u8, c1: u8) -> (r: [u8; 3])
        ensures
            r@ == (Simple {  }).unit_of((c0, Some(c1))),
            r[0] & 0xF0 == 0xE0,
    {
        let sig_0 = c0 & 0x40;
        let sig_1 = c1 & 0x40;
        let low_0 = c0 & LOWER_BITS_MASK;
        let low_1 = c1 & LOWER_BITS_MASK;
        let r = [NARROW_LEAD | (sig_0 >> 5) | (sig_1 >> 6), CONTINUATION | low_0, CONTINUATION | low_1];
        assert(((0xE0u8 | ((c0 & 0x40) >> 5) | ((c1 & 0x40) >> 6)) & 0xF0) == 0xE0) by (bit_vector);
        assert(r@ =~= (Simple {  }).unit_of((c0, Some(c1))));
        r
    }

    fn encrypt_single_ascii_char(c0: u8) -> (r: [u8; 3])
        ensures
            r@ == (Simple {  }).unit_of((c0, None)),
            r[0] & 0xF0 == 0xE0,
    {
        let sig_0 = c0 & 0x40;
        let low_0 = c0 & LOWER_BITS_MASK;
        let r = [NARROW_LEAD | SINGLE_CHAR_MASK | (sig_0 >> 5), CONTINUATION | low_0, CONTINUATION];
        assert(((0xE0u8 | 4u8 | ((c0 & 0x40) >> 5)) & 0xF0) == 0xE0) by (bit_vector);
        assert(r@ =~= (Simple {  }).unit_of((c0, None)));
        r
    }

    fn decrypt_chars2(b0: u8, b1: u8, b2: u8) -> (r: BytePair)
        ensures
            r == (Simple {  }).pair_of(seq![b0, b1, b2]),
    {
        if b0 & SINGLE_CHAR_MASK != 0 {
            Self::decrypt_single_char2(b0, b1)
        } else {
            Self::decrypt_char_pair2(b0, b1, b2)
        }
    }

    fn decrypt_single_char2(b0: u8, b1: u8) -> (r: BytePair)
        ensures
            r == (((b0 & 2) << 5) | low_bits(b1), None::<u8>),
    {
        let sig_bit = (b0 & 2) << 5;
        let lower = b1 & LOWER_BITS_MASK;
        (sig_bit | lower, None)
    }

    fn decrypt_char_pair2(b0: u8, b1: u8, b2: u8) -> (r: BytePair)
        ensures
            r == (((b0 & 2) << 5) | low_bits(b1), Some(((b0 & 1) << 6) | low_bits(b2))),
    {
        let c0_sig_bit = (b0 & 2) << 5;
        let c1_sig_bit = (b0 & 1) << 6;
        let c0_lower = b1 & LOWER_BITS_MASK;
        let c1_lower = b2 & LOWER_BITS_MASK;
        (c0_sig_bit | c0_lower, Some(c1_sig_bit | c1_lower))
    }
}

/// Appends the encoding of `data` to `out`.
pub fn encrypt<C: Cipher<N>, const N: usize>(cipher: &C, data: &[u8], out: &mut Vec<u8>)
    ensures
        final(out)@ == old(out)@ + encoded(*cipher, data@),
{
    let mut pairs = BytePairs::new(SliceSource::new(data));
    encrypt_pairs(cipher, &mut pairs, out);
}

/// Appends the decoding of `data` to `out`; a partial unit at the end is
/// dropped.
pub fn decrypt<C: Cipher<N>, const N: usize>(cipher: &C, data: &[u8], out: &mut Vec<u8>)
    ensures
        final(out)@ == old(out)@ + decoded(*cipher, data@),
{
    if N == 0 {
        return ;
    }
    let mut i: usize = 0;
    assert(data@.skip(0) =~= data@);
    while data.len() - i >= N
        invariant
            N > 0,
            i <= data.len(),
            old(out)@ + decoded(*cipher, data@) == out@ + decoded(*cipher, data@.skip(i as int)),
        decreases data.len() - i,
    {
        let ghost rest = data@.skip(i as int);
        let mut unit = [0u8; N];
        let mut k: usize = 0;
        while k < N
            invariant
                k <= N,
                i + N <= data.len(),
                forall|j: int| 0 <= j < k ==> unit@[j] == data@[i + j],
            decreases N - k,
        {
            unit[k] = data[i + k];
            k = k + 1;
        }
        assert(unit@ =~= rest.take(N as int));
        assert(rest.skip(N as int) =~= data@.skip(i + N));
        let pair = cipher.decrypt_char_pair(unit);
        out.push(pair.0);
        match pair.1 {
            Some(b) => {
                out.push(b);
            },
            None => {},
        }
        proof {
            assert(old(out)@ + decoded(*cipher, data@) == out@ + decoded(*cipher, data@.skip(i + N)));
        }
        i = i + N;
    }
    assert(data@.skip(i as int).len() < N);
}

/// Encodes `data` and reads the units back as text.
pub fn encrypt_to_string<C: Cipher<N>, const N: usize>(cipher: &C, data: &[u8]) -> (r: Result<String, DecodingError>)
    ensures
        r is Ok <==> valid_utf8(encoded(*cipher, data@)),
        r matches Ok(s) ==> s@ == decode_utf8(encoded(*cipher, data@)),
{
    let mut result = Vec::with_capacity(encrypt_size(data, N));
    encrypt(cipher, data, &mut result);
    text_from_bytes(result)
}

/// Decodes `data` and reads the recovered bytes as text.
pub fn decrypt_to_string<C: Cipher<N>, const N: usize>(cipher: &C, data: &[u8]) -> (r: Result<String, DecodingError>)
    ensures
        r is Ok <==> valid_utf8(decoded(*cipher, data@)),
        r matches Ok(s) ==> s@ == decode_utf8(decoded(*cipher, data@)),
{
    let hint = if N == 0 {
        0
    } else {
        decrypt_size(data, N)
    };
    let mut result = Vec::with_capacity(hint);
    decrypt(cipher, data, &mut result);
    text_from_bytes(result)
}

} // verus!
