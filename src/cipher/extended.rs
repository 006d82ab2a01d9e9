//! The wide variant: four-byte units shaped like UTF-8 sequences of four
//! bytes.
use vstd::prelude::*;

use super::{
    kept_pair, low_bits, sig_bit, BytePair, Cipher, CONTINUATION, LOWER_BITS_MASK, SINGLE_CHAR_MASK,
};

verus! {

pub const WIDE_LEAD: u8 = 0b1111_0000;

pub const WIDE_MARKER: u8 = 0b1001_0000;

/// Four-byte units: a fixed lead byte `0xF0`, then a marker byte `0x9_`
/// whose low three bits are the absent flag and the high bits of the first
/// and second byte, then one continuation byte per pair member.
#[derive(Debug, Clone, Copy, PartialEq, Eq)]
pub struct Extended;

impl Cipher<4> for Extended {
    open spec fn unit_of(&self, pair: BytePair) -> Seq<u8> {
        match pair.1 {
            Some(c1) => seq![
                WIDE_LEAD,
                WIDE_MARKER | (sig_bit(pair.0) >> 5) | (sig_bit(c1) >> 6),
                CONTINUATION | low_bits(pair.0),
                CONTINUATION | low_bits(c1),
            ],
            None => seq![
                WIDE_LEAD,
                WIDE_MARKER | (sig_bit(pair.0) >> 5) | SINGLE_CHAR_MASK,
                CONTINUATION | low_bits(pair.0),
                CONTINUATION,
            ],
        }
    }

    open spec fn pair_of(&self, unit: Seq<u8>) -> BytePair {
        let c0 = ((unit[1] & 2) << 5) | low_bits(unit[2]);
        if unit[1] & SINGLE_CHAR_MASK != 0 {
            (c0, None)
        } else {
            (c0, Some(((unit[1] & 1) << 6) | low_bits(unit[3])))
        }
    }

    proof fn lemma_unit(&self, pair: BytePair) {
        let a = pair.0;
        match pair.1 {
            Some(b) => {
                assert({
                    let m = 0x90u8 | ((a & 0x40) >> 5) | ((b & 0x40) >> 6);
                    &&& m & 4 == 0
                    &&& ((m & 2) << 5) | ((0x80u8 | (a & 0x3F)) & 0x3F) == a & 0x7F
                    &&& ((m & 1) << 6) | ((0x80u8 | (b & 0x3F)) & 0x3F) == b & 0x7F
                }) by (bit_vector);
            },
            None => {
                assert({
                    let m = 0x90u8 | ((a & 0x40) >> 5) | 4u8;
                    &&& m & 4 != 0
                    &&& ((m & 2) << 5) | ((0x80u8 | (a & 0x3F)) & 0x3F) == a & 0x7F
                }) by (bit_vector);
            },
        }
        assert(kept_pair(pair) == self.pair_of(self.unit_of(pair)));
    }

    fn encrypt_char_pair(&self, pair: BytePair) -> (r: [u8; 4])
        ensures
            r[0] == 0xF0,
    {
        let mut encrypted_char = [0u8, 0, 0, 0];
        let c0 = pair.0;
        let sig_0 = c0 & 0x40;
        let low_0 = c0 & LOWER_BITS_MASK;
        encrypted_char[0] = WIDE_LEAD;
        encrypted_char[1] = WIDE_MARKER | (sig_0 >> 5);
        encrypted_char[2] = CONTINUATION | low_0;
        match pair.1 {
            Some(c1) => {
                let sig_1 = c1 & 0x40;
                let low_1 = c1 & LOWER_BITS_MASK;
                encrypted_char[1] = encrypted_char[1] | (sig_1 >> 6);
                encrypted_char[3] = CONTINUATION | low_1;
            },
            None => {
                encrypted_char[1] = encrypted_char[1] | SINGLE_CHAR_MASK;
                encrypted_char[3] = CONTINUATION;
            },
        }
        assert(encrypted_char@ =~= self.unit_of(pair));
        encrypted_char
    }

    fn decrypt_char_pair(&self, encrypted: [u8; 4]) -> (r: BytePair) {
        let c0_sig_bit = (encrypted[1] & 2) << 5;
        let c0_lower = encrypted[2] & LOWER_BITS_MASK;
        let c0 = c0_sig_bit | c0_lower;
        if encrypted[1] & SINGLE_CHAR_MASK != 0 {
            return (c0, None);
        }
        let c1_sig_bit = (encrypted[1] & 1) << 6;
        let c1_lower = encrypted[3] & LOWER_BITS_MASK;
        (c0, Some(c1_sig_bit | c1_lower))
    }
}

} // verus!
