use utf8_cipher::cipher::{decrypt, decrypt_to_string, encrypt, encrypt_to_string};
use utf8_cipher::{
    decrypt_size, encrypt_size, BytePairs, Cipher, DecodingError, Encrypter, Extended,
    SliceSource, Simple,
};

fn encode_with<C: Cipher<N>, const N: usize>(cipher: &C, data: &[u8]) -> Vec<u8> {
    let mut out = Vec::new();
    encrypt(cipher, data, &mut out);
    out
}

fn decode_with<C: Cipher<N>, const N: usize>(cipher: &C, data: &[u8]) -> Vec<u8> {
    let mut out = Vec::new();
    decrypt(cipher, data, &mut out);
    out
}

#[test]
fn single_char_pair() {
    let cipher = Simple {};
    let res = encrypt_to_string(&cipher, "ad".as_bytes()).expect("must succeed");
    assert_eq!(res, "㡤");
    let decrypted = decrypt_to_string(&cipher, res.as_bytes()).expect("must succeed");
    assert_eq!(decrypted, "ad");

    let res = encrypt_to_string(&cipher, "gc".as_bytes()).expect("must succeed");
    assert_eq!(res, "㧣");
    let decrypted = decrypt_to_string(&cipher, res.as_bytes()).expect("must succeed");
    assert_eq!(decrypted, "gc");
}

#[test]
fn even_length_string() {
    let cipher = Simple {};
    let res = encrypt_to_string(&cipher, "adgc".as_bytes()).expect("must succeed");
    assert_eq!(res, "㡤㧣");
    let decrypted = decrypt_to_string(&cipher, res.as_bytes()).expect("must succeed");
    assert_eq!(decrypted, "adgc");
}

#[test]
fn narrow_pair_bytes_literal() {
    let cipher = Simple {};
    assert_eq!(cipher.encrypt_char_pair((0x61, Some(0x64))), [0xE3, 0xA1, 0xA4]);
    assert_eq!(cipher.decrypt_char_pair([0xE3, 0xA1, 0xA4]), (0x61, Some(0x64)));
    assert_eq!(cipher.encrypt_char_pair((0x64, Some(0x61))), [0xE3, 0xA4, 0xA1]);
    assert_eq!(cipher.decrypt_char_pair([0xE3, 0xA4, 0xA1]), (0x64, Some(0x61)));
    assert_eq!(encode_with(&cipher, b"ad"), vec![0xE3, 0xA1, 0xA4]);
    assert_eq!(decode_with(&cipher, &[0xE3, 0xA1, 0xA4]), b"ad".to_vec());
}

#[test]
fn narrow_bits_do_not_collide() {
    let cipher = Simple {};
    // bit 5 set in the first byte, bit 6 clear in both
    assert_eq!(cipher.encrypt_char_pair((0x21, Some(0x00))), [0xE0, 0xA1, 0x80]);
    assert_eq!(decode_with(&cipher, &encode_with(&cipher, &[0x21, 0x00])), vec![0x21, 0x00]);
    assert_eq!(decode_with(&cipher, &encode_with(&cipher, &[0x61, 0x21])), vec![0x61, 0x21]);
}

#[test]
fn narrow_single_byte_unit() {
    let cipher = Simple {};
    assert_eq!(cipher.encrypt_char_pair((0x61, None)), [0xE6, 0xA1, 0x80]);
    assert_eq!(cipher.decrypt_char_pair([0xE6, 0xA1, 0x80]), (0x61, None));
    assert_eq!(cipher.encrypt_char_pair((0x21, None)), [0xE4, 0xA1, 0x80]);
}

#[test]
fn wide_pair_bytes_literal() {
    let cipher = Extended;
    assert_eq!(cipher.encrypt_char_pair((0x61, Some(0x64))), [0xF0, 0x93, 0xA1, 0xA4]);
    assert_eq!(cipher.decrypt_char_pair([0xF0, 0x93, 0xA1, 0xA4]), (0x61, Some(0x64)));
    assert_eq!(cipher.encrypt_char_pair((0x61, None)), [0xF0, 0x96, 0xA1, 0x80]);
    assert_eq!(cipher.decrypt_char_pair([0xF0, 0x96, 0xA1, 0x80]), (0x61, None));
    let text = encrypt_to_string(&cipher, b"ad").expect("wide units are valid text");
    assert_eq!(text, "\u{13864}");
    assert_eq!(decrypt_to_string(&cipher, text.as_bytes()), Ok("ad".to_string()));
}

#[test]
fn round_trip_even_all_seven_bit_values() {
    let data: Vec<u8> = (0u8..128).collect();
    assert_eq!(decode_with(&Simple {}, &encode_with(&Simple {}, &data)), data);
    assert_eq!(decode_with(&Extended, &encode_with(&Extended, &data)), data);
    for a in 0u8..128 {
        for b in 0u8..128 {
            assert_eq!(Simple {}.decrypt_char_pair(Simple {}.encrypt_char_pair((a, Some(b)))), (a, Some(b)));
            assert_eq!(Extended.decrypt_char_pair(Extended.encrypt_char_pair((a, Some(b)))), (a, Some(b)));
        }
        assert_eq!(Simple {}.decrypt_char_pair(Simple {}.encrypt_char_pair((a, None))), (a, None));
        assert_eq!(Extended.decrypt_char_pair(Extended.encrypt_char_pair((a, None))), (a, None));
    }
}

#[test]
fn round_trip_odd_length() {
    let data = b"hello".to_vec();
    let narrow = encode_with(&Simple {}, &data);
    assert_eq!(narrow.len(), 9);
    assert_ne!(narrow[6] & 0x04, 0);
    assert_eq!(decode_with(&Simple {}, &narrow), data);
    let wide = encode_with(&Extended, &data);
    assert_eq!(wide.len(), 12);
    assert_ne!(wide[9] & 0x04, 0);
    assert_eq!(decode_with(&Extended, &wide), data);
    assert_eq!(decrypt_to_string(&Extended, &wide), Ok("hello".to_string()));
}

#[test]
fn high_bit_is_dropped() {
    for cipher_out in [
        decode_with(&Simple {}, &encode_with(&Simple {}, &[0xC1])),
        decode_with(&Extended, &encode_with(&Extended, &[0xC1])),
    ] {
        assert_eq!(cipher_out, vec![0x41]);
        assert_ne!(cipher_out, vec![0xC1]);
    }
    assert_eq!(decode_with(&Simple {}, &encode_with(&Simple {}, &[0x80, 0xFF])), vec![0x00, 0x7F]);
}

#[test]
fn unit_width_and_lead_byte() {
    let data: Vec<u8> = (0u8..=255).collect();
    let narrow = encode_with(&Simple {}, &data);
    assert_eq!(narrow.len(), 128 * 3);
    for unit in narrow.chunks(3) {
        assert_eq!(unit[0] & 0xF0, 0xE0);
    }
    let wide = encode_with(&Extended, &data[..255]);
    assert_eq!(wide.len(), 128 * 4);
    for unit in wide.chunks(4) {
        assert_eq!(unit[0], 0xF0);
    }
}

#[test]
fn pairs_stop_for_good() {
    let data = [1u8, 2, 3];
    let mut pairs = BytePairs::new(SliceSource::new(&data));
    assert_eq!(pairs.next_pair(), Some((1, Some(2))));
    assert_eq!(pairs.next_pair(), Some((3, None)));
    assert_eq!(pairs.next_pair(), None);
    assert_eq!(pairs.next_pair(), None);

    let empty: [u8; 0] = [];
    let mut pairs = BytePairs::new(SliceSource::new(&empty));
    assert_eq!(pairs.next_pair(), None);
    assert_eq!(pairs.next_pair(), None);
}

#[test]
fn truncated_tail_is_dropped() {
    let cipher = Simple {};
    assert_eq!(decode_with(&cipher, &[0xE3, 0xA1, 0xA4, 0xE3]), b"ad".to_vec());
    assert_eq!(decode_with(&cipher, &[0xE3, 0xA1, 0xA4, 0xE3, 0xA7]), b"ad".to_vec());
    assert_eq!(decode_with(&cipher, &[0xE3, 0xA1]), Vec::<u8>::new());
    assert_eq!(decode_with(&Extended, &[0xF0, 0x93, 0xA1, 0xA4, 0xF0, 0x93, 0xA1]), b"ad".to_vec());
    assert_eq!(decrypt_to_string(&cipher, &[0xE3, 0xA1, 0xA4, 0xE3]), Ok("ad".to_string()));
}

#[test]
fn empty_input() {
    assert_eq!(encode_with(&Simple {}, &[]), Vec::<u8>::new());
    assert_eq!(decode_with(&Simple {}, &[]), Vec::<u8>::new());
    assert_eq!(encrypt_to_string(&Extended, &[]), Ok(String::new()));
}

#[test]
fn invalid_text_is_reported() {
    // E0 80 80 is an overlong sequence
    assert_eq!(encrypt_to_string(&Simple {}, &[0x00, 0x00]), Err(DecodingError {}));
    assert_eq!(encode_with(&Simple {}, &[0x00, 0x00]), vec![0xE0, 0x80, 0x80]);
}

#[test]
fn size_hints() {
    assert_eq!(encrypt_size(&[1, 2, 3, 4], 3), 6);
    assert_eq!(encrypt_size(&[1, 2, 3], 3), 6);
    assert_eq!(encrypt_size(&[1, 2, 3], 4), 8);
    assert_eq!(encrypt_size(&[], 3), 0);
    assert_eq!(decrypt_size(&[0; 12], 3), 2);
    assert_eq!(decrypt_size(&[0; 11], 3), 1);
    assert_eq!(decrypt_size(&[0; 8], 4), 1);
}

#[test]
fn encrypter_writes_units() {
    let mut encrypter = Encrypter::new(vec![0x41], Simple {});
    encrypter.encrypt(SliceSource::new(b"ad"));
    assert_eq!(encrypter.writer(), &vec![0x41, 0xE3, 0xA1, 0xA4]);
    encrypter.encrypt(SliceSource::new(b"gc"));
    assert_eq!(encrypter.into_writer(), vec![0x41, 0xE3, 0xA1, 0xA4, 0xE3, 0xA7, 0xA3]);

    let mut wide = Encrypter::new(Vec::new(), Extended);
    wide.encrypt(SliceSource::new(b"a"));
    assert_eq!(wide.into_writer(), vec![0xF0, 0x96, 0xA1, 0x80]);
}
