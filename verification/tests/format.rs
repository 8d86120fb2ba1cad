use aes_gcm::aead::{Aead, KeyInit, Payload};
use aes_gcm::{Aes256Gcm, Nonce};
use encrpt::bytes::{push_be32, push_le32, read_be32, read_le32, same_bytes};
use encrpt::cipher::{open_chunk, seal_chunk, TAG_LEN};
use encrpt::failure::{Failure, KdfFault};
use encrpt::header::{
    encode_header, inspect_file, parse_header, EncryptedHeader, CHUNK_SIZE, FORMAT_VERSION, HEADER_LEN, MAGIC,
};
use encrpt::kdf::derive_key;
use encrpt::text::decimal_string;

const SALT: [u8; 16] = [0xa0, 1, 2, 3, 4, 5, 6, 7, 8, 9, 10, 11, 12, 13, 14, 0xaf];
const NONCE: [u8; 12] = [0xb0, 1, 2, 3, 4, 5, 6, 7, 0xf8, 0xf9, 0xfa, 0xfb];
const KEY: [u8; 32] = [7; 32];

fn sample() -> Vec<u8> {
    encode_header(&EncryptedHeader {
        salt: &SALT,
        nonce: &NONCE,
        m_cost: 0x01020304,
        t_cost: 5,
        p_cost: 0xfffefdfc,
    })
}

fn gcm(nonce: &[u8], msg: &[u8], aad: &[u8]) -> Vec<u8> {
    Aes256Gcm::new_from_slice(&KEY)
        .unwrap()
        .encrypt(Nonce::from_slice(nonce), Payload { msg, aad })
        .unwrap()
}

#[test]
fn integers_are_written_in_either_byte_order() {
    let mut out = vec![9];
    push_le32(&mut out, 0x01020304);
    push_be32(&mut out, 0x01020304);
    assert_eq!(out, [9, 4, 3, 2, 1, 1, 2, 3, 4]);
    assert_eq!(read_le32(&out, 1), 0x01020304);
    assert_eq!(read_be32(&out, 5), 0x01020304);
}

#[test]
fn integers_survive_a_round_trip() {
    for n in [0, 1, 255, 256, 65535, 65536, 0x80000000, u32::MAX] {
        let mut out = Vec::new();
        push_le32(&mut out, n);
        push_be32(&mut out, n);
        assert_eq!(out[..4], n.to_le_bytes());
        assert_eq!(out[4..], n.to_be_bytes());
        assert_eq!(read_le32(&out, 0), n);
        assert_eq!(read_be32(&out, 4), n);
    }
}

#[test]
fn bytes_are_compared_in_full() {
    assert!(same_bytes(b"", b""));
    assert!(same_bytes(b"abc", b"abc"));
    assert!(!same_bytes(b"abc", b"abd"));
    assert!(!same_bytes(b"abc", b"ab"));
}

#[test]
fn numbers_are_written_in_decimal() {
    assert_eq!(decimal_string(0), "0");
    assert_eq!(decimal_string(9), "9");
    assert_eq!(decimal_string(10), "10");
    assert_eq!(decimal_string(u32::MAX), "4294967295");
}

#[test]
fn header_has_its_fields_in_place() {
    let head = sample();
    assert_eq!(head.len(), HEADER_LEN);
    assert_eq!(MAGIC, *b"ENCRPT");
    assert_eq!(&head[..6], b"ENCRPT");
    assert_eq!(head[6], 2);
    assert_eq!(head[7..23], SALT);
    assert_eq!(head[23..35], NONCE);
    assert_eq!(head[35..39], [1, 2, 3, 4]);
    assert_eq!(head[39..43], [0, 0, 0, 5]);
    assert_eq!(head[43..47], [0xff, 0xfe, 0xfd, 0xfc]);
}

#[test]
fn header_is_read_back() {
    let mut head = sample();
    head.push(77);
    match parse_header(&head) {
        Ok(h) => {
            assert_eq!(h.salt, SALT);
            assert_eq!(h.nonce, NONCE);
            assert_eq!((h.m_cost, h.t_cost, h.p_cost), (0x01020304, 5, 0xfffefdfc));
        }
        Err(e) => panic!("{:?}", e),
    }
}

#[test]
fn header_is_canonical_on_a_sample() {
    let head = sample();
    match parse_header(&head) {
        Ok(h) => assert_eq!(encode_header(&h), head),
        Err(e) => panic!("{:?}", e),
    }
}

#[test]
fn other_magic_is_refused() {
    assert!(matches!(
        parse_header(b"ENCRPX"),
        Err(Failure::BadMagic([b'E', b'N', b'C', b'R', b'P', b'X']))
    ));
}

#[test]
fn other_version_is_refused() {
    assert!(matches!(parse_header(b"ENCRPT\x01"), Err(Failure::UnsupportedVersion(1))));
}

#[test]
fn inspection_tells_version_and_costs() {
    let mut data = sample();
    assert_eq!(inspect_file(&data), Ok((FORMAT_VERSION, 0x01020304, 5, 0xfffefdfc)));
    data.extend_from_slice(b"chunks");
    assert_eq!(inspect_file(&data), Ok((2, 0x01020304, 5, 0xfffefdfc)));
}

#[test]
fn inspection_needs_a_whole_header() {
    let data = sample();
    assert_eq!(inspect_file(&data[..46]), Err(Failure::InspectTooShort));
    assert_eq!(inspect_file(&[]), Err(Failure::InspectTooShort));
    assert_eq!(inspect_file(b"not an encrpt file"), Err(Failure::InspectTooShort));
}

#[test]
fn inspection_refuses_other_files() {
    let mut data = sample();
    data[6] = 3;
    assert_eq!(inspect_file(&data), Err(Failure::UnsupportedVersion(3)));
    data[0] = b'e';
    assert_eq!(inspect_file(&data), Err(Failure::BadMagic(*b"eNCRPT")));
}

#[test]
fn key_is_the_argon2id_hash() {
    let mut expected = [0u8; 32];
    argon2::Argon2::new(
        argon2::Algorithm::Argon2id,
        argon2::Version::V0x13,
        argon2::Params::new(16, 2, 2, Some(32)).unwrap(),
    )
    .hash_password_into("pässword".as_bytes(), &SALT, &mut expected)
    .unwrap();
    assert_eq!(derive_key("pässword", &SALT, 16, 2, 2), Ok(expected));
    assert_ne!(expected, [0u8; 32]);
}

#[test]
fn key_depends_on_every_argument() {
    let key = derive_key("p", &SALT, 16, 1, 1).unwrap();
    assert_eq!(derive_key("p", &SALT, 16, 1, 1), Ok(key));
    assert_ne!(derive_key("q", &SALT, 16, 1, 1), Ok(key));
    assert_ne!(derive_key("p", &SALT[1..], 16, 1, 1), Ok(key));
    assert_ne!(derive_key("p", &SALT, 17, 1, 1), Ok(key));
    assert_ne!(derive_key("p", &SALT, 16, 2, 1), Ok(key));
    assert_ne!(derive_key("p", &SALT, 16, 1, 2), Ok(key));
}

#[test]
fn unusable_costs_are_refused() {
    let bad = |m, t, p| derive_key("p", &SALT, m, t, p);
    let refused = |fault| Err(Failure::BadParameters(fault));
    assert_eq!(bad(7, 1, 1), refused(KdfFault::MemoryTooLittle));
    assert_eq!(bad(15, 1, 2), refused(KdfFault::MemoryTooLittle));
    assert_eq!(bad(8, 0, 1), refused(KdfFault::TimeTooSmall));
    assert_eq!(bad(8, 1, 0), refused(KdfFault::ThreadsTooFew));
    assert_eq!(bad(u32::MAX, 1, 0x1000000), refused(KdfFault::ThreadsTooMany));
    assert_eq!(bad(u32::MAX, 1, 0x1fffffff), refused(KdfFault::ThreadsTooMany));
    assert_eq!(bad(u32::MAX, 1, 0x20000000), refused(KdfFault::MemoryTooLittle));
    assert_eq!(bad(u32::MAX, 1, u32::MAX), refused(KdfFault::MemoryTooLittle));
}

#[test]
fn first_fault_of_the_costs_is_told() {
    assert_eq!(
        derive_key("p", &SALT, 0, 0, 0),
        Err(Failure::BadParameters(KdfFault::MemoryTooLittle))
    );
    assert_eq!(
        derive_key("p", &SALT, 8, 0, 0),
        Err(Failure::BadParameters(KdfFault::TimeTooSmall))
    );
}

#[test]
fn short_salt_is_refused() {
    assert_eq!(
        derive_key("p", &SALT[..7], 8, 1, 1),
        Err(Failure::KeyDerivation(KdfFault::SaltTooShort))
    );
    assert!(derive_key("", &SALT[..8], 8, 1, 1).is_ok());
}

#[test]
fn chunk_is_length_and_gcm_ciphertext() {
    // The index goes into the last four bytes of the nonce, least significant first.
    let nonce = [0xb0, 1, 2, 3, 4, 5, 6, 7, 0xf8 ^ 4, 0xf9 ^ 3, 0xfa ^ 2, 0xfb ^ 1];
    let mut expected = vec![5, 0, 0, 0];
    expected.extend(gcm(&nonce, b"hello", &[4, 3, 2, 1, 0]));
    assert_eq!(expected.len(), 4 + 5 + TAG_LEN);
    assert_eq!(seal_chunk(&KEY, &NONCE, 0x01020304, b"hello"), Ok(expected));
}

#[test]
fn last_chunk_is_empty_and_marked() {
    let mut expected = vec![0, 0, 0, 0];
    expected.extend(gcm(&NONCE, b"", &[0, 0, 0, 0, 1]));
    assert_eq!(seal_chunk(&KEY, &NONCE, 0, b""), Ok(expected));
}

#[test]
fn chunk_is_opened_again() {
    for plaintext in [vec![], vec![42], vec![7; 1000], vec![1; CHUNK_SIZE]] {
        let frame = seal_chunk(&KEY, &NONCE, 3, &plaintext).unwrap();
        assert_eq!(frame.len(), plaintext.len() + 20);
        assert_eq!(open_chunk(&KEY, &NONCE, 3, &frame[4..]), Ok(plaintext));
    }
}

#[test]
fn chunk_out_of_its_place_is_refused() {
    let frame = seal_chunk(&KEY, &NONCE, 3, b"hello").unwrap();
    let sealed = &frame[4..];
    let refused = Err(Failure::Authentication);
    assert_eq!(open_chunk(&KEY, &NONCE, 2, sealed), refused);
    assert_eq!(open_chunk(&[8; 32], &NONCE, 3, sealed), refused);
    assert_eq!(open_chunk(&KEY, &[0; 12], 3, sealed), refused);
    assert_eq!(open_chunk(&KEY, &NONCE, 3, &sealed[1..]), refused);
    assert_eq!(open_chunk(&KEY, &NONCE, 3, &sealed[..15]), refused);
    assert_eq!(open_chunk(&KEY, &NONCE, 3, &[]), refused);
}

#[test]
fn chunk_not_sealed_as_last_is_not_the_last() {
    // An empty message that was sealed without the mark of the last chunk.
    let unmarked = gcm(&NONCE, b"", &[0, 0, 0, 0, 0]);
    assert_eq!(open_chunk(&KEY, &NONCE, 0, &unmarked), Err(Failure::Authentication));
    // A message with the mark.
    let marked = gcm(&NONCE, b"hello", &[0, 0, 0, 0, 1]);
    assert_eq!(open_chunk(&KEY, &NONCE, 0, &marked), Err(Failure::Authentication));
}

#[test]
fn every_changed_bit_of_a_chunk_is_noticed() {
    let frame = seal_chunk(&KEY, &NONCE, 3, b"hello").unwrap();
    for at in 0..8 * (frame.len() - 4) {
        let mut sealed = frame[4..].to_vec();
        sealed[at / 8] ^= 1 << (at % 8);
        assert_eq!(open_chunk(&KEY, &NONCE, 3, &sealed), Err(Failure::Authentication));
    }
}

#[test]
fn chunks_of_the_same_plaintext_differ() {
    let first = seal_chunk(&KEY, &NONCE, 0, b"hello").unwrap();
    let second = seal_chunk(&KEY, &NONCE, 1, b"hello").unwrap();
    assert_ne!(first, second);
}
