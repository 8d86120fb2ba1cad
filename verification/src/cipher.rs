//! The encryption of one chunk.
//!
//! Each chunk of a file is sealed on its own with AES-256-GCM. Its nonce is the nonce of the file
//! with the index of the chunk mixed into the last four bytes. Its index and whether it is the
//! last chunk are authenticated with it, so that chunks can be neither moved nor left out.

use aes_gcm::aead::{Aead, KeyInit, Payload};
use aes_gcm::{Aes256Gcm, Nonce};
use vstd::prelude::*;

use crate::bytes;
use crate::container;
use crate::failure::Failure;
use crate::header::{CHUNK_SIZE, NONCE_LEN};

verus! {

/// The length of the tag that follows each ciphertext.
pub const TAG_LEN: usize = 16;

/// The error of the `aead` crate, which says nothing more.
#[verifier::external_type_specification]
#[verifier::external_body]
pub struct ExAeadError(aes_gcm::aead::Error);

/// The AES-256-GCM ciphertext of `msg`, with its tag: what `aes_gcm::aead::Aead::encrypt` returns.
pub uninterp spec fn gcm_sealed(
    key: Seq<u8>,
    nonce: Seq<u8>,
    msg: Seq<u8>,
    aad: Seq<u8>,
) -> Seq<u8>;

/// The message in the AES-256-GCM ciphertext `sealed`, or `None` where its tag does not match:
/// what `aes_gcm::aead::Aead::decrypt` returns.
pub uninterp spec fn gcm_opened(
    key: Seq<u8>,
    nonce: Seq<u8>,
    sealed: Seq<u8>,
    aad: Seq<u8>,
) -> Option<Seq<u8>>;

/// `aes_gcm::aead::Aead::encrypt` of `Aes256Gcm`: it does not fail on lengths of 32 bits, makes the
/// message sixteen bytes longer, and the matching `decrypt` gives the message back.
#[verifier::external_body]
fn gcm_encrypt(key: &[u8; 32], nonce: &[u8], msg: &[u8], aad: &[u8]) -> (r: Result<
    Vec<u8>,
    aes_gcm::aead::Error,
>)
    requires
        nonce@.len() == 12,
        msg@.len() + 16 <= 0xffff_ffff,
        aad@.len() <= 0xffff_ffff,
    ensures
        r is Ok,
        r->Ok_0@ == gcm_sealed(key@, nonce@, msg@, aad@),
        r->Ok_0@.len() == msg@.len() + 16,
        gcm_opened(key@, nonce@, r->Ok_0@, aad@) == Some(msg@),
{
    let cipher = Aes256Gcm::new_from_slice(key).expect("the key has the length of a key");
    cipher.encrypt(Nonce::from_slice(nonce), Payload { msg, aad })
}

/// `aes_gcm::aead::Aead::decrypt` of `Aes256Gcm`: it gives out a message only where the tag
/// matches, sixteen bytes shorter than the ciphertext, and the matching `encrypt` gives the very
/// ciphertext and tag back.
#[verifier::external_body]
fn gcm_decrypt(key: &[u8; 32], nonce: &[u8], sealed: &[u8], aad: &[u8]) -> (r: Result<
    Vec<u8>,
    aes_gcm::aead::Error,
>)
    requires
        nonce@.len() == 12,
        sealed@.len() <= 0xffff_ffff,
        aad@.len() <= 0xffff_ffff,
    ensures
        r is Ok == gcm_opened(key@, nonce@, sealed@, aad@) is Some,
        r is Ok ==> gcm_opened(key@, nonce@, sealed@, aad@) == Some(r->Ok_0@),
        r is Ok ==> r->Ok_0@.len() + 16 == sealed@.len(),
        r is Ok ==> gcm_sealed(key@, nonce@, r->Ok_0@, aad@) == sealed@,
{
    let cipher = Aes256Gcm::new_from_slice(key).expect("the key has the length of a key");
    cipher.decrypt(Nonce::from_slice(nonce), Payload { msg: sealed, aad })
}

/// The nonce of the chunk at `index` in a file with the nonce `base`.
pub open spec fn chunk_nonce(base: Seq<u8>, index: int) -> Seq<u8> {
    Seq::new(
        NONCE_LEN as nat,
        |i: int|
            if i < NONCE_LEN - 4 {
                base[i]
            } else {
                base[i] ^ bytes::le32(index)[i - (NONCE_LEN - 4)]
            },
    )
}

/// What is authenticated with the chunk at `index`.
pub open spec fn chunk_aad(index: int, last: bool) -> Seq<u8> {
    bytes::le32(index).push(
        if last {
            1u8
        } else {
            0u8
        },
    )
}

/// The bytes in the file for the chunk at `index`. The chunk without plaintext is the last.
pub open spec fn chunk_frame(key: Seq<u8>, base: Seq<u8>, index: int, plaintext: Seq<u8>) -> Seq<
    u8,
> {
    bytes::le32(plaintext.len() as int) + gcm_sealed(
        key,
        chunk_nonce(base, index),
        plaintext,
        chunk_aad(index, plaintext.len() == 0),
    )
}

/// The plaintext in `sealed`, the ciphertext and tag of the chunk at `index`, or `None` where they
/// do not belong there.
pub open spec fn chunk_opened(key: Seq<u8>, base: Seq<u8>, index: int, sealed: Seq<u8>) -> Option<
    Seq<u8>,
> {
    gcm_opened(
        key,
        chunk_nonce(base, index),
        sealed,
        chunk_aad(index, sealed.len() == TAG_LEN),
    )
}

/// No two chunks of a file have the same nonce.
pub proof fn nonces_are_distinct(base: Seq<u8>, i: u32, j: u32)
    requires
        base.len() == NONCE_LEN,
        i != j,
    ensures
        chunk_nonce(base, i as int) != chunk_nonce(base, j as int),
{
    let (a, b) = (bytes::le32(i as int), bytes::le32(j as int));
    if chunk_nonce(base, i as int) == chunk_nonce(base, j as int) {
        assert forall|k: int| 0 <= k < 4 implies a[k] == b[k] by {
            assert(chunk_nonce(base, i as int)[k + 8] == chunk_nonce(base, j as int)[k + 8]);
            let (m, x, y) = (base[k + 8], a[k], b[k]);
            assert(m ^ x == m ^ y ==> x == y) by (bit_vector);
        }
        assert(a =~= b);
        bytes::number_round_trip(i);
        bytes::number_round_trip(j);
    }
}

/// What is authenticated with a chunk tells its place and whether it is the last.
pub proof fn aad_tells_place(i: u32, last_i: bool, j: u32, last_j: bool)
    requires
        chunk_aad(i as int, last_i) == chunk_aad(j as int, last_j),
    ensures
        i == j,
        last_i == last_j,
{
    let (a, b) = (chunk_aad(i as int, last_i), chunk_aad(j as int, last_j));
    assert(a[4] == b[4]);
    assert(a.take(4) =~= bytes::le32(i as int));
    assert(b.take(4) =~= bytes::le32(j as int));
    bytes::number_round_trip(i);
    bytes::number_round_trip(j);
}

/// What the nonce of a chunk is made of, for every index: its first eight bytes are those of the
/// file's nonce, and its last four differ from those of the file's nonce by just the index, in bytes of
/// growing worth. No other bytes will do.
#[verifier::rlimit(40)]
pub proof fn nonce_carries_the_index(base: Seq<u8>, index: u32, nonce: Seq<u8>)
    requires
        base.len() == 12,
    ensures
        nonce == chunk_nonce(base, index as int) <==> {
            &&& nonce.len() == 12
            &&& nonce.take(8) == base.take(8)
            &&& (nonce[8] ^ base[8]) + 256 * (nonce[9] ^ base[9]) + 65536 * (nonce[10] ^ base[10])
                + 16777216 * (nonce[11] ^ base[11]) == index
        },
{
    let own = chunk_nonce(base, index as int);
    let digits = bytes::le32(index as int);
    bytes::bytes_have_their_worth(index);
    assert(own.take(8) =~= base.take(8));
    assert forall|k: int| 0 <= k < 4 implies own[8 + k] ^ base[8 + k] == #[trigger] digits[k] by {
        let (b, d) = (base[8 + k], digits[k]);
        assert((b ^ d) ^ b == d) by (bit_vector);
        assert(own[8 + k] == b ^ d);
    }
    assert(own[8] ^ base[8] == digits[0] && own[9] ^ base[9] == digits[1]);
    assert(own[10] ^ base[10] == digits[2] && own[11] ^ base[11] == digits[3]);
    if nonce.len() == 12 && nonce.take(8) == base.take(8) && (nonce[8] ^ base[8]) + 256 * (nonce[9]
        ^ base[9]) + 65536 * (nonce[10] ^ base[10]) + 16777216 * (nonce[11] ^ base[11]) == index {
        let mixed = seq![
            nonce[8] ^ base[8],
            nonce[9] ^ base[9],
            nonce[10] ^ base[10],
            nonce[11] ^ base[11],
        ];
        bytes::bytes_are_read_by_worth(mixed[0], mixed[1], mixed[2], mixed[3]);
        bytes::bytes_round_trip(mixed);
        assert(mixed == digits);
        assert forall|i: int| 0 <= i < 12 implies nonce[i] == own[i] by {
            if i < 8 {
                assert(nonce.take(8)[i] == base.take(8)[i]);
            } else {
                let (n, b) = (nonce[i], base[i]);
                assert(n == b ^ (n ^ b)) by (bit_vector);
                assert(n ^ b == mixed[i - 8]);
            }
        }
        assert(nonce =~= own);
    }
}

/// What is authenticated with a chunk, for every index: the index, in four bytes of growing worth, and
/// one more byte, 1 for the last chunk and 0 for any other.
pub proof fn aad_carries_the_index(index: u32, last: bool)
    ensures
        ({
            let aad = chunk_aad(index as int, last);
            &&& aad.len() == 5
            &&& aad[0] + 256 * aad[1] + 65536 * aad[2] + 16777216 * aad[3] == index
            &&& aad[4] == if last {
                1u8
            } else {
                0u8
            }
        }),
{
    bytes::bytes_have_their_worth(index);
}

/// What a chunk is in the file: the length of its plaintext, in four bytes of growing worth, and what
/// AES-GCM makes of the plaintext with the key itself, the nonce of the chunk, and what says its place.
/// Only a chunk without plaintext is marked as the last.
pub proof fn frame_is_length_and_ciphertext(
    key: Seq<u8>,
    base: Seq<u8>,
    index: u32,
    plaintext: Seq<u8>,
)
    requires
        plaintext.len() <= 65536,
    ensures
        ({
            let frame = chunk_frame(key, base, index as int, plaintext);
            let nonce = chunk_nonce(base, index as int);
            let aad = chunk_aad(index as int, plaintext.len() == 0);
            &&& frame.len() == 4 + gcm_sealed(key, nonce, plaintext, aad).len()
            &&& frame[0] + 256 * frame[1] + 65536 * frame[2] + 16777216 * frame[3]
                == plaintext.len()
            &&& frame.skip(4) == gcm_sealed(key, nonce, plaintext, aad)
        }),
{
    let frame = chunk_frame(key, base, index as int, plaintext);
    let nonce = chunk_nonce(base, index as int);
    let aad = chunk_aad(index as int, plaintext.len() == 0);
    bytes::bytes_have_their_worth(plaintext.len() as u32);
    assert(frame.skip(4) =~= gcm_sealed(key, nonce, plaintext, aad));
}

/// How a chunk is opened: as what AES-GCM opens with the key itself, the nonce of the chunk, and what
/// says its place. Only sixteen bytes, a tag alone, are taken for the last chunk.
pub proof fn chunk_is_opened_in_its_place(
    key: Seq<u8>,
    base: Seq<u8>,
    index: u32,
    sealed: Seq<u8>,
)
    ensures
        chunk_opened(key, base, index as int, sealed) == gcm_opened(
            key,
            chunk_nonce(base, index as int),
            sealed,
            chunk_aad(index as int, sealed.len() == 16),
        ),
{
}

fn nonce_for(base: &[u8], index: u32) -> (nonce: Vec<u8>)
    requires
        base@.len() == NONCE_LEN,
    ensures
        nonce@ == chunk_nonce(base@, index as int),
{
    let mut index_bytes: Vec<u8> = Vec::with_capacity(4);
    bytes::push_le32(&mut index_bytes, index);
    assert(index_bytes@ =~= bytes::le32(index as int));
    let mut nonce: Vec<u8> = Vec::with_capacity(NONCE_LEN);
    for i in 0..NONCE_LEN
        invariant
            base@.len() == NONCE_LEN,
            index_bytes@ == bytes::le32(index as int),
            nonce@ == chunk_nonce(base@, index as int).take(i as int),
    {
        if i < NONCE_LEN - 4 {
            nonce.push(base[i]);
        } else {
            nonce.push(base[i] ^ index_bytes[i - (NONCE_LEN - 4)]);
        }
        assert(nonce@ =~= chunk_nonce(base@, index as int).take(i + 1));
    }
    assert(nonce@ =~= chunk_nonce(base@, index as int));
    nonce
}

fn aad_for(index: u32, last: bool) -> (aad: Vec<u8>)
    ensures
        aad@ == chunk_aad(index as int, last),
{
    let mut aad: Vec<u8> = Vec::with_capacity(5);
    bytes::push_le32(&mut aad, index);
    aad.push(
        if last {
            1
        } else {
            0
        },
    );
    assert(aad@ =~= chunk_aad(index as int, last));
    aad
}

/// Seals the chunk at `index`. An empty `plaintext` makes it the last chunk.
pub fn seal_chunk(key: &[u8; 32], base: &[u8], index: u32, plaintext: &[u8]) -> (r: Result<
    Vec<u8>,
    Failure,
>)
    requires
        base@.len() == NONCE_LEN,
        plaintext@.len() <= CHUNK_SIZE,
    ensures
        r matches Ok(frame) && {
            &&& frame@ == chunk_frame(key@, base@, index as int, plaintext@)
            &&& container::is_frame(key@, base@, index as int, frame@, plaintext@)
        },
{
    let nonce = nonce_for(base, index);
    let aad = aad_for(index, plaintext.len() == 0);
    match gcm_encrypt(key, &nonce, plaintext, &aad) {
        Ok(sealed) => {
            let mut frame: Vec<u8> = Vec::with_capacity(4 + sealed.len());
            bytes::push_le32(&mut frame, plaintext.len() as u32);
            frame.extend_from_slice(&sealed);
            assert(frame@ =~= bytes::le32(plaintext@.len() as int) + sealed@);
            assert(frame@.take(4) =~= bytes::le32(plaintext@.len() as int));
            assert(frame@.skip(4) =~= sealed@);
            Ok(frame)
        },
        Err(_) => Err(Failure::Encryption(index)),
    }
}

/// Opens the ciphertext and tag of the chunk at `index`.
pub fn open_chunk(key: &[u8; 32], base: &[u8], index: u32, sealed: &[u8]) -> (r: Result<
    Vec<u8>,
    Failure,
>)
    requires
        base@.len() == NONCE_LEN,
        sealed@.len() <= CHUNK_SIZE + TAG_LEN,
    ensures
        match chunk_opened(key@, base@, index as int, sealed@) {
            Some(p) => r matches Ok(plaintext) && {
                &&& plaintext@ == p
                &&& p.len() + TAG_LEN == sealed@.len()
                &&& bytes::le32(p.len() as int) + sealed@ == chunk_frame(
                    key@,
                    base@,
                    index as int,
                    p,
                )
            },
            None => r == Err::<Vec<u8>, Failure>(Failure::Authentication),
        },
{
    let nonce = nonce_for(base, index);
    let aad = aad_for(index, sealed.len() == TAG_LEN);
    match gcm_decrypt(key, &nonce, sealed, &aad) {
        Ok(plaintext) => Ok(plaintext),
        Err(_) => Err(Failure::Authentication),
    }
}

} // verus!
