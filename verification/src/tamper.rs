//! What becomes of an encrypted file that is changed, or read with another password.
//!
//! That a change is noticed rests on AES-GCM and Argon2id, which no proof here is about. The laws
//! say what follows where they do what they are used for: nobody who lacks the key makes bytes that
//! open under it, and different inputs give different keys.

use vstd::prelude::*;
use vstd::utf8;

use crate::bytes;
use crate::cipher;
use crate::cipher::TAG_LEN;
use crate::container;
use crate::failure::Failure;
use crate::header;
use crate::header::{HeaderView, CHUNK_SIZE, HEADER_LEN, NONCE_LEN};
use crate::kdf;

verus! {

/// Bytes that someone who had the key sealed with AES-GCM.
pub struct Sealing {
    pub key: Seq<u8>,
    pub nonce: Seq<u8>,
    pub aad: Seq<u8>,
    pub bytes: Seq<u8>,
}

/// The sealing of the chunk at `i` of a file with these `chunks`.
pub open spec fn sealing_of(
    key: Seq<u8>,
    base: Seq<u8>,
    chunks: Seq<Seq<u8>>,
    i: int,
) -> Sealing {
    let nonce = cipher::chunk_nonce(base, i);
    let aad = cipher::chunk_aad(i, i == chunks.len());
    Sealing { key, nonce, aad, bytes: cipher::gcm_sealed(key, nonce, container::chunk_at(chunks, i), aad) }
}

/// `s` was sealed for the file with these `chunks`.
pub open spec fn sealed_for(
    s: Sealing,
    key: Seq<u8>,
    base: Seq<u8>,
    chunks: Seq<Seq<u8>>,
) -> bool {
    exists|i: int| 0 <= i <= chunks.len() && s == #[trigger] sealing_of(key, base, chunks, i)
}

/// `file` holds no forgery: any part of it that opens under `key`, as whatever chunk of a file with
/// the nonce `base`, was sealed under that key, for that nonce and with that associated data. `log`
/// is all that was ever sealed.
pub open spec fn holds_no_forgery(
    file: Seq<u8>,
    key: Seq<u8>,
    base: Seq<u8>,
    log: Set<Sealing>,
) -> bool {
    forall|i: int, a: int, b: int|
        #![trigger cipher::chunk_opened(key, base, i, file.subrange(a, b))]
        0 <= i <= u32::MAX && 0 <= a <= b <= file.len() && cipher::chunk_opened(
            key,
            base,
            i,
            file.subrange(a, b),
        ) is Some ==> log.contains(
            Sealing {
                key,
                nonce: cipher::chunk_nonce(base, i),
                aad: cipher::chunk_aad(i, b - a == TAG_LEN),
                bytes: file.subrange(a, b),
            },
        )
}

/// All that was ever sealed under `key` was sealed for the file with the key `file_key` and these
/// `chunks`.
pub open spec fn sealed_only_for(
    log: Set<Sealing>,
    key: Seq<u8>,
    file_key: Seq<u8>,
    base: Seq<u8>,
    chunks: Seq<Seq<u8>>,
) -> bool {
    forall|s: Sealing| #[trigger]
        log.contains(s) && s.key == key ==> sealed_for(s, file_key, base, chunks)
}

/// The two headers ask for the same key of the same password.
pub open spec fn same_derivation(a: HeaderView, b: HeaderView) -> bool {
    &&& a.salt == b.salt
    &&& a.m_cost == b.m_cost
    &&& a.t_cost == b.t_cost
    &&& a.p_cost == b.p_cost
}

/// What AES-GCM and Argon2id are trusted with where `password` is tried on `g`, and what was sealed
/// was the file with the header `h` and these `chunks`: `g` holds no forgery, the key that it asks
/// for was used for that file alone, and Argon2id gives that file's key for no other salt or costs.
pub open spec fn is_not_forged(
    password: Seq<char>,
    g: Seq<u8>,
    h: HeaderView,
    key: Seq<u8>,
    chunks: Seq<Seq<u8>>,
    log: Set<Sealing>,
) -> bool {
    forall|k: Seq<u8>, nonce: Seq<u8>| #[trigger]
        container::is_keyed(password, g, k, nonce) ==> {
            &&& holds_no_forgery(g, k, nonce, log)
            &&& sealed_only_for(log, k, key, h.nonce, chunks)
            &&& k == key ==> same_derivation(header::header_of(g)->Ok_0, h)
        }
}

/// What AES-GCM and Argon2id are trusted with where `other` is tried on a file that another password
/// gave `key` for: Argon2 takes it and gives another key, and nothing in the file was forged for that
/// key, under which no other file was sealed.
pub open spec fn gives_another_key(
    other: Seq<char>,
    file: Seq<u8>,
    h: HeaderView,
    key: Seq<u8>,
    chunks: Seq<Seq<u8>>,
    log: Set<Sealing>,
) -> bool {
    let k = kdf::argon2id(utf8::encode_utf8(other), h.salt, h.m_cost, h.t_cost, h.p_cost);
    &&& utf8::encode_utf8(other).len() <= 0xffff_ffff
    &&& k != key
    &&& holds_no_forgery(file, k, h.nonce, log)
    &&& sealed_only_for(log, k, key, h.nonce, chunks)
}

proof fn lemma_first_nonce(base: Seq<u8>)
    requires
        base.len() == NONCE_LEN,
    ensures
        cipher::chunk_nonce(base, 0) == base,
{
    assert forall|i: int| 0 <= i < NONCE_LEN implies cipher::chunk_nonce(base, 0)[i] == base[i] by {
        let b = base[i];
        assert(b ^ 0u8 == b) by (bit_vector);
    }
    assert(cipher::chunk_nonce(base, 0) =~= base);
}

/// What opens at a place of the file was sealed for that very place.
proof fn lemma_opens_in_place(
    g: Seq<u8>,
    base: Seq<u8>,
    k: Seq<u8>,
    nonce: Seq<u8>,
    key: Seq<u8>,
    chunks: Seq<Seq<u8>>,
    log: Set<Sealing>,
    i: int,
    a: int,
    b: int,
)
    requires
        holds_no_forgery(g, k, base, log),
        sealed_only_for(log, k, key, nonce, chunks),
        chunks.len() <= u32::MAX,
        0 <= i <= u32::MAX,
        0 <= a <= b <= g.len(),
        cipher::chunk_opened(k, base, i, g.subrange(a, b)) is Some,
    ensures
        i <= chunks.len(),
        k == key,
        cipher::chunk_nonce(base, i) == cipher::chunk_nonce(nonce, i),
        b - a == TAG_LEN <==> i == chunks.len(),
        g.subrange(a, b) == sealing_of(key, nonce, chunks, i).bytes,
{
    let s = Sealing {
        key: k,
        nonce: cipher::chunk_nonce(base, i),
        aad: cipher::chunk_aad(i, b - a == TAG_LEN),
        bytes: g.subrange(a, b),
    };
    assert(log.contains(s));
    let j = choose|j: int|
        0 <= j <= chunks.len() && s == #[trigger] sealing_of(key, nonce, chunks, j);
    cipher::aad_tells_place(i as u32, b - a == TAG_LEN, j as u32, j == chunks.len());
}

/// From chunk `i` on, `g` can be read only as the very bytes that were sealed.
#[verifier::rlimit(40)]
proof fn lemma_only_as_sealed(
    g: Seq<u8>,
    off: int,
    key: Seq<u8>,
    nonce: Seq<u8>,
    chunks: Seq<Seq<u8>>,
    log: Set<Sealing>,
    i: int,
)
    requires
        holds_no_forgery(g, key, nonce, log),
        sealed_only_for(log, key, key, nonce, chunks),
        container::are_chunks(chunks),
        container::have_frame_lengths(key, nonce, chunks, chunks.len() as int + 1),
        chunks.len() <= u32::MAX,
        0 <= i <= chunks.len(),
        0 <= off <= g.len(),
        container::read_chunks(key, nonce, i, g.skip(off)) is Ok,
    ensures
        g.skip(off) == container::sealed_chunks(key, nonce, i, chunks.skip(i)),
    decreases chunks.len() - i,
{
    let data = g.skip(off);
    let n = bytes::le32_value(data.take(4));
    let end = 4 + n + TAG_LEN;
    let here = container::chunk_at(chunks, i);
    let frame = cipher::chunk_frame(key, nonce, i, here);
    assert(data.subrange(4, end) =~= g.subrange(off + 4, off + end));
    lemma_opens_in_place(g, nonce, key, nonce, key, chunks, log, i, off + 4, off + end);
    assert(here.len() == 0 <==> i == chunks.len());
    let sealed = sealing_of(key, nonce, chunks, i).bytes;
    assert(frame == bytes::le32(here.len() as int) + sealed);
    assert(frame.len() == 4 + here.len() + TAG_LEN);
    assert(n == here.len());
    bytes::bytes_round_trip(data.take(4));
    assert(data =~= frame + data.skip(end)) by {
        assert(data.take(4) + data.subrange(4, end) + data.skip(end) =~= data);
    }
    if i < chunks.len() {
        assert(data.skip(end) =~= g.skip(off + end));
        assert(container::read_chunks(key, nonce, i + 1, data.skip(end)) is Ok);
        lemma_only_as_sealed(g, off + end, key, nonce, chunks, log, i + 1);
        assert(chunks.skip(i).drop_first() =~= chunks.skip(i + 1));
    } else {
        assert(data.skip(end) =~= Seq::empty());
        assert(frame + data.skip(end) =~= frame);
    }
}

/// An encrypted file that was changed in any way is refused: a flipped bit anywhere, chunks that
/// were swapped, left out, repeated or taken from another file, bytes cut off or added. The one file
/// that the password is accepted for is the one that was written.
#[verifier::rlimit(40)]
pub proof fn tampering_is_refused(
    password: Seq<char>,
    file: Seq<u8>,
    h: HeaderView,
    key: Seq<u8>,
    chunks: Seq<Seq<u8>>,
    log: Set<Sealing>,
    g: Seq<u8>,
)
    requires
        container::is_sealed_file(password, file, h, key, chunks),
        is_not_forged(password, g, h, key, chunks, log),
        g != file,
    ensures
        container::read_file(password, g) is Err,
{
    if container::read_file(password, g) is Ok {
        let hg = header::header_of(g)->Ok_0;
        let k = kdf::key_of(
            utf8::encode_utf8(password),
            hg.salt,
            hg.m_cost,
            hg.t_cost,
            hg.p_cost,
        )->Ok_0;
        assert(container::is_keyed(password, g, k, hg.nonce));
        let data = g.skip(HEADER_LEN as int);
        let end = 4 + bytes::le32_value(data.take(4)) + TAG_LEN;
        assert(data.subrange(4, end) =~= g.subrange(HEADER_LEN + 4, HEADER_LEN + end));
        lemma_opens_in_place(
            g,
            hg.nonce,
            k,
            h.nonce,
            key,
            chunks,
            log,
            0,
            HEADER_LEN + 4,
            HEADER_LEN + end,
        );
        lemma_first_nonce(hg.nonce);
        lemma_first_nonce(h.nonce);
        assert(hg =~= h);
        lemma_only_as_sealed(g, HEADER_LEN as int, key, h.nonce, chunks, log, 0);
        assert(chunks.skip(0) =~= chunks);
        header::header_is_canonical(g);
        assert(g =~= g.take(HEADER_LEN as int) + data);
    }
}

proof fn lemma_cannot_outrun(
    g: Seq<u8>,
    off: int,
    base: Seq<u8>,
    k: Seq<u8>,
    nonce: Seq<u8>,
    key: Seq<u8>,
    chunks: Seq<Seq<u8>>,
    log: Set<Sealing>,
    i: int,
)
    requires
        holds_no_forgery(g, k, base, log),
        sealed_only_for(log, k, key, nonce, chunks),
        chunks.len() <= u32::MAX,
        0 <= i <= u32::MAX,
        0 <= off <= g.len(),
    ensures
        !container::outruns_index(k, base, i, g.skip(off)),
    decreases u32::MAX - i,
{
    let data = g.skip(off);
    let n = bytes::le32_value(data.take(4));
    let end = 4 + n + TAG_LEN;
    if container::outruns_index(k, base, i, data) {
        assert(data.subrange(4, end) =~= g.subrange(off + 4, off + end));
        lemma_opens_in_place(g, base, k, nonce, key, chunks, log, i, off + 4, off + end);
        assert(data.skip(end) =~= g.skip(off + end));
        lemma_cannot_outrun(g, off + end, base, k, nonce, key, chunks, log, i + 1);
    }
}

/// A file without forgeries has no more chunks that open than an index of 32 bits can count.
pub proof fn tampering_cannot_outrun_the_index(
    password: Seq<char>,
    file: Seq<u8>,
    h: HeaderView,
    key: Seq<u8>,
    chunks: Seq<Seq<u8>>,
    log: Set<Sealing>,
    g: Seq<u8>,
)
    requires
        container::is_sealed_file(password, file, h, key, chunks),
        is_not_forged(password, g, h, key, chunks, log),
    ensures
        !container::file_outruns_index(password, g),
{
    assert forall|k: Seq<u8>, nonce: Seq<u8>| #[trigger]
        container::is_keyed(password, g, k, nonce) implies !container::outruns_index(
        k,
        nonce,
        0,
        g.skip(HEADER_LEN as int),
    ) by {
        lemma_cannot_outrun(g, HEADER_LEN as int, nonce, k, h.nonce, key, chunks, log, 0);
    }
}

/// An encrypted file in which one byte was changed, in one bit or in more, is refused.
pub proof fn a_changed_byte_is_refused(
    password: Seq<char>,
    file: Seq<u8>,
    h: HeaderView,
    key: Seq<u8>,
    chunks: Seq<Seq<u8>>,
    log: Set<Sealing>,
    at: int,
    byte: u8,
)
    requires
        container::is_sealed_file(password, file, h, key, chunks),
        0 <= at < file.len(),
        byte != file[at],
        is_not_forged(password, file.update(at, byte), h, key, chunks, log),
    ensures
        container::read_file(password, file.update(at, byte)) is Err,
{
    assert(file.update(at, byte)[at] != file[at]);
    tampering_is_refused(password, file, h, key, chunks, log, file.update(at, byte));
}

/// A file whose header is left as it was and whose chunks are any others than those that were sealed
/// for it, in any other order, is refused. `frames` are the bytes of the chunks: some of the file's
/// own, some of another file, or what else.
pub proof fn other_chunks_are_refused(
    password: Seq<char>,
    file: Seq<u8>,
    h: HeaderView,
    key: Seq<u8>,
    chunks: Seq<Seq<u8>>,
    log: Set<Sealing>,
    frames: Seq<Seq<u8>>,
)
    requires
        container::is_sealed_file(password, file, h, key, chunks),
        container::join(frames) != container::sealed_chunks(key, h.nonce, 0, chunks),
        is_not_forged(
            password,
            header::header_bytes(h) + container::join(frames),
            h,
            key,
            chunks,
            log,
        ),
    ensures
        container::read_file(password, header::header_bytes(h) + container::join(frames)) is Err,
{
    let g = header::header_bytes(h) + container::join(frames);
    header::header_round_trip(h, Seq::empty());
    if g == file {
        assert(g.skip(HEADER_LEN as int) =~= container::join(frames));
        assert(file.skip(HEADER_LEN as int) =~= container::sealed_chunks(key, h.nonce, 0, chunks));
    }
    tampering_is_refused(password, file, h, key, chunks, log, g);
}

/// An encrypted file, be it of an empty one, that is read with another password is refused as not
/// authentic. The other password is one that Argon2 takes and gives another key for, under which
/// nothing was sealed.
#[verifier::rlimit(40)]
pub proof fn another_password_is_refused(
    password: Seq<char>,
    file: Seq<u8>,
    h: HeaderView,
    key: Seq<u8>,
    chunks: Seq<Seq<u8>>,
    log: Set<Sealing>,
    other: Seq<char>,
)
    requires
        container::is_sealed_file(password, file, h, key, chunks),
        gives_another_key(other, file, h, key, chunks, log),
    ensures
        container::read_file(other, file) == Err::<Seq<u8>, Failure>(Failure::Authentication),
{
    let k = kdf::argon2id(utf8::encode_utf8(other), h.salt, h.m_cost, h.t_cost, h.p_cost);
    let body = container::sealed_chunks(key, h.nonce, 0, chunks);
    container::costs_come_from_the_file(other, h, body);
    header::header_round_trip(h, Seq::empty());
    let here = container::chunk_at(chunks, 0);
    let frame = cipher::chunk_frame(key, h.nonce, 0, here);
    assert(frame.len() == 4 + here.len() + TAG_LEN);
    assert(here.len() <= CHUNK_SIZE);
    let end = frame.len() as int;
    assert(body.take(end) =~= frame);
    assert(body.take(4) =~= bytes::le32(here.len() as int));
    bytes::number_round_trip(here.len() as u32);
    assert(body.subrange(4, end) =~= file.subrange(HEADER_LEN + 4, HEADER_LEN + end));
    if cipher::chunk_opened(k, h.nonce, 0, body.subrange(4, end)) is Some {
        lemma_opens_in_place(
            file,
            h.nonce,
            k,
            h.nonce,
            key,
            chunks,
            log,
            0,
            HEADER_LEN + 4,
            HEADER_LEN + end,
        );
    }
}

} // verus!
