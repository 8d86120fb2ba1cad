//! What an encrypted file means: the plaintext that a password finds in it.
//!
//! Everything here is specification. The executable side reads and writes files piece by piece
//! and is held to these definitions.

use vstd::prelude::*;
use vstd::utf8;

use crate::bytes;
use crate::cipher;
use crate::cipher::TAG_LEN;
use crate::failure::Failure;
use crate::header;
use crate::header::{CHUNK_SIZE, HEADER_LEN};
use crate::kdf;

verus! {

/// The plaintext `p`, and then what `rest` found after it.
pub open spec fn then_read(p: Seq<u8>, rest: Result<Seq<u8>, Failure>) -> Result<Seq<u8>, Failure> {
    match rest {
        Ok(q) => Ok(p + q),
        Err(e) => Err(e),
    }
}

/// The plaintext of the chunks that `data` is made of, of which the first has the index `index`.
/// The chunk without plaintext is the last, and nothing may follow it.
pub open spec fn read_chunks(key: Seq<u8>, nonce: Seq<u8>, index: int, data: Seq<u8>) -> Result<
    Seq<u8>,
    Failure,
>
    decreases data.len(),
{
    let n = bytes::le32_value(data.take(4));
    let end = 4 + n + TAG_LEN;
    if data.len() < 4 {
        Err(Failure::MissingFinalChunk)
    } else if n > CHUNK_SIZE {
        Err(Failure::InvalidChunkSize)
    } else if data.len() < end {
        Err(Failure::IncompleteChunk)
    } else {
        match cipher::chunk_opened(key, nonce, index, data.subrange(4, end)) {
            None => Err(Failure::Authentication),
            Some(p) => if n > 0 {
                then_read(p, read_chunks(key, nonce, index + 1, data.skip(end)))
            } else if data.len() == end {
                Ok(p)
            } else {
                Err(Failure::TrailingData)
            },
        }
    }
}

/// How many chunks with plaintext `data` starts with, by the lengths that it gives for them.
pub open spec fn chunk_count(data: Seq<u8>) -> nat
    decreases data.len(),
{
    let n = bytes::le32_value(data.take(4));
    let end = 4 + n + TAG_LEN;
    if data.len() < 4 || n > CHUNK_SIZE || data.len() < end || n == 0 {
        0
    } else {
        1nat + chunk_count(data.skip(end))
    }
}

/// The chunks at the start of `data`, of which the first has the index `index`, open one after the
/// other up to the one at the greatest index of 32 bits, and none of them is the last.
pub open spec fn outruns_index(key: Seq<u8>, nonce: Seq<u8>, index: int, data: Seq<u8>) -> bool
    decreases data.len(),
{
    let n = bytes::le32_value(data.take(4));
    let end = 4 + n + TAG_LEN;
    if data.len() < 4 || n > CHUNK_SIZE || data.len() < end || n == 0 {
        false
    } else {
        &&& cipher::chunk_opened(key, nonce, index, data.subrange(4, end)) is Some
        &&& index == u32::MAX || outruns_index(key, nonce, index + 1, data.skip(end))
    }
}

/// `file` has so many chunks that `password` opens that an index of 32 bits cannot count them.
pub open spec fn file_outruns_index(password: Seq<char>, file: Seq<u8>) -> bool {
    exists|key: Seq<u8>, nonce: Seq<u8>| #[trigger]
        is_keyed(password, file, key, nonce) && outruns_index(
            key,
            nonce,
            0,
            file.skip(HEADER_LEN as int),
        )
}

/// What cannot be counted has more chunks than can.
pub proof fn lemma_outruns_by_chunks(key: Seq<u8>, nonce: Seq<u8>, index: int, data: Seq<u8>)
    requires
        outruns_index(key, nonce, index, data),
        index <= u32::MAX,
    ensures
        chunk_count(data) > u32::MAX - index,
    decreases data.len(),
{
    if index < u32::MAX {
        let end = 4 + bytes::le32_value(data.take(4)) + TAG_LEN;
        lemma_outruns_by_chunks(key, nonce, index + 1, data.skip(end));
    }
}

/// Each chunk with plaintext takes at least twenty-one bytes.
pub proof fn counted_chunks_take_their_bytes(data: Seq<u8>)
    ensures
        21 * chunk_count(data) <= data.len(),
    decreases data.len(),
{
    let n = bytes::le32_value(data.take(4));
    let end = 4 + n + TAG_LEN;
    if !(data.len() < 4 || n > CHUNK_SIZE || data.len() < end || n == 0) {
        bytes::bytes_round_trip(data.take(4));
        counted_chunks_take_their_bytes(data.skip(end));
    }
}

/// The plaintext that `password` finds in `file`. The costs of the key derivation are those that the
/// file itself names.
pub open spec fn read_file(password: Seq<char>, file: Seq<u8>) -> Result<Seq<u8>, Failure> {
    if file.len() < HEADER_LEN {
        Err(Failure::HeaderTooShort)
    } else {
        match header::header_of(file) {
            Err(e) => Err(e),
            Ok(h) => match kdf::key_of(
                utf8::encode_utf8(password),
                h.salt,
                h.m_cost,
                h.t_cost,
                h.p_cost,
            ) {
                Err(e) => Err(e),
                Ok(key) => read_chunks(key, h.nonce, 0, file.skip(HEADER_LEN as int)),
            },
        }
    }
}

/// `data` is the chunks from `i` up to `j`: reading finds `plaintext` in it, whatever follows, and
/// goes on at chunk `j`.
pub open spec fn leads_to(
    key: Seq<u8>,
    nonce: Seq<u8>,
    i: int,
    data: Seq<u8>,
    j: int,
    plaintext: Seq<u8>,
) -> bool {
    forall|rest: Seq<u8>|
        #![trigger data + rest]
        {
            &&& read_chunks(key, nonce, i, data + rest) == then_read(
                plaintext,
                read_chunks(key, nonce, j, rest),
            )
            &&& chunk_count(data + rest) == j - i + chunk_count(rest)
        }
}

/// `data` is the chunks from `i` up to the last, which is `j`: reading finds `plaintext` in it, and
/// nothing may follow.
pub open spec fn leads_to_end(
    key: Seq<u8>,
    nonce: Seq<u8>,
    i: int,
    data: Seq<u8>,
    j: int,
    plaintext: Seq<u8>,
) -> bool {
    forall|rest: Seq<u8>|
        #![trigger data + rest]
        {
            &&& read_chunks(key, nonce, i, data + rest) == if rest.len() == 0 {
                Ok::<Seq<u8>, Failure>(plaintext)
            } else {
                Err(Failure::TrailingData)
            }
            &&& chunk_count(data + rest) == j - i
        }
}

/// A chunk and the bytes that it is read from.
pub open spec fn is_frame(
    key: Seq<u8>,
    nonce: Seq<u8>,
    index: int,
    frame: Seq<u8>,
    plaintext: Seq<u8>,
) -> bool {
    &&& plaintext.len() <= CHUNK_SIZE
    &&& frame.len() == 4 + plaintext.len() + TAG_LEN
    &&& frame.take(4) == bytes::le32(plaintext.len() as int)
    &&& cipher::chunk_opened(key, nonce, index, frame.skip(4)) == Some(plaintext)
}

pub proof fn lemma_frame_is_read(
    key: Seq<u8>,
    nonce: Seq<u8>,
    index: int,
    frame: Seq<u8>,
    plaintext: Seq<u8>,
)
    requires
        is_frame(key, nonce, index, frame, plaintext),
    ensures
        plaintext.len() > 0 ==> leads_to(key, nonce, index, frame, index + 1, plaintext),
        plaintext.len() == 0 ==> leads_to_end(key, nonce, index, frame, index, plaintext),
{
    bytes::number_round_trip(plaintext.len() as u32);
    assert forall|rest: Seq<u8>|
        #![trigger frame + rest]
        {
            &&& read_chunks(key, nonce, index, frame + rest) == if plaintext.len() > 0 {
                then_read(plaintext, read_chunks(key, nonce, index + 1, rest))
            } else if rest.len() == 0 {
                Ok::<Seq<u8>, Failure>(plaintext)
            } else {
                Err(Failure::TrailingData)
            }
            &&& chunk_count(frame + rest) == if plaintext.len() > 0 {
                1nat + chunk_count(rest)
            } else {
                0nat
            }
        } by {
        let d = frame + rest;
        assert(d.take(4) =~= frame.take(4));
        assert(d.subrange(4, frame.len() as int) =~= frame.skip(4));
        assert(d.skip(frame.len() as int) =~= rest);
    }
}

pub proof fn lemma_nothing_read(key: Seq<u8>, nonce: Seq<u8>, i: int)
    ensures
        leads_to(key, nonce, i, Seq::empty(), i, Seq::empty()),
{
    assert forall|rest: Seq<u8>|
        #![trigger Seq::<u8>::empty() + rest]
        {
            &&& read_chunks(key, nonce, i, Seq::<u8>::empty() + rest) == then_read(
                Seq::empty(),
                read_chunks(key, nonce, i, rest),
            )
            &&& chunk_count(Seq::<u8>::empty() + rest) == chunk_count(rest)
        } by {
        assert(Seq::<u8>::empty() + rest =~= rest);
        if let Ok(p) = read_chunks(key, nonce, i, rest) {
            assert(Seq::<u8>::empty() + p =~= p);
        }
    }
}

#[verifier::rlimit(40)]
pub proof fn lemma_leads_on(
    key: Seq<u8>,
    nonce: Seq<u8>,
    i: int,
    a: Seq<u8>,
    j: int,
    p: Seq<u8>,
    b: Seq<u8>,
    k: int,
    q: Seq<u8>,
)
    requires
        leads_to(key, nonce, i, a, j, p),
    ensures
        leads_to(key, nonce, j, b, k, q) ==> leads_to(key, nonce, i, a + b, k, p + q),
        leads_to_end(key, nonce, j, b, k, q) ==> leads_to_end(key, nonce, i, a + b, k, p + q),
{
    assert forall|rest: Seq<u8>|
        #![trigger (a + b) + rest]
        {
            &&& leads_to(key, nonce, j, b, k, q) ==> {
                &&& read_chunks(key, nonce, i, (a + b) + rest) == then_read(
                    p + q,
                    read_chunks(key, nonce, k, rest),
                )
                &&& chunk_count((a + b) + rest) == k - i + chunk_count(rest)
            }
            &&& leads_to_end(key, nonce, j, b, k, q) ==> {
                &&& read_chunks(key, nonce, i, (a + b) + rest) == if rest.len() == 0 {
                    Ok::<Seq<u8>, Failure>(p + q)
                } else {
                    Err(Failure::TrailingData)
                }
                &&& chunk_count((a + b) + rest) == k - i
            }
        } by {
        assert((a + b) + rest =~= a + (b + rest));
        assert(read_chunks(key, nonce, i, a + (b + rest)) == then_read(
            p,
            read_chunks(key, nonce, j, b + rest),
        ));
        if let Ok(r) = read_chunks(key, nonce, k, rest) {
            assert((p + q) + r =~= p + (q + r));
        }
    }
}

/// The header at the start of `file` is whole, names `nonce`, and `password` gives `key` with it.
pub open spec fn is_keyed(
    password: Seq<char>,
    file: Seq<u8>,
    key: Seq<u8>,
    nonce: Seq<u8>,
) -> bool {
    &&& file.len() >= HEADER_LEN
    &&& header::header_of(file) matches Ok(h) && {
        &&& h.nonce == nonce
        &&& kdf::key_of(utf8::encode_utf8(password), h.salt, h.m_cost, h.t_cost, h.p_cost) == Ok::<
            Seq<u8>,
            Failure,
        >(key)
    }
}

pub proof fn lemma_keyed_grows(
    password: Seq<char>,
    file: Seq<u8>,
    key: Seq<u8>,
    nonce: Seq<u8>,
    more: Seq<u8>,
)
    requires
        is_keyed(password, file, key, nonce),
    ensures
        is_keyed(password, file + more, key, nonce),
        (file + more).skip(HEADER_LEN as int) == file.skip(HEADER_LEN as int) + more,
        read_file(password, file + more) == read_chunks(
            key,
            nonce,
            0,
            file.skip(HEADER_LEN as int) + more,
        ),
{
    header::header_ignores_rest(file, more);
    assert((file + more).skip(HEADER_LEN as int) =~= file.skip(HEADER_LEN as int) + more);
}

/// A file whose chunks are all there is read to its end.
pub proof fn lemma_whole_file(
    password: Seq<char>,
    file: Seq<u8>,
    key: Seq<u8>,
    nonce: Seq<u8>,
    n: int,
    plaintext: Seq<u8>,
)
    requires
        is_keyed(password, file, key, nonce),
        leads_to_end(key, nonce, 0, file.skip(HEADER_LEN as int), n, plaintext),
    ensures
        read_file(password, file) == Ok::<Seq<u8>, Failure>(plaintext),
        chunk_count(file.skip(HEADER_LEN as int)) == n,
{
    let none = Seq::<u8>::empty();
    let body = file.skip(HEADER_LEN as int);
    lemma_keyed_grows(password, file, key, nonce, none);
    assert(file + none =~= file);
    assert(body + none =~= body);
}

/// Chunks that are cut off, or that something follows, are refused.
pub proof fn chunks_are_taken_whole(
    key: Seq<u8>,
    nonce: Seq<u8>,
    index: int,
    data: Seq<u8>,
    k: int,
    more: Seq<u8>,
)
    requires
        read_chunks(key, nonce, index, data) is Ok,
        0 <= k < data.len(),
        more.len() > 0,
    ensures
        ({
            let cut = read_chunks(key, nonce, index, data.take(k));
            ||| cut == Err::<Seq<u8>, Failure>(Failure::MissingFinalChunk)
            ||| cut == Err::<Seq<u8>, Failure>(Failure::IncompleteChunk)
        }),
        read_chunks(key, nonce, index, data + more) == Err::<Seq<u8>, Failure>(
            Failure::TrailingData,
        ),
        chunk_count(data + more) == chunk_count(data),
    decreases data.len(),
{
    let n = bytes::le32_value(data.take(4));
    let end = 4 + n + TAG_LEN;
    let cut = data.take(k);
    if k >= 4 {
        assert(cut.take(4) =~= data.take(4));
    }
    if k >= end {
        assert(cut.subrange(4, end) =~= data.subrange(4, end));
    }
    let grown = data + more;
    assert(grown.take(4) =~= data.take(4));
    assert(grown.subrange(4, end) =~= data.subrange(4, end));
    if n > 0 {
        let j = if k >= end {
            k - end
        } else {
            0
        };
        assert(read_chunks(key, nonce, index + 1, data.skip(end)) is Ok);
        chunks_are_taken_whole(key, nonce, index + 1, data.skip(end), j, more);
        if k >= end {
            assert(cut.skip(end) =~= data.skip(end).take(j));
        }
        assert(grown.skip(end) =~= data.skip(end) + more);
    }
}

/// An encrypted file that is cut off anywhere is refused.
pub proof fn truncation_is_detected(password: Seq<char>, file: Seq<u8>, k: int)
    requires
        read_file(password, file) is Ok,
        0 <= k < file.len(),
    ensures
        ({
            let cut = read_file(password, file.take(k));
            if k < HEADER_LEN {
                cut == Err::<Seq<u8>, Failure>(Failure::HeaderTooShort)
            } else {
                ||| cut == Err::<Seq<u8>, Failure>(Failure::MissingFinalChunk)
                ||| cut == Err::<Seq<u8>, Failure>(Failure::IncompleteChunk)
            }
        }),
{
    if k >= HEADER_LEN {
        let h = header::header_of(file)->Ok_0;
        let key = kdf::key_of(
            utf8::encode_utf8(password),
            h.salt,
            h.m_cost,
            h.t_cost,
            h.p_cost,
        )->Ok_0;
        let body = file.skip(HEADER_LEN as int);
        let j = k - HEADER_LEN;
        chunks_are_taken_whole(key, h.nonce, 0, body, j, seq![0u8]);
        let cut = file.take(k);
        assert(cut + file.skip(k) =~= file);
        header::header_ignores_rest(cut, file.skip(k));
        assert(cut.skip(HEADER_LEN as int) =~= body.take(j));
    }
}

/// An encrypted file with anything added behind it is refused. It counts as many chunks as before.
pub proof fn appended_bytes_are_refused(password: Seq<char>, file: Seq<u8>, more: Seq<u8>)
    requires
        read_file(password, file) is Ok,
        more.len() > 0,
    ensures
        read_file(password, file + more) == Err::<Seq<u8>, Failure>(Failure::TrailingData),
        chunk_count((file + more).skip(HEADER_LEN as int)) == chunk_count(
            file.skip(HEADER_LEN as int),
        ),
{
    let h = header::header_of(file)->Ok_0;
    let key = kdf::key_of(
        utf8::encode_utf8(password),
        h.salt,
        h.m_cost,
        h.t_cost,
        h.p_cost,
    )->Ok_0;
    let body = file.skip(HEADER_LEN as int);
    lemma_keyed_grows(password, file, key, h.nonce, more);
    chunks_are_taken_whole(key, h.nonce, 0, body, 0, more);
}

/// A file is read with the costs that its own header names: a file written with other costs than
/// today's defaults is read as well.
pub proof fn costs_come_from_the_file(password: Seq<char>, h: header::HeaderView, body: Seq<u8>)
    requires
        h.wf(),
    ensures
        read_file(password, header::header_bytes(h) + body) == match kdf::key_of(
            utf8::encode_utf8(password),
            h.salt,
            h.m_cost,
            h.t_cost,
            h.p_cost,
        ) {
            Ok(key) => read_chunks(key, h.nonce, 0, body),
            Err(e) => Err(e),
        },
{
    header::header_round_trip(h, body);
    assert((header::header_bytes(h) + body).skip(HEADER_LEN as int) =~= body);
}

/// The parts one after the other.
pub open spec fn join(parts: Seq<Seq<u8>>) -> Seq<u8>
    decreases parts.len(),
{
    if parts.len() == 0 {
        Seq::empty()
    } else {
        parts[0] + join(parts.drop_first())
    }
}

/// `frames` are what the chunks from `index` on are read from, up to the last, which alone is
/// empty.
pub open spec fn are_frames(
    key: Seq<u8>,
    nonce: Seq<u8>,
    index: int,
    frames: Seq<Seq<u8>>,
    chunks: Seq<Seq<u8>>,
) -> bool {
    &&& frames.len() == chunks.len() > 0
    &&& forall|i: int|
        #![trigger chunks[i]]
        0 <= i < chunks.len() ==> {
            &&& is_frame(key, nonce, index + i, frames[i], chunks[i])
            &&& chunks[i].len() == 0 <==> i == chunks.len() - 1
        }
}

proof fn lemma_chunks_round_trip(
    key: Seq<u8>,
    nonce: Seq<u8>,
    index: int,
    frames: Seq<Seq<u8>>,
    chunks: Seq<Seq<u8>>,
)
    requires
        are_frames(key, nonce, index, frames, chunks),
    ensures
        read_chunks(key, nonce, index, join(frames)) == Ok::<Seq<u8>, Failure>(join(chunks)),
    decreases chunks.len(),
{
    let (frame, chunk) = (frames[0], chunks[0]);
    let (more_frames, more) = (frames.drop_first(), chunks.drop_first());
    assert(is_frame(key, nonce, index + 0, frame, chunk));
    lemma_frame_is_read(key, nonce, index, frame, chunk);
    if chunks.len() == 1 {
        assert(join(more_frames) =~= Seq::empty());
        assert(join(more) =~= Seq::empty());
        assert(join(chunks) =~= chunk);
    } else {
        assert forall|i: int| #![trigger more[i]] 0 <= i < more.len() implies {
            &&& is_frame(key, nonce, index + 1 + i, more_frames[i], more[i])
            &&& more[i].len() == 0 <==> i == more.len() - 1
        } by {
            assert(more[i] == chunks[i + 1]);
            assert(is_frame(key, nonce, index + (i + 1), frames[i + 1], chunks[i + 1]));
        }
        lemma_chunks_round_trip(key, nonce, index + 1, more_frames, more);
    }
    assert(join(frames) == frame + join(more_frames));
}

/// What is encrypted is decrypted: a file of a header, at whatever costs, and of chunks sealed with
/// the key that the password gives is read with that password as the plaintext of the chunks.
pub proof fn encryption_round_trip(
    password: Seq<char>,
    h: header::HeaderView,
    key: Seq<u8>,
    frames: Seq<Seq<u8>>,
    chunks: Seq<Seq<u8>>,
)
    requires
        h.wf(),
        kdf::key_of(utf8::encode_utf8(password), h.salt, h.m_cost, h.t_cost, h.p_cost) == Ok::<
            Seq<u8>,
            Failure,
        >(key),
        are_frames(key, h.nonce, 0, frames, chunks),
    ensures
        read_file(password, header::header_bytes(h) + join(frames)) == Ok::<Seq<u8>, Failure>(
            join(chunks),
        ),
{
    lemma_chunks_round_trip(key, h.nonce, 0, frames, chunks);
    costs_come_from_the_file(password, h, join(frames));
}

/// Portions of plaintext that a file is sealed in.
pub open spec fn are_chunks(chunks: Seq<Seq<u8>>) -> bool {
    forall|i: int| 0 <= i < chunks.len() ==> 0 < (#[trigger] chunks[i]).len() <= CHUNK_SIZE
}

/// The chunk at `i`: the last follows `chunks` and is empty.
pub open spec fn chunk_at(chunks: Seq<Seq<u8>>, i: int) -> Seq<u8> {
    if i < chunks.len() {
        chunks[i]
    } else {
        Seq::empty()
    }
}

/// The bytes in the file for `chunks`, the first of which has the index `index`, and for the empty
/// chunk that ends them.
pub open spec fn sealed_chunks(
    key: Seq<u8>,
    nonce: Seq<u8>,
    index: int,
    chunks: Seq<Seq<u8>>,
) -> Seq<u8>
    decreases chunks.len(),
{
    if chunks.len() == 0 {
        cipher::chunk_frame(key, nonce, index, Seq::empty())
    } else {
        cipher::chunk_frame(key, nonce, index, chunks[0]) + sealed_chunks(
            key,
            nonce,
            index + 1,
            chunks.drop_first(),
        )
    }
}

/// The first `n` chunks of a file are sealed in twenty bytes more than they have.
pub open spec fn have_frame_lengths(
    key: Seq<u8>,
    nonce: Seq<u8>,
    chunks: Seq<Seq<u8>>,
    n: int,
) -> bool {
    forall|i: int|
        #![trigger chunk_at(chunks, i)]
        0 <= i < n ==> cipher::chunk_frame(key, nonce, i, chunk_at(chunks, i)).len() == 4
            + chunk_at(chunks, i).len() + TAG_LEN
}

/// `file` is a header `h` and what `chunks` are sealed as with the key that `password` gives.
pub open spec fn is_sealed_file(
    password: Seq<char>,
    file: Seq<u8>,
    h: header::HeaderView,
    key: Seq<u8>,
    chunks: Seq<Seq<u8>>,
) -> bool {
    &&& h.wf()
    &&& kdf::key_of(utf8::encode_utf8(password), h.salt, h.m_cost, h.t_cost, h.p_cost) == Ok::<
        Seq<u8>,
        Failure,
    >(key)
    &&& are_chunks(chunks)
    &&& chunks.len() <= u32::MAX
    &&& have_frame_lengths(key, h.nonce, chunks, chunks.len() as int + 1)
    &&& file == header::header_bytes(h) + sealed_chunks(key, h.nonce, 0, chunks)
}

/// `file` is, to the last bit, what the encryption of `plaintext` with `password` gives for some
/// salt, nonce and costs, and in some portions.
pub open spec fn is_encryption(password: Seq<char>, file: Seq<u8>, plaintext: Seq<u8>) -> bool {
    exists|h: header::HeaderView, key: Seq<u8>, chunks: Seq<Seq<u8>>|
        #[trigger] is_sealed_file(password, file, h, key, chunks) && join(chunks) == plaintext
}

/// `data` is what the first chunks of a file are sealed as, whatever chunks follow.
pub open spec fn seals(key: Seq<u8>, nonce: Seq<u8>, chunks: Seq<Seq<u8>>, data: Seq<u8>) -> bool {
    forall|more: Seq<Seq<u8>>|
        #![trigger chunks + more]
        sealed_chunks(key, nonce, 0, chunks + more) == data + sealed_chunks(
            key,
            nonce,
            chunks.len() as int,
            more,
        )
}

/// `data` is what `chunks`, the first of a file, are sealed as, and they hold `plaintext`.
pub open spec fn sealed_as(
    key: Seq<u8>,
    nonce: Seq<u8>,
    chunks: Seq<Seq<u8>>,
    data: Seq<u8>,
    plaintext: Seq<u8>,
) -> bool {
    &&& seals(key, nonce, chunks, data)
    &&& are_chunks(chunks)
    &&& have_frame_lengths(key, nonce, chunks, chunks.len() as int)
    &&& join(chunks) == plaintext
}

/// `data` is what the first `n` chunks of a file are sealed as, and they hold `plaintext`.
pub open spec fn sealed_so_far(
    key: Seq<u8>,
    nonce: Seq<u8>,
    n: int,
    data: Seq<u8>,
    plaintext: Seq<u8>,
) -> bool {
    exists|chunks: Seq<Seq<u8>>| #[trigger]
        sealed_as(key, nonce, chunks, data, plaintext) && chunks.len() == n
}

/// `data` is what `n` chunks and the last are sealed as, and they hold `plaintext`.
pub open spec fn sealed_to_end(
    key: Seq<u8>,
    nonce: Seq<u8>,
    n: int,
    data: Seq<u8>,
    plaintext: Seq<u8>,
) -> bool {
    exists|chunks: Seq<Seq<u8>>|
        {
            &&& data == #[trigger] sealed_chunks(key, nonce, 0, chunks)
            &&& are_chunks(chunks)
            &&& have_frame_lengths(key, nonce, chunks, n + 1)
            &&& chunks.len() == n
            &&& join(chunks) == plaintext
        }
}

proof fn lemma_join_push(chunks: Seq<Seq<u8>>, p: Seq<u8>)
    ensures
        join(chunks.push(p)) == join(chunks) + p,
    decreases chunks.len(),
{
    if chunks.len() > 0 {
        lemma_join_push(chunks.drop_first(), p);
        assert(chunks.push(p).drop_first() =~= chunks.drop_first().push(p));
        assert(join(chunks) + p =~= chunks[0] + (join(chunks.drop_first()) + p));
    } else {
        assert(join(chunks.push(p).drop_first()) =~= Seq::empty());
        assert(chunks.push(p)[0] == p);
        assert(join(chunks.push(p)) =~= join(chunks) + p);
    }
}

pub proof fn lemma_nothing_sealed(key: Seq<u8>, nonce: Seq<u8>)
    ensures
        sealed_so_far(key, nonce, 0, Seq::empty(), Seq::empty()),
{
    let none = Seq::<Seq<u8>>::empty();
    assert forall|more: Seq<Seq<u8>>|
        #![trigger none + more]
        sealed_chunks(key, nonce, 0, none + more) == Seq::<u8>::empty() + sealed_chunks(
            key,
            nonce,
            0,
            more,
        ) by {
        assert(none + more =~= more);
    }
    assert(sealed_as(key, nonce, none, Seq::empty(), Seq::empty()));
}

#[verifier::rlimit(40)]
pub proof fn lemma_one_more_sealed(
    key: Seq<u8>,
    nonce: Seq<u8>,
    n: int,
    data: Seq<u8>,
    plaintext: Seq<u8>,
    p: Seq<u8>,
)
    requires
        sealed_so_far(key, nonce, n, data, plaintext),
        p.len() <= CHUNK_SIZE,
        cipher::chunk_frame(key, nonce, n, p).len() == 4 + p.len() + TAG_LEN,
    ensures
        ({
            let frame = cipher::chunk_frame(key, nonce, n, p);
            &&& p.len() > 0 ==> sealed_so_far(key, nonce, n + 1, data + frame, plaintext + p)
            &&& p.len() == 0 ==> sealed_to_end(key, nonce, n, data + frame, plaintext + p)
        }),
{
    let frame = cipher::chunk_frame(key, nonce, n, p);
    let chunks = choose|chunks: Seq<Seq<u8>>| #[trigger]
        sealed_as(key, nonce, chunks, data, plaintext) && chunks.len() == n;
    if p.len() > 0 {
        let grown = chunks.push(p);
        assert forall|more: Seq<Seq<u8>>|
            #![trigger grown + more]
            sealed_chunks(key, nonce, 0, grown + more) == (data + frame) + sealed_chunks(
                key,
                nonce,
                n + 1,
                more,
            ) by {
            let rest = seq![p] + more;
            assert(grown + more =~= chunks + rest);
            assert(rest.drop_first() =~= more);
            assert(sealed_chunks(key, nonce, n, rest) == frame + sealed_chunks(
                key,
                nonce,
                n + 1,
                more,
            ));
        }
        assert forall|i: int| #![trigger chunk_at(grown, i)] 0 <= i < n + 1 implies cipher::chunk_frame(
            key,
            nonce,
            i,
            chunk_at(grown, i),
        ).len() == 4 + chunk_at(grown, i).len() + TAG_LEN by {
            if i < n {
                assert(chunk_at(grown, i) == chunk_at(chunks, i));
            }
        }
        lemma_join_push(chunks, p);
        assert(sealed_as(key, nonce, grown, data + frame, plaintext + p));
    } else {
        let none = Seq::<Seq<u8>>::empty();
        assert(chunks + none =~= chunks);
        assert(p =~= Seq::empty());
        assert(sealed_chunks(key, nonce, 0, chunks) == data + frame);
        assert(plaintext + p =~= plaintext);
        assert forall|i: int| #![trigger chunk_at(chunks, i)] 0 <= i < n + 1 implies cipher::chunk_frame(
            key,
            nonce,
            i,
            chunk_at(chunks, i),
        ).len() == 4 + chunk_at(chunks, i).len() + TAG_LEN by {}
    }
}

/// A file whose chunks are all sealed is the encryption of what they hold.
pub proof fn lemma_sealed_file(
    password: Seq<char>,
    file: Seq<u8>,
    key: Seq<u8>,
    nonce: Seq<u8>,
    n: int,
    plaintext: Seq<u8>,
)
    requires
        is_keyed(password, file, key, nonce),
        sealed_to_end(key, nonce, n, file.skip(HEADER_LEN as int), plaintext),
        n <= u32::MAX,
    ensures
        is_encryption(password, file, plaintext),
{
    let body = file.skip(HEADER_LEN as int);
    let chunks = choose|chunks: Seq<Seq<u8>>|
        {
            &&& body == #[trigger] sealed_chunks(key, nonce, 0, chunks)
            &&& are_chunks(chunks)
            &&& have_frame_lengths(key, nonce, chunks, n + 1)
            &&& chunks.len() == n
            &&& join(chunks) == plaintext
        };
    let h = header::header_of(file)->Ok_0;
    header::header_is_canonical(file);
    assert(file =~= file.take(HEADER_LEN as int) + body);
    assert(is_sealed_file(password, file, h, key, chunks));
}

proof fn lemma_sealed_length(key: Seq<u8>, nonce: Seq<u8>, chunks: Seq<Seq<u8>>, i: int)
    requires
        have_frame_lengths(key, nonce, chunks, chunks.len() as int + 1),
        0 <= i <= chunks.len(),
    ensures
        sealed_chunks(key, nonce, i, chunks.skip(i)).len() == join(chunks.skip(i)).len() + (4
            + TAG_LEN) * (chunks.len() - i + 1),
    decreases chunks.len() - i,
{
    let here = chunk_at(chunks, i);
    assert(cipher::chunk_frame(key, nonce, i, here).len() == 4 + here.len() + TAG_LEN);
    if i < chunks.len() {
        lemma_sealed_length(key, nonce, chunks, i + 1);
        assert(chunks.skip(i).drop_first() =~= chunks.skip(i + 1));
    }
}

/// An encrypted file is longer than its plaintext by the header, by twenty bytes for each chunk, and
/// by twenty for the last.
pub proof fn sealed_file_length(
    password: Seq<char>,
    file: Seq<u8>,
    h: header::HeaderView,
    key: Seq<u8>,
    chunks: Seq<Seq<u8>>,
)
    requires
        is_sealed_file(password, file, h, key, chunks),
    ensures
        file.len() == HEADER_LEN + join(chunks).len() + (4 + TAG_LEN) * (chunks.len() + 1),
{
    header::header_round_trip(h, Seq::empty());
    lemma_sealed_length(key, h.nonce, chunks, 0);
    assert(chunks.skip(0) =~= chunks);
}

proof fn lemma_sealed_count(key: Seq<u8>, nonce: Seq<u8>, chunks: Seq<Seq<u8>>, i: int)
    requires
        are_chunks(chunks),
        have_frame_lengths(key, nonce, chunks, chunks.len() as int + 1),
        0 <= i <= chunks.len(),
    ensures
        chunk_count(sealed_chunks(key, nonce, i, chunks.skip(i))) == chunks.len() - i,
    decreases chunks.len() - i,
{
    let here = chunk_at(chunks, i);
    let frame = cipher::chunk_frame(key, nonce, i, here);
    let data = sealed_chunks(key, nonce, i, chunks.skip(i));
    assert(frame.len() == 4 + here.len() + TAG_LEN);
    assert(here.len() <= CHUNK_SIZE);
    bytes::number_round_trip(here.len() as u32);
    assert(frame.take(4) =~= bytes::le32(here.len() as int));
    assert(data.take(4) =~= frame.take(4));
    if i < chunks.len() {
        lemma_sealed_count(key, nonce, chunks, i + 1);
        assert(chunks.skip(i).drop_first() =~= chunks.skip(i + 1));
        assert(data.skip(frame.len() as int) =~= sealed_chunks(
            key,
            nonce,
            i + 1,
            chunks.skip(i + 1),
        ));
    }
}

/// An encrypted file has no more chunks than an index of 32 bits can count, and so does any part of
/// it from its start on.
pub proof fn sealed_chunks_can_be_counted(
    password: Seq<char>,
    file: Seq<u8>,
    h: header::HeaderView,
    key: Seq<u8>,
    chunks: Seq<Seq<u8>>,
    k: int,
)
    requires
        is_sealed_file(password, file, h, key, chunks),
        HEADER_LEN <= k <= file.len(),
    ensures
        chunk_count(file.skip(HEADER_LEN as int)) == chunks.len() <= u32::MAX,
        chunk_count(file.take(k).skip(HEADER_LEN as int)) <= u32::MAX,
{
    let body = sealed_chunks(key, h.nonce, 0, chunks);
    header::header_round_trip(h, Seq::empty());
    lemma_sealed_count(key, h.nonce, chunks, 0);
    assert(chunks.skip(0) =~= chunks);
    assert(file.skip(HEADER_LEN as int) =~= body);
    lemma_count_of_prefix(body, k - HEADER_LEN);
    assert(file.take(k).skip(HEADER_LEN as int) =~= body.take(k - HEADER_LEN));
}

proof fn lemma_count_of_prefix(data: Seq<u8>, k: int)
    requires
        0 <= k <= data.len(),
    ensures
        chunk_count(data.take(k)) <= chunk_count(data),
    decreases data.len(),
{
    let n = bytes::le32_value(data.take(4));
    let end = 4 + n + TAG_LEN;
    let cut = data.take(k);
    if k >= 4 {
        assert(cut.take(4) =~= data.take(4));
        if n <= CHUNK_SIZE && n > 0 && k >= end {
            lemma_count_of_prefix(data.skip(end), k - end);
            assert(cut.skip(end) =~= data.skip(end).take(k - end));
        }
    }
}

/// What reading makes of a chunk that is there as a whole, by the bytes: four bytes of growing worth
/// that give the length of the plaintext, the ciphertext, and whatever follows. A chunk that does not
/// open is not authentic. One with plaintext is read before all that follows; one without is the last,
/// and nothing may follow.
pub proof fn whole_chunk_is_read(
    key: Seq<u8>,
    nonce: Seq<u8>,
    index: int,
    a: u8,
    b: u8,
    c: u8,
    d: u8,
    sealed: Seq<u8>,
    rest: Seq<u8>,
)
    requires
        a + 256 * b + 65536 * c + 16777216 * d <= 65536,
        sealed.len() == a + 256 * b + 65536 * c + 16777216 * d + 16,
    ensures
        ({
            let read = read_chunks(key, nonce, index, seq![a, b, c, d] + sealed + rest);
            match cipher::chunk_opened(key, nonce, index, sealed) {
                None => read == Err::<Seq<u8>, Failure>(Failure::Authentication),
                Some(p) => if sealed.len() == 16 {
                    read == if rest.len() == 0 {
                        Ok::<Seq<u8>, Failure>(p)
                    } else {
                        Err(Failure::TrailingData)
                    }
                } else {
                    match read_chunks(key, nonce, index + 1, rest) {
                        Ok(q) => read == Ok::<Seq<u8>, Failure>(p + q),
                        Err(e) => read == Err::<Seq<u8>, Failure>(e),
                    }
                },
            }
        }),
{
    let data = seq![a, b, c, d] + sealed + rest;
    let end = 4 + sealed.len() as int;
    bytes::bytes_are_read_by_worth(a, b, c, d);
    assert(data.take(4) =~= seq![a, b, c, d]);
    assert(data.subrange(4, end) =~= sealed);
    assert(data.skip(end) =~= rest);
}

/// What reading makes of a chunk that is not there as a whole, by the bytes: without a whole length,
/// with a length beyond that of any chunk, or with less than the length says.
pub proof fn broken_chunk_is_refused(key: Seq<u8>, nonce: Seq<u8>, index: int, data: Seq<u8>)
    ensures
        data.len() < 4 ==> read_chunks(key, nonce, index, data) == Err::<Seq<u8>, Failure>(
            Failure::MissingFinalChunk,
        ),
        data.len() >= 4 ==> {
            let n = data[0] + 256 * data[1] + 65536 * data[2] + 16777216 * data[3];
            &&& n > 65536 ==> read_chunks(key, nonce, index, data) == Err::<Seq<u8>, Failure>(
                Failure::InvalidChunkSize,
            )
            &&& n <= 65536 && data.len() < n + 20 ==> read_chunks(key, nonce, index, data) == Err::<
                Seq<u8>,
                Failure,
            >(Failure::IncompleteChunk)
        },
{
    if data.len() >= 4 {
        bytes::bytes_are_read_by_worth(data[0], data[1], data[2], data[3]);
        assert(data.take(4) =~= seq![data[0], data[1], data[2], data[3]]);
    }
}

/// What a password finds in a file, by the bytes: a file without a whole header is too short, one with
/// another header is refused as that is, and of any other the chunks from byte 47 on are read, from
/// index 0, with the nonce that the header names and the key that the whole password gives with the
/// header's salt and costs.
pub proof fn file_is_header_and_chunks(password: Seq<char>, file: Seq<u8>)
    ensures
        file.len() < 47 ==> read_file(password, file) == Err::<Seq<u8>, Failure>(
            Failure::HeaderTooShort,
        ),
        file.len() >= 47 ==> match header::header_of(file) {
            Err(e) => read_file(password, file) == Err::<Seq<u8>, Failure>(e),
            Ok(h) => match kdf::key_of(
                utf8::encode_utf8(password),
                h.salt,
                h.m_cost,
                h.t_cost,
                h.p_cost,
            ) {
                Err(e) => read_file(password, file) == Err::<Seq<u8>, Failure>(e),
                Ok(key) => read_file(password, file) == read_chunks(
                    key,
                    h.nonce,
                    0,
                    file.subrange(47, file.len() as int),
                ),
            },
        },
{
    if file.len() >= 47 {
        assert(file.subrange(47, file.len() as int) =~= file.skip(HEADER_LEN as int));
    }
}

#[verifier::rlimit(40)]
proof fn lemma_frame_place(key: Seq<u8>, nonce: Seq<u8>, chunks: Seq<Seq<u8>>, i: int, k: int)
    requires
        have_frame_lengths(key, nonce, chunks, chunks.len() as int + 1),
        0 <= i <= k <= chunks.len(),
    ensures
        ({
            let sealed = sealed_chunks(key, nonce, i, chunks.skip(i));
            let frame = cipher::chunk_frame(key, nonce, k, chunk_at(chunks, k));
            let at = join(chunks.subrange(i, k)).len() + 20 * (k - i);
            &&& at + frame.len() <= sealed.len()
            &&& sealed.subrange(at, at + frame.len()) == frame
            &&& frame.len() == 20 + chunk_at(chunks, k).len()
        }),
    decreases k - i,
{
    let sealed = sealed_chunks(key, nonce, i, chunks.skip(i));
    let frame = cipher::chunk_frame(key, nonce, k, chunk_at(chunks, k));
    let here = cipher::chunk_frame(key, nonce, i, chunk_at(chunks, i));
    assert(chunk_at(chunks, i).len() + 20 == here.len());
    assert(chunk_at(chunks, k).len() + 20 == frame.len());
    if i < chunks.len() {
        assert(chunks.skip(i).drop_first() =~= chunks.skip(i + 1));
    }
    if i == k {
        assert(chunks.subrange(i, k) =~= Seq::empty());
        assert(sealed.subrange(0, frame.len() as int) =~= frame);
    } else {
        lemma_frame_place(key, nonce, chunks, i + 1, k);
        assert(chunks.subrange(i, k).drop_first() =~= chunks.subrange(i + 1, k));
        let rest = sealed_chunks(key, nonce, i + 1, chunks.skip(i + 1));
        let at = join(chunks.subrange(i + 1, k)).len() + 20 * (k - i - 1);
        let off = here.len() as int;
        assert(sealed.subrange(off + at, off + at + frame.len()) =~= rest.subrange(
            at,
            at + frame.len(),
        ));
    }
}

/// Where each chunk of an encrypted file lies and what it is, by the bytes: the header, at byte 47 the
/// first chunk, and each where the one before ends; its length in four bytes of growing worth, and what
/// AES-GCM makes of it. The empty chunk after all of `chunks` is the last, and the file ends with it.
#[verifier::rlimit(40)]
pub proof fn chunk_lies_in_its_place(
    password: Seq<char>,
    file: Seq<u8>,
    h: header::HeaderView,
    key: Seq<u8>,
    chunks: Seq<Seq<u8>>,
    k: int,
)
    requires
        is_sealed_file(password, file, h, key, chunks),
        0 <= k <= chunks.len(),
    ensures
        ({
            let p = if k < chunks.len() {
                chunks[k]
            } else {
                Seq::empty()
            };
            let at = 47 + join(chunks.take(k)).len() + 20 * k;
            let end = at + 20 + p.len();
            &&& end <= file.len()
            &&& k == chunks.len() ==> end == file.len()
            &&& file[at] + 256 * file[at + 1] + 65536 * file[at + 2] + 16777216 * file[at + 3]
                == p.len()
            &&& file.subrange(at + 4, end) == cipher::gcm_sealed(
                key,
                cipher::chunk_nonce(h.nonce, k),
                p,
                cipher::chunk_aad(k, k == chunks.len()),
            )
        }),
{
    let p = chunk_at(chunks, k);
    let at = join(chunks.take(k)).len() + 20 * k;
    let frame = cipher::chunk_frame(key, h.nonce, k, p);
    let sealed = sealed_chunks(key, h.nonce, 0, chunks);
    header::header_round_trip(h, Seq::empty());
    sealed_file_length(password, file, h, key, chunks);
    lemma_frame_place(key, h.nonce, chunks, 0, k);
    assert(chunks.skip(0) =~= chunks);
    assert(chunks.subrange(0, k) =~= chunks.take(k));
    assert(chunks.take(chunks.len() as int) =~= chunks);
    cipher::frame_is_length_and_ciphertext(key, h.nonce, k as u32, p);
    assert forall|i: int| 0 <= i < frame.len() implies file[47 + at + i] == frame[i] by {
        assert(sealed.subrange(at, at + frame.len())[i] == frame[i]);
    }
    assert(file.subrange(47 + at + 4, 47 + at + frame.len()) =~= frame.skip(4));
}

/// What chunks are sealed as, and what they hold, tells the chunks.
#[verifier::rlimit(40)]
pub proof fn lemma_same_chunks(
    key: Seq<u8>,
    nonce: Seq<u8>,
    i: int,
    a: Seq<Seq<u8>>,
    b: Seq<Seq<u8>>,
)
    requires
        are_chunks(a),
        are_chunks(b),
        sealed_chunks(key, nonce, i, a) == sealed_chunks(key, nonce, i, b),
        join(a) == join(b),
    ensures
        a == b,
    decreases a.len(),
{
    if a.len() == 0 || b.len() == 0 {
        if a.len() > 0 {
            assert(join(a).len() >= a[0].len() > 0);
        }
        if b.len() > 0 {
            assert(join(b).len() >= b[0].len() > 0);
        }
        assert(a =~= b);
    } else {
        let sealed = sealed_chunks(key, nonce, i, a);
        let (f, g) = (
            cipher::chunk_frame(key, nonce, i, a[0]),
            cipher::chunk_frame(key, nonce, i, b[0]),
        );
        bytes::number_round_trip(a[0].len() as u32);
        bytes::number_round_trip(b[0].len() as u32);
        assert(sealed.take(4) =~= bytes::le32(a[0].len() as int));
        assert(sealed.take(4) =~= bytes::le32(b[0].len() as int));
        let n = a[0].len() as int;
        assert(join(a).take(n) =~= a[0]);
        assert(join(b).take(n) =~= b[0]);
        assert(join(a).skip(n) =~= join(a.drop_first()));
        assert(join(b).skip(n) =~= join(b.drop_first()));
        let m = f.len() as int;
        assert(sealed.skip(m) =~= sealed_chunks(key, nonce, i + 1, a.drop_first()));
        assert(sealed.skip(m) =~= sealed_chunks(key, nonce, i + 1, b.drop_first()));
        lemma_same_chunks(key, nonce, i + 1, a.drop_first(), b.drop_first());
        assert(a =~= seq![a[0]] + a.drop_first());
        assert(b =~= seq![b[0]] + b.drop_first());
    }
}

} // verus!
