//! The header of an encrypted file.
//!
//! | bytes | field                      |
//! |-------|----------------------------|
//! | 0-5   | magic bytes `ENCRPT`       |
//! | 6     | format version             |
//! | 7-22  | salt                       |
//! | 23-34 | nonce                      |
//! | 35-38 | Argon2 memory cost (u32, big-endian) |
//! | 39-42 | Argon2 time cost (u32, big-endian)   |
//! | 43-46 | Argon2 lanes (u32, big-endian)       |
//!
//! The chunks follow, each as its plaintext length (u32, little-endian), the ciphertext and the
//! tag.

use vstd::prelude::*;

use crate::bytes;
use crate::failure::Failure;

verus! {

pub const MAGIC: [u8; 6] = [0x45, 0x4e, 0x43, 0x52, 0x50, 0x54];

pub const FORMAT_VERSION: u8 = 0x02;

pub const SALT_LEN: usize = 16;

pub const NONCE_LEN: usize = 12;

pub const HEADER_LEN: usize = 47;

/// The longest plaintext of one chunk.
pub const CHUNK_SIZE: usize = 65536;

/// 64 MiB of memory, in KiB.
pub const DEFAULT_M_COST: u32 = 65536;

pub const DEFAULT_T_COST: u32 = 3;

pub const DEFAULT_P_COST: u32 = 1;

/// What a header says beyond the magic bytes and the version.
pub struct EncryptedHeader<'a> {
    pub salt: &'a [u8],
    pub nonce: &'a [u8],
    pub m_cost: u32,
    pub t_cost: u32,
    pub p_cost: u32,
}

/// The contents of an [`EncryptedHeader`].
#[verifier::ext_equal]
pub struct HeaderView {
    pub salt: Seq<u8>,
    pub nonce: Seq<u8>,
    pub m_cost: u32,
    pub t_cost: u32,
    pub p_cost: u32,
}

impl<'a> View for EncryptedHeader<'a> {
    type V = HeaderView;

    open spec fn view(&self) -> HeaderView {
        HeaderView {
            salt: self.salt@,
            nonce: self.nonce@,
            m_cost: self.m_cost,
            t_cost: self.t_cost,
            p_cost: self.p_cost,
        }
    }
}

impl HeaderView {
    /// The salt and the nonce have the lengths that the format gives them.
    pub open spec fn wf(self) -> bool {
        &&& self.salt.len() == SALT_LEN
        &&& self.nonce.len() == NONCE_LEN
    }
}

/// The bytes of a header that says `h`.
pub open spec fn header_bytes(h: HeaderView) -> Seq<u8> {
    MAGIC@ + seq![FORMAT_VERSION] + h.salt + h.nonce + bytes::be32(h.m_cost as int) + bytes::be32(h.t_cost as int)
        + bytes::be32(h.p_cost as int)
}

/// What the header at the start of `data` says, or why it is no header of this format.
pub open spec fn header_of(data: Seq<u8>) -> Result<HeaderView, Failure> {
    if data.take(6) != MAGIC@ {
        Err(Failure::BadMagic([data[0], data[1], data[2], data[3], data[4], data[5]]))
    } else if data[6] != FORMAT_VERSION {
        Err(Failure::UnsupportedVersion(data[6]))
    } else {
        Ok(
            HeaderView {
                salt: data.subrange(7, 23),
                nonce: data.subrange(23, 35),
                m_cost: bytes::be32_value(data.subrange(35, 39)) as u32,
                t_cost: bytes::be32_value(data.subrange(39, 43)) as u32,
                p_cost: bytes::be32_value(data.subrange(43, 47)) as u32,
            },
        )
    }
}

/// `data` is long enough to tell what [`header_of`] makes of it.
pub open spec fn header_decided(data: Seq<u8>) -> bool {
    &&& data.len() >= 6
    &&& data.take(6) == MAGIC@ ==> data.len() >= 7
    &&& data.take(6) == MAGIC@ && data[6] == FORMAT_VERSION ==> data.len() >= HEADER_LEN
}

/// The magic bytes and the version are the first seven bytes.
proof fn lemma_first_bytes(data: Seq<u8>)
    requires
        data.len() >= 6,
    ensures
        data.len() >= 7 && data.take(7) == seq![0x45u8, 0x4e, 0x43, 0x52, 0x50, 0x54, 2]
            <==> data.len() >= 7 && data.take(6) == MAGIC@ && data[6] == FORMAT_VERSION,
{
    let first = seq![0x45u8, 0x4e, 0x43, 0x52, 0x50, 0x54, 2];
    if data.len() >= 7 {
        if data.take(6) == MAGIC@ && data[6] == FORMAT_VERSION {
            assert forall|i: int| 0 <= i < 7 implies data.take(7)[i] == first[i] by {
                if i < 6 {
                    assert(data.take(6)[i] == MAGIC@[i]);
                }
            }
            assert(data.take(7) =~= first);
        }
        if data.take(7) == first {
            assert forall|i: int| 0 <= i < 6 implies data.take(6)[i] == MAGIC@[i] by {
                assert(data.take(7)[i] == first[i]);
            }
            assert(data.take(6) =~= MAGIC@);
            assert(data.take(7)[6] == first[6]);
        }
    }
}

/// Where the fields of a header that is written lie, for all values of them.
#[verifier::rlimit(40)]
pub proof fn layout_of_written_header(h: HeaderView)
    requires
        h.salt.len() == 16,
        h.nonce.len() == 12,
    ensures
        ({
            let b = header_bytes(h);
            &&& b.len() == 47
            &&& b.take(7) == seq![0x45u8, 0x4e, 0x43, 0x52, 0x50, 0x54, 2]
            &&& b.subrange(7, 23) == h.salt
            &&& b.subrange(23, 35) == h.nonce
            &&& 16777216 * b[35] + 65536 * b[36] + 256 * b[37] + b[38] == h.m_cost
            &&& 16777216 * b[39] + 65536 * b[40] + 256 * b[41] + b[42] == h.t_cost
            &&& 16777216 * b[43] + 65536 * b[44] + 256 * b[45] + b[46] == h.p_cost
        }),
{
    let b = header_bytes(h);
    assert(b.take(7) =~= seq![0x45u8, 0x4e, 0x43, 0x52, 0x50, 0x54, 2]);
    assert(b.subrange(7, 23) =~= h.salt);
    assert(b.subrange(23, 35) =~= h.nonce);
    bytes::bytes_have_their_worth(h.m_cost);
    bytes::bytes_have_their_worth(h.t_cost);
    bytes::bytes_have_their_worth(h.p_cost);
    assert forall|i: int| 0 <= i < 4 implies {
        &&& b[35 + i] == bytes::be32(h.m_cost as int)[i]
        &&& b[39 + i] == bytes::be32(h.t_cost as int)[i]
        &&& b[43 + i] == bytes::be32(h.p_cost as int)[i]
    } by {}
}

/// Where the fields of a header that is read lie, for all bytes, and what is refused.
pub proof fn layout_of_read_header(data: Seq<u8>)
    requires
        data.len() >= 47,
    ensures
        ({
            let known = data.take(6) == seq![0x45u8, 0x4e, 0x43, 0x52, 0x50, 0x54];
            let d = data;
            match header_of(data) {
                Ok(h) => {
                    &&& known && d[6] == 2
                    &&& h.salt == d.subrange(7, 23)
                    &&& h.nonce == d.subrange(23, 35)
                    &&& h.m_cost == 16777216 * d[35] + 65536 * d[36] + 256 * d[37] + d[38]
                    &&& h.t_cost == 16777216 * d[39] + 65536 * d[40] + 256 * d[41] + d[42]
                    &&& h.p_cost == 16777216 * d[43] + 65536 * d[44] + 256 * d[45] + d[46]
                },
                Err(Failure::BadMagic(found)) => !known && found@ == d.take(6),
                Err(Failure::UnsupportedVersion(v)) => known && v == d[6] && v != 2,
                Err(_) => false,
            }
        }),
{
    assert(MAGIC@ =~= seq![0x45u8, 0x4e, 0x43, 0x52, 0x50, 0x54]);
    let d = data;
    assert([d[0], d[1], d[2], d[3], d[4], d[5]]@ =~= d.take(6));
    assert(d.subrange(35, 39) =~= seq![d[35], d[36], d[37], d[38]]);
    assert(d.subrange(39, 43) =~= seq![d[39], d[40], d[41], d[42]]);
    assert(d.subrange(43, 47) =~= seq![d[43], d[44], d[45], d[46]]);
    bytes::bytes_are_read_by_worth(d[35], d[36], d[37], d[38]);
    bytes::bytes_are_read_by_worth(d[39], d[40], d[41], d[42]);
    bytes::bytes_are_read_by_worth(d[43], d[44], d[45], d[46]);
}

/// Reads the header at the start of `data`.
pub fn parse_header(data: &[u8]) -> (r: Result<EncryptedHeader<'_>, Failure>)
    requires
        header_decided(data@),
    ensures
        match header_of(data@) {
            Ok(h) => r matches Ok(header) && header@ == h && h.wf(),
            Err(e) => r == Err::<EncryptedHeader<'_>, Failure>(e),
        },
        r is Ok == (data@.len() >= 7 && data@.take(7) == seq![
            0x45u8,
            0x4e,
            0x43,
            0x52,
            0x50,
            0x54,
            2,
        ]),
        r matches Ok(h) ==> {
            let d = data@;
            &&& h.salt@ == d.subrange(7, 23)
            &&& h.nonce@ == d.subrange(23, 35)
            &&& h.m_cost == 16777216 * d[35] + 65536 * d[36] + 256 * d[37] + d[38]
            &&& h.t_cost == 16777216 * d[39] + 65536 * d[40] + 256 * d[41] + d[42]
            &&& h.p_cost == 16777216 * d[43] + 65536 * d[44] + 256 * d[45] + d[46]
        },
{
    let magic = &data[0..6];
    assert(magic@ == data@.take(6));
    proof {
        lemma_first_bytes(data@);
    }
    let known = MAGIC;
    if !bytes::same_bytes(magic, &known) {
        return Err(Failure::BadMagic([data[0], data[1], data[2], data[3], data[4], data[5]]));
    }
    let version = data[6];
    if version != FORMAT_VERSION {
        return Err(Failure::UnsupportedVersion(version));
    }
    proof {
        bytes::bytes_round_trip(data@.subrange(35, 39));
        bytes::bytes_round_trip(data@.subrange(39, 43));
        bytes::bytes_round_trip(data@.subrange(43, 47));
    }
    proof {
        layout_of_read_header(data@);
    }
    Ok(
        EncryptedHeader {
            salt: &data[7..23],
            nonce: &data[23..35],
            m_cost: bytes::read_be32(data, 35),
            t_cost: bytes::read_be32(data, 39),
            p_cost: bytes::read_be32(data, 43),
        },
    )
}

/// Writes a header.
pub fn encode_header(header: &EncryptedHeader<'_>) -> (out: Vec<u8>)
    ensures
        out@ == header_bytes(header@),
        header@.salt.len() == 16 && header@.nonce.len() == 12 ==> {
            &&& out@.len() == 47
            &&& out@.take(7) == seq![0x45u8, 0x4e, 0x43, 0x52, 0x50, 0x54, 2]
            &&& out@.subrange(7, 23) == header@.salt
            &&& out@.subrange(23, 35) == header@.nonce
            &&& 16777216 * out@[35] + 65536 * out@[36] + 256 * out@[37] + out@[38]
                == header.m_cost
            &&& 16777216 * out@[39] + 65536 * out@[40] + 256 * out@[41] + out@[42]
                == header.t_cost
            &&& 16777216 * out@[43] + 65536 * out@[44] + 256 * out@[45] + out@[46]
                == header.p_cost
        },
{
    let known = MAGIC;
    let mut out: Vec<u8> = Vec::with_capacity(HEADER_LEN);
    out.extend_from_slice(&known);
    out.push(FORMAT_VERSION);
    out.extend_from_slice(header.salt);
    out.extend_from_slice(header.nonce);
    bytes::push_be32(&mut out, header.m_cost);
    bytes::push_be32(&mut out, header.t_cost);
    bytes::push_be32(&mut out, header.p_cost);
    assert(out@ =~= header_bytes(header@));
    proof {
        if header@.wf() {
            layout_of_written_header(header@);
        }
    }
    out
}

/// Tells the format version and the Argon2 costs of the file that starts with `data`. No password
/// is needed.
pub fn inspect_file(data: &[u8]) -> (r: Result<(u8, u32, u32, u32), Failure>)
    ensures
        r == (if data@.len() < HEADER_LEN {
            Err(Failure::InspectTooShort)
        } else {
            match header_of(data@) {
                Ok(h) => Ok((FORMAT_VERSION, h.m_cost, h.t_cost, h.p_cost)),
                Err(e) => Err(e),
            }
        }),
        r is Ok == (data@.len() >= 47 && data@.take(7) == seq![
            0x45u8,
            0x4e,
            0x43,
            0x52,
            0x50,
            0x54,
            2,
        ]),
        r matches Ok((version, m, t, p)) ==> {
            let d = data@;
            &&& version == 2
            &&& m == 16777216 * d[35] + 65536 * d[36] + 256 * d[37] + d[38]
            &&& t == 16777216 * d[39] + 65536 * d[40] + 256 * d[41] + d[42]
            &&& p == 16777216 * d[43] + 65536 * d[44] + 256 * d[45] + d[46]
        },
        data@.len() < 47 ==> r == Err::<(u8, u32, u32, u32), Failure>(Failure::InspectTooShort),
{
    if data.len() < HEADER_LEN {
        return Err(Failure::InspectTooShort);
    }
    match parse_header(data) {
        Ok(header) => Ok((FORMAT_VERSION, header.m_cost, header.t_cost, header.p_cost)),
        Err(e) => Err(e),
    }
}

/// A header that is written and read back says what it said, whatever follows it in the file.
pub proof fn header_round_trip(h: HeaderView, rest: Seq<u8>)
    requires
        h.wf(),
    ensures
        header_bytes(h).len() == HEADER_LEN,
        header_of(header_bytes(h) + rest) == Ok::<HeaderView, Failure>(h),
{
    let d = header_bytes(h) + rest;
    assert(d.take(6) =~= MAGIC@);
    assert(d[6] == FORMAT_VERSION);
    assert(d.subrange(7, 23) =~= h.salt);
    assert(d.subrange(23, 35) =~= h.nonce);
    assert(d.subrange(35, 39) =~= bytes::be32(h.m_cost as int));
    assert(d.subrange(39, 43) =~= bytes::be32(h.t_cost as int));
    assert(d.subrange(43, 47) =~= bytes::be32(h.p_cost as int));
    bytes::number_round_trip(h.m_cost);
    bytes::number_round_trip(h.t_cost);
    bytes::number_round_trip(h.p_cost);
}

/// A file that is read as a header starts with exactly the bytes that the header is written as.
#[verifier::rlimit(40)]
pub proof fn header_is_canonical(data: Seq<u8>)
    requires
        data.len() >= HEADER_LEN,
        header_of(data) is Ok,
    ensures
        header_bytes(header_of(data)->Ok_0) == data.take(HEADER_LEN as int),
{
    bytes::bytes_round_trip(data.subrange(35, 39));
    bytes::bytes_round_trip(data.subrange(39, 43));
    bytes::bytes_round_trip(data.subrange(43, 47));
    let h = header_of(data)->Ok_0;
    assert forall|i: int| 0 <= i < 6 implies data[i] == MAGIC@[i] by {
        assert(data.take(6)[i] == MAGIC@[i]);
    }
    assert(header_bytes(h) =~= data.take(HEADER_LEN as int));
}

/// The header alone decides what is read of it: bytes after it change nothing.
pub proof fn header_ignores_rest(data: Seq<u8>, rest: Seq<u8>)
    requires
        data.len() >= HEADER_LEN,
    ensures
        header_of(data + rest) == header_of(data),
{
    let d = data + rest;
    assert(d.take(6) =~= data.take(6));
    assert(d.subrange(7, 23) =~= data.subrange(7, 23));
    assert(d.subrange(23, 35) =~= data.subrange(23, 35));
    assert(d.subrange(35, 39) =~= data.subrange(35, 39));
    assert(d.subrange(39, 43) =~= data.subrange(39, 43));
    assert(d.subrange(43, 47) =~= data.subrange(43, 47));
}

} // verus!
