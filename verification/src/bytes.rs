//! Fixed-width integers as byte sequences.

use vstd::prelude::*;

verus! {

/// The four base-256 digits of `n`, least significant first.
pub open spec fn le32(n: int) -> Seq<u8> {
    seq![
        (n % 256) as u8,
        (n / 256 % 256) as u8,
        (n / 65536 % 256) as u8,
        (n / 16777216 % 256) as u8,
    ]
}

/// The four base-256 digits of `n`, most significant first.
pub open spec fn be32(n: int) -> Seq<u8> {
    le32(n).reverse()
}

/// The number whose base-256 digits are `b`, least significant first.
pub open spec fn le32_value(b: Seq<u8>) -> int
    recommends
        b.len() == 4,
{
    b[0] + 256 * b[1] + 65536 * b[2] + 16777216 * b[3]
}

/// The number whose base-256 digits are `b`, most significant first.
pub open spec fn be32_value(b: Seq<u8>) -> int
    recommends
        b.len() == 4,
{
    le32_value(b.reverse())
}

/// Writing a 32-bit number as four bytes and reading it back gives the number, in either byte order.
pub proof fn number_round_trip(n: u32)
    ensures
        le32_value(le32(n as int)) == n,
        be32_value(be32(n as int)) == n,
{
    assert(be32(n as int).reverse() =~= le32(n as int));
}

/// Any four bytes are the writing of the number that they read as, in either byte order.
pub proof fn bytes_round_trip(b: Seq<u8>)
    requires
        b.len() == 4,
    ensures
        0 <= le32_value(b) <= u32::MAX,
        0 <= be32_value(b) <= u32::MAX,
        le32(le32_value(b)) =~= b,
        be32(be32_value(b)) =~= b,
{
    lemma_digits(b[0], b[1], b[2], b[3]);
    lemma_digits(b[3], b[2], b[1], b[0]);
}

proof fn lemma_digits(a: u8, b: u8, c: u8, d: u8)
    ensures
        ({
            let n = a + 256 * b + 65536 * c + 16777216 * d;
            &&& 0 <= n <= u32::MAX
            &&& n % 256 == a
            &&& n / 256 % 256 == b
            &&& n / 65536 % 256 == c
            &&& n / 16777216 % 256 == d
        }),
{
}

/// A number is written in four bytes, each worth 256 times the one before it, or after it.
pub proof fn bytes_have_their_worth(n: u32)
    ensures
        ({
            let b = le32(n as int);
            b.len() == 4 && b[0] + 256 * b[1] + 65536 * b[2] + 16777216 * b[3] == n
        }),
        ({
            let b = be32(n as int);
            b.len() == 4 && 16777216 * b[0] + 65536 * b[1] + 256 * b[2] + b[3] == n
        }),
{
}

/// Four bytes are read as the number that they are worth.
pub proof fn bytes_are_read_by_worth(a: u8, b: u8, c: u8, d: u8)
    ensures
        le32_value(seq![a, b, c, d]) == a + 256 * b + 65536 * c + 16777216 * d,
        be32_value(seq![a, b, c, d]) == 16777216 * a + 65536 * b + 256 * c + d,
{
    assert(seq![a, b, c, d].reverse() =~= seq![d, c, b, a]);
}

/// Appends the bytes of `n` to `out`, least significant first.
pub fn push_le32(out: &mut Vec<u8>, n: u32)
    ensures
        final(out)@ == old(out)@ + le32(n as int),
{
    out.push((n % 256) as u8);
    out.push((n / 256 % 256) as u8);
    out.push((n / 65536 % 256) as u8);
    out.push((n / 16777216 % 256) as u8);
    assert(out@ =~= old(out)@ + le32(n as int));
}

/// Appends the bytes of `n` to `out`, most significant first.
pub fn push_be32(out: &mut Vec<u8>, n: u32)
    ensures
        final(out)@ == old(out)@ + be32(n as int),
{
    out.push((n / 16777216 % 256) as u8);
    out.push((n / 65536 % 256) as u8);
    out.push((n / 256 % 256) as u8);
    out.push((n % 256) as u8);
    assert(out@ =~= old(out)@ + be32(n as int));
}

/// Reads the four bytes of `data` from `at` on, least significant first.
pub fn read_le32(data: &[u8], at: usize) -> (n: u32)
    requires
        at + 4 <= data@.len(),
    ensures
        n == le32_value(data@.subrange(at as int, at + 4)),
        n == data@[at as int] + 256 * data@[at + 1] + 65536 * data@[at + 2] + 16777216 * data@[at
            + 3],
{
    data[at] as u32 + 256 * data[at + 1] as u32 + 65536 * data[at + 2] as u32 + 16777216 * data[at
        + 3] as u32
}

/// Reads the four bytes of `data` from `at` on, most significant first.
pub fn read_be32(data: &[u8], at: usize) -> (n: u32)
    requires
        at + 4 <= data@.len(),
    ensures
        n == be32_value(data@.subrange(at as int, at + 4)),
        n == 16777216 * data@[at as int] + 65536 * data@[at + 1] + 256 * data@[at + 2] + data@[at
            + 3],
{
    assert(data.len() == data@.len());
    data[at + 3] as u32 + 256 * data[at + 2] as u32 + 65536 * data[at + 1] as u32 + 16777216
        * data[at] as u32
}

/// Tells whether `a` and `b` hold the same bytes.
pub fn same_bytes(a: &[u8], b: &[u8]) -> (same: bool)
    ensures
        same == (a@ == b@),
{
    if a.len() != b.len() {
        return false;
    }
    for i in 0..a.len()
        invariant
            a@.len() == b@.len(),
            forall|j: int| 0 <= j < i ==> a@[j] == b@[j],
    {
        if a[i] != b[i] {
            return false;
        }
    }
    assert(a@ =~= b@);
    true
}

} // verus!
