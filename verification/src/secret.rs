//! Random bytes, and the wiping of keys.

use rand::rngs::OsRng;
use rand::RngCore;
use vstd::prelude::*;
use zeroize::Zeroize;

use crate::bytes;

verus! {

/// The error of the `rand` crate.
#[verifier::external_type_specification]
#[verifier::external_body]
pub struct ExRandError(rand::Error);

/// A key of which nothing is left.
pub open spec fn wiped() -> Seq<u8> {
    Seq::new(32, |i: int| 0u8)
}

/// `rand::RngCore::try_fill_bytes` of `rand::rngs::OsRng`: it keeps the length, and it asks the
/// operating system for nothing, and succeeds, where there is nothing to fill. Which bytes it gives
/// otherwise, and whether the operating system has any to give, is left open.
#[verifier::external_body]
fn fill_random(buf: &mut Vec<u8>) -> (r: Result<(), rand::Error>)
    ensures
        final(buf)@.len() == old(buf)@.len(),
        old(buf)@.len() == 0 ==> r is Ok,
{
    OsRng.try_fill_bytes(buf)
}

/// `zeroize::Zeroize::zeroize` of an array: every byte becomes zero.
#[verifier::external_body]
pub(crate) fn wipe(key: &mut [u8; 32])
    ensures
        final(key)@ == wiped(),
{
    key.zeroize();
}

/// What the random source gave when it was asked once. Only [`random_bytes`] makes one: nobody else
/// can claim bytes to be drawn, or the source to have failed.
pub struct Draw {
    bytes: Option<Vec<u8>>,
    fault: Option<rand::Error>,
}

impl View for Draw {
    type V = Option<Seq<u8>>;

    closed spec fn view(&self) -> Option<Seq<u8>> {
        match self.bytes {
            Some(b) => Some(b@),
            None => None,
        }
    }
}

impl Draw {
    /// The error with which the source failed.
    pub closed spec fn fault(&self) -> Option<rand::Error> {
        self.fault
    }

    /// Where there are no bytes, there is the error of the source.
    #[verifier::type_invariant]
    spec fn wf(self) -> bool {
        self.bytes is None ==> self.fault is Some
    }

    /// The bytes that were drawn, if any.
    pub(crate) fn bytes(&self) -> (r: Option<&Vec<u8>>)
        ensures
            r is Some == self@ is Some,
            r matches Some(b) ==> self@ == Some(b@),
            r is None ==> self.fault() is Some,
    {
        proof {
            use_type_invariant(self);
        }
        self.bytes.as_ref()
    }
}

/// Gives `len` random bytes, or none where the operating system fails to, and then its error. Where
/// `len` is zero, it is not asked.
pub(crate) fn random_bytes(len: usize) -> (r: Draw)
    ensures
        r@ matches Some(b) ==> b.len() == len,
        len == 0 ==> r@ is Some,
        r@ is None ==> r.fault() is Some,
{
    let mut buf: Vec<u8> = vec![0u8; len];
    match fill_random(&mut buf) {
        Err(e) => Draw { bytes: None, fault: Some(e) },
        answer => Draw { bytes: drawn(answer, buf), fault: None },
    }
}

/// What was drawn, given how the random source answered and the buffer that it was to fill: the
/// whole buffer as it was left, or nothing at all where the source failed.
pub fn drawn(answer: Result<(), rand::Error>, buf: Vec<u8>) -> (r: Option<Vec<u8>>)
    ensures
        r == (if answer is Ok {
            Some(buf)
        } else {
            None
        }),
{
    match answer {
        Ok(()) => Some(buf),
        Err(_) => None,
    }
}

/// A key of which nothing is left is 32 zeros.
pub proof fn wiped_is_zeros(i: int)
    ensures
        wiped().len() == 32,
        0 <= i < 32 ==> wiped()[i] == 0,
{
}

/// Tells whether any byte of `key` is left.
pub(crate) fn is_left(key: &[u8; 32]) -> (left: bool)
    ensures
        left == (key@ != wiped()),
{
    let nothing = [0u8; 32];
    assert(nothing@ =~= wiped());
    !bytes::same_bytes(key, &nothing)
}

} // verus!
