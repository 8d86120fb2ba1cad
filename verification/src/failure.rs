//! What can go wrong, and how it is told to the user.

use vstd::prelude::*;
use vstd::string::*;
use vstd::utf8;

use crate::header::FORMAT_VERSION;
use crate::text;

verus! {

/// Why Argon2 refuses to derive a key.
#[derive(Clone, Copy, Debug, PartialEq, Eq, Structural)]
pub enum KdfFault {
    /// Less than eight blocks of memory, or less than eight for each lane.
    MemoryTooLittle,
    /// No pass over the memory.
    TimeTooSmall,
    /// No lane.
    ThreadsTooFew,
    /// More lanes than Argon2 allows.
    ThreadsTooMany,
    /// A password of 2^32 bytes or more.
    PasswordTooLong,
    /// A salt of less than eight bytes.
    SaltTooShort,
    /// A salt of 2^32 bytes or more.
    SaltTooLong,
    /// Any other reason of the Argon2 implementation.
    Other,
}

/// A failed operation.
#[derive(Clone, Copy, Debug, PartialEq, Eq)]
pub enum Failure {
    /// The two passwords typed differ.
    PasswordMismatch,
    /// The input file could not be opened.
    OpenInput,
    /// The temporary output file could not be created.
    CreateTemp,
    /// Reading, writing, or showing progress failed.
    Io,
    /// The operating system gave no random bytes.
    RandomSource,
    /// The input ends within the header.
    HeaderTooShort,
    /// The file to inspect ends within the header.
    InspectTooShort,
    /// The file starts with these bytes and not with the magic bytes.
    BadMagic([u8; 6]),
    /// The file is of this format version.
    UnsupportedVersion(u8),
    /// The Argon2 costs in the header are not usable.
    BadParameters(KdfFault),
    /// The password or the salt is not usable.
    KeyDerivation(KdfFault),
    /// The chunk of this index could not be encrypted.
    Encryption(u32),
    /// The input ends where a chunk should start.
    MissingFinalChunk,
    /// The length of a chunk could not be read.
    ChunkLength,
    /// A chunk claims to be longer than any chunk is.
    InvalidChunkSize,
    /// The input ends within a chunk.
    IncompleteChunk,
    /// A chunk is not what the key, its place and its length vouch for.
    Authentication,
    /// Something follows the last chunk.
    TrailingData,
    /// The finished encrypted file could not be moved to its place.
    FinalizeEncrypted,
    /// The finished decrypted file could not be moved to its place.
    FinalizeDecrypted,
    /// The file to shred could not be opened.
    OpenForShredding,
}

impl KdfFault {
    /// The reason in words.
    pub open spec fn text(self) -> Seq<char> {
        match self {
            KdfFault::MemoryTooLittle => "memory cost is too small"@,
            KdfFault::TimeTooSmall => "time cost is too small"@,
            KdfFault::ThreadsTooFew => "not enough threads"@,
            KdfFault::ThreadsTooMany => "too many threads"@,
            KdfFault::PasswordTooLong => "password is too long"@,
            KdfFault::SaltTooShort => "salt is too short"@,
            KdfFault::SaltTooLong => "salt is too long"@,
            KdfFault::Other => "unsupported"@,
        }
    }

    fn words(&self) -> (s: &'static str)
        ensures
            s@ == self.text(),
    {
        match self {
            KdfFault::MemoryTooLittle => "memory cost is too small",
            KdfFault::TimeTooSmall => "time cost is too small",
            KdfFault::ThreadsTooFew => "not enough threads",
            KdfFault::ThreadsTooMany => "too many threads",
            KdfFault::PasswordTooLong => "password is too long",
            KdfFault::SaltTooShort => "salt is too short",
            KdfFault::SaltTooLong => "salt is too long",
            KdfFault::Other => "unsupported",
        }
    }
}

impl Failure {
    /// What the user is told, or `None` where the failed system call's own words say it all.
    pub open spec fn text(self) -> Option<Seq<char>> {
        match self {
            Failure::PasswordMismatch => Some("Typo? The passwords didn't match."@),
            Failure::OpenInput => Some("Failed to open input file"@),
            Failure::CreateTemp => Some("Couldn't create the temporary output file"@),
            Failure::Io => None,
            Failure::RandomSource => None,
            Failure::HeaderTooShort => Some("File too short to contain a valid header"@),
            Failure::InspectTooShort => Some("File too short to inspect"@),
            Failure::BadMagic(found) => Some(
                "Doesn't look like an encrpt file. Expected magic 'ENCRPT', got '"@ + text::lossy(found@)
                    + "'"@,
            ),
            Failure::UnsupportedVersion(found) => Some(
                "I only understand version "@ + text::decimal(FORMAT_VERSION as nat)
                    + ", but this file is version "@ + text::decimal(found as nat) + "."@,
            ),
            Failure::BadParameters(fault) => Some("Bad Argon2 parameters: "@ + fault.text()),
            Failure::KeyDerivation(fault) => Some("Key derivation failed: "@ + fault.text()),
            Failure::Encryption(chunk) => Some(
                "Encryption failed on chunk "@ + text::decimal(chunk as nat) + ": aead::Error"@,
            ),
            Failure::MissingFinalChunk => Some("File is truncated. Missing final chunk."@),
            Failure::ChunkLength => Some("Failed to read chunk length"@),
            Failure::InvalidChunkSize => Some(
                "File is corrupted or tampered with. Invalid chunk size detected."@,
            ),
            Failure::IncompleteChunk => Some(
                "Decryption failed. The file has been truncated or tampered with."@,
            ),
            Failure::Authentication => Some("Decryption failed. Wrong password or corrupted data."@),
            Failure::TrailingData => Some(
                "File is corrupted or tampered with. Unexpected data after the final chunk."@,
            ),
            Failure::FinalizeEncrypted => Some("Failed to finalize the encrypted file"@),
            Failure::FinalizeDecrypted => Some("Failed to finalize the decrypted file"@),
            Failure::OpenForShredding => Some("Failed to open file for shredding"@),
        }
    }

    /// What the user is told of this error. `None` says that the error of the system call that
    /// failed is shown as it is. Bytes in place of the magic bytes are shown as they stand where
    /// they are UTF-8.
    pub fn message(&self) -> (m: Option<String>)
        ensures
            m is Some == self.text() is Some,
            m matches Some(s) ==> self.text() == Some(s@),
            match *self {
                Failure::BadMagic(found) => utf8::valid_utf8(found@) ==> m is Some && m->Some_0@
                    == "Doesn't look like an encrpt file. Expected magic 'ENCRPT', got '"@
                    + utf8::decode_utf8(found@) + "'"@,
                _ => true,
            },
    {
        let plain = match self {
            Failure::Io => return None,
            Failure::RandomSource => return None,
            Failure::BadMagic(found) => {
                let mut s = "Doesn't look like an encrpt file. Expected magic 'ENCRPT', got '".to_owned();
                let got = text::from_utf8_lossy(found);
                s.append(got.as_str());
                s.append("'");
                return Some(s);
            },
            Failure::UnsupportedVersion(found) => {
                let mut s = "I only understand version ".to_owned();
                let known = text::decimal_string(FORMAT_VERSION as u32);
                s.append(known.as_str());
                s.append(", but this file is version ");
                let version = text::decimal_string(*found as u32);
                s.append(version.as_str());
                s.append(".");
                return Some(s);
            },
            Failure::BadParameters(fault) => {
                let mut s = "Bad Argon2 parameters: ".to_owned();
                s.append(fault.words());
                return Some(s);
            },
            Failure::KeyDerivation(fault) => {
                let mut s = "Key derivation failed: ".to_owned();
                s.append(fault.words());
                return Some(s);
            },
            Failure::Encryption(chunk) => {
                let mut s = "Encryption failed on chunk ".to_owned();
                let index = text::decimal_string(*chunk);
                s.append(index.as_str());
                s.append(": aead::Error");
                return Some(s);
            },
            Failure::PasswordMismatch => "Typo? The passwords didn't match.",
            Failure::OpenInput => "Failed to open input file",
            Failure::CreateTemp => "Couldn't create the temporary output file",
            Failure::HeaderTooShort => "File too short to contain a valid header",
            Failure::InspectTooShort => "File too short to inspect",
            Failure::MissingFinalChunk => "File is truncated. Missing final chunk.",
            Failure::ChunkLength => "Failed to read chunk length",
            Failure::InvalidChunkSize => {
                "File is corrupted or tampered with. Invalid chunk size detected."
            },
            Failure::IncompleteChunk => {
                "Decryption failed. The file has been truncated or tampered with."
            },
            Failure::Authentication => "Decryption failed. Wrong password or corrupted data.",
            Failure::TrailingData => {
                "File is corrupted or tampered with. Unexpected data after the final chunk."
            },
            Failure::FinalizeEncrypted => "Failed to finalize the encrypted file",
            Failure::FinalizeDecrypted => "Failed to finalize the decrypted file",
            Failure::OpenForShredding => "Failed to open file for shredding",
        };
        Some(plain.to_owned())
    }
}

/// What is told of a failure holds what it is about, whatever that is.
pub proof fn told_failure_holds_its_cause(found: [u8; 6], version: u8, fault: KdfFault, chunk: u32)
    ensures
        Failure::BadMagic(found).text() == Some(
            "Doesn't look like an encrpt file. Expected magic 'ENCRPT', got '"@ + text::lossy(found@)
                + "'"@,
        ),
        Failure::UnsupportedVersion(version).text() == Some(
            "I only understand version "@ + seq!['2'] + ", but this file is version "@
                + text::decimal(version as nat) + "."@,
        ),
        Failure::BadParameters(fault).text() == Some("Bad Argon2 parameters: "@ + fault.text()),
        Failure::KeyDerivation(fault).text() == Some("Key derivation failed: "@ + fault.text()),
        Failure::Encryption(chunk).text() == Some(
            "Encryption failed on chunk "@ + text::decimal(chunk as nat) + ": aead::Error"@,
        ),
{
    text::digits_follow_each_other(0, 2);
}

/// What is told of all other failures, and of the faults of Argon2.
pub proof fn told_failures()
    ensures
        Failure::PasswordMismatch.text() == Some("Typo? The passwords didn't match."@),
        Failure::OpenInput.text() == Some("Failed to open input file"@),
        Failure::CreateTemp.text() == Some("Couldn't create the temporary output file"@),
        Failure::Io.text() is None,
        Failure::RandomSource.text() is None,
        Failure::HeaderTooShort.text() == Some("File too short to contain a valid header"@),
        Failure::InspectTooShort.text() == Some("File too short to inspect"@),
        Failure::MissingFinalChunk.text() == Some("File is truncated. Missing final chunk."@),
        Failure::ChunkLength.text() == Some("Failed to read chunk length"@),
        Failure::InvalidChunkSize.text() == Some(
            "File is corrupted or tampered with. Invalid chunk size detected."@,
        ),
        Failure::IncompleteChunk.text() == Some(
            "Decryption failed. The file has been truncated or tampered with."@,
        ),
        Failure::Authentication.text() == Some(
            "Decryption failed. Wrong password or corrupted data."@,
        ),
        Failure::TrailingData.text() == Some(
            "File is corrupted or tampered with. Unexpected data after the final chunk."@,
        ),
        Failure::FinalizeEncrypted.text() == Some("Failed to finalize the encrypted file"@),
        Failure::FinalizeDecrypted.text() == Some("Failed to finalize the decrypted file"@),
        Failure::OpenForShredding.text() == Some("Failed to open file for shredding"@),
        KdfFault::MemoryTooLittle.text() == "memory cost is too small"@,
        KdfFault::TimeTooSmall.text() == "time cost is too small"@,
        KdfFault::ThreadsTooFew.text() == "not enough threads"@,
        KdfFault::ThreadsTooMany.text() == "too many threads"@,
        KdfFault::PasswordTooLong.text() == "password is too long"@,
        KdfFault::SaltTooShort.text() == "salt is too short"@,
        KdfFault::SaltTooLong.text() == "salt is too long"@,
{
}

} // verus!
