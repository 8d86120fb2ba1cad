use encrpt::checks::{
    confirm_password, judge_paths, judge_temp, validate_paths, validate_temp, PathFault,
};
use encrpt::failure::{Failure, KdfFault};

fn told(failure: Failure) -> String {
    failure.message().unwrap()
}

#[test]
fn plain_failures_are_told() {
    assert_eq!(told(Failure::PasswordMismatch), "Typo? The passwords didn't match.");
    assert_eq!(told(Failure::OpenInput), "Failed to open input file");
    assert_eq!(told(Failure::CreateTemp), "Couldn't create the temporary output file");
    assert_eq!(told(Failure::HeaderTooShort), "File too short to contain a valid header");
    assert_eq!(told(Failure::InspectTooShort), "File too short to inspect");
    assert_eq!(told(Failure::MissingFinalChunk), "File is truncated. Missing final chunk.");
    assert_eq!(told(Failure::ChunkLength), "Failed to read chunk length");
    assert_eq!(
        told(Failure::InvalidChunkSize),
        "File is corrupted or tampered with. Invalid chunk size detected."
    );
    assert_eq!(
        told(Failure::IncompleteChunk),
        "Decryption failed. The file has been truncated or tampered with."
    );
    assert_eq!(
        told(Failure::Authentication),
        "Decryption failed. Wrong password or corrupted data."
    );
    assert_eq!(
        told(Failure::TrailingData),
        "File is corrupted or tampered with. Unexpected data after the final chunk."
    );
    assert_eq!(told(Failure::FinalizeEncrypted), "Failed to finalize the encrypted file");
    assert_eq!(told(Failure::FinalizeDecrypted), "Failed to finalize the decrypted file");
    assert_eq!(told(Failure::OpenForShredding), "Failed to open file for shredding");
}

#[test]
fn system_errors_speak_for_themselves() {
    assert_eq!(Failure::Io.message(), None);
    assert_eq!(Failure::RandomSource.message(), None);
}

#[test]
fn other_magic_is_shown() {
    assert_eq!(
        told(Failure::BadMagic(*b"PK\x03\x04zz")),
        "Doesn't look like an encrpt file. Expected magic 'ENCRPT', got 'PK\u{3}\u{4}zz'"
    );
    assert_eq!(
        told(Failure::BadMagic([0x41, 0xff, 0x42, 0xc3, 0xa9, 0x43])),
        "Doesn't look like an encrpt file. Expected magic 'ENCRPT', got 'A\u{fffd}Bé\u{43}'"
    );
}

#[test]
fn other_version_is_shown() {
    assert_eq!(
        told(Failure::UnsupportedVersion(1)),
        "I only understand version 2, but this file is version 1."
    );
    assert_eq!(
        told(Failure::UnsupportedVersion(255)),
        "I only understand version 2, but this file is version 255."
    );
}

#[test]
fn argon2_faults_are_told_in_its_words() {
    let pairs = [
        (KdfFault::MemoryTooLittle, argon2::Error::MemoryTooLittle),
        (KdfFault::TimeTooSmall, argon2::Error::TimeTooSmall),
        (KdfFault::ThreadsTooFew, argon2::Error::ThreadsTooFew),
        (KdfFault::ThreadsTooMany, argon2::Error::ThreadsTooMany),
        (KdfFault::PasswordTooLong, argon2::Error::PwdTooLong),
        (KdfFault::SaltTooShort, argon2::Error::SaltTooShort),
        (KdfFault::SaltTooLong, argon2::Error::SaltTooLong),
    ];
    for (fault, error) in pairs {
        assert_eq!(
            told(Failure::BadParameters(fault)),
            format!("Bad Argon2 parameters: {}", error)
        );
        assert_eq!(
            told(Failure::KeyDerivation(fault)),
            format!("Key derivation failed: {}", error)
        );
    }
}

#[test]
fn failed_chunk_is_named() {
    assert_eq!(
        told(Failure::Encryption(120)),
        format!("Encryption failed on chunk 120: {}", aes_gcm::aead::Error)
    );
}

#[test]
fn path_faults_are_told() {
    assert_eq!(
        PathFault::SamePath.message(),
        "Input and output paths can't be the same. That's a good way to lose your data."
    );
    assert_eq!(
        PathFault::InputMissing("a b".to_string()).message(),
        "Input file doesn't exist: a b"
    );
    assert_eq!(
        PathFault::OutputExists("x.enc".to_string()).message(),
        "Output file already exists: x.enc. Use --force if you really want to overwrite it."
    );
    assert_eq!(
        PathFault::TempIsInput("x.tmp".to_string()).message(),
        "Input file would be lost: the output is put together at x.tmp."
    );
    assert_eq!(
        PathFault::TempExists("x.tmp".to_string()).message(),
        "Temporary file already exists: x.tmp. Use --force if you really want to overwrite it."
    );
}

#[test]
fn paths_are_judged_in_order() {
    let same = Err(PathFault::SamePath);
    let missing = Err(PathFault::InputMissing("in".to_string()));
    let exists = Err(PathFault::OutputExists("out".to_string()));
    for force in [false, true] {
        assert_eq!(judge_paths("in", "out", force, true, false, true), same);
        assert_eq!(judge_paths("in", "out", force, true, true, false), same);
        assert_eq!(judge_paths("in", "out", force, false, false, true), missing);
        assert_eq!(judge_paths("in", "out", force, false, true, false), Ok(()));
    }
    assert_eq!(judge_paths("in", "out", false, false, true, true), exists);
    assert_eq!(judge_paths("in", "out", true, false, true, true), Ok(()));
}

#[test]
fn output_is_overwritten_only_with_force() {
    assert_eq!(
        validate_paths("in", "out", false, true, true),
        Err(PathFault::OutputExists("out".to_string()))
    );
    assert_eq!(validate_paths("in", "out", true, true, true), Ok(()));
    assert_eq!(validate_paths("in", "out", false, true, false), Ok(()));
}

#[test]
fn missing_input_is_refused() {
    assert_eq!(
        validate_paths("in", "out", true, false, false),
        Err(PathFault::InputMissing("in".to_string()))
    );
}

#[test]
fn input_as_output_is_refused_however_written() {
    let pairs = [
        ("a", "a"),
        ("a/b", "a//b"),
        ("a/b", "a/./b"),
        ("a/b", "a/b/"),
        ("a/b", "a/b/."),
        ("./a", "./a"),
        ("./a", ".//a"),
        ("/a", "/./a"),
        ("/a", "/a"),
        ("/", "/."),
        ("", ""),
        (".", "./"),
    ];
    for (a, b) in pairs {
        assert_eq!(validate_paths(a, b, true, true, true), Err(PathFault::SamePath));
        assert_eq!(validate_paths(b, a, true, true, true), Err(PathFault::SamePath));
    }
}

#[test]
fn other_paths_are_told_apart() {
    let pairs = [
        ("a", "b"),
        ("a", "./a"),
        ("a", "/a"),
        ("a/c", "a/b/../c"),
        ("a", "A"),
        ("", "."),
        ("/", "."),
        ("", "/"),
        ("..", "."),
        ("a", "a/b"),
    ];
    for (a, b) in pairs {
        assert_eq!(validate_paths(a, b, true, true, true), Ok(()));
        assert_eq!(validate_paths(b, a, true, true, true), Ok(()));
    }
}

#[test]
fn passwords_have_to_match() {
    assert_eq!(confirm_password("secret", "secret"), Ok(()));
    assert_eq!(confirm_password("", ""), Ok(()));
    assert_eq!(confirm_password("secret", "Secret"), Err(Failure::PasswordMismatch));
    assert_eq!(confirm_password("secret", "secret "), Err(Failure::PasswordMismatch));
    assert_eq!(confirm_password("é", "e"), Err(Failure::PasswordMismatch));
}

#[test]
fn temporary_path_is_judged() {
    let lost = Err(PathFault::TempIsInput("a.tmp".to_string()));
    let exists = Err(PathFault::TempExists("a.tmp".to_string()));
    for force in [false, true] {
        assert_eq!(judge_temp("a.tmp", force, true, true), lost);
        assert_eq!(judge_temp("a.tmp", force, true, false), lost);
        assert_eq!(judge_temp("a.tmp", force, false, false), Ok(()));
    }
    assert_eq!(judge_temp("a.tmp", false, false, true), exists);
    assert_eq!(judge_temp("a.tmp", true, false, true), Ok(()));
}

#[test]
fn input_at_the_temporary_path_is_refused_always() {
    for force in [false, true] {
        for input in ["dir/a.tmp", "dir//a.tmp", "dir/./a.tmp"] {
            assert_eq!(
                validate_temp(input, "dir/a", force, true, false),
                Err(PathFault::TempIsInput("dir/a.tmp".to_string()))
            );
        }
        // Another path that leads to the same file.
        assert_eq!(
            validate_temp("link", "a", force, true, true),
            Err(PathFault::TempIsInput("a.tmp".to_string()))
        );
    }
}

#[test]
fn file_at_the_temporary_path_is_given_up_only_with_force() {
    assert_eq!(
        validate_temp("in", "a", false, true, false),
        Err(PathFault::TempExists("a.tmp".to_string()))
    );
    assert_eq!(validate_temp("in", "a", true, true, false), Ok(()));
    assert_eq!(validate_temp("in", "a", false, false, false), Ok(()));
}

#[test]
fn paths_with_other_endings_are_told_apart_on_every_platform() {
    let pairs = [
        ("C:\\a.txt", "C:\\b.txt"),
        ("C:a", "C:b"),
        ("//host/share/a", "//host/share/b"),
        ("dir\\a", "dir/b"),
        ("x:a", "//x/y"),
        ("C:\\dir\\..", "C:\\dir\\a"),
    ];
    for (a, b) in pairs {
        assert_eq!(validate_paths(a, b, false, true, false), Ok(()));
        assert_eq!(validate_paths(b, a, false, true, false), Ok(()));
        assert_eq!(validate_paths(a, a, false, true, false), Err(PathFault::SamePath));
    }
}
