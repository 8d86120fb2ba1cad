use encrpt::cipher::seal_chunk;
use encrpt::decrypt::{decrypt_file, DecryptJob};
use encrpt::encrypt::{encrypt_file, EncryptJob};
use encrpt::failure::{Failure, KdfFault};
use encrpt::header::{encode_header, inspect_file, EncryptedHeader, CHUNK_SIZE, HEADER_LEN};
use encrpt::job::{FileAction, FileEvent};
use encrpt::kdf::derive_key;
use encrpt::secret::drawn;

const SALT: [u8; 16] = [3; 16];
const NONCE: [u8; 12] = [5; 12];

/// A file of the given chunks, at costs that make for a fast test.
fn quick_file(password: &str, chunks: &[&[u8]]) -> Vec<u8> {
    let key = derive_key(password, &SALT, 8, 1, 1).unwrap();
    let mut file = encode_header(&EncryptedHeader {
        salt: &SALT,
        nonce: &NONCE,
        m_cost: 8,
        t_cost: 1,
        p_cost: 1,
    });
    for (i, chunk) in chunks.iter().enumerate() {
        file.extend(seal_chunk(&key, &NONCE, i as u32, chunk).unwrap());
    }
    file
}

/// Runs a job on an input that is read at most `portion` bytes at a time.
fn run_encryption(
    mut job: EncryptJob,
    mut action: FileAction<Vec<u8>>,
    input: &[u8],
    portion: usize,
) -> (Result<(), Failure>, Vec<u8>, usize) {
    let mut at = 0;
    let mut out = Vec::new();
    let mut dots = 0;
    loop {
        let event = match action {
            FileAction::Read(n) => {
                let end = input.len().min(at + portion.min(n));
                let data = input[at..end].to_vec();
                at = end;
                FileEvent::Data(data)
            }
            FileAction::Write(bytes) => {
                out.extend(bytes);
                FileEvent::Done
            }
            FileAction::ShowProgress => {
                assert!(job.holds_key());
                dots += 1;
                FileEvent::Done
            }
            FileAction::Finish(result) => {
                assert!(!job.holds_key());
                return (result, out, dots);
            }
            _ => FileEvent::Done,
        };
        assert!(!job.at_chunk_limit());
        action = job.step(event);
    }
}

fn encrypt(password: &str, input: &[u8], portion: usize) -> Vec<u8> {
    let job = encrypt_file("in", "out", password);
    let (result, out, _) = run_encryption(job, FileAction::OpenInput, input, portion);
    assert_eq!(result, Ok(()));
    out
}

/// Runs a job on `file`. Gives its result, what it wrote, and whether that was put in its place.
fn decrypt(password: &str, file: &[u8]) -> (Result<(), Failure>, Vec<u8>, bool) {
    let mut job = decrypt_file("in", "out", password);
    let mut action: FileAction<Vec<u8>> = FileAction::OpenInput;
    let mut at = 0;
    let mut out = Vec::new();
    let mut placed = false;
    let mut removed = false;
    loop {
        let event = match action {
            FileAction::ReadExact(n) if file.len() - at < n => {
                at = file.len();
                FileEvent::EndOfInput
            }
            FileAction::ReadExact(n) => {
                at += n;
                FileEvent::Data(file[at - n..at].to_vec())
            }
            FileAction::Read(n) => {
                assert!(!job.holds_key());
                let end = file.len().min(at + n);
                FileEvent::Data(file[at..end].to_vec())
            }
            FileAction::Write(bytes) => {
                assert!(!bytes.is_empty());
                out.extend(bytes);
                FileEvent::Done
            }
            FileAction::ShowProgress => {
                assert!(job.holds_key());
                FileEvent::Done
            }
            FileAction::Finalize => {
                placed = true;
                FileEvent::Done
            }
            FileAction::RemoveTemp => {
                removed = true;
                FileEvent::Done
            }
            FileAction::Finish(result) => {
                assert!(!job.holds_key());
                assert_eq!(removed, result.is_err());
                assert_eq!(placed, result.is_ok());
                return (result, out, placed);
            }
            _ => FileEvent::Done,
        };
        assert!(!job.at_chunk_limit());
        action = job.step(event);
    }
}

fn refusal(password: &str, file: &[u8]) -> Failure {
    decrypt(password, file).0.unwrap_err()
}

#[test]
fn file_is_encrypted_and_decrypted() {
    let plaintext = b"attack at dawn".to_vec();
    let file = encrypt("pw", &plaintext, CHUNK_SIZE);
    assert_eq!(file.len(), HEADER_LEN + 20 + plaintext.len() + 20);
    assert_eq!(decrypt("pw", &file), (Ok(()), plaintext, true));
}

#[test]
fn empty_file_is_encrypted_and_decrypted() {
    let file = encrypt("", b"", CHUNK_SIZE);
    assert_eq!(file.len(), HEADER_LEN + 20);
    assert_eq!(decrypt("", &file), (Ok(()), vec![], true));
}

#[test]
fn large_file_goes_in_chunks() {
    let plaintext: Vec<u8> = (0..2 * CHUNK_SIZE + 1).map(|i| (i % 251) as u8).collect();
    let file = encrypt("pw", &plaintext, usize::MAX);
    assert_eq!(file.len(), HEADER_LEN + 4 * 20 + plaintext.len());
    assert_eq!(file[47..51], [0, 0, 1, 0]);
    assert_eq!(decrypt("pw", &file), (Ok(()), plaintext, true));
}

#[test]
fn file_of_one_full_chunk_ends_with_an_empty_one() {
    let plaintext = vec![9; CHUNK_SIZE];
    let file = encrypt("pw", &plaintext, CHUNK_SIZE);
    assert_eq!(file.len(), HEADER_LEN + 20 + CHUNK_SIZE + 20);
    assert_eq!(file[file.len() - 20..file.len() - 16], [0, 0, 0, 0]);
    assert_eq!(decrypt("pw", &file), (Ok(()), plaintext, true));
}

#[test]
fn short_reads_make_small_chunks() {
    let plaintext = b"portions of three".to_vec();
    let job = encrypt_file("in", "out", "pw");
    let (result, file, dots) = run_encryption(job, FileAction::OpenInput, &plaintext, 3);
    assert_eq!(result, Ok(()));
    assert_eq!(dots, 7);
    assert_eq!(file.len(), HEADER_LEN + plaintext.len() + 7 * 20);
    assert_eq!(decrypt("pw", &file), (Ok(()), plaintext, true));
}

#[test]
fn wrong_password_is_refused() {
    let file = encrypt("pw", b"attack at dawn", CHUNK_SIZE);
    assert_eq!(decrypt("pW", &file), (Err(Failure::Authentication), vec![], false));
}

#[test]
fn default_costs_are_named_in_the_file() {
    let file = encrypt("pw", b"", CHUNK_SIZE);
    assert_eq!(&file[..7], b"ENCRPT\x02");
    assert_eq!(inspect_file(&file), Ok((2, 65536, 3, 1)));
}

#[test]
fn salt_and_nonce_are_drawn_anew() {
    let (first, second) = (encrypt("pw", b"x", 1), encrypt("pw", b"x", 1));
    assert_ne!(first[7..23], second[7..23]);
    assert_ne!(first[23..35], second[23..35]);
    assert_ne!(first[7..23], [0; 16]);
    assert_ne!(first[23..35], [0; 12]);
    assert_ne!(first[47..], second[47..]);
}

#[test]
fn given_salt_and_nonce_fix_the_file() {
    let mut job = encrypt_file("in", "out", "pw");
    assert!(matches!(job.step(FileEvent::Done), FileAction::CreateTemp { replace: false }));
    let action = job.begin(&SALT, &NONCE);
    let (result, file, dots) = run_encryption(job, action, b"hello world", 6);
    assert_eq!((result, dots), (Ok(()), 3));
    let key = derive_key("pw", &SALT, 65536, 3, 1).unwrap();
    let mut expected = encode_header(&EncryptedHeader {
        salt: &SALT,
        nonce: &NONCE,
        m_cost: 65536,
        t_cost: 3,
        p_cost: 1,
    });
    for (i, chunk) in ["hello ", "world", ""].iter().enumerate() {
        expected.extend(seal_chunk(&key, &NONCE, i as u32, chunk.as_bytes()).unwrap());
    }
    assert_eq!(file, expected);
}

#[test]
fn costs_are_taken_from_the_file() {
    let file = quick_file("pw", &[b"old ", b"file", b""]);
    assert_eq!(decrypt("pw", &file), (Ok(()), b"old file".to_vec(), true));
}

#[test]
fn bytes_after_the_last_chunk_are_refused() {
    let file = quick_file("pw", &[b"data", b""]);
    for more in [&b"x"[..], b"something else", &[0; 20]] {
        let mut grown = file.clone();
        grown.extend_from_slice(more);
        assert_eq!(decrypt("pw", &grown), (Err(Failure::TrailingData), b"data".to_vec(), false));
    }
    let mut twice = file.clone();
    twice.extend_from_slice(&file[47..]);
    assert_eq!(refusal("pw", &twice), Failure::TrailingData);
    assert_eq!(decrypt("pw", &file), (Ok(()), b"data".to_vec(), true));
}

#[test]
fn truncation_is_noticed_everywhere() {
    let file = quick_file("pw", &[b"some", b"data", b""]);
    for k in 0..file.len() {
        let expected = if k < HEADER_LEN {
            Failure::HeaderTooShort
        } else if (k - HEADER_LEN) % 24 < 4 {
            Failure::MissingFinalChunk
        } else {
            Failure::IncompleteChunk
        };
        assert_eq!(refusal("pw", &file[..k]), expected);
    }
    assert_eq!(decrypt("pw", &file).0, Ok(()));
}

#[test]
fn every_changed_bit_after_the_costs_is_noticed() {
    let file = quick_file("pw", &[b"some", b""]);
    for at in 8 * HEADER_LEN..8 * file.len() {
        let mut changed = file.clone();
        changed[at / 8] ^= 1 << (at % 8);
        assert!(decrypt("pw", &changed).0.is_err());
    }
}

#[test]
fn changed_salt_nonce_or_costs_are_noticed() {
    let file = quick_file("pw", &[b"some", b""]);
    for at in [7, 22, 23, 34] {
        let mut changed = file.clone();
        changed[at] ^= 1;
        assert_eq!(refusal("pw", &changed), Failure::Authentication);
    }
    let mut changed = file.clone();
    changed[38] = 9;
    assert_eq!(refusal("pw", &changed), Failure::Authentication);
    changed = file;
    changed[42] = 2;
    assert_eq!(refusal("pw", &changed), Failure::Authentication);
}

#[test]
fn moved_chunks_are_noticed() {
    let file = quick_file("pw", &[b"some", b"data", b""]);
    let (first, second) = (47..71, 71..95);
    let mut swapped = file[..47].to_vec();
    swapped.extend_from_slice(&file[second.clone()]);
    swapped.extend_from_slice(&file[first]);
    swapped.extend_from_slice(&file[95..]);
    assert_eq!(refusal("pw", &swapped), Failure::Authentication);
    let mut left_out = file[..47].to_vec();
    left_out.extend_from_slice(&file[second]);
    left_out.extend_from_slice(&file[95..]);
    assert_eq!(refusal("pw", &left_out), Failure::Authentication);
    let mut ended_early = file[..71].to_vec();
    ended_early.extend_from_slice(&file[95..]);
    assert_eq!(refusal("pw", &ended_early), Failure::Authentication);
}

#[test]
fn late_tampering_leaves_nothing_in_place() {
    let mut file = quick_file("pw", &[b"some", b"data", b""]);
    file[80] ^= 1;
    assert_eq!(decrypt("pw", &file), (Err(Failure::Authentication), b"some".to_vec(), false));
}

#[test]
fn oversized_chunk_is_refused_before_it_is_read() {
    let mut file = quick_file("pw", &[]);
    file.extend_from_slice(&[1, 0, 1, 0]);
    assert_eq!(refusal("pw", &file), Failure::InvalidChunkSize);
    let end = file.len();
    file[end - 4..].copy_from_slice(&[0, 0, 1, 0]);
    assert_eq!(refusal("pw", &file), Failure::IncompleteChunk);
}

#[test]
fn foreign_files_are_refused() {
    let mut file = quick_file("pw", &[b""]);
    file[6] = 1;
    assert_eq!(refusal("pw", &file), Failure::UnsupportedVersion(1));
    file[5] = b'!';
    assert_eq!(refusal("pw", &file), Failure::BadMagic(*b"ENCRP!"));
    assert_eq!(refusal("pw", b""), Failure::HeaderTooShort);
}

#[test]
fn unusable_costs_in_the_file_are_refused() {
    let file = quick_file("pw", &[b""]);
    for (at, value, fault) in [
        (38, 7, KdfFault::MemoryTooLittle),
        (42, 0, KdfFault::TimeTooSmall),
        (46, 0, KdfFault::ThreadsTooFew),
        (46, 2, KdfFault::MemoryTooLittle),
        (43, 0x20, KdfFault::MemoryTooLittle),
    ] {
        let mut changed = file.clone();
        changed[at] = value;
        assert_eq!(refusal("pw", &changed), Failure::BadParameters(fault));
    }
}

#[test]
fn job_names_its_files() {
    let job = encrypt_file("plain.txt", "dir/secret.enc", "pw");
    let paths = job.paths();
    assert_eq!((paths.input, paths.output), ("plain.txt", "dir/secret.enc"));
    assert_eq!(paths.temp, "dir/secret.enc.tmp");
    let job = decrypt_file("secret.enc", "plain.txt", "pw");
    let paths = job.paths();
    assert_eq!((paths.input, paths.output), ("secret.enc", "plain.txt"));
    assert_eq!(paths.temp, "plain.txt.tmp");
}

#[test]
fn encryption_does_not_start_without_its_files() {
    let mut job = encrypt_file("in", "out", "pw");
    assert!(matches!(
        job.step(FileEvent::Failed),
        FileAction::Finish(Err(Failure::OpenInput))
    ));
    let mut job = encrypt_file("in", "out", "pw");
    job.step(FileEvent::Done);
    assert!(matches!(
        job.step(FileEvent::Failed),
        FileAction::Finish(Err(Failure::CreateTemp))
    ));
}

#[test]
fn decryption_does_not_start_without_its_files() {
    let mut job = decrypt_file("in", "out", "pw");
    assert!(matches!(
        job.step(FileEvent::Failed),
        FileAction::Finish(Err(Failure::OpenInput))
    ));
    let mut job = decrypt_file("in", "out", "pw");
    job.step(FileEvent::Done);
    assert!(matches!(
        job.step(FileEvent::Failed),
        FileAction::Finish(Err(Failure::CreateTemp))
    ));
}

/// Lets the encryption of two bytes fail at the given step after the temporary file is there.
fn break_encryption(after: usize) -> (bool, Failure) {
    let mut job = encrypt_file("in", "out", "pw");
    job.step(FileEvent::Done);
    let mut action = job.begin(&SALT, &NONCE);
    let mut left = vec![vec![], vec![1, 2]];
    for _ in 0..after {
        let event = match action {
            FileAction::Read(_) => FileEvent::Data(left.pop().unwrap_or_default()),
            _ => FileEvent::Done,
        };
        action = job.step(event);
    }
    let finalizing = matches!(action, FileAction::Finalize);
    action = job.step(FileEvent::Failed);
    assert!(!job.holds_key());
    let removed = matches!(action, FileAction::RemoveTemp);
    if removed {
        action = job.step(FileEvent::Done);
    }
    assert_eq!(removed, !finalizing);
    match action {
        FileAction::Finish(Err(failure)) => (removed, failure),
        _ => panic!("the job goes on"),
    }
}

#[test]
fn encryption_without_a_header_is_cleaned_up() {
    assert_eq!(break_encryption(0), (true, Failure::Io));
}

#[test]
fn encryption_with_a_failed_read_is_cleaned_up() {
    assert_eq!(break_encryption(1), (true, Failure::Io));
    assert_eq!(break_encryption(4), (true, Failure::Io));
}

#[test]
fn encryption_with_a_failed_write_is_cleaned_up() {
    assert_eq!(break_encryption(2), (true, Failure::Io));
    assert_eq!(break_encryption(5), (true, Failure::Io));
}

#[test]
fn encryption_with_failed_output_to_the_user_is_cleaned_up() {
    assert_eq!(break_encryption(3), (true, Failure::Io));
    assert_eq!(break_encryption(6), (true, Failure::Io));
}

#[test]
fn finished_encryption_that_cannot_be_placed_is_kept() {
    assert_eq!(break_encryption(7), (false, Failure::FinalizeEncrypted));
}

/// Lets the decryption of a file of one chunk fail at the given step after the temporary file is
/// there.
fn break_decryption(after: usize) -> (bool, Failure) {
    let file = quick_file("pw", &[b"ab", b""]);
    let mut at = 0;
    let mut job: DecryptJob = decrypt_file("in", "out", "pw");
    job.step(FileEvent::Done);
    let mut action = job.step(FileEvent::Done);
    for _ in 0..after {
        let event = match action {
            FileAction::ReadExact(n) => {
                at += n;
                FileEvent::Data(file[at - n..at].to_vec())
            }
            FileAction::Read(_) => FileEvent::Data(vec![]),
            _ => FileEvent::Done,
        };
        action = job.step(event);
    }
    let finalizing = matches!(action, FileAction::Finalize);
    action = job.step(FileEvent::Failed);
    assert!(!job.holds_key());
    let removed = matches!(action, FileAction::RemoveTemp);
    if removed {
        action = job.step(FileEvent::Failed);
    }
    assert_eq!(removed, !finalizing);
    match action {
        FileAction::Finish(Err(failure)) => (removed, failure),
        _ => panic!("the job goes on"),
    }
}

#[test]
fn broken_decryption_is_cleaned_up() {
    let expected = [
        Failure::HeaderTooShort,
        Failure::ChunkLength,
        Failure::IncompleteChunk,
        Failure::Io,
        Failure::Io,
        Failure::ChunkLength,
        Failure::IncompleteChunk,
        Failure::Io,
        Failure::Io,
    ];
    for (after, failure) in expected.iter().enumerate() {
        assert_eq!(break_decryption(after), (true, *failure));
    }
    assert_eq!(break_decryption(9), (false, Failure::FinalizeDecrypted));
}

#[test]
fn key_is_wiped_on_refusal() {
    let mut file = quick_file("pw", &[b"ab", b""]);
    file[60] ^= 1;
    let mut job = decrypt_file("in", "out", "pw");
    job.step(FileEvent::Done);
    job.step(FileEvent::Done);
    assert!(!job.holds_key());
    job.step(FileEvent::Data(file[..47].to_vec()));
    assert!(job.holds_key());
    job.step(FileEvent::Data(file[47..51].to_vec()));
    assert!(job.holds_key());
    let action = job.step(FileEvent::Data(file[51..69].to_vec()));
    assert!(matches!(action, FileAction::RemoveTemp));
    assert!(!job.holds_key());
}

#[test]
fn bytes_count_as_drawn_only_when_the_source_answers() {
    assert_eq!(drawn(Ok(()), vec![1, 2, 3]), Some(vec![1, 2, 3]));
    assert_eq!(drawn(Ok(()), vec![]), Some(vec![]));
    let fault = rand::Error::from(std::num::NonZeroU32::new(5).unwrap());
    assert_eq!(drawn(Err(fault), vec![1, 2, 3]), None);
}

#[test]
fn jobs_start_with_the_input() {
    let job = encrypt_file("in", "out", "pw");
    assert!(matches!(job.first_action(), FileAction::OpenInput));
    let job = decrypt_file("in", "out", "pw");
    assert!(matches!(job.first_action(), FileAction::OpenInput));
}

#[test]
fn temporary_file_is_replaced_only_on_request() {
    let mut job = encrypt_file("in", "out", "pw");
    job.replace_temp();
    assert!(matches!(job.step(FileEvent::Done), FileAction::CreateTemp { replace: true }));
    let mut job = decrypt_file("in", "out", "pw");
    assert!(matches!(job.step(FileEvent::Done), FileAction::CreateTemp { replace: false }));
    let mut job = decrypt_file("in", "out", "pw");
    job.replace_temp();
    assert!(matches!(job.step(FileEvent::Done), FileAction::CreateTemp { replace: true }));
}

#[test]
fn length_follows_from_the_length_of_the_input() {
    for (n, chunks) in [(65536, 1), (65537, 2)] {
        let file = encrypt("pw", &vec![7; n], usize::MAX);
        assert_eq!(file.len(), 47 + n + 20 * (chunks + 1));
    }
}
