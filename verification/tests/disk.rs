use std::collections::BTreeMap;

use encrpt::cipher::seal_chunk;
use encrpt::decrypt::decrypt_file;
use encrpt::encrypt::encrypt_file;
use encrpt::failure::Failure;
use encrpt::header::{encode_header, EncryptedHeader};
use encrpt::job::{FileAction, FileEvent};
use encrpt::kdf::derive_key;

#[derive(Clone, Debug, PartialEq)]
struct Disk {
    files: BTreeMap<String, Vec<u8>>,
    at: usize,
}

fn disk(files: &[(&str, &[u8])]) -> Disk {
    Disk {
        files: files.iter().map(|(name, data)| (name.to_string(), data.to_vec())).collect(),
        at: 0,
    }
}

impl Disk {
    fn perform(
        &mut self,
        input: &str,
        output: &str,
        temp: &str,
        action: FileAction<Vec<u8>>,
    ) -> FileEvent<Vec<u8>> {
        match action {
            FileAction::OpenInput if !self.files.contains_key(input) => FileEvent::Failed,
            FileAction::OpenInput => {
                self.at = 0;
                FileEvent::Done
            }
            FileAction::CreateTemp { replace } if self.files.contains_key(temp) && !replace => {
                FileEvent::Failed
            }
            FileAction::CreateTemp { .. } => {
                self.files.insert(temp.to_string(), vec![]);
                FileEvent::Done
            }
            FileAction::Read(n) => {
                let end = self.files[input].len().min(self.at + n);
                let data = self.files[input][self.at..end].to_vec();
                self.at = end;
                FileEvent::Data(data)
            }
            FileAction::ReadExact(n) if self.files[input].len() - self.at < n => {
                FileEvent::EndOfInput
            }
            FileAction::ReadExact(n) => {
                self.at += n;
                FileEvent::Data(self.files[input][self.at - n..self.at].to_vec())
            }
            FileAction::Write(bytes) => {
                self.files.get_mut(temp).unwrap().extend(bytes);
                FileEvent::Done
            }
            FileAction::RemoveTemp => {
                self.files.remove(temp);
                FileEvent::Done
            }
            FileAction::Finalize => {
                let data = self.files.remove(temp).unwrap();
                self.files.insert(output.to_string(), data);
                FileEvent::Done
            }
            _ => FileEvent::Done,
        }
    }

    fn encrypt(&mut self, input: &str, output: &str, password: &str) -> Result<(), Failure> {
        let mut job = encrypt_file(input, output, password);
        let mut action = job.first_action();
        loop {
            if let FileAction::Finish(result) = action {
                return result;
            }
            let temp = job.paths().temp.clone();
            action = job.step(self.perform(input, output, &temp, action));
        }
    }

    fn decrypt(
        &mut self,
        input: &str,
        output: &str,
        password: &str,
        replace: bool,
    ) -> Result<(), Failure> {
        let mut job = decrypt_file(input, output, password);
        if replace {
            job.replace_temp();
        }
        let mut action = job.first_action();
        loop {
            if let FileAction::Finish(result) = action {
                return result;
            }
            let temp = job.paths().temp.clone();
            action = job.step(self.perform(input, output, &temp, action));
        }
    }
}

fn quick_file() -> Vec<u8> {
    let (salt, nonce) = ([3; 16], [5; 12]);
    let key = derive_key("pw", &salt, 8, 1, 1).unwrap();
    let mut file = encode_header(&EncryptedHeader {
        salt: &salt,
        nonce: &nonce,
        m_cost: 8,
        t_cost: 1,
        p_cost: 1,
    });
    file.extend(seal_chunk(&key, &nonce, 0, b"data").unwrap());
    file.extend(seal_chunk(&key, &nonce, 1, b"").unwrap());
    file
}

#[test]
fn round_trip_through_two_other_files() {
    let mut d = disk(&[("plain", b"attack at dawn"), ("other", b"x")]);
    assert_eq!(d.encrypt("plain", "locked", "pw"), Ok(()));
    let locked = d.files["locked"].clone();
    assert_eq!(d.decrypt("locked", "again", "pw", false), Ok(()));
    assert_eq!(d.files["again"], b"attack at dawn");
    assert_eq!(d.files["locked"], locked);
    assert_eq!(d.files.len(), 4);
}

#[test]
fn round_trip_in_place() {
    let before = disk(&[("plain", b"attack at dawn"), ("other", b"x")]);
    let mut d = before.clone();
    assert_eq!(d.encrypt("plain", "plain", "pw"), Ok(()));
    assert_ne!(d.files["plain"], b"attack at dawn");
    assert_eq!(d.decrypt("plain", "plain", "pw", false), Ok(()));
    assert_eq!(d.files, before.files);
}

#[test]
fn input_in_the_place_of_the_temporary_file_is_kept() {
    let before = disk(&[("a.tmp", &quick_file())]);
    let mut d = before.clone();
    assert_eq!(d.decrypt("a.tmp", "a", "pw", false), Err(Failure::CreateTemp));
    assert_eq!(d, before);
    assert_eq!(d.encrypt("a.tmp", "a", "pw"), Err(Failure::CreateTemp));
    assert_eq!(d, before);
}

#[test]
fn other_file_in_the_place_of_the_temporary_file_is_kept() {
    let before = disk(&[("in", &quick_file()), ("out.tmp", b"mine")]);
    let mut d = before.clone();
    assert_eq!(d.encrypt("in", "out", "pw"), Err(Failure::CreateTemp));
    assert_eq!(d.decrypt("in", "out", "pw", false), Err(Failure::CreateTemp));
    assert_eq!(d, before);
    assert_eq!(d.decrypt("in", "out", "pw", true), Ok(()));
    assert_eq!(d.files["out"], b"data");
    assert!(!d.files.contains_key("out.tmp"));
}

#[test]
fn missing_input_changes_nothing() {
    let before = disk(&[("out", b"old")]);
    let mut d = before.clone();
    assert_eq!(d.encrypt("in", "out", "pw"), Err(Failure::OpenInput));
    assert_eq!(d.decrypt("in", "out", "pw", false), Err(Failure::OpenInput));
    assert_eq!(d, before);
}

#[test]
fn refused_file_leaves_the_output_alone() {
    let file = quick_file();
    let mut flipped = file.clone();
    flipped[80] ^= 4;
    let mut grown = file.clone();
    grown.push(0);
    let cases = [
        ("pW", file.clone(), Failure::Authentication),
        ("pw", flipped, Failure::Authentication),
        ("pw", grown, Failure::TrailingData),
        ("pw", file[..71].to_vec(), Failure::MissingFinalChunk),
        ("pw", file[..20].to_vec(), Failure::HeaderTooShort),
    ];
    for (password, data, failure) in cases {
        let before = disk(&[("in", &data), ("out", b"old")]);
        let mut d = before.clone();
        assert_eq!(d.decrypt("in", "out", password, false), Err(failure));
        assert_eq!(d.files, before.files);
    }
}
