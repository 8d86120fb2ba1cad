//! What the jobs do to the files on a disk.
//!
//! The disk here is a model: each path has at most one file, no two paths lead to the same one, and
//! nothing fails but what is said to.

use vstd::prelude::*;
use vstd::utf8;

use crate::bytes;
use crate::cipher::TAG_LEN;
use crate::container;
use crate::decrypt;
use crate::decrypt::{DecryptStage, DecryptState};
use crate::encrypt;
use crate::encrypt::{EncryptStage, EncryptState};
use crate::failure::Failure;
use crate::header;
use crate::header::{
    HeaderView, CHUNK_SIZE, DEFAULT_M_COST, DEFAULT_P_COST, DEFAULT_T_COST, HEADER_LEN, NONCE_LEN,
    SALT_LEN,
};
use crate::job::{FileAction, FileEvent, PathsView};
use crate::kdf;
use crate::tamper;
use crate::tamper::Sealing;

verus! {

/// The files by their paths, and how far the input that is open was read.
#[verifier::ext_equal]
pub struct Disk {
    pub files: Map<Seq<char>, Seq<u8>>,
    pub at: int,
}

impl Disk {
    /// What is left to be read of the input.
    pub open spec fn left(self, paths: PathsView) -> Seq<u8> {
        self.files[paths.input].skip(self.at)
    }

    /// What `action` does, and how it turns out.
    pub open spec fn perform(self, paths: PathsView, action: FileAction<Seq<u8>>) -> (
        Disk,
        FileEvent<Seq<u8>>,
    ) {
        let files = self.files;
        match action {
            FileAction::OpenInput => if files.contains_key(paths.input) {
                (Disk { at: 0, ..self }, FileEvent::Done)
            } else {
                (self, FileEvent::Failed)
            },
            FileAction::CreateTemp { replace } => if files.contains_key(paths.temp) && !replace {
                (self, FileEvent::Failed)
            } else {
                (
                    Disk { files: files.insert(paths.temp, Seq::empty()), ..self },
                    FileEvent::Done,
                )
            },
            FileAction::Read(n) => {
                let left = self.left(paths);
                let k = if left.len() < n {
                    left.len() as int
                } else {
                    n as int
                };
                (Disk { at: self.at + k, ..self }, FileEvent::Data(left.take(k)))
            },
            FileAction::ReadExact(n) => {
                let left = self.left(paths);
                if left.len() >= n {
                    (Disk { at: self.at + n, ..self }, FileEvent::Data(left.take(n as int)))
                } else {
                    (self, FileEvent::EndOfInput)
                }
            },
            FileAction::Write(b) => (
                Disk { files: files.insert(paths.temp, files[paths.temp] + b), ..self },
                FileEvent::Done,
            ),
            FileAction::RemoveTemp => (
                Disk { files: files.remove(paths.temp), ..self },
                FileEvent::Done,
            ),
            FileAction::Finalize => (
                Disk {
                    files: files.insert(paths.output, files[paths.temp]).remove(paths.temp),
                    ..self
                },
                FileEvent::Done,
            ),
            FileAction::ShowProgress | FileAction::Finish(_) => (self, FileEvent::Done),
        }
    }
}

/// What becomes of the disk and of a job in `steps` steps, or sooner if the job can go no further.
pub open spec fn decrypt_on(
    d: Disk,
    s: DecryptState,
    action: FileAction<Seq<u8>>,
    steps: nat,
) -> (Disk, DecryptState, FileAction<Seq<u8>>)
    decreases steps,
{
    let (e, event) = d.perform(s.paths, action);
    if steps == 0 || !s.may_take(event) {
        (d, s, action)
    } else {
        let (t, then) = s.next(event);
        decrypt_on(e, t, then, (steps - 1) as nat)
    }
}

/// What becomes of the disk and of a job in `steps` steps, or sooner if the job can go no further,
/// where the random source gives `fresh`.
pub open spec fn encrypt_on(
    d: Disk,
    s: EncryptState,
    action: FileAction<Seq<u8>>,
    fresh: (Seq<u8>, Seq<u8>),
    steps: nat,
) -> (Disk, EncryptState, FileAction<Seq<u8>>)
    decreases steps,
{
    let (e, event) = d.perform(s.paths, action);
    if steps == 0 || !s.may_take(event) {
        (d, s, action)
    } else {
        let (t, then) = s.next(event, Some(fresh));
        encrypt_on(e, t, then, fresh, (steps - 1) as nat)
    }
}

/// The input is there, and the temporary file is another and in nobody's way.
pub open spec fn is_ready(d: Disk, paths: PathsView, replace: bool) -> bool {
    &&& paths == PathsView::of(paths.input, paths.output)
    &&& d.files.contains_key(paths.input)
    &&& paths.temp != paths.input
    &&& replace || !d.files.contains_key(paths.temp)
}

proof fn lemma_temp_is_not_output(paths: PathsView)
    requires
        paths == PathsView::of(paths.input, paths.output),
    ensures
        paths.temp != paths.output,
{
    reveal_strlit(".tmp");
    assert(paths.temp.len() == paths.output.len() + 4);
}

/// `d` is `old` with all of `written` in the temporary file.
spec fn holds(d: Disk, old: Disk, paths: PathsView, written: Seq<u8>) -> bool {
    d.files == old.files.insert(paths.temp, written)
}

/// `d` is `old` with all of `written` in the temporary file but for what `action` is to write.
spec fn will_hold(
    d: Disk,
    old: Disk,
    paths: PathsView,
    written: Seq<u8>,
    action: FileAction<Seq<u8>>,
) -> bool {
    &&& action matches FileAction::Write(b) && written == d.files[paths.temp] + b
    &&& d.files == old.files.insert(paths.temp, d.files[paths.temp])
}

/// The decrypting job is about to do `action` on `d`, which was `old` at its start.
spec fn decrypting(old: Disk, d: Disk, s: DecryptState, action: FileAction<Seq<u8>>) -> bool {
    &&& is_ready(old, s.paths, s.replace)
    &&& 0 <= d.at <= old.files[s.paths.input].len()
    &&& match s.stage {
        DecryptStage::Opening => {
            &&& d.files == old.files
            &&& d.at == 0
            &&& s.written == Seq::<u8>::empty()
            &&& action is OpenInput
        },
        DecryptStage::Creating => {
            &&& d.files == old.files
            &&& d.at == 0
            &&& s.written == Seq::<u8>::empty()
            &&& action == FileAction::<Seq<u8>>::CreateTemp { replace: s.replace }
        },
        DecryptStage::ReadingHeader => {
            &&& holds(d, old, s.paths, s.written)
            &&& d.at == 0
            &&& action == FileAction::<Seq<u8>>::ReadExact(HEADER_LEN)
        },
        DecryptStage::ReadingLength => {
            &&& holds(d, old, s.paths, s.written)
            &&& d.at > 0
            &&& action == FileAction::<Seq<u8>>::ReadExact(4)
        },
        DecryptStage::ReadingChunk { len } => {
            &&& holds(d, old, s.paths, s.written)
            &&& d.at > 0
            &&& len <= CHUNK_SIZE
            &&& action == FileAction::<Seq<u8>>::ReadExact((len + TAG_LEN) as usize)
        },
        DecryptStage::Writing { .. } => {
            will_hold(d, old, s.paths, s.written, action) && d.at > 0
        },
        DecryptStage::Showing { .. } => {
            holds(d, old, s.paths, s.written) && action is ShowProgress && d.at > 0
        },
        DecryptStage::ReadingEnd => holds(d, old, s.paths, s.written) && action is Read,
        DecryptStage::Finalizing => holds(d, old, s.paths, s.written) && action is Finalize,
        DecryptStage::Removing(_) => {
            &&& d.files == old.files.insert(s.paths.temp, d.files[s.paths.temp])
            &&& action is RemoveTemp
        },
        DecryptStage::Finished(r) => {
            &&& action == FileAction::<Seq<u8>>::Finish(r)
            &&& d.files == if r is Ok {
                old.files.insert(s.paths.output, s.written).remove(s.paths.temp)
            } else {
                old.files.remove(s.paths.temp)
            }
        },
    }
}

#[verifier::rlimit(40)]
proof fn lemma_decrypt_step(old: Disk, d: Disk, s: DecryptState, action: FileAction<Seq<u8>>)
    requires
        decrypting(old, d, s, action),
        s.stage !is Finished,
    ensures
        ({
            let (e, event) = d.perform(s.paths, action);
            let (t, then) = s.next(event);
            let left = old.files[s.paths.input].skip(d.at);
            &&& decrypt::answer(action, left) == (event, old.files[s.paths.input].skip(e.at))
            &&& decrypting(old, e, t, then)
        }),
{
    lemma_temp_is_not_output(s.paths);
    let file = old.files[s.paths.input];
    let left = file.skip(d.at);
    let (e, event) = d.perform(s.paths, action);
    let (t, then) = s.next(event);
    match action {
        FileAction::ReadExact(n) => {
            assert(d.left(s.paths) == left);
            if s.stage is ReadingLength && left.len() >= 4 {
                bytes::bytes_round_trip(left.take(4));
            }
            if left.len() >= n {
                assert(left.skip(n as int) =~= file.skip(e.at));
            }
        },
        FileAction::Read(n) => {
            assert(d.left(s.paths) == left);
            assert(left.skip(e.at - d.at) =~= file.skip(e.at));
        },
        FileAction::Write(b) => {
            assert(e.files =~= old.files.insert(s.paths.temp, s.written));
        },
        FileAction::RemoveTemp => {
            assert(e.files =~= old.files.remove(s.paths.temp));
        },
        FileAction::Finalize => {
            assert(e.files =~= old.files.insert(s.paths.output, s.written).remove(s.paths.temp));
        },
        _ => {},
    }
    if t.stage is Writing || t.stage is Removing {
        assert(e.files =~= old.files.insert(s.paths.temp, e.files[s.paths.temp]));
    }
}

proof fn lemma_decrypt_on(
    old: Disk,
    d: Disk,
    s: DecryptState,
    action: FileAction<Seq<u8>>,
    steps: nat,
)
    requires
        decrypting(old, d, s, action),
    ensures
        ({
            let (e, t, then) = decrypt_on(d, s, action, steps);
            &&& (t, then) == decrypt::run(s, action, old.files[s.paths.input].skip(d.at), steps)
            &&& decrypting(old, e, t, then)
            &&& t.paths == s.paths
        }),
    decreases steps,
{
    if steps > 0 && s.stage !is Finished {
        lemma_decrypt_step(old, d, s, action);
        let (e, event) = d.perform(s.paths, action);
        if s.may_take(event) {
            let (t, then) = s.next(event);
            lemma_decrypt_on(old, e, t, then, (steps - 1) as nat);
        }
    }
}

/// Where nothing fails, decryption puts the plaintext in the place of the output and changes no
/// other file; a file that is refused, with the failure that it deserves, changes nothing at all. The
/// temporary file is gone either way. The output may be the input. What keeps the job from its end is
/// exactly a file of more chunks than an index of 32 bits can count, all of which open, and then too
/// nothing but the temporary file is changed.
#[verifier::rlimit(40)]
pub proof fn decrypts_on_disk(d: Disk, s: DecryptState, steps: nat)
    requires
        s == DecryptState::start(s.paths, s.password, s.replace),
        is_ready(d, s.paths, s.replace),
        steps >= 4 * d.files[s.paths.input].len() + 10,
    ensures
        ({
            let file = d.files[s.paths.input];
            let (e, t, action) = decrypt_on(d, s, FileAction::OpenInput, steps);
            if container::file_outruns_index(s.password, file) {
                &&& t.at_limit()
                &&& file.len() >= HEADER_LEN
                &&& container::chunk_count(file.skip(HEADER_LEN as int)) > u32::MAX
                &&& e.files.remove(s.paths.temp) == d.files.remove(s.paths.temp)
            } else {
                match container::read_file(s.password, file) {
                    Ok(plaintext) => {
                        &&& action == FileAction::<Seq<u8>>::Finish(Ok(()))
                        &&& e.files == d.files.insert(s.paths.output, plaintext).remove(
                            s.paths.temp,
                        )
                    },
                    Err(failure) => {
                        &&& action == FileAction::<Seq<u8>>::Finish(Err(failure))
                        &&& e.files == d.files.remove(s.paths.temp)
                    },
                }
            }
        }),
{
    let file = d.files[s.paths.input];
    let start = Disk { at: 0, ..d };
    decrypt::decrypts_what_can_be_read(s, file, steps);
    lemma_decrypt_on(start, start, s, FileAction::OpenInput, steps);
    assert(file.skip(0) =~= file);
    assert(decrypt_on(d, s, FileAction::OpenInput, steps) == decrypt_on(
        start,
        s,
        FileAction::OpenInput,
        steps,
    ));
    let (e, t, action) = decrypt_on(start, s, FileAction::OpenInput, steps);
    assert(e.files.remove(s.paths.temp) =~= d.files.remove(s.paths.temp) || !t.at_limit());
}

/// The encrypting job is about to do `action` on `d`, which was `old` at its start.
spec fn encrypting(old: Disk, d: Disk, s: EncryptState, action: FileAction<Seq<u8>>) -> bool {
    &&& is_ready(old, s.paths, s.replace)
    &&& 0 <= d.at <= old.files[s.paths.input].len()
    &&& match s.stage {
        EncryptStage::Opening => d.files == old.files && d.at == 0 && action is OpenInput,
        EncryptStage::Creating => {
            &&& d.files == old.files
            &&& d.at == 0
            &&& action == FileAction::<Seq<u8>>::CreateTemp { replace: s.replace }
        },
        EncryptStage::WritingHeader | EncryptStage::Writing { .. } => {
            will_hold(d, old, s.paths, s.written, action)
        },
        EncryptStage::Reading => {
            &&& holds(d, old, s.paths, s.written)
            &&& action == FileAction::<Seq<u8>>::Read(CHUNK_SIZE)
        },
        EncryptStage::Showing { .. } => holds(d, old, s.paths, s.written) && action
            is ShowProgress,
        EncryptStage::Finalizing => holds(d, old, s.paths, s.written) && action is Finalize,
        EncryptStage::Removing(_) => {
            &&& d.files == old.files.insert(s.paths.temp, d.files[s.paths.temp])
            &&& action is RemoveTemp
        },
        EncryptStage::Finished(r) => {
            &&& action == FileAction::<Seq<u8>>::Finish(r)
            &&& d.files == if r is Ok {
                old.files.insert(s.paths.output, s.written).remove(s.paths.temp)
            } else {
                old.files.remove(s.paths.temp)
            }
        },
    }
}

#[verifier::rlimit(40)]
proof fn lemma_encrypt_step(
    old: Disk,
    d: Disk,
    s: EncryptState,
    action: FileAction<Seq<u8>>,
    fresh: (Seq<u8>, Seq<u8>),
)
    requires
        encrypting(old, d, s, action),
        s.stage !is Finished,
    ensures
        ({
            let (e, event) = d.perform(s.paths, action);
            let (t, then) = s.next(event, Some(fresh));
            let file = old.files[s.paths.input];
            &&& encrypt::answer(action, encrypt::portions(file.skip(d.at))) == (
                event,
                encrypt::portions(file.skip(e.at)),
            )
            &&& encrypting(old, e, t, then)
        }),
{
    lemma_temp_is_not_output(s.paths);
    let file = old.files[s.paths.input];
    let left = file.skip(d.at);
    let (e, event) = d.perform(s.paths, action);
    let (t, then) = s.next(event, Some(fresh));
    match action {
        FileAction::CreateTemp { .. } => {
            let none = Seq::<u8>::empty();
            assert(none + t.written =~= t.written);
        },
        FileAction::Read(n) => {
            assert(d.left(s.paths) == left);
            assert(left.skip(e.at - d.at) =~= file.skip(e.at));
            let all = encrypt::portions(left);
            if left.len() > 0 {
                assert(all.drop_first() =~= encrypt::portions(file.skip(e.at)));
            } else {
                assert(left.take(0) =~= Seq::empty());
            }
        },
        FileAction::Write(b) => {
            assert(e.files =~= old.files.insert(s.paths.temp, s.written));
        },
        FileAction::RemoveTemp => {
            assert(e.files =~= old.files.remove(s.paths.temp));
        },
        FileAction::Finalize => {
            assert(e.files =~= old.files.insert(s.paths.output, s.written).remove(s.paths.temp));
        },
        _ => {},
    }
    if t.stage is WritingHeader || t.stage is Writing || t.stage is Removing {
        assert(e.files =~= old.files.insert(s.paths.temp, e.files[s.paths.temp]));
    }
}

proof fn lemma_encrypt_on(
    old: Disk,
    d: Disk,
    s: EncryptState,
    action: FileAction<Seq<u8>>,
    fresh: (Seq<u8>, Seq<u8>),
    steps: nat,
)
    requires
        encrypting(old, d, s, action),
    ensures
        ({
            let (e, t, then) = encrypt_on(d, s, action, fresh, steps);
            let chunks = encrypt::portions(old.files[s.paths.input].skip(d.at));
            &&& (t, then) == encrypt::run(s, action, fresh, chunks, steps)
            &&& encrypting(old, e, t, then)
            &&& t.paths == s.paths
        }),
    decreases steps,
{
    if steps > 0 && s.stage !is Finished {
        lemma_encrypt_step(old, d, s, action, fresh);
        let (e, event) = d.perform(s.paths, action);
        if s.may_take(event) {
            let (t, then) = s.next(event, Some(fresh));
            lemma_encrypt_on(old, e, t, then, fresh, (steps - 1) as nat);
        }
    }
}

/// What encryption asks of a file, a password and the random source.
pub open spec fn is_encryptable(
    file: Seq<u8>,
    password: Seq<char>,
    fresh: (Seq<u8>, Seq<u8>),
) -> bool {
    &&& fresh.0.len() == SALT_LEN
    &&& fresh.1.len() == NONCE_LEN
    &&& utf8::encode_utf8(password).len() <= 0xffff_ffff
    &&& encrypt::portion_count(file.len() as int) <= u32::MAX
}

/// Where nothing fails, encryption puts the header and the sealed chunks of the input in the place of
/// the output and changes no other file. The temporary file is gone. The output may be the input.
#[verifier::rlimit(40)]
pub proof fn encrypts_on_disk(
    d: Disk,
    s: EncryptState,
    fresh: (Seq<u8>, Seq<u8>),
    steps: nat,
)
    requires
        s == EncryptState::start(s.paths, s.password, s.replace),
        is_ready(d, s.paths, s.replace),
        is_encryptable(d.files[s.paths.input], s.password, fresh),
        steps >= 3 * encrypt::portion_count(d.files[s.paths.input].len() as int) + 7,
    ensures
        ({
            let (e, t, action) = encrypt_on(d, s, FileAction::OpenInput, fresh, steps);
            &&& action == FileAction::<Seq<u8>>::Finish(Ok(()))
            &&& t.stage == EncryptStage::Finished(Ok(()))
            &&& t.password == s.password
            &&& t.taken == d.files[s.paths.input]
            &&& t.written == header::header_bytes(encrypt::default_header(fresh.0, fresh.1))
                + container::sealed_chunks(
                kdf::argon2id(
                    utf8::encode_utf8(s.password),
                    fresh.0,
                    DEFAULT_M_COST,
                    DEFAULT_T_COST,
                    DEFAULT_P_COST,
                ),
                fresh.1,
                0,
                encrypt::portions(d.files[s.paths.input]),
            )
            &&& e.files == d.files.insert(s.paths.output, t.written).remove(s.paths.temp)
        }),
{
    let file = d.files[s.paths.input];
    let start = Disk { at: 0, ..d };
    encrypt::lemma_portions(file);
    encrypt::encrypts_any_file(s, fresh.0, fresh.1, encrypt::portions(file), steps);
    lemma_encrypt_on(start, start, s, FileAction::OpenInput, fresh, steps);
    assert(file.skip(0) =~= file);
    assert(encrypt_on(d, s, FileAction::OpenInput, fresh, steps) == encrypt_on(
        start,
        s,
        FileAction::OpenInput,
        fresh,
        steps,
    ));
}

/// What is encrypted is decrypted, whatever the file holds and whatever the password. `s` encrypts a
/// file, and `u` then decrypts its output with the same password: the job succeeds, what it puts in
/// its own output is the file that was encrypted, and no other file is changed. The state of `s` at
/// its end is one that its steps promise. Two or all of the three paths may be the same.
pub proof fn round_trip_on_disk(
    d: Disk,
    s: EncryptState,
    fresh: (Seq<u8>, Seq<u8>),
    steps: nat,
    u: DecryptState,
    more: nat,
)
    requires
        s == EncryptState::start(s.paths, s.password, s.replace),
        is_ready(d, s.paths, s.replace),
        is_encryptable(d.files[s.paths.input], s.password, fresh),
        steps >= 3 * encrypt::portion_count(d.files[s.paths.input].len() as int) + 7,
        ({
            let (e, t, _) = encrypt_on(d, s, FileAction::OpenInput, fresh, steps);
            &&& t.faithful()
            &&& u == DecryptState::start(u.paths, s.password, u.replace)
            &&& u.paths.input == s.paths.output
            &&& is_ready(e, u.paths, u.replace)
            &&& more >= 4 * t.written.len() + 10
        }),
    ensures
        ({
            let (e, t, _) = encrypt_on(d, s, FileAction::OpenInput, fresh, steps);
            let (f, v, action) = decrypt_on(e, u, FileAction::OpenInput, more);
            &&& action == FileAction::<Seq<u8>>::Finish(Ok(()))
            &&& f.files == e.files.insert(u.paths.output, d.files[s.paths.input]).remove(
                u.paths.temp,
            )
        }),
{
    encrypts_on_disk(d, s, fresh, steps);
    lemma_temp_is_not_output(s.paths);
    let (e, t, _) = encrypt_on(d, s, FileAction::OpenInput, fresh, steps);
    assert(e.files[u.paths.input] == t.written);
    decrypts_on_disk(e, u, more);
}

/// A file that is encrypted in its own place and then decrypted in its own place is what it was, and
/// so is every other file but for one that had to be replaced by the temporary file.
pub proof fn in_place_round_trip(
    d: Disk,
    s: EncryptState,
    fresh: (Seq<u8>, Seq<u8>),
    steps: nat,
    more: nat,
)
    requires
        s == EncryptState::start(s.paths, s.password, s.replace),
        s.paths.input == s.paths.output,
        is_ready(d, s.paths, s.replace),
        is_encryptable(d.files[s.paths.input], s.password, fresh),
        steps >= 3 * encrypt::portion_count(d.files[s.paths.input].len() as int) + 7,
        ({
            let t = encrypt_on(d, s, FileAction::OpenInput, fresh, steps).1;
            t.faithful() && more >= 4 * t.written.len() + 10
        }),
    ensures
        ({
            let e = encrypt_on(d, s, FileAction::OpenInput, fresh, steps).0;
            let u = DecryptState::start(s.paths, s.password, false);
            let (f, _, action) = decrypt_on(e, u, FileAction::OpenInput, more);
            &&& action == FileAction::<Seq<u8>>::Finish(Ok(()))
            &&& f.files == d.files.remove(s.paths.temp)
        }),
{
    encrypts_on_disk(d, s, fresh, steps);
    lemma_temp_is_not_output(s.paths);
    let (e, t, _) = encrypt_on(d, s, FileAction::OpenInput, fresh, steps);
    let u = DecryptState::start(s.paths, s.password, false);
    round_trip_on_disk(d, s, fresh, steps, u, more);
    assert(e.files.insert(s.paths.output, d.files[s.paths.input]).remove(s.paths.temp)
        =~= d.files.remove(s.paths.temp));
}

/// Decrypting an encrypted file that was changed, in whatever way, ends with a failure and changes no
/// file; the temporary file is gone.
pub proof fn tampering_changes_nothing(
    d: Disk,
    s: DecryptState,
    steps: nat,
    file: Seq<u8>,
    h: HeaderView,
    key: Seq<u8>,
    chunks: Seq<Seq<u8>>,
    log: Set<Sealing>,
)
    requires
        s == DecryptState::start(s.paths, s.password, s.replace),
        is_ready(d, s.paths, s.replace),
        steps >= 4 * d.files[s.paths.input].len() + 10,
        container::is_sealed_file(s.password, file, h, key, chunks),
        tamper::is_not_forged(s.password, d.files[s.paths.input], h, key, chunks, log),
        d.files[s.paths.input] != file,
    ensures
        ({
            let (e, _, action) = decrypt_on(d, s, FileAction::OpenInput, steps);
            &&& action is Finish && action->Finish_0 is Err
            &&& e.files == d.files.remove(s.paths.temp)
        }),
{
    let g = d.files[s.paths.input];
    tamper::tampering_is_refused(s.password, file, h, key, chunks, log, g);
    tamper::tampering_cannot_outrun_the_index(s.password, file, h, key, chunks, log, g);
    decrypts_on_disk(d, s, steps);
}

/// Decrypting an encrypted file with another password ends with the failure that it is not authentic
/// and changes no file; the temporary file is gone.
pub proof fn another_password_changes_nothing(
    d: Disk,
    s: DecryptState,
    steps: nat,
    password: Seq<char>,
    h: HeaderView,
    key: Seq<u8>,
    chunks: Seq<Seq<u8>>,
    log: Set<Sealing>,
)
    requires
        s == DecryptState::start(s.paths, s.password, s.replace),
        is_ready(d, s.paths, s.replace),
        steps >= 4 * d.files[s.paths.input].len() + 10,
        container::is_sealed_file(password, d.files[s.paths.input], h, key, chunks),
        tamper::gives_another_key(s.password, d.files[s.paths.input], h, key, chunks, log),
    ensures
        ({
            let (e, _, action) = decrypt_on(d, s, FileAction::OpenInput, steps);
            &&& action == FileAction::<Seq<u8>>::Finish(Err(Failure::Authentication))
            &&& e.files == d.files.remove(s.paths.temp)
        }),
{
    let file = d.files[s.paths.input];
    tamper::another_password_is_refused(password, file, h, key, chunks, log, s.password);
    container::sealed_file_length(password, file, h, key, chunks);
    container::sealed_chunks_can_be_counted(password, file, h, key, chunks, file.len() as int);
    decrypts_on_disk(d, s, steps);
}

/// Decrypting an encrypted file that was cut off anywhere ends with a failure and changes no file;
/// the temporary file is gone. No part of the plaintext is put in the place of the output.
pub proof fn truncation_changes_nothing(
    d: Disk,
    s: DecryptState,
    steps: nat,
    file: Seq<u8>,
    plaintext: Seq<u8>,
    k: int,
)
    requires
        s == DecryptState::start(s.paths, s.password, s.replace),
        is_ready(d, s.paths, s.replace),
        steps >= 4 * d.files[s.paths.input].len() + 10,
        container::read_file(s.password, file) == Ok::<Seq<u8>, Failure>(plaintext),
        container::is_encryption(s.password, file, plaintext),
        0 <= k < file.len(),
        d.files[s.paths.input] == file.take(k),
    ensures
        ({
            let (e, _, action) = decrypt_on(d, s, FileAction::OpenInput, steps);
            &&& action is Finish && action->Finish_0 is Err
            &&& k < HEADER_LEN ==> action == FileAction::<Seq<u8>>::Finish(
                Err(Failure::HeaderTooShort),
            )
            &&& e.files == d.files.remove(s.paths.temp)
        }),
{
    container::truncation_is_detected(s.password, file, k);
    decrypts_on_disk(d, s, steps);
    let (h, key, chunks) = choose|h: HeaderView, key: Seq<u8>, chunks: Seq<Seq<u8>>|
        #[trigger] container::is_sealed_file(s.password, file, h, key, chunks) && container::join(
            chunks,
        ) == plaintext;
    if k >= HEADER_LEN {
        container::sealed_chunks_can_be_counted(s.password, file, h, key, chunks, k);
    }
}

/// Decrypting an encrypted file with anything added behind it ends with the failure that says so and
/// changes no file; the temporary file is gone.
pub proof fn appended_bytes_change_nothing(
    d: Disk,
    s: DecryptState,
    steps: nat,
    file: Seq<u8>,
    plaintext: Seq<u8>,
    more: Seq<u8>,
)
    requires
        s == DecryptState::start(s.paths, s.password, s.replace),
        is_ready(d, s.paths, s.replace),
        steps >= 4 * d.files[s.paths.input].len() + 10,
        container::read_file(s.password, file) == Ok::<Seq<u8>, Failure>(plaintext),
        container::is_encryption(s.password, file, plaintext),
        more.len() > 0,
        d.files[s.paths.input] == file + more,
    ensures
        ({
            let (e, _, action) = decrypt_on(d, s, FileAction::OpenInput, steps);
            &&& action == FileAction::<Seq<u8>>::Finish(Err(Failure::TrailingData))
            &&& e.files == d.files.remove(s.paths.temp)
        }),
{
    container::appended_bytes_are_refused(s.password, file, more);
    let (h, key, chunks) = choose|h: HeaderView, key: Seq<u8>, chunks: Seq<Seq<u8>>|
        #[trigger] container::is_sealed_file(s.password, file, h, key, chunks) && container::join(
            chunks,
        ) == plaintext;
    container::sealed_chunks_can_be_counted(s.password, file, h, key, chunks, file.len() as int);
    decrypts_on_disk(d, s, steps);
}

/// Whatever action of an encryption fails, the job ends with a failure. One that fails for its files
/// says which could not be had. A failure in between leads, whatever comes of the removal, to the
/// failure of the system, and takes the temporary file away, so that the disk is what it was. A
/// finished file that cannot be moved to its place is left where it is.
#[verifier::rlimit(40)]
pub proof fn a_failed_action_ends_the_encryption(
    d: Disk,
    s: EncryptState,
    fresh: (Seq<u8>, Seq<u8>),
    i: nat,
    any: Option<(Seq<u8>, Seq<u8>)>,
    event: FileEvent<Seq<u8>>,
)
    requires
        s == EncryptState::start(s.paths, s.password, s.replace),
        is_ready(d, s.paths, s.replace),
        d.at == 0,
    ensures
        ({
            let (e, t, action) = encrypt_on(d, s, FileAction::OpenInput, fresh, i);
            let (u, then) = t.next(FileEvent::Failed, any);
            match action {
                FileAction::OpenInput => then == FileAction::<Seq<u8>>::Finish(
                    Err(Failure::OpenInput),
                ) && e.files == d.files,
                FileAction::CreateTemp { .. } => then == FileAction::<Seq<u8>>::Finish(
                    Err(Failure::CreateTemp),
                ) && e.files == d.files,
                FileAction::Finalize => then == FileAction::<Seq<u8>>::Finish(
                    Err(Failure::FinalizeEncrypted),
                ),
                FileAction::Read(_) | FileAction::Write(_) | FileAction::ShowProgress => {
                    &&& then is RemoveTemp
                    &&& u.next(event, any).1 == FileAction::<Seq<u8>>::Finish(Err(Failure::Io))
                    &&& e.perform(s.paths, then).0.files == d.files.remove(s.paths.temp)
                },
                FileAction::ReadExact(_) => false,
                FileAction::RemoveTemp | FileAction::Finish(_) => true,
            }
        }),
{
    lemma_encrypt_on(d, d, s, FileAction::OpenInput, fresh, i);
    let (e, t, action) = encrypt_on(d, s, FileAction::OpenInput, fresh, i);
    assert(e.files.remove(s.paths.temp) =~= d.files.remove(s.paths.temp) || action is Finalize
        || action is Finish || action is RemoveTemp);
}

/// Whatever action of a decryption fails, the job ends with a failure. One that fails for its files
/// says which could not be had. A header, a length or a chunk that cannot be read, or that the input
/// ends in, is told as such; any other failure is that of the system. All of these take the temporary
/// file away, whatever comes of that, so that the disk is what it was. A finished file that cannot be
/// moved to its place is left where it is.
#[verifier::rlimit(40)]
pub proof fn a_failed_action_ends_the_decryption(
    d: Disk,
    s: DecryptState,
    i: nat,
    event: FileEvent<Seq<u8>>,
)
    requires
        s == DecryptState::start(s.paths, s.password, s.replace),
        is_ready(d, s.paths, s.replace),
        d.at == 0,
    ensures
        ({
            let (e, t, action) = decrypt_on(d, s, FileAction::OpenInput, i);
            let (u, then) = t.next(FileEvent::Failed);
            let (v, at_end) = t.next(FileEvent::EndOfInput);
            match action {
                FileAction::OpenInput => then == FileAction::<Seq<u8>>::Finish(
                    Err(Failure::OpenInput),
                ) && e.files == d.files,
                FileAction::CreateTemp { .. } => then == FileAction::<Seq<u8>>::Finish(
                    Err(Failure::CreateTemp),
                ) && e.files == d.files,
                FileAction::Finalize => then == FileAction::<Seq<u8>>::Finish(
                    Err(Failure::FinalizeDecrypted),
                ),
                FileAction::Read(_) | FileAction::Write(_) | FileAction::ShowProgress => {
                    &&& then is RemoveTemp
                    &&& u.next(event).1 == FileAction::<Seq<u8>>::Finish(Err(Failure::Io))
                    &&& e.perform(s.paths, then).0.files == d.files.remove(s.paths.temp)
                },
                FileAction::ReadExact(n) => {
                    &&& then is RemoveTemp && at_end is RemoveTemp
                    &&& u.next(event).1 == FileAction::<Seq<u8>>::Finish(
                        Err(
                            if e.at == 0 {
                                Failure::HeaderTooShort
                            } else if n == 4 {
                                Failure::ChunkLength
                            } else {
                                Failure::IncompleteChunk
                            },
                        ),
                    )
                    &&& v.next(event).1 == FileAction::<Seq<u8>>::Finish(
                        Err(
                            if e.at == 0 {
                                Failure::HeaderTooShort
                            } else if n == 4 {
                                Failure::MissingFinalChunk
                            } else {
                                Failure::IncompleteChunk
                            },
                        ),
                    )
                    &&& e.perform(s.paths, then).0.files == d.files.remove(s.paths.temp)
                },
                FileAction::RemoveTemp | FileAction::Finish(_) => true,
            }
        }),
{
    lemma_decrypt_on(d, d, s, FileAction::OpenInput, i);
    let (e, t, action) = decrypt_on(d, s, FileAction::OpenInput, i);
    assert(e.files.remove(s.paths.temp) =~= d.files.remove(s.paths.temp) || action is Finalize
        || action is Finish || action is RemoveTemp);
}

/// A job that finds no input, or something in the place of its temporary file that it may not
/// replace, be it the input itself, changes nothing on the disk.
pub proof fn nothing_is_lost_unasked(
    d: Disk,
    s: EncryptState,
    u: DecryptState,
    fresh: (Seq<u8>, Seq<u8>),
    steps: nat,
)
    requires
        s == EncryptState::start(s.paths, s.password, false),
        u == DecryptState::start(s.paths, s.password, false),
        !d.files.contains_key(s.paths.input) || d.files.contains_key(s.paths.temp),
        steps >= 2,
    ensures
        ({
            let failure = if d.files.contains_key(s.paths.input) {
                Failure::CreateTemp
            } else {
                Failure::OpenInput
            };
            let (e, _, action) = encrypt_on(d, s, FileAction::OpenInput, fresh, steps);
            let (f, _, then) = decrypt_on(d, u, FileAction::OpenInput, steps);
            &&& e.files == d.files
            &&& f.files == d.files
            &&& action == FileAction::<Seq<u8>>::Finish(Err(failure))
            &&& then == FileAction::<Seq<u8>>::Finish(Err(failure))
        }),
{
    reveal_with_fuel(encrypt_on, 3);
    reveal_with_fuel(decrypt_on, 3);
}

} // verus!
