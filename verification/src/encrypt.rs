//! The encryption of a file, chunk by chunk.

use vstd::prelude::*;
use vstd::slice::slice_to_vec;
use vstd::utf8;

use crate::cipher;
use crate::cipher::TAG_LEN;
use crate::container;
use crate::failure::Failure;
use crate::header;
use crate::header::{
    EncryptedHeader, HeaderView, CHUNK_SIZE, DEFAULT_M_COST, DEFAULT_P_COST, DEFAULT_T_COST, HEADER_LEN,
    NONCE_LEN, SALT_LEN,
};
use crate::job::{FileAction, FileEvent, JobPaths, PathsView};
use crate::kdf;
use crate::secret;
use crate::secret::Draw;

verus! {

/// What an [`EncryptJob`] is waiting for.
#[derive(Clone, Copy, Debug)]
pub enum EncryptStage {
    Opening,
    Creating,
    WritingHeader,
    Reading,
    Writing { last: bool },
    Showing { last: bool },
    Finalizing,
    Removing(Failure),
    Finished(Result<(), Failure>),
}

/// The encryption of one file under way.
pub struct EncryptJob<'a> {
    paths: JobPaths<'a>,
    password: &'a str,
    replace: bool,
    stage: EncryptStage,
    key: [u8; 32],
    nonce: Vec<u8>,
    index: u32,
    draws: Option<(Draw, Draw)>,
    taken: Ghost<Seq<u8>>,
    written: Ghost<Seq<u8>>,
}

/// What an [`EncryptJob`] knows, with the bytes that it has taken from the input and handed out for
/// the output so far.
#[verifier::ext_equal]
pub struct EncryptState {
    pub paths: PathsView,
    pub password: Seq<char>,
    pub replace: bool,
    pub stage: EncryptStage,
    pub key: Seq<u8>,
    pub nonce: Seq<u8>,
    pub index: int,
    pub taken: Seq<u8>,
    pub written: Seq<u8>,
}

impl<'a> View for EncryptJob<'a> {
    type V = EncryptState;

    closed spec fn view(&self) -> EncryptState {
        EncryptState {
            paths: self.paths@,
            password: self.password@,
            replace: self.replace,
            stage: self.stage,
            key: self.key@,
            nonce: self.nonce@,
            index: self.index as int,
            taken: self.taken@,
            written: self.written@,
        }
    }
}

/// The header of a file that is encrypted with the default costs.
pub open spec fn default_header(salt: Seq<u8>, nonce: Seq<u8>) -> HeaderView {
    HeaderView {
        salt,
        nonce,
        m_cost: DEFAULT_M_COST,
        t_cost: DEFAULT_T_COST,
        p_cost: DEFAULT_P_COST,
    }
}

/// The length of a file that holds `n` bytes of plaintext in `chunks` chunks, the last one counted.
pub open spec fn encrypted_len(n: int, chunks: int) -> int {
    HEADER_LEN + n + (4 + TAG_LEN) * chunks
}

/// A salt and a nonce as the random source may give them.
pub open spec fn is_fresh(fresh: Option<(Seq<u8>, Seq<u8>)>) -> bool {
    fresh matches Some((salt, nonce)) ==> salt.len() == SALT_LEN && nonce.len() == NONCE_LEN
}

impl EncryptState {
    /// A job that has done nothing yet.
    pub open spec fn start(
        paths: PathsView,
        password: Seq<char>,
        replace: bool,
    ) -> EncryptState {
        EncryptState {
            paths,
            password,
            replace,
            stage: EncryptStage::Opening,
            key: secret::wiped(),
            nonce: Seq::empty(),
            index: 0,
            taken: Seq::empty(),
            written: Seq::empty(),
        }
    }

    pub open spec fn at(self, stage: EncryptStage) -> EncryptState {
        EncryptState { stage, ..self }
    }

    /// The key is wiped and the temporary file goes.
    pub open spec fn abort(self, failure: Failure) -> (EncryptState, FileAction<Seq<u8>>) {
        (
            EncryptState {
                stage: EncryptStage::Removing(failure),
                key: secret::wiped(),
                ..self
            },
            FileAction::RemoveTemp,
        )
    }

    pub open spec fn finish(self, r: Result<(), Failure>) -> (
        EncryptState,
        FileAction<Seq<u8>>,
    ) {
        (self.at(EncryptStage::Finished(r)), FileAction::Finish(r))
    }

    /// The key is derived and the header goes out.
    pub open spec fn begin(self, salt: Seq<u8>, nonce: Seq<u8>) -> (
        EncryptState,
        FileAction<Seq<u8>>,
    ) {
        let head = header::header_bytes(default_header(salt, nonce));
        match kdf::key_of(
            utf8::encode_utf8(self.password),
            salt,
            DEFAULT_M_COST,
            DEFAULT_T_COST,
            DEFAULT_P_COST,
        ) {
            Err(e) => self.abort(e),
            Ok(key) => (
                EncryptState {
                    stage: EncryptStage::WritingHeader,
                    key,
                    nonce,
                    index: 0,
                    written: head,
                    ..self
                },
                FileAction::Write(head),
            ),
        }
    }

    /// A chunk of plaintext is sealed and goes out. The empty one is the last.
    pub open spec fn seal(self, plaintext: Seq<u8>) -> (EncryptState, FileAction<Seq<u8>>) {
        let frame = cipher::chunk_frame(self.key, self.nonce, self.index, plaintext);
        (
            EncryptState {
                stage: EncryptStage::Writing { last: plaintext.len() == 0 },
                taken: self.taken + plaintext,
                written: self.written + frame,
                ..self
            },
            FileAction::Write(frame),
        )
    }

    /// What the job makes of `event`, if the random source gives `fresh` where it is asked.
    pub open spec fn next(
        self,
        event: FileEvent<Seq<u8>>,
        fresh: Option<(Seq<u8>, Seq<u8>)>,
    ) -> (EncryptState, FileAction<Seq<u8>>) {
        match self.stage {
            EncryptStage::Opening => if event is Done {
                (
                    self.at(EncryptStage::Creating),
                    FileAction::CreateTemp { replace: self.replace },
                )
            } else {
                self.finish(Err(Failure::OpenInput))
            },
            EncryptStage::Creating => if event is Done {
                match fresh {
                    Some((salt, nonce)) => self.begin(salt, nonce),
                    None => self.abort(Failure::RandomSource),
                }
            } else {
                self.finish(Err(Failure::CreateTemp))
            },
            EncryptStage::WritingHeader => if event is Done {
                (self.at(EncryptStage::Reading), FileAction::Read(CHUNK_SIZE))
            } else {
                self.abort(Failure::Io)
            },
            EncryptStage::Reading => match event {
                FileEvent::Data(d) => if d.len() <= CHUNK_SIZE {
                    self.seal(d)
                } else {
                    self.abort(Failure::Io)
                },
                _ => self.abort(Failure::Io),
            },
            EncryptStage::Writing { last } => if event is Done {
                (self.at(EncryptStage::Showing { last }), FileAction::ShowProgress)
            } else {
                self.abort(Failure::Io)
            },
            EncryptStage::Showing { last } => if event !is Done {
                self.abort(Failure::Io)
            } else if last {
                (
                    EncryptState {
                        stage: EncryptStage::Finalizing,
                        key: secret::wiped(),
                        ..self
                    },
                    FileAction::Finalize,
                )
            } else {
                (
                    EncryptState { stage: EncryptStage::Reading, index: self.index + 1, ..self },
                    FileAction::Read(CHUNK_SIZE),
                )
            },
            EncryptStage::Finalizing => if event is Done {
                self.finish(Ok(()))
            } else {
                self.finish(Err(Failure::FinalizeEncrypted))
            },
            EncryptStage::Removing(failure) => self.finish(Err(failure)),
            EncryptStage::Finished(r) => self.finish(r),
        }
    }

    /// One more chunk would be one more than an index of 32 bits can count.
    pub open spec fn at_limit(self) -> bool {
        self.stage == (EncryptStage::Showing { last: false }) && self.index == u32::MAX
    }

    /// The job is not over, and `event` does not ask for a chunk that cannot be counted.
    pub open spec fn may_take(self, event: FileEvent<Seq<u8>>) -> bool {
        self.stage !is Finished && !(self.at_limit() && event is Done)
    }

    /// What was handed out so far is what all that was taken so far is sealed as, and it is read
    /// back, with the same password, as what was taken.
    /// A key is held only while chunks are sealed.
    pub open spec fn faithful(self) -> bool {
        let keyed = container::is_keyed(self.password, self.written, self.key, self.nonce)
            && self.nonce.len() == NONCE_LEN;
        let body = self.written.skip(HEADER_LEN as int);
        &&& 0 <= self.index <= u32::MAX
        &&& match self.stage {
            EncryptStage::Opening | EncryptStage::Creating => {
                &&& self.key == secret::wiped()
                &&& self.taken == Seq::<u8>::empty()
                &&& self.written == Seq::<u8>::empty()
            },
            EncryptStage::WritingHeader | EncryptStage::Reading => {
                &&& keyed
                &&& container::leads_to(self.key, self.nonce, 0, body, self.index, self.taken)
                &&& container::sealed_so_far(self.key, self.nonce, self.index, body, self.taken)
                &&& self.written.len() == encrypted_len(self.taken.len() as int, self.index)
            },
            EncryptStage::Writing { last } | EncryptStage::Showing { last } => {
                &&& keyed
                &&& self.written.len() == encrypted_len(self.taken.len() as int, self.index + 1)
                &&& if last {
                    let n = self.index;
                    &&& container::leads_to_end(self.key, self.nonce, 0, body, n, self.taken)
                    &&& container::sealed_to_end(self.key, self.nonce, n, body, self.taken)
                } else {
                    let n = self.index + 1;
                    &&& container::leads_to(self.key, self.nonce, 0, body, n, self.taken)
                    &&& container::sealed_so_far(self.key, self.nonce, n, body, self.taken)
                }
            },
            EncryptStage::Finalizing | EncryptStage::Finished(Ok(())) => {
                &&& self.key == secret::wiped()
                &&& container::read_file(self.password, self.written) == Ok::<Seq<u8>, Failure>(
                    self.taken,
                )
                &&& container::is_encryption(self.password, self.written, self.taken)
                &&& container::chunk_count(body) == self.index
                &&& self.written.len() == encrypted_len(self.taken.len() as int, self.index + 1)
            },
            EncryptStage::Removing(_) | EncryptStage::Finished(Err(_)) => {
                self.key == secret::wiped()
            },
        }
    }
}

/// Starts the encryption of the file at `input_path` into a file at `output_path`, with
/// `first_action`.
pub fn encrypt_file<'a>(input_path: &'a str, output_path: &'a str, password: &'a str) -> (job:
    EncryptJob<'a>)
    ensures
        job@ == EncryptState::start(PathsView::of(input_path@, output_path@), password@, false),
        job@.faithful(),
        job@.paths.input == input_path@,
        job@.paths.output == output_path@,
        job@.paths.temp == output_path@ + ".tmp"@,
        job@.password == password@,
        !job@.replace,
        job@.stage is Opening,
{
    let key = [0u8; 32];
    assert(key@ =~= secret::wiped());
    EncryptJob {
        paths: JobPaths::new(input_path, output_path),
        password,
        replace: false,
        stage: EncryptStage::Opening,
        key,
        nonce: Vec::new(),
        index: 0,
        draws: None,
        taken: Ghost(Seq::empty()),
        written: Ghost(Seq::empty()),
    }
}

impl<'a> EncryptJob<'a> {
    /// What the random source gave when this job asked it for a salt and for a nonce.
    pub closed spec fn draws(&self) -> Option<(Draw, Draw)> {
        self.draws
    }

    /// What is to be done first: to open the input.
    pub fn first_action(&self) -> (action: FileAction<Vec<u8>>)
        requires
            self@.stage is Opening,
        ensures
            action@ == FileAction::<Seq<u8>>::OpenInput,
    {
        FileAction::OpenInput
    }

    /// Lets this job replace what is at the path of the temporary file. Otherwise a job that finds
    /// something there comes to its end and leaves it alone.
    pub fn replace_temp(&mut self)
        requires
            old(self)@.faithful(),
            old(self)@.stage is Opening,
        ensures
            final(self)@ == (EncryptState { replace: true, ..old(self)@ }),
            final(self)@.faithful(),
    {
        self.replace = true;
    }

    /// The files that this job is about.
    pub fn paths(&self) -> (paths: &JobPaths<'a>)
        ensures
            paths@ == self@.paths,
            paths.input@ == self@.paths.input,
            paths.output@ == self@.paths.output,
            paths.temp@ == self@.paths.temp,
    {
        &self.paths
    }

    /// Tells whether any byte of a key is left.
    pub fn holds_key(&self) -> (held: bool)
        ensures
            held == (self@.key != secret::wiped()),
    {
        secret::is_left(&self.key)
    }

    /// Tells whether one more chunk would be one more than can be counted.
    pub fn at_chunk_limit(&self) -> (limit: bool)
        ensures
            limit == self@.at_limit(),
    {
        match self.stage {
            EncryptStage::Showing { last } => !last && self.index == u32::MAX,
            _ => false,
        }
    }

    fn finish(&mut self, r: Result<(), Failure>) -> (action: FileAction<Vec<u8>>)
        ensures
            (final(self)@, action@) == old(self)@.finish(r),
            final(self).draws() == old(self).draws(),
    {
        self.stage = EncryptStage::Finished(r);
        FileAction::Finish(r)
    }

    fn abort(&mut self, failure: Failure) -> (action: FileAction<Vec<u8>>)
        ensures
            (final(self)@, action@) == old(self)@.abort(failure),
            final(self).draws() == old(self).draws(),
    {
        secret::wipe(&mut self.key);
        self.stage = EncryptStage::Removing(failure);
        FileAction::RemoveTemp
    }

    /// Derives the key and starts the file with its header, once the temporary file is there and
    /// `salt` and `nonce` were drawn.
    #[verifier::rlimit(40)]
    pub fn begin(&mut self, salt: &[u8], nonce: &[u8]) -> (action: FileAction<Vec<u8>>)
        requires
            old(self)@.faithful(),
            old(self)@.stage is Creating,
            salt@.len() == SALT_LEN,
            nonce@.len() == NONCE_LEN,
        ensures
            (final(self)@, action@) == old(self)@.begin(salt@, nonce@),
            final(self).draws() == old(self).draws(),
            final(self)@.faithful(),
    {
        match kdf::derive_key(self.password, salt, DEFAULT_M_COST, DEFAULT_T_COST, DEFAULT_P_COST) {
            Err(e) => self.abort(e),
            Ok(mut key) => {
                let head = header::encode_header(
                    &EncryptedHeader {
                        salt,
                        nonce,
                        m_cost: DEFAULT_M_COST,
                        t_cost: DEFAULT_T_COST,
                        p_cost: DEFAULT_P_COST,
                    },
                );
                self.stage = EncryptStage::WritingHeader;
                self.key = key;
                secret::wipe(&mut key);
                self.nonce = slice_to_vec(nonce);
                self.index = 0;
                self.written = Ghost(head@);
                proof {
                    let h = default_header(salt@, nonce@);
                    let none = Seq::<u8>::empty();
                    header::header_round_trip(h, none);
                    assert(head@ + none =~= head@);
                    assert(self@.written.skip(HEADER_LEN as int) =~= none);
                    container::lemma_nothing_read(self@.key, self@.nonce, 0);
                    container::lemma_nothing_sealed(self@.key, self@.nonce);
                }
                FileAction::Write(head)
            },
        }
    }

    #[verifier::rlimit(40)]
    fn seal(&mut self, plaintext: &[u8]) -> (action: FileAction<Vec<u8>>)
        requires
            old(self)@.faithful(),
            old(self)@.stage is Reading,
            plaintext@.len() <= CHUNK_SIZE,
        ensures
            (final(self)@, action@) == old(self)@.seal(plaintext@),
            final(self).draws() == old(self).draws(),
            final(self)@.faithful(),
    {
        match cipher::seal_chunk(&self.key, &self.nonce, self.index, plaintext) {
            Err(e) => self.abort(e),
            Ok(frame) => {
                proof {
                    let s = self@;
                    let body = s.written.skip(HEADER_LEN as int);
                    container::lemma_frame_is_read(s.key, s.nonce, s.index, frame@, plaintext@);
                    container::lemma_leads_on(
                        s.key,
                        s.nonce,
                        0,
                        body,
                        s.index,
                        s.taken,
                        frame@,
                        if plaintext@.len() > 0 {
                            s.index + 1
                        } else {
                            s.index
                        },
                        plaintext@,
                    );
                    container::lemma_one_more_sealed(
                        s.key,
                        s.nonce,
                        s.index,
                        body,
                        s.taken,
                        plaintext@,
                    );
                    container::lemma_keyed_grows(s.password, s.written, s.key, s.nonce, frame@);
                }
                self.stage = EncryptStage::Writing { last: plaintext.len() == 0 };
                self.taken = Ghost(self.taken@ + plaintext@);
                self.written = Ghost(self.written@ + frame@);
                FileAction::Write(frame)
            },
        }
    }

    /// Takes the answer to the last action and gives the next one. The salt and the nonce are drawn
    /// here when the temporary file has been created: the job goes on with just these, and it gives
    /// up for want of random bytes only where the source failed.
    ///
    /// The output is moved to its place only when all that was handed out for it is the encryption
    /// of all that was taken, and is read back as such.
    #[verifier::rlimit(40)]
    pub fn step(&mut self, event: FileEvent<Vec<u8>>) -> (action: FileAction<Vec<u8>>)
        requires
            old(self)@.faithful(),
            old(self)@.may_take(event@),
        ensures
            exists|fresh: Option<(Seq<u8>, Seq<u8>)>|
                is_fresh(fresh) && (final(self)@, action@) == #[trigger] old(self)@.next(
                    event@,
                    fresh,
                ),
            final(self)@.faithful(),
            old(self)@.stage is Creating && event is Done ==> {
                &&& final(self).draws() is Some
                &&& match (final(self).draws()->Some_0.0@, final(self).draws()->Some_0.1@) {
                    (Some(salt), Some(nonce)) => {
                        &&& salt.len() == 16
                        &&& nonce.len() == 12
                        &&& (final(self)@, action@) == old(self)@.next(
                            event@,
                            Some((salt, nonce)),
                        )
                        &&& final(self)@.stage != EncryptStage::Removing(Failure::RandomSource)
                    },
                    _ => {
                        &&& final(self).draws()->Some_0.0.fault() is Some
                            || final(self).draws()->Some_0.1.fault() is Some
                        &&& (final(self)@, action@) == old(self)@.next(event@, None)
                        &&& final(self)@.stage == EncryptStage::Removing(Failure::RandomSource)
                    },
                }
            },
            !(old(self)@.stage is Creating && event is Done) ==> {
                &&& final(self).draws() == old(self).draws()
                &&& (final(self)@, action@) == old(self)@.next(event@, None)
            },
            action matches FileAction::Write(b) ==> final(self)@.written == old(self)@.written
                + b@,
            action is Finalize || action is RemoveTemp || action is Finish ==> {
                &&& final(self)@.key.len() == 32
                &&& forall|i: int| 0 <= i < 32 ==> final(self)@.key[i] == 0
            },
            action is Finalize ==> container::read_file(
                final(self)@.password,
                final(self)@.written,
            ) == Ok::<Seq<u8>, Failure>(final(self)@.taken),
            action is Finalize ==> container::is_encryption(
                final(self)@.password,
                final(self)@.written,
                final(self)@.taken,
            ),
            action is Finalize ==> final(self)@.written.len() == encrypted_len(
                final(self)@.taken.len() as int,
                final(self)@.index + 1,
            ),
    {
        let ghost s = self@;
        let ghost e = event@;
        let ghost mut fresh: Option<(Seq<u8>, Seq<u8>)> = None;
        let done = match &event {
            FileEvent::Done => true,
            _ => false,
        };
        let action = match self.stage {
            EncryptStage::Opening => if done {
                self.stage = EncryptStage::Creating;
                FileAction::CreateTemp { replace: self.replace }
            } else {
                self.finish(Err(Failure::OpenInput))
            },
            EncryptStage::Creating => if done {
                let salt = secret::random_bytes(SALT_LEN);
                let nonce = secret::random_bytes(NONCE_LEN);
                let action = match (salt.bytes(), nonce.bytes()) {
                    (Some(salt), Some(nonce)) => {
                        proof {
                            fresh = Some((salt@, nonce@));
                        }
                        self.begin(salt, nonce)
                    },
                    _ => self.abort(Failure::RandomSource),
                };
                self.draws = Some((salt, nonce));
                action
            } else {
                self.finish(Err(Failure::CreateTemp))
            },
            EncryptStage::WritingHeader => if done {
                self.stage = EncryptStage::Reading;
                FileAction::Read(CHUNK_SIZE)
            } else {
                self.abort(Failure::Io)
            },
            EncryptStage::Reading => match &event {
                FileEvent::Data(d) => if d.len() <= CHUNK_SIZE {
                    self.seal(d)
                } else {
                    self.abort(Failure::Io)
                },
                _ => self.abort(Failure::Io),
            },
            EncryptStage::Writing { last } => if done {
                self.stage = EncryptStage::Showing { last };
                FileAction::ShowProgress
            } else {
                self.abort(Failure::Io)
            },
            EncryptStage::Showing { last } => if !done {
                self.abort(Failure::Io)
            } else if last {
                proof {
                    container::lemma_whole_file(
                        s.password,
                        s.written,
                        s.key,
                        s.nonce,
                        s.index,
                        s.taken,
                    );
                    container::lemma_sealed_file(
                        s.password,
                        s.written,
                        s.key,
                        s.nonce,
                        s.index,
                        s.taken,
                    );
                }
                secret::wipe(&mut self.key);
                self.stage = EncryptStage::Finalizing;
                FileAction::Finalize
            } else {
                self.index = self.index + 1;
                self.stage = EncryptStage::Reading;
                FileAction::Read(CHUNK_SIZE)
            },
            EncryptStage::Finalizing => if done {
                self.finish(Ok(()))
            } else {
                self.finish(Err(Failure::FinalizeEncrypted))
            },
            EncryptStage::Removing(failure) => self.finish(Err(failure)),
            EncryptStage::Finished(r) => self.finish(r),
        };
        assert((self@, action@) == s.next(e, fresh));
        action
    }
}

/// The answer to `action` where nothing fails and the input is still to be read in the portions
/// `chunks`, and the portions that are left then.
pub open spec fn answer(action: FileAction<Seq<u8>>, chunks: Seq<Seq<u8>>) -> (
    FileEvent<Seq<u8>>,
    Seq<Seq<u8>>,
) {
    match action {
        FileAction::Read(_) => if chunks.len() > 0 {
            (FileEvent::Data(chunks[0]), chunks.drop_first())
        } else {
            (FileEvent::Data(Seq::empty()), chunks)
        },
        _ => (FileEvent::Done, chunks),
    }
}

/// Where a job gets to in `steps` steps, or sooner if it can go no further, where nothing fails, the
/// random source gives `fresh`, and the input is still to be read in the portions `chunks`.
pub open spec fn run(
    s: EncryptState,
    action: FileAction<Seq<u8>>,
    fresh: (Seq<u8>, Seq<u8>),
    chunks: Seq<Seq<u8>>,
    steps: nat,
) -> (EncryptState, FileAction<Seq<u8>>)
    decreases steps,
{
    let (event, left) = answer(action, chunks);
    if steps == 0 || !s.may_take(event) {
        (s, action)
    } else {
        let (t, then) = s.next(event, Some(fresh));
        run(t, then, fresh, left, (steps - 1) as nat)
    }
}

#[verifier::rlimit(40)]
proof fn lemma_run_chunks(
    s: EncryptState,
    fresh: (Seq<u8>, Seq<u8>),
    chunks: Seq<Seq<u8>>,
    steps: nat,
)
    requires
        s.stage is Reading,
        s.index + chunks.len() <= u32::MAX,
        container::are_chunks(chunks),
        steps >= 3 * chunks.len() + 4,
    ensures
        ({
            let (t, action) = run(s, FileAction::Read(CHUNK_SIZE), fresh, chunks, steps);
            &&& action == FileAction::<Seq<u8>>::Finish(Ok(()))
            &&& t.index == s.index + chunks.len()
            &&& t.stage == EncryptStage::Finished(Ok(()))
            &&& t.password == s.password
            &&& t.taken == s.taken + container::join(chunks)
            &&& t.written == s.written + container::sealed_chunks(s.key, s.nonce, s.index, chunks)
        }),
    decreases chunks.len(),
{
    let (event, left) = answer(FileAction::Read(CHUNK_SIZE), chunks);
    let d = event->Data_0;
    let last = d.len() == 0;
    let (u, write) = s.seal(d);
    assert(s.next(event, Some(fresh)) == (u, write));
    let v = u.at(EncryptStage::Showing { last });
    let (w, after) = v.next(FileEvent::Done, Some(fresh));
    assert(run(u, write, fresh, left, (steps - 1) as nat) == run(
        v,
        FileAction::ShowProgress,
        fresh,
        left,
        (steps - 2) as nat,
    ));
    assert(run(v, FileAction::ShowProgress, fresh, left, (steps - 2) as nat) == run(
        w,
        after,
        fresh,
        left,
        (steps - 3) as nat,
    ));
    if last {
        reveal_with_fuel(run, 2);
        assert(s.taken + d =~= s.taken + container::join(chunks));
        assert(d =~= Seq::empty());
    } else {
        lemma_run_chunks(w, fresh, left, (steps - 3) as nat);
        assert((s.taken + d) + container::join(left) =~= s.taken + (d + container::join(left)));
        let frame = cipher::chunk_frame(s.key, s.nonce, s.index, d);
        let rest = container::sealed_chunks(s.key, s.nonce, s.index + 1, left);
        assert((s.written + frame) + rest =~= s.written + (frame + rest));
    }
}

/// Where nothing fails, a job comes to its end with success: whatever the file holds, in whatever
/// portions it is read, it is written as a header with the default costs and one sealed chunk for
/// each portion. Only a password of 2^32 bytes or more is refused, and no more portions are sealed
/// than an index of 32 bits can count.
#[verifier::rlimit(40)]
pub proof fn encrypts_any_file(
    s: EncryptState,
    salt: Seq<u8>,
    nonce: Seq<u8>,
    chunks: Seq<Seq<u8>>,
    steps: nat,
)
    requires
        s == EncryptState::start(s.paths, s.password, s.replace),
        salt.len() == SALT_LEN,
        nonce.len() == NONCE_LEN,
        utf8::encode_utf8(s.password).len() <= 0xffff_ffff,
        chunks.len() <= u32::MAX,
        container::are_chunks(chunks),
        steps >= 3 * chunks.len() + 7,
    ensures
        ({
            let key = kdf::argon2id(
                utf8::encode_utf8(s.password),
                salt,
                DEFAULT_M_COST,
                DEFAULT_T_COST,
                DEFAULT_P_COST,
            );
            let (t, action) = run(s, FileAction::OpenInput, (salt, nonce), chunks, steps);
            &&& action == FileAction::<Seq<u8>>::Finish(Ok(()))
            &&& t.stage == EncryptStage::Finished(Ok(()))
            &&& t.password == s.password
            &&& t.index == chunks.len()
            &&& t.taken == container::join(chunks)
            &&& t.written == header::header_bytes(default_header(salt, nonce))
                + container::sealed_chunks(key, nonce, 0, chunks)
        }),
{
    let fresh = (salt, nonce);
    let create = FileAction::<Seq<u8>>::CreateTemp { replace: s.replace };
    let t = s.at(EncryptStage::Creating);
    assert(run(s, FileAction::OpenInput, fresh, chunks, steps) == run(
        t,
        create,
        fresh,
        chunks,
        (steps - 1) as nat,
    ));
    let (u, write) = t.begin(salt, nonce);
    assert(run(t, create, fresh, chunks, (steps - 1) as nat) == run(
        u,
        write,
        fresh,
        chunks,
        (steps - 2) as nat,
    ));
    let v = u.at(EncryptStage::Reading);
    assert(run(u, write, fresh, chunks, (steps - 2) as nat) == run(
        v,
        FileAction::Read(CHUNK_SIZE),
        fresh,
        chunks,
        (steps - 3) as nat,
    ));
    lemma_run_chunks(v, fresh, chunks, (steps - 3) as nat);
    assert(v.taken + container::join(chunks) =~= container::join(chunks));
}

/// The portions that `data` comes in where every read gives as much as is asked for.
pub open spec fn portions(data: Seq<u8>) -> Seq<Seq<u8>>
    decreases data.len(),
{
    if data.len() == 0 {
        Seq::empty()
    } else {
        let k = if data.len() < CHUNK_SIZE {
            data.len() as int
        } else {
            CHUNK_SIZE as int
        };
        seq![data.take(k)] + portions(data.skip(k))
    }
}

/// How many portions `n` bytes come in: as many full ones as there are, and one for what is left.
pub open spec fn portion_count(n: int) -> int {
    (n + 65535) / 65536
}

pub proof fn lemma_portions(data: Seq<u8>)
    ensures
        container::are_chunks(portions(data)),
        container::join(portions(data)) == data,
        portions(data).len() == portion_count(data.len() as int),
    decreases data.len(),
{
    if data.len() > 0 {
        let k = if data.len() < CHUNK_SIZE {
            data.len() as int
        } else {
            CHUNK_SIZE as int
        };
        let (here, rest) = (data.take(k), portions(data.skip(k)));
        lemma_portions(data.skip(k));
        assert(portions(data).drop_first() =~= rest);
        assert(portions(data)[0] == here);
        assert(here + data.skip(k) =~= data);
        assert forall|i: int| 0 <= i < portions(data).len() implies 0 < (#[trigger] portions(
            data,
        )[i]).len() <= CHUNK_SIZE by {
            if i > 0 {
                assert(portions(data)[i] == rest[i - 1]);
            }
        }
    }
}

/// Where nothing fails and every read gives as much as is asked for, the length of the encrypted
/// file is fixed by that of the plaintext: the header, the plaintext, and twenty bytes for each
/// portion and for the empty chunk that ends them, which also follows a last portion that is full.
pub proof fn output_length(
    s: EncryptState,
    salt: Seq<u8>,
    nonce: Seq<u8>,
    plaintext: Seq<u8>,
    steps: nat,
)
    requires
        s == EncryptState::start(s.paths, s.password, s.replace),
        salt.len() == SALT_LEN,
        nonce.len() == NONCE_LEN,
        utf8::encode_utf8(s.password).len() <= 0xffff_ffff,
        portion_count(plaintext.len() as int) <= u32::MAX,
        steps >= 3 * portion_count(plaintext.len() as int) + 7,
        run(s, FileAction::OpenInput, (salt, nonce), portions(plaintext), steps).0.faithful(),
    ensures
        ({
            let (t, action) = run(
                s,
                FileAction::OpenInput,
                (salt, nonce),
                portions(plaintext),
                steps,
            );
            &&& action == FileAction::<Seq<u8>>::Finish(Ok(()))
            &&& t.taken == plaintext
            &&& t.written.len() == 47 + plaintext.len() + 20 * (portion_count(
                plaintext.len() as int,
            ) + 1)
        }),
{
    lemma_portions(plaintext);
    encrypts_any_file(s, salt, nonce, portions(plaintext), steps);
}

/// Plaintexts of different lengths are encrypted in files of different lengths: a longer one in a
/// longer one.
pub proof fn output_length_tells_input_length(n: int, m: int)
    requires
        0 <= n < m,
    ensures
        encrypted_len(n, portion_count(n) + 1) < encrypted_len(m, portion_count(m) + 1),
{
}

#[verifier::rlimit(40)]
proof fn lemma_portion_at(data: Seq<u8>, k: int)
    requires
        0 <= k <= portion_count(data.len() as int),
    ensures
        ({
            let n = data.len() as int;
            let at = if 65536 * k < n {
                65536 * k
            } else {
                n
            };
            let end = if 65536 * (k + 1) < n {
                65536 * (k + 1)
            } else {
                n
            };
            &&& container::join(portions(data).take(k)).len() == at
            &&& k < portion_count(n) ==> portions(data)[k] == data.subrange(at, end)
            &&& k == portion_count(n) ==> at == n
        }),
    decreases k,
{
    lemma_portions(data);
    let n = data.len() as int;
    let all = portions(data);
    if k == 0 {
        assert(all.take(0) =~= Seq::empty());
        if n > 0 {
            let m = if n < 65536 {
                n
            } else {
                65536
            };
            assert(all[0] == data.take(m));
            assert(data.take(m) =~= data.subrange(0, m));
        }
    } else {
        let m = if n < 65536 {
            n
        } else {
            65536
        };
        let rest = data.skip(m);
        lemma_portion_at(rest, k - 1);
        assert(all.drop_first() =~= portions(rest));
        assert(all.take(k).drop_first() =~= portions(rest).take(k - 1));
        assert(all.take(k)[0] == data.take(m));
        if k < portion_count(n) {
            assert(all[k] == portions(rest)[k - 1]);
            let end = if 65536 * (k + 1) < n {
                65536 * (k + 1)
            } else {
                n
            };
            assert(rest.subrange(65536 * (k - 1), end - 65536) =~= data.subrange(65536 * k, end));
        }
    }
}

/// What an encrypted file is, byte by byte, where nothing fails and every read gives as much as is
/// asked for: the magic bytes and the version; the salt and the nonce that were drawn; the costs 65536,
/// 3 and 1; and the plaintext in portions of 65536 bytes and what is left, each with its length and
/// sealed with the key that the whole password gives, and the empty chunk that ends them. `k` is any of
/// the chunks.
#[verifier::rlimit(40)]
pub proof fn encrypted_file_byte_by_byte(
    s: EncryptState,
    salt: Seq<u8>,
    nonce: Seq<u8>,
    plaintext: Seq<u8>,
    steps: nat,
    k: int,
)
    requires
        s == EncryptState::start(s.paths, s.password, s.replace),
        salt.len() == SALT_LEN,
        nonce.len() == NONCE_LEN,
        utf8::encode_utf8(s.password).len() <= 0xffff_ffff,
        portion_count(plaintext.len() as int) <= u32::MAX,
        steps >= 3 * portion_count(plaintext.len() as int) + 7,
        run(s, FileAction::OpenInput, (salt, nonce), portions(plaintext), steps).0.faithful(),
        0 <= k <= portion_count(plaintext.len() as int),
    ensures
        ({
            let w = run(
                s,
                FileAction::OpenInput,
                (salt, nonce),
                portions(plaintext),
                steps,
            ).0.written;
            let n = plaintext.len() as int;
            let count = (n + 65535) / 65536;
            let from = if 65536 * k < n {
                65536 * k
            } else {
                n
            };
            let to = if 65536 * (k + 1) < n {
                65536 * (k + 1)
            } else {
                n
            };
            let p = plaintext.subrange(from, to);
            let at = 47 + from + 20 * k;
            &&& w.len() == 47 + n + 20 * (count + 1)
            &&& w.take(7) == seq![0x45u8, 0x4e, 0x43, 0x52, 0x50, 0x54, 2]
            &&& w.subrange(7, 23) == salt
            &&& w.subrange(23, 35) == nonce
            &&& w.subrange(35, 47) == seq![0u8, 1, 0, 0, 0, 0, 0, 3, 0, 0, 0, 1]
            &&& w[at] + 256 * w[at + 1] + 65536 * w[at + 2] + 16777216 * w[at + 3] == p.len()
            &&& w.subrange(at + 4, at + 20 + p.len()) == cipher::gcm_sealed(
                kdf::argon2id(utf8::encode_utf8(s.password), salt, 65536, 3, 1),
                cipher::chunk_nonce(nonce, k),
                p,
                cipher::chunk_aad(k, k == count),
            )
        }),
{
    let chunks = portions(plaintext);
    let h = default_header(salt, nonce);
    let key = kdf::argon2id(utf8::encode_utf8(s.password), salt, 65536, 3, 1);
    lemma_portions(plaintext);
    output_length(s, salt, nonce, plaintext, steps);
    encrypts_any_file(s, salt, nonce, chunks, steps);
    let t = run(s, FileAction::OpenInput, (salt, nonce), chunks, steps).0;
    let (h2, key2, chunks2) = choose|h2: HeaderView, key2: Seq<u8>, chunks2: Seq<Seq<u8>>|
        #[trigger] container::is_sealed_file(t.password, t.written, h2, key2, chunks2)
            && container::join(chunks2) == t.taken;
    let body = container::sealed_chunks(key, nonce, 0, chunks);
    let body2 = container::sealed_chunks(key2, h2.nonce, 0, chunks2);
    header::header_round_trip(h, body);
    header::header_round_trip(h2, body2);
    header::header_round_trip(h, Seq::empty());
    header::header_round_trip(h2, Seq::empty());
    assert(h == h2 && key == key2);
    assert(t.written.skip(HEADER_LEN as int) =~= body);
    assert(t.written.skip(HEADER_LEN as int) =~= body2);
    container::lemma_same_chunks(key, nonce, 0, chunks, chunks2);
    container::chunk_lies_in_its_place(t.password, t.written, h, key, chunks, k);
    lemma_portion_at(plaintext, k);
    if k == portion_count(plaintext.len() as int) {
        assert(plaintext.subrange(plaintext.len() as int, plaintext.len() as int) =~= Seq::empty());
    }
    header::layout_of_written_header(h);
    let head = header::header_bytes(h);
    let w = t.written;
    assert(w.take(7) =~= head.take(7));
    assert(w.subrange(7, 23) =~= head.subrange(7, 23));
    assert(w.subrange(23, 35) =~= head.subrange(23, 35));
    lemma_default_costs(h);
    assert(w.subrange(35, 47) =~= head.subrange(35, 47));
}

proof fn lemma_default_costs(h: HeaderView)
    requires
        h.wf(),
        h.m_cost == 65536,
        h.t_cost == 3,
        h.p_cost == 1,
    ensures
        header::header_bytes(h).subrange(35, 47) == seq![0u8, 1, 0, 0, 0, 0, 0, 3, 0, 0, 0, 1],
{
    header::layout_of_written_header(h);
    assert(header::header_bytes(h).subrange(35, 47) =~= seq![
        0u8,
        1,
        0,
        0,
        0,
        0,
        0,
        3,
        0,
        0,
        0,
        1,
    ]);
}

#[verifier::rlimit(40)]
proof fn lemma_actions_at(
    s: EncryptState,
    fresh: (Seq<u8>, Seq<u8>),
    chunks: Seq<Seq<u8>>,
    k: nat,
    r: nat,
)
    requires
        s.stage is Reading,
        0 <= s.index,
        s.index + chunks.len() <= u32::MAX,
        container::are_chunks(chunks),
        k <= chunks.len(),
        r <= 2 || k == chunks.len(),
    ensures
        ({
            let action = run(s, FileAction::Read(CHUNK_SIZE), fresh, chunks, 3 * k + r).1;
            if r == 0 {
                action == FileAction::<Seq<u8>>::Read(65536)
            } else if r == 1 {
                action == FileAction::Write(
                    cipher::chunk_frame(s.key, s.nonce, s.index + k, container::chunk_at(
                        chunks,
                        k as int,
                    )),
                )
            } else if r == 2 {
                action is ShowProgress
            } else if r == 3 {
                action is Finalize
            } else {
                action == FileAction::<Seq<u8>>::Finish(Ok(()))
            }
        }),
    decreases k,
{
    let steps = (3 * k + r) as nat;
    let (event, left) = answer(FileAction::Read(CHUNK_SIZE), chunks);
    let d = event->Data_0;
    let last = d.len() == 0;
    let (u, write) = s.seal(d);
    assert(s.next(event, Some(fresh)) == (u, write));
    let v = u.at(EncryptStage::Showing { last });
    let (w, after) = v.next(FileEvent::Done, Some(fresh));
    if steps >= 1 {
        assert(run(s, FileAction::Read(CHUNK_SIZE), fresh, chunks, steps) == run(
            u,
            write,
            fresh,
            left,
            (steps - 1) as nat,
        ));
    }
    if steps >= 2 {
        assert(run(u, write, fresh, left, (steps - 1) as nat) == run(
            v,
            FileAction::ShowProgress,
            fresh,
            left,
            (steps - 2) as nat,
        ));
    }
    if steps >= 3 {
        assert(run(v, FileAction::ShowProgress, fresh, left, (steps - 2) as nat) == run(
            w,
            after,
            fresh,
            left,
            (steps - 3) as nat,
        ));
    }
    if k > 0 {
        lemma_actions_at(w, fresh, left, (k - 1) as nat, r);
        assert(container::chunk_at(left, k - 1) == container::chunk_at(chunks, k as int));
    } else {
        assert(chunks.len() == 0 ==> d =~= container::chunk_at(chunks, 0));
        if r >= 3 {
            reveal_with_fuel(run, 3);
        }
    }
}

/// What a job asks for, step by step, where nothing fails and the input comes in the portions `chunks`:
/// to open the input, to create the temporary file, to write the header; for each portion to read, to
/// write it sealed, and to show it; the same for the empty chunk at the end of the input; and to put
/// the output in its place. Only then is it over.
#[verifier::rlimit(40)]
pub proof fn actions_of_an_encryption(
    s: EncryptState,
    salt: Seq<u8>,
    nonce: Seq<u8>,
    chunks: Seq<Seq<u8>>,
    i: nat,
)
    requires
        s == EncryptState::start(s.paths, s.password, s.replace),
        salt.len() == SALT_LEN,
        nonce.len() == NONCE_LEN,
        utf8::encode_utf8(s.password).len() <= 0xffff_ffff,
        chunks.len() <= u32::MAX,
        container::are_chunks(chunks),
    ensures
        ({
            let action = run(s, FileAction::OpenInput, (salt, nonce), chunks, i).1;
            let n = chunks.len() as int;
            let k = (i - 3) / 3;
            if i == 0 {
                action is OpenInput
            } else if i == 1 {
                action == FileAction::<Seq<u8>>::CreateTemp { replace: s.replace }
            } else if i == 2 {
                action == FileAction::Write(
                    header::header_bytes(
                        HeaderView { salt, nonce, m_cost: 65536, t_cost: 3, p_cost: 1 },
                    ),
                )
            } else if k <= n && (i - 3) % 3 == 0 {
                action == FileAction::<Seq<u8>>::Read(65536)
            } else if k <= n && (i - 3) % 3 == 1 {
                action == FileAction::Write(
                    cipher::chunk_frame(
                        kdf::argon2id(utf8::encode_utf8(s.password), salt, 65536, 3, 1),
                        nonce,
                        k,
                        if k < n {
                            chunks[k]
                        } else {
                            Seq::empty()
                        },
                    ),
                )
            } else if k <= n {
                action is ShowProgress
            } else if i == 3 * n + 6 {
                action is Finalize
            } else {
                action == FileAction::<Seq<u8>>::Finish(Ok(()))
            }
        }),
{
    let fresh = (salt, nonce);
    let create = FileAction::<Seq<u8>>::CreateTemp { replace: s.replace };
    let t = s.at(EncryptStage::Creating);
    let (u, write) = t.begin(salt, nonce);
    let v = u.at(EncryptStage::Reading);
    let n = chunks.len() as int;
    if i >= 1 {
        assert(run(s, FileAction::OpenInput, fresh, chunks, i) == run(
            t,
            create,
            fresh,
            chunks,
            (i - 1) as nat,
        ));
    }
    if i >= 2 {
        assert(run(t, create, fresh, chunks, (i - 1) as nat) == run(
            u,
            write,
            fresh,
            chunks,
            (i - 2) as nat,
        ));
    }
    if i >= 3 {
        assert(run(u, write, fresh, chunks, (i - 2) as nat) == run(
            v,
            FileAction::Read(CHUNK_SIZE),
            fresh,
            chunks,
            (i - 3) as nat,
        ));
        let k = (i - 3) / 3;
        if k <= n {
            lemma_actions_at(v, fresh, chunks, k as nat, ((i - 3) % 3) as nat);
        } else {
            lemma_actions_at(v, fresh, chunks, n as nat, (i - 3 - 3 * n) as nat);
        }
    }
}

/// A job that has its temporary file removed ends with the failure that led to it, whatever comes of
/// the removal.
pub proof fn removal_ends_with_its_failure(
    s: EncryptState,
    failure: Failure,
    event: FileEvent<Seq<u8>>,
    fresh: Option<(Seq<u8>, Seq<u8>)>,
)
    requires
        s.stage == EncryptStage::Removing(failure),
    ensures
        s.next(event, fresh).1 == FileAction::<Seq<u8>>::Finish(Err(failure)),
{
}

/// A key is held by a job only between the header and the end of the last chunk.
pub proof fn keys_are_wiped(s: EncryptState)
    requires
        s.faithful(),
        s.stage is Finalizing || s.stage is Removing || s.stage is Finished,
    ensures
        s.key == secret::wiped(),
{
}

/// Once the temporary file has been created, a job comes to its end only after asking that it be
/// removed or moved to the place of the output.
pub proof fn no_temporary_file_is_forgotten(
    s: EncryptState,
    event: FileEvent<Seq<u8>>,
    fresh: Option<(Seq<u8>, Seq<u8>)>,
)
    requires
        s.stage !is Opening && s.stage !is Finished,
        s.stage is Creating ==> event is Done,
    ensures
        ({
            let (t, action) = s.next(event, fresh);
            &&& action is Finish ==> s.stage is Removing || s.stage is Finalizing
            &&& t.stage is Removing <==> action is RemoveTemp
            &&& t.stage is Finalizing <==> action is Finalize
        }),
{
}

} // verus!
