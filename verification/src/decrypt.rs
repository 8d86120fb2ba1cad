//! The decryption of a file, chunk by chunk.

use vstd::prelude::*;
use vstd::slice::slice_to_vec;
use vstd::utf8;

use crate::bytes;
use crate::cipher;
use crate::cipher::TAG_LEN;
use crate::container;
use crate::encrypt::{EncryptStage, EncryptState};
use crate::failure::Failure;
use crate::header;
use crate::header::{CHUNK_SIZE, HEADER_LEN, NONCE_LEN};
use crate::job::{FileAction, FileEvent, JobPaths, PathsView};
use crate::kdf;
use crate::secret;

verus! {

/// What a [`DecryptJob`] is waiting for.
#[derive(Clone, Copy, Debug)]
pub enum DecryptStage {
    Opening,
    Creating,
    ReadingHeader,
    ReadingLength,
    ReadingChunk { len: usize },
    Writing { last: bool },
    Showing { last: bool },
    ReadingEnd,
    Finalizing,
    Removing(Failure),
    Finished(Result<(), Failure>),
}

/// The decryption of one file under way.
pub struct DecryptJob<'a> {
    paths: JobPaths<'a>,
    password: &'a str,
    replace: bool,
    stage: DecryptStage,
    key: [u8; 32],
    nonce: Vec<u8>,
    index: u32,
    taken: Ghost<Seq<u8>>,
    written: Ghost<Seq<u8>>,
}

/// What a [`DecryptJob`] knows, with the bytes that it has taken from the input and handed out for
/// the output so far.
#[verifier::ext_equal]
pub struct DecryptState {
    pub paths: PathsView,
    pub password: Seq<char>,
    pub replace: bool,
    pub stage: DecryptStage,
    pub key: Seq<u8>,
    pub nonce: Seq<u8>,
    pub index: int,
    pub taken: Seq<u8>,
    pub written: Seq<u8>,
}

impl<'a> View for DecryptJob<'a> {
    type V = DecryptState;

    closed spec fn view(&self) -> DecryptState {
        DecryptState {
            paths: self.paths@,
            password: self.password@,
            replace: self.replace,
            stage: self.stage,
            key: self.key@,
            nonce: self.nonce@,
            index: self.index as int,
            taken: self.taken@,
            written: self.written@,
        }
    }
}

impl DecryptState {
    /// A job that has done nothing yet.
    pub open spec fn start(
        paths: PathsView,
        password: Seq<char>,
        replace: bool,
    ) -> DecryptState {
        DecryptState {
            paths,
            password,
            replace,
            stage: DecryptStage::Opening,
            key: secret::wiped(),
            nonce: Seq::empty(),
            index: 0,
            taken: Seq::empty(),
            written: Seq::empty(),
        }
    }

    pub open spec fn at(self, stage: DecryptStage) -> DecryptState {
        DecryptState { stage, ..self }
    }

    pub open spec fn after(self, data: Seq<u8>) -> DecryptState {
        DecryptState { taken: self.taken + data, ..self }
    }

    /// The key is wiped and the temporary file goes.
    pub open spec fn abort(self, failure: Failure) -> (DecryptState, FileAction<Seq<u8>>) {
        (
            DecryptState {
                stage: DecryptStage::Removing(failure),
                key: secret::wiped(),
                ..self
            },
            FileAction::RemoveTemp,
        )
    }

    pub open spec fn finish(self, r: Result<(), Failure>) -> (
        DecryptState,
        FileAction<Seq<u8>>,
    ) {
        (self.at(DecryptStage::Finished(r)), FileAction::Finish(r))
    }

    /// The header is taken and the key derived at the costs that it names.
    pub open spec fn begin(self, head: Seq<u8>) -> (DecryptState, FileAction<Seq<u8>>) {
        match header::header_of(head) {
            Err(e) => self.after(head).abort(e),
            Ok(h) => match kdf::key_of(
                utf8::encode_utf8(self.password),
                h.salt,
                h.m_cost,
                h.t_cost,
                h.p_cost,
            ) {
                Err(e) => self.after(head).abort(e),
                Ok(key) => (
                    DecryptState {
                        stage: DecryptStage::ReadingLength,
                        key,
                        nonce: h.nonce,
                        index: 0,
                        ..self.after(head)
                    },
                    FileAction::ReadExact(4),
                ),
            },
        }
    }

    /// The length of a chunk is taken.
    pub open spec fn measure(self, data: Seq<u8>) -> (DecryptState, FileAction<Seq<u8>>) {
        let len = bytes::le32_value(data);
        if len > CHUNK_SIZE {
            self.after(data).abort(Failure::InvalidChunkSize)
        } else {
            (
                self.after(data).at(DecryptStage::ReadingChunk { len: len as usize }),
                FileAction::ReadExact((len + TAG_LEN) as usize),
            )
        }
    }

    /// A chunk is taken. Its plaintext goes out if the chunk is authentic.
    pub open spec fn open(self, sealed: Seq<u8>) -> (DecryptState, FileAction<Seq<u8>>) {
        let last = sealed.len() == TAG_LEN;
        match cipher::chunk_opened(self.key, self.nonce, self.index, sealed) {
            None => self.after(sealed).abort(Failure::Authentication),
            Some(plaintext) => if plaintext.len() > 0 {
                (
                    DecryptState {
                        stage: DecryptStage::Writing { last },
                        written: self.written + plaintext,
                        ..self.after(sealed)
                    },
                    FileAction::Write(plaintext),
                )
            } else {
                (
                    self.after(sealed).at(DecryptStage::Showing { last }),
                    FileAction::ShowProgress,
                )
            },
        }
    }

    /// What the job makes of `event`.
    pub open spec fn next(self, event: FileEvent<Seq<u8>>) -> (
        DecryptState,
        FileAction<Seq<u8>>,
    ) {
        match self.stage {
            DecryptStage::Opening => if event is Done {
                (
                    self.at(DecryptStage::Creating),
                    FileAction::CreateTemp { replace: self.replace },
                )
            } else {
                self.finish(Err(Failure::OpenInput))
            },
            DecryptStage::Creating => if event is Done {
                (self.at(DecryptStage::ReadingHeader), FileAction::ReadExact(HEADER_LEN))
            } else {
                self.finish(Err(Failure::CreateTemp))
            },
            DecryptStage::ReadingHeader => match event {
                FileEvent::Data(d) => if d.len() == HEADER_LEN {
                    self.begin(d)
                } else {
                    self.abort(Failure::HeaderTooShort)
                },
                _ => self.abort(Failure::HeaderTooShort),
            },
            DecryptStage::ReadingLength => match event {
                FileEvent::Data(d) => if d.len() == 4 {
                    self.measure(d)
                } else {
                    self.abort(Failure::ChunkLength)
                },
                FileEvent::EndOfInput => self.abort(Failure::MissingFinalChunk),
                _ => self.abort(Failure::ChunkLength),
            },
            DecryptStage::ReadingChunk { len } => match event {
                FileEvent::Data(d) => if d.len() == len + TAG_LEN {
                    self.open(d)
                } else {
                    self.abort(Failure::IncompleteChunk)
                },
                _ => self.abort(Failure::IncompleteChunk),
            },
            DecryptStage::Writing { last } => if event is Done {
                (self.at(DecryptStage::Showing { last }), FileAction::ShowProgress)
            } else {
                self.abort(Failure::Io)
            },
            DecryptStage::Showing { last } => if event !is Done {
                self.abort(Failure::Io)
            } else if last {
                (
                    DecryptState {
                        stage: DecryptStage::ReadingEnd,
                        key: secret::wiped(),
                        ..self
                    },
                    FileAction::Read(1),
                )
            } else {
                (
                    DecryptState {
                        stage: DecryptStage::ReadingLength,
                        index: self.index + 1,
                        ..self
                    },
                    FileAction::ReadExact(4),
                )
            },
            DecryptStage::ReadingEnd => match event {
                FileEvent::Data(d) => if d.len() == 0 {
                    (self.at(DecryptStage::Finalizing), FileAction::Finalize)
                } else {
                    self.after(d).abort(Failure::TrailingData)
                },
                _ => self.abort(Failure::Io),
            },
            DecryptStage::Finalizing => if event is Done {
                self.finish(Ok(()))
            } else {
                self.finish(Err(Failure::FinalizeDecrypted))
            },
            DecryptStage::Removing(failure) => self.finish(Err(failure)),
            DecryptStage::Finished(r) => self.finish(r),
        }
    }

    /// One more chunk would be one more than an index of 32 bits can count.
    pub open spec fn at_limit(self) -> bool {
        self.stage == (DecryptStage::Showing { last: false }) && self.index == u32::MAX
    }

    /// The job is not over, and `event` does not ask for a chunk that cannot be counted.
    pub open spec fn may_take(self, event: FileEvent<Seq<u8>>) -> bool {
        self.stage !is Finished && !(self.at_limit() && event is Done)
    }

    /// What was handed out so far is what reading the taken bytes finds, and the taken bytes are
    /// what it is sealed as. A key is held only while chunks are opened.
    pub open spec fn faithful(self) -> bool {
        let keyed = container::is_keyed(self.password, self.taken, self.key, self.nonce)
            && self.nonce.len() == NONCE_LEN;
        let body = self.taken.skip(HEADER_LEN as int);
        &&& 0 <= self.index <= u32::MAX
        &&& match self.stage {
            DecryptStage::Opening | DecryptStage::Creating | DecryptStage::ReadingHeader => {
                &&& self.key == secret::wiped()
                &&& self.taken == Seq::<u8>::empty()
                &&& self.written == Seq::<u8>::empty()
            },
            DecryptStage::ReadingLength => {
                &&& keyed
                &&& container::leads_to(self.key, self.nonce, 0, body, self.index, self.written)
                &&& container::sealed_so_far(self.key, self.nonce, self.index, body, self.written)
            },
            DecryptStage::ReadingChunk { len } => {
                let before = self.taken.take(self.taken.len() - 4);
                let body = before.skip(HEADER_LEN as int);
                &&& len <= CHUNK_SIZE
                &&& self.taken.len() >= HEADER_LEN + 4
                &&& container::is_keyed(self.password, before, self.key, self.nonce)
                &&& self.nonce.len() == NONCE_LEN
                &&& self.taken == before + bytes::le32(len as int)
                &&& container::leads_to(self.key, self.nonce, 0, body, self.index, self.written)
                &&& container::sealed_so_far(self.key, self.nonce, self.index, body, self.written)
            },
            DecryptStage::Writing { last } | DecryptStage::Showing { last } => {
                &&& keyed
                &&& if last {
                    let n = self.index;
                    &&& container::leads_to_end(self.key, self.nonce, 0, body, n, self.written)
                    &&& container::sealed_to_end(self.key, self.nonce, n, body, self.written)
                } else {
                    let n = self.index + 1;
                    &&& container::leads_to(self.key, self.nonce, 0, body, n, self.written)
                    &&& container::sealed_so_far(self.key, self.nonce, n, body, self.written)
                }
            },
            DecryptStage::ReadingEnd | DecryptStage::Finalizing | DecryptStage::Finished(
                Ok(()),
            ) => {
                &&& self.key == secret::wiped()
                &&& container::read_file(self.password, self.taken) == Ok::<Seq<u8>, Failure>(
                    self.written,
                )
                &&& container::chunk_count(body) == self.index
                &&& container::is_encryption(self.password, self.taken, self.written)
            },
            DecryptStage::Removing(_) | DecryptStage::Finished(Err(_)) => {
                self.key == secret::wiped()
            },
        }
    }
}

/// Starts the decryption of the file at `input_path` into a file at `output_path`, with
/// `first_action`.
pub fn decrypt_file<'a>(input_path: &'a str, output_path: &'a str, password: &'a str) -> (job:
    DecryptJob<'a>)
    ensures
        job@ == DecryptState::start(PathsView::of(input_path@, output_path@), password@, false),
        job@.faithful(),
        job@.paths.input == input_path@,
        job@.paths.output == output_path@,
        job@.paths.temp == output_path@ + ".tmp"@,
        job@.password == password@,
        !job@.replace,
        job@.stage is Opening,
{
    let key = [0u8; 32];
    assert(key@ =~= secret::wiped());
    DecryptJob {
        paths: JobPaths::new(input_path, output_path),
        password,
        replace: false,
        stage: DecryptStage::Opening,
        key,
        nonce: Vec::new(),
        index: 0,
        taken: Ghost(Seq::empty()),
        written: Ghost(Seq::empty()),
    }
}

impl<'a> DecryptJob<'a> {
    /// What is to be done first: to open the input.
    pub fn first_action(&self) -> (action: FileAction<Vec<u8>>)
        requires
            self@.stage is Opening,
        ensures
            action@ == FileAction::<Seq<u8>>::OpenInput,
    {
        FileAction::OpenInput
    }

    /// Lets this job replace what is at the path of the temporary file. Otherwise a job that finds
    /// something there comes to its end and leaves it alone.
    pub fn replace_temp(&mut self)
        requires
            old(self)@.faithful(),
            old(self)@.stage is Opening,
        ensures
            final(self)@ == (DecryptState { replace: true, ..old(self)@ }),
            final(self)@.faithful(),
    {
        self.replace = true;
    }

    /// The files that this job is about.
    pub fn paths(&self) -> (paths: &JobPaths<'a>)
        ensures
            paths@ == self@.paths,
            paths.input@ == self@.paths.input,
            paths.output@ == self@.paths.output,
            paths.temp@ == self@.paths.temp,
    {
        &self.paths
    }

    /// Tells whether any byte of a key is left.
    pub fn holds_key(&self) -> (held: bool)
        ensures
            held == (self@.key != secret::wiped()),
    {
        secret::is_left(&self.key)
    }

    /// Tells whether one more chunk would be one more than can be counted.
    pub fn at_chunk_limit(&self) -> (limit: bool)
        ensures
            limit == self@.at_limit(),
    {
        match self.stage {
            DecryptStage::Showing { last } => !last && self.index == u32::MAX,
            _ => false,
        }
    }

    fn finish(&mut self, r: Result<(), Failure>) -> (action: FileAction<Vec<u8>>)
        ensures
            (final(self)@, action@) == old(self)@.finish(r),
    {
        self.stage = DecryptStage::Finished(r);
        FileAction::Finish(r)
    }

    fn abort(&mut self, failure: Failure) -> (action: FileAction<Vec<u8>>)
        ensures
            (final(self)@, action@) == old(self)@.abort(failure),
    {
        secret::wipe(&mut self.key);
        self.stage = DecryptStage::Removing(failure);
        FileAction::RemoveTemp
    }

    #[verifier::rlimit(40)]
    fn begin(&mut self, head: &[u8]) -> (action: FileAction<Vec<u8>>)
        requires
            old(self)@.faithful(),
            old(self)@.stage is ReadingHeader,
            head@.len() == HEADER_LEN,
        ensures
            (final(self)@, action@) == old(self)@.begin(head@),
            final(self)@.faithful(),
    {
        self.taken = Ghost(self.taken@ + head@);
        match header::parse_header(head) {
            Err(e) => self.abort(e),
            Ok(h) => match kdf::derive_key(self.password, h.salt, h.m_cost, h.t_cost, h.p_cost) {
                Err(e) => self.abort(e),
                Ok(mut key) => {
                    self.stage = DecryptStage::ReadingLength;
                    self.key = key;
                    secret::wipe(&mut key);
                    self.nonce = slice_to_vec(h.nonce);
                    self.index = 0;
                    proof {
                        assert(self@.taken =~= head@);
                        assert(self@.taken.skip(HEADER_LEN as int) =~= Seq::<u8>::empty());
                        container::lemma_nothing_read(self@.key, self@.nonce, 0);
                        container::lemma_nothing_sealed(self@.key, self@.nonce);
                    }
                    FileAction::ReadExact(4)
                },
            },
        }
    }

    #[verifier::rlimit(40)]
    fn measure(&mut self, data: &[u8]) -> (action: FileAction<Vec<u8>>)
        requires
            old(self)@.faithful(),
            old(self)@.stage is ReadingLength,
            data@.len() == 4,
        ensures
            (final(self)@, action@) == old(self)@.measure(data@),
            final(self)@.faithful(),
    {
        let ghost s = self@;
        let len = bytes::read_le32(data, 0);
        assert(data@.subrange(0, 4) =~= data@);
        self.taken = Ghost(self.taken@ + data@);
        if len as usize > CHUNK_SIZE {
            return self.abort(Failure::InvalidChunkSize);
        }
        self.stage = DecryptStage::ReadingChunk { len: len as usize };
        proof {
            bytes::bytes_round_trip(data@);
            assert(self@.taken.take(self@.taken.len() - 4) =~= s.taken);
        }
        FileAction::ReadExact(len as usize + TAG_LEN)
    }

    #[verifier::rlimit(40)]
    fn open(&mut self, sealed: &[u8]) -> (action: FileAction<Vec<u8>>)
        requires
            old(self)@.faithful(),
            old(self)@.stage matches DecryptStage::ReadingChunk { len } && sealed@.len() == len
                + TAG_LEN,
        ensures
            (final(self)@, action@) == old(self)@.open(sealed@),
            final(self)@.faithful(),
    {
        let ghost s = self@;
        let last = sealed.len() == TAG_LEN;
        let opened = cipher::open_chunk(&self.key, &self.nonce, self.index, sealed);
        self.taken = Ghost(self.taken@ + sealed@);
        match opened {
            Err(e) => self.abort(e),
            Ok(plaintext) => {
                proof {
                    let before = s.taken.take(s.taken.len() - 4);
                    let body = before.skip(HEADER_LEN as int);
                    let frame = bytes::le32(plaintext@.len() as int) + sealed@;
                    assert(frame.take(4) =~= bytes::le32(plaintext@.len() as int));
                    assert(frame.skip(4) =~= sealed@);
                    container::lemma_frame_is_read(s.key, s.nonce, s.index, frame, plaintext@);
                    container::lemma_leads_on(
                        s.key,
                        s.nonce,
                        0,
                        body,
                        s.index,
                        s.written,
                        frame,
                        if plaintext@.len() > 0 {
                            s.index + 1
                        } else {
                            s.index
                        },
                        plaintext@,
                    );
                    container::lemma_one_more_sealed(
                        s.key,
                        s.nonce,
                        s.index,
                        body,
                        s.written,
                        plaintext@,
                    );
                    container::lemma_keyed_grows(s.password, before, s.key, s.nonce, frame);
                    assert(self@.taken =~= before + frame);
                    if plaintext@.len() == 0 {
                        assert(s.written + plaintext@ =~= s.written);
                    }
                }
                if plaintext.len() > 0 {
                    self.stage = DecryptStage::Writing { last };
                    self.written = Ghost(self.written@ + plaintext@);
                    FileAction::Write(plaintext)
                } else {
                    self.stage = DecryptStage::Showing { last };
                    FileAction::ShowProgress
                }
            },
        }
    }

    /// Takes the answer to the last action and gives the next one.
    ///
    /// The output is moved to its place only when the input is over, all that was handed out for
    /// it is what the password finds in all that was taken, and what was taken is, to the last bit,
    /// what the encryption of it with that password gives.
    #[verifier::rlimit(40)]
    pub fn step(&mut self, event: FileEvent<Vec<u8>>) -> (action: FileAction<Vec<u8>>)
        requires
            old(self)@.faithful(),
            old(self)@.may_take(event@),
        ensures
            (final(self)@, action@) == old(self)@.next(event@),
            final(self)@.faithful(),
            action matches FileAction::Write(b) ==> final(self)@.written == old(self)@.written
                + b@,
            action is Finalize || action is RemoveTemp || action is Finish ==> {
                &&& final(self)@.key.len() == 32
                &&& forall|i: int| 0 <= i < 32 ==> final(self)@.key[i] == 0
            },
            action is Finalize ==> container::read_file(
                final(self)@.password,
                final(self)@.taken,
            ) == Ok::<Seq<u8>, Failure>(final(self)@.written),
            action is Finalize ==> container::is_encryption(
                final(self)@.password,
                final(self)@.taken,
                final(self)@.written,
            ),
    {
        let ghost s = self@;
        let done = match &event {
            FileEvent::Done => true,
            _ => false,
        };
        match self.stage {
            DecryptStage::Opening => if done {
                self.stage = DecryptStage::Creating;
                FileAction::CreateTemp { replace: self.replace }
            } else {
                self.finish(Err(Failure::OpenInput))
            },
            DecryptStage::Creating => if done {
                self.stage = DecryptStage::ReadingHeader;
                FileAction::ReadExact(HEADER_LEN)
            } else {
                self.finish(Err(Failure::CreateTemp))
            },
            DecryptStage::ReadingHeader => match &event {
                FileEvent::Data(d) => if d.len() == HEADER_LEN {
                    self.begin(d)
                } else {
                    self.abort(Failure::HeaderTooShort)
                },
                _ => self.abort(Failure::HeaderTooShort),
            },
            DecryptStage::ReadingLength => match &event {
                FileEvent::Data(d) => if d.len() == 4 {
                    self.measure(d)
                } else {
                    self.abort(Failure::ChunkLength)
                },
                FileEvent::EndOfInput => self.abort(Failure::MissingFinalChunk),
                _ => self.abort(Failure::ChunkLength),
            },
            DecryptStage::ReadingChunk { len } => match &event {
                FileEvent::Data(d) => if d.len() == len + TAG_LEN {
                    self.open(d)
                } else {
                    self.abort(Failure::IncompleteChunk)
                },
                _ => self.abort(Failure::IncompleteChunk),
            },
            DecryptStage::Writing { last } => if done {
                self.stage = DecryptStage::Showing { last };
                FileAction::ShowProgress
            } else {
                self.abort(Failure::Io)
            },
            DecryptStage::Showing { last } => if !done {
                self.abort(Failure::Io)
            } else if last {
                proof {
                    container::lemma_whole_file(
                        s.password,
                        s.taken,
                        s.key,
                        s.nonce,
                        s.index,
                        s.written,
                    );
                    container::lemma_sealed_file(
                        s.password,
                        s.taken,
                        s.key,
                        s.nonce,
                        s.index,
                        s.written,
                    );
                }
                secret::wipe(&mut self.key);
                self.stage = DecryptStage::ReadingEnd;
                FileAction::Read(1)
            } else {
                self.index = self.index + 1;
                self.stage = DecryptStage::ReadingLength;
                FileAction::ReadExact(4)
            },
            DecryptStage::ReadingEnd => match &event {
                FileEvent::Data(d) => if d.len() == 0 {
                    self.stage = DecryptStage::Finalizing;
                    FileAction::Finalize
                } else {
                    self.taken = Ghost(self.taken@ + d@);
                    self.abort(Failure::TrailingData)
                },
                _ => self.abort(Failure::Io),
            },
            DecryptStage::Finalizing => if done {
                self.finish(Ok(()))
            } else {
                self.finish(Err(Failure::FinalizeDecrypted))
            },
            DecryptStage::Removing(failure) => self.finish(Err(failure)),
            DecryptStage::Finished(r) => self.finish(r),
        }
    }
}

/// How many bytes the job cannot do without.
pub open spec fn asked_for(stage: DecryptStage) -> int {
    match stage {
        DecryptStage::ReadingHeader => HEADER_LEN as int,
        DecryptStage::ReadingLength => 4,
        DecryptStage::ReadingChunk { len } => len + TAG_LEN,
        _ => 0,
    }
}

/// Reading the file goes on as the job does: `tail` is what follows the bytes taken so far.
#[verifier::rlimit(40)]
proof fn lemma_reading_goes_on(s: DecryptState, tail: Seq<u8>)
    requires
        s.faithful(),
        s.stage is ReadingLength || s.stage is ReadingChunk,
    ensures
        ({
            let left = match s.stage {
                DecryptStage::ReadingChunk { len } => bytes::le32(len as int) + tail,
                _ => tail,
            };
            container::read_chunks(s.key, s.nonce, s.index, left) matches Err(e)
                ==> container::read_file(s.password, s.taken + tail) == Err::<Seq<u8>, Failure>(e)
        }),
{
    let (before, left) = match s.stage {
        DecryptStage::ReadingChunk { len } => (
            s.taken.take(s.taken.len() - 4),
            bytes::le32(len as int) + tail,
        ),
        _ => (s.taken, tail),
    };
    let body = before.skip(HEADER_LEN as int);
    container::lemma_keyed_grows(s.password, before, s.key, s.nonce, left);
    assert(s.taken + tail =~= before + left);
    assert(container::read_chunks(s.key, s.nonce, 0, body + left) == container::then_read(
        s.written,
        container::read_chunks(s.key, s.nonce, s.index, left),
    ));
}

proof fn lemma_refused_header(s: DecryptState, data: Seq<u8>, rest: Seq<u8>)
    requires
        s.faithful(),
        s.stage is ReadingHeader,
        data.len() == HEADER_LEN,
    ensures
        s.begin(data).0.stage matches DecryptStage::Removing(e) ==> container::read_file(
            s.password,
            s.taken + (data + rest),
        ) == Err::<Seq<u8>, Failure>(e),
{
    assert(s.taken + (data + rest) =~= data + rest);
    header::header_ignores_rest(data, rest);
}

proof fn lemma_refused_length(s: DecryptState, data: Seq<u8>, rest: Seq<u8>)
    requires
        s.faithful(),
        s.stage is ReadingLength,
        data.len() == 4,
    ensures
        s.measure(data).0.stage matches DecryptStage::Removing(e) ==> container::read_file(
            s.password,
            s.taken + (data + rest),
        ) == Err::<Seq<u8>, Failure>(e),
{
    lemma_reading_goes_on(s, data + rest);
    assert((data + rest).take(4) =~= data);
}

#[verifier::rlimit(40)]
proof fn lemma_refused_chunk(s: DecryptState, len: usize, data: Seq<u8>, rest: Seq<u8>)
    requires
        s.faithful(),
        s.stage == (DecryptStage::ReadingChunk { len }),
        data.len() == len + TAG_LEN,
    ensures
        s.open(data).0.stage matches DecryptStage::Removing(e) ==> container::read_file(
            s.password,
            s.taken + (data + rest),
        ) == Err::<Seq<u8>, Failure>(e),
{
    lemma_reading_goes_on(s, data + rest);
    let frame = bytes::le32(len as int) + (data + rest);
    bytes::number_round_trip(len as u32);
    assert(frame.take(4) =~= bytes::le32(len as int));
    assert(frame.subrange(4, 4 + len + TAG_LEN) =~= data);
}

/// A job that refuses the bytes that it asked for, or any after the last chunk, does so with the
/// very failure that reading the file gives, whatever follows those bytes.
#[verifier::rlimit(40)]
pub proof fn refused_bytes_are_unreadable(s: DecryptState, data: Seq<u8>, rest: Seq<u8>)
    requires
        s.faithful(),
        data.len() > 0,
        data.len() == asked_for(s.stage) || s.stage is ReadingEnd,
    ensures
        s.next(FileEvent::Data(data)).0.stage matches DecryptStage::Removing(e)
            ==> container::read_file(s.password, s.taken + data + rest) == Err::<Seq<u8>, Failure>(
            e,
        ),
{
    assert(s.taken + data + rest =~= s.taken + (data + rest));
    match s.stage {
        DecryptStage::ReadingHeader => {
            lemma_refused_header(s, data, rest);
            assert(s.next(FileEvent::Data(data)) == s.begin(data));
        },
        DecryptStage::ReadingLength => {
            lemma_refused_length(s, data, rest);
            assert(s.next(FileEvent::Data(data)) == s.measure(data));
        },
        DecryptStage::ReadingChunk { len } => {
            lemma_refused_chunk(s, len, data, rest);
            assert(s.next(FileEvent::Data(data)) == s.open(data));
        },
        DecryptStage::ReadingEnd => {
            container::appended_bytes_are_refused(s.password, s.taken, data + rest);
        },
        _ => {},
    }
}

/// A job whose input ends, with `rest` left and less than it asked for, refuses with the very
/// failure that reading the file gives.
#[verifier::rlimit(40)]
pub proof fn refused_end_is_truncation(s: DecryptState, rest: Seq<u8>)
    requires
        s.faithful(),
        rest.len() < asked_for(s.stage),
    ensures
        s.next(FileEvent::EndOfInput).0.stage matches DecryptStage::Removing(e)
            && container::read_file(s.password, s.taken + rest) == Err::<Seq<u8>, Failure>(e),
{
    match s.stage {
        DecryptStage::ReadingHeader => {
            assert(s.taken + rest =~= rest);
        },
        DecryptStage::ReadingLength => {
            lemma_reading_goes_on(s, rest);
        },
        DecryptStage::ReadingChunk { len } => {
            lemma_reading_goes_on(s, rest);
            let frame = bytes::le32(len as int) + rest;
            bytes::number_round_trip(len as u32);
            assert(frame.take(4) =~= bytes::le32(len as int));
        },
        _ => {},
    }
}

/// The answer to `action` where nothing fails and `rest` is what is left of the input, and what is
/// left of it then.
pub open spec fn answer(action: FileAction<Seq<u8>>, rest: Seq<u8>) -> (
    FileEvent<Seq<u8>>,
    Seq<u8>,
) {
    match action {
        FileAction::ReadExact(n) => if rest.len() >= n {
            (FileEvent::Data(rest.take(n as int)), rest.skip(n as int))
        } else {
            (FileEvent::EndOfInput, rest)
        },
        FileAction::Read(n) => {
            let k = if rest.len() < n {
                rest.len() as int
            } else {
                n as int
            };
            (FileEvent::Data(rest.take(k)), rest.skip(k))
        },
        _ => (FileEvent::Done, rest),
    }
}

/// Where a job gets to in `steps` steps, or sooner if it can go no further, where nothing fails and
/// `rest` is what is left of the input.
pub open spec fn run(
    s: DecryptState,
    action: FileAction<Seq<u8>>,
    rest: Seq<u8>,
    steps: nat,
) -> (DecryptState, FileAction<Seq<u8>>)
    decreases steps,
{
    let (event, left) = answer(action, rest);
    if steps == 0 || !s.may_take(event) {
        (s, action)
    } else {
        let (t, then) = s.next(event);
        run(t, then, left, (steps - 1) as nat)
    }
}

proof fn lemma_run_ends(s: DecryptState, action: FileAction<Seq<u8>>, rest: Seq<u8>, steps: nat)
    requires
        s.stage is Removing && action is RemoveTemp || s.stage is Finalizing && action is Finalize,
        steps >= 1,
    ensures
        run(s, action, rest, steps) == match s.stage {
            DecryptStage::Removing(e) => s.finish(Err(e)),
            _ => s.finish(Ok(())),
        },
{
    reveal_with_fuel(run, 2);
}

/// The end of a run, after the last chunk.
proof fn lemma_run_end(s: DecryptState, rest: Seq<u8>, steps: nat)
    requires
        s.stage is ReadingEnd,
        steps >= 2,
    ensures
        ({
            let result = run(s, FileAction::Read(1), rest, steps);
            if rest.len() == 0 {
                result == s.finish(Ok(()))
            } else {
                &&& result.0.stage is Finished
                &&& result.1 == FileAction::<Seq<u8>>::Finish(Err(Failure::TrailingData))
            }
        }),
{
    let (event, left) = answer(FileAction::Read(1), rest);
    let (t, action) = s.next(event);
    assert(run(s, FileAction::Read(1), rest, steps) == run(t, action, left, (steps - 1) as nat));
    lemma_run_ends(t, action, left, (steps - 1) as nat);
}

/// One chunk of a run: its length, its ciphertext, and the plaintext.
#[verifier::rlimit(40)]
proof fn lemma_run_chunk(s: DecryptState, rest: Seq<u8>, steps: nat)
    requires
        s.stage is ReadingLength,
        s.index <= u32::MAX,
        steps >= 7,
        rest.len() >= 4,
        bytes::le32_value(rest.take(4)) <= CHUNK_SIZE,
        rest.len() >= 4 + bytes::le32_value(rest.take(4)) + TAG_LEN,
    ensures
        ({
            let len = bytes::le32_value(rest.take(4));
            let end = 4 + len + TAG_LEN;
            let result = run(s, FileAction::ReadExact(4), rest, steps);
            match cipher::chunk_opened(s.key, s.nonce, s.index, rest.subrange(4, end)) {
                None => {
                    &&& result.0.stage is Finished
                    &&& result.1 == FileAction::<Seq<u8>>::Finish(Err(Failure::Authentication))
                },
                Some(p) => {
                    let v = DecryptState {
                        taken: s.taken + rest.take(end),
                        written: s.written + p,
                        ..s
                    };
                    if len == 0 && rest.len() == end {
                        result == (DecryptState {
                            stage: DecryptStage::Finished(Ok(())),
                            key: secret::wiped(),
                            ..v
                        }, FileAction::<Seq<u8>>::Finish(Ok(())))
                    } else if len == 0 {
                        &&& result.0.stage is Finished
                        &&& result.1 == FileAction::<Seq<u8>>::Finish(Err(Failure::TrailingData))
                    } else if s.index == u32::MAX {
                        result.0.at_limit()
                    } else {
                        exists|k: nat| 3 <= k <= 4 && result == #[trigger] run(
                            DecryptState { index: s.index + 1, ..v },
                            FileAction::ReadExact(4),
                            rest.skip(end),
                            (steps - k) as nat,
                        )
                    }
                },
            }
        }),
{
    let head = rest.take(4);
    let len = bytes::le32_value(head);
    let end = 4 + len + TAG_LEN;
    let tail = rest.skip(4);
    let ask = (len + TAG_LEN) as usize;
    let sealed = tail.take(ask as int);
    let left = tail.skip(ask as int);
    assert(sealed =~= rest.subrange(4, end));
    assert(left =~= rest.skip(end));
    let u = s.after(head).at(DecryptStage::ReadingChunk { len: len as usize });
    assert(s.next(FileEvent::Data(head)) == (u, FileAction::<Seq<u8>>::ReadExact(ask)));
    assert(run(s, FileAction::ReadExact(4), rest, steps) == run(
        u,
        FileAction::ReadExact(ask),
        tail,
        (steps - 1) as nat,
    ));
    let (v, action) = u.open(sealed);
    assert(u.next(FileEvent::Data(sealed)) == (v, action));
    assert(run(u, FileAction::ReadExact(ask), tail, (steps - 1) as nat) == run(
        v,
        action,
        left,
        (steps - 2) as nat,
    ));
    match cipher::chunk_opened(s.key, s.nonce, s.index, sealed) {
        None => {
            lemma_run_ends(v, action, left, (steps - 2) as nat);
        },
        Some(p) => {
            let last = len == 0;
            let w = v.at(DecryptStage::Showing { last });
            let k: nat = if p.len() > 0 {
                3
            } else {
                2
            };
            if p.len() > 0 {
                assert(v.next(FileEvent::Done) == (w, FileAction::<Seq<u8>>::ShowProgress));
                assert(run(v, action, left, (steps - 2) as nat) == run(
                    w,
                    FileAction::ShowProgress,
                    left,
                    (steps - 3) as nat,
                ));
            } else {
                assert(s.written + p =~= s.written);
            }
            assert(v.taken =~= s.taken + rest.take(end));
            let (x, after) = w.next(FileEvent::Done);
            if !w.at_limit() {
                assert(run(w, FileAction::ShowProgress, left, (steps - k) as nat) == run(
                    x,
                    after,
                    left,
                    (steps - k - 1) as nat,
                ));
            }
            let done = DecryptState {
                taken: s.taken + rest.take(end),
                written: s.written + p,
                ..s
            };
            if last {
                lemma_run_end(x, left, (steps - k - 1) as nat);
                assert(x.at(DecryptStage::Finished(Ok(()))) =~= DecryptState {
                    stage: DecryptStage::Finished(Ok(())),
                    key: secret::wiped(),
                    ..done
                });
            } else if !w.at_limit() {
                assert(x =~= DecryptState { index: s.index + 1, ..done });
                assert(steps - k - 1 == steps - (k + 1));
            }
        },
    }
}

#[verifier::rlimit(40)]
proof fn lemma_run_chunks(s: DecryptState, rest: Seq<u8>, steps: nat)
    requires
        s.stage is ReadingLength,
        s.index <= u32::MAX,
        steps >= 4 * rest.len() + 7,
    ensures
        ({
            let (t, action) = run(s, FileAction::ReadExact(4), rest, steps);
            &&& t.at_limit() == container::outruns_index(s.key, s.nonce, s.index, rest)
            &&& !t.at_limit() ==> match container::read_chunks(s.key, s.nonce, s.index, rest) {
                Ok(plaintext) => {
                    &&& action == FileAction::<Seq<u8>>::Finish(Ok(()))
                    &&& t.written == s.written + plaintext
                    &&& t.taken == s.taken + rest
                },
                Err(e) => action == FileAction::<Seq<u8>>::Finish(Err(e)),
            }
        }),
    decreases rest.len(),
{
    let len = bytes::le32_value(rest.take(4));
    let end = 4 + len + TAG_LEN;
    if rest.len() < 4 {
        let (u, action) = s.next(FileEvent::EndOfInput);
        lemma_run_ends(u, action, rest, (steps - 1) as nat);
    } else if len > CHUNK_SIZE {
        let (u, action) = s.next(FileEvent::Data(rest.take(4)));
        lemma_run_ends(u, action, rest.skip(4), (steps - 1) as nat);
    } else if rest.len() < end {
        let (u, ask) = s.next(FileEvent::Data(rest.take(4)));
        let (v, action) = u.next(FileEvent::EndOfInput);
        lemma_run_ends(v, action, rest.skip(4), (steps - 2) as nat);
        assert(run(u, ask, rest.skip(4), (steps - 1) as nat) == run(
            v,
            action,
            rest.skip(4),
            (steps - 2) as nat,
        ));
    } else {
        lemma_run_chunk(s, rest, steps);
        if let Some(p) = cipher::chunk_opened(s.key, s.nonce, s.index, rest.subrange(4, end)) {
            if len > 0 && s.index < u32::MAX {
                let v = DecryptState {
                    taken: s.taken + rest.take(end),
                    written: s.written + p,
                    index: s.index + 1,
                    ..s
                };
                let k = choose|k: nat|
                    3 <= k <= 4 && run(s, FileAction::ReadExact(4), rest, steps) == #[trigger] run(
                        v,
                        FileAction::ReadExact(4),
                        rest.skip(end),
                        (steps - k) as nat,
                    );
                lemma_run_chunks(v, rest.skip(end), (steps - k) as nat);
                if let Ok(q) = container::read_chunks(s.key, s.nonce, s.index + 1, rest.skip(end)) {
                    assert((s.written + p) + q =~= s.written + (p + q));
                    assert(v.taken + rest.skip(end) =~= s.taken + rest);
                }
            } else if len == 0 && rest.len() == end {
                assert(rest.take(end) =~= rest);
            }
        }
    }
}

/// Where nothing fails, a job comes to its end with exactly what the password finds in the file: it
/// succeeds with the plaintext written and the whole file taken, or it ends with the failure that
/// the file deserves. What keeps it from its end is exactly a file of more chunks than an index of 32
/// bits can count, all of which open.
#[verifier::rlimit(40)]
pub proof fn decrypts_what_can_be_read(s: DecryptState, file: Seq<u8>, steps: nat)
    requires
        s == DecryptState::start(s.paths, s.password, s.replace),
        steps >= 4 * file.len() + 10,
    ensures
        ({
            let (t, action) = run(s, FileAction::OpenInput, file, steps);
            &&& t.at_limit() == container::file_outruns_index(s.password, file)
            &&& t.at_limit() ==> file.len() >= HEADER_LEN && container::chunk_count(
                file.skip(HEADER_LEN as int),
            ) > u32::MAX
            &&& t.at_limit() ==> file.len() > 47 + 21 * 4294967295
            &&& !t.at_limit() ==> match container::read_file(s.password, file) {
                Ok(plaintext) => {
                    &&& action == FileAction::<Seq<u8>>::Finish(Ok(()))
                    &&& t.written == plaintext
                    &&& t.taken == file
                },
                Err(e) => action == FileAction::<Seq<u8>>::Finish(Err(e)),
            }
        }),
{
    reveal_with_fuel(run, 6);
    if file.len() >= HEADER_LEN {
        let head = file.take(HEADER_LEN as int);
        let body = file.skip(HEADER_LEN as int);
        assert(head + body =~= file);
        header::header_ignores_rest(head, body);
        let (u, action) = s.begin(head);
        if u.stage is ReadingLength {
            assert(run(s, FileAction::OpenInput, file, steps) == run(
                u,
                FileAction::ReadExact(4),
                body,
                (steps - 3) as nat,
            ));
            lemma_run_chunks(u, body, (steps - 3) as nat);
            assert(container::is_keyed(s.password, file, u.key, u.nonce));
            if container::outruns_index(u.key, u.nonce, 0, body) {
                container::lemma_outruns_by_chunks(u.key, u.nonce, 0, body);
                container::counted_chunks_take_their_bytes(body);
            }
            if let Ok(plaintext) = container::read_chunks(u.key, u.nonce, 0, body) {
                assert(u.written + plaintext =~= plaintext);
                assert(u.taken + body =~= file);
            }
        }
    }
}

/// What is encrypted is decrypted, in whatever portions it was read: a job that is given all that an
/// encrypting job wrote, up to its end, and the same password succeeds, takes all of it, and writes
/// all that was encrypted.
pub proof fn what_was_encrypted_is_decrypted(e: EncryptState, s: DecryptState, steps: nat)
    requires
        e.faithful(),
        e.stage is Finalizing || e.stage == EncryptStage::Finished(Ok(())),
        s == DecryptState::start(s.paths, e.password, s.replace),
        steps >= 4 * e.written.len() + 10,
    ensures
        ({
            let (t, action) = run(s, FileAction::OpenInput, e.written, steps);
            &&& action == FileAction::<Seq<u8>>::Finish(Ok(()))
            &&& t.written == e.taken
            &&& t.taken == e.written
        }),
{
    decrypts_what_can_be_read(s, e.written, steps);
}

#[verifier::rlimit(40)]
proof fn lemma_actions_at(
    s: DecryptState,
    frames: Seq<Seq<u8>>,
    chunks: Seq<Seq<u8>>,
    k: nat,
    r: nat,
)
    requires
        s.stage is ReadingLength,
        0 <= s.index,
        s.index + chunks.len() <= u32::MAX,
        container::are_frames(s.key, s.nonce, s.index, frames, chunks),
        k < chunks.len(),
        r <= 3 || k == chunks.len() - 1,
    ensures
        ({
            let action = run(s, FileAction::ReadExact(4), container::join(frames), 4 * k + r).1;
            let p = chunks[k as int];
            if r == 0 {
                action == FileAction::<Seq<u8>>::ReadExact(4)
            } else if r == 1 {
                action == FileAction::<Seq<u8>>::ReadExact((p.len() + 16) as usize)
            } else if k < chunks.len() - 1 && r == 2 {
                action == FileAction::Write(p)
            } else if k < chunks.len() - 1 || r == 2 {
                action is ShowProgress
            } else if r == 3 {
                action == FileAction::<Seq<u8>>::Read(1)
            } else if r == 4 {
                action is Finalize
            } else {
                action == FileAction::<Seq<u8>>::Finish(Ok(()))
            }
        }),
    decreases k,
{
    let steps = (4 * k + r) as nat;
    let rest = container::join(frames);
    let (frame, p) = (frames[0], chunks[0]);
    let more = container::join(frames.drop_first());
    let last = p.len() == 0;
    assert(container::is_frame(s.key, s.nonce, s.index + 0, frame, p));
    bytes::number_round_trip(p.len() as u32);
    let head = frame.take(4);
    let sealed = frame.skip(4);
    assert(rest =~= frame + more);
    assert(rest.take(4) =~= head);
    let tail = rest.skip(4);
    assert(tail.take(sealed.len() as int) =~= sealed);
    assert(tail.skip(sealed.len() as int) =~= more);
    let ask = (p.len() + TAG_LEN) as usize;
    let u = s.after(head).at(DecryptStage::ReadingChunk { len: p.len() as usize });
    assert(s.next(FileEvent::Data(head)) == (u, FileAction::<Seq<u8>>::ReadExact(ask)));
    let (v, action) = u.open(sealed);
    assert(u.next(FileEvent::Data(sealed)) == (v, action));
    if steps >= 1 {
        assert(run(s, FileAction::ReadExact(4), rest, steps) == run(
            u,
            FileAction::ReadExact(ask),
            tail,
            (steps - 1) as nat,
        ));
    }
    if steps >= 2 {
        assert(run(u, FileAction::ReadExact(ask), tail, (steps - 1) as nat) == run(
            v,
            action,
            more,
            (steps - 2) as nat,
        ));
    }
    if chunks.len() > 1 {
        assert(chunks[0].len() == 0 <==> 0 == chunks.len() - 1);
        let w = v.at(DecryptStage::Showing { last });
        let x = DecryptState { stage: DecryptStage::ReadingLength, index: s.index + 1, ..w };
        if steps >= 3 {
            assert(run(v, action, more, (steps - 2) as nat) == run(
                w,
                FileAction::ShowProgress,
                more,
                (steps - 3) as nat,
            ));
        }
        if k > 0 {
            assert(run(w, FileAction::ShowProgress, more, (steps - 3) as nat) == run(
                x,
                FileAction::ReadExact(4),
                more,
                (steps - 4) as nat,
            ));
            let (fs, cs) = (frames.drop_first(), chunks.drop_first());
            assert forall|i: int| #![trigger cs[i]] 0 <= i < cs.len() implies {
                &&& container::is_frame(x.key, x.nonce, x.index + i, fs[i], cs[i])
                &&& cs[i].len() == 0 <==> i == cs.len() - 1
            } by {
                assert(cs[i] == chunks[i + 1]);
                assert(container::is_frame(
                    s.key,
                    s.nonce,
                    s.index + (i + 1),
                    frames[i + 1],
                    chunks[i + 1],
                ));
            }
            lemma_actions_at(x, fs, cs, (k - 1) as nat, r);
        }
    } else {
        assert(chunks[0].len() == 0 <==> 0 == chunks.len() - 1);
        assert(more =~= Seq::empty());
        if steps >= 3 {
            let (x, after) = v.next(FileEvent::Done);
            assert(run(v, action, more, (steps - 2) as nat) == run(
                x,
                after,
                more,
                (steps - 3) as nat,
            ));
            reveal_with_fuel(run, 4);
            assert(more.take(0) =~= Seq::empty());
        }
    }
}

/// What a job asks for, step by step, where nothing fails and the file is whole: to open the input, to
/// create the temporary file, to read the header; for each chunk to read its length, its ciphertext of
/// sixteen bytes more, to write its plaintext, and to show it; the same for the empty chunk that is the
/// last, of which there is nothing to write; to read one byte more, of which there is none; and to put
/// the output in its place. Only then is it over.
#[verifier::rlimit(40)]
pub proof fn actions_of_a_decryption(
    s: DecryptState,
    file: Seq<u8>,
    key: Seq<u8>,
    nonce: Seq<u8>,
    frames: Seq<Seq<u8>>,
    chunks: Seq<Seq<u8>>,
    i: nat,
)
    requires
        s == DecryptState::start(s.paths, s.password, s.replace),
        container::is_keyed(s.password, file, key, nonce),
        file.skip(HEADER_LEN as int) == container::join(frames),
        container::are_frames(key, nonce, 0, frames, chunks),
        chunks.len() <= u32::MAX,
    ensures
        ({
            let action = run(s, FileAction::OpenInput, file, i).1;
            let n = chunks.len() - 1;
            let k = (i - 3) / 4;
            let r = (i - 3) % 4;
            if i == 0 {
                action is OpenInput
            } else if i == 1 {
                action == FileAction::<Seq<u8>>::CreateTemp { replace: s.replace }
            } else if i == 2 {
                action == FileAction::<Seq<u8>>::ReadExact(47)
            } else if k <= n && r == 0 {
                action == FileAction::<Seq<u8>>::ReadExact(4)
            } else if k <= n && r == 1 {
                action == FileAction::<Seq<u8>>::ReadExact((chunks[k].len() + 16) as usize)
            } else if k < n && r == 2 {
                action == FileAction::Write(chunks[k])
            } else if k < n || k == n && r == 2 {
                action is ShowProgress
            } else if k == n {
                action == FileAction::<Seq<u8>>::Read(1)
            } else if i == 4 * n + 7 {
                action is Finalize
            } else {
                action == FileAction::<Seq<u8>>::Finish(Ok(()))
            }
        }),
{
    reveal_with_fuel(run, 4);
    let n = chunks.len() - 1;
    let head = file.take(HEADER_LEN as int);
    let body = file.skip(HEADER_LEN as int);
    assert(head + body =~= file);
    header::header_ignores_rest(head, body);
    let (u, action) = s.begin(head);
    assert(u.key == key && u.nonce == nonce);
    if i >= 3 {
        assert(run(s, FileAction::OpenInput, file, i) == run(
            u,
            FileAction::ReadExact(4),
            body,
            (i - 3) as nat,
        ));
        let k = (i - 3) / 4;
        if k <= n {
            lemma_actions_at(u, frames, chunks, k as nat, ((i - 3) % 4) as nat);
        } else {
            lemma_actions_at(u, frames, chunks, n as nat, (i - 3 - 4 * n) as nat);
        }
    }
}

/// A job that has its temporary file removed ends with the failure that led to it, whatever comes of
/// the removal.
pub proof fn removal_ends_with_its_failure(
    s: DecryptState,
    failure: Failure,
    event: FileEvent<Seq<u8>>,
)
    requires
        s.stage == DecryptStage::Removing(failure),
    ensures
        s.next(event).1 == FileAction::<Seq<u8>>::Finish(Err(failure)),
{
}

/// A key is held by a job only between the header and the end of the last chunk.
pub proof fn keys_are_wiped(s: DecryptState)
    requires
        s.faithful(),
        s.stage is Finalizing || s.stage is Removing || s.stage is Finished,
    ensures
        s.key == secret::wiped(),
{
}

/// Once the temporary file has been created, a job comes to its end only after asking that it be
/// removed or moved to the place of the output.
pub proof fn no_temporary_file_is_forgotten(s: DecryptState, event: FileEvent<Seq<u8>>)
    requires
        s.stage !is Opening && s.stage !is Finished,
        s.stage is Creating ==> event is Done,
    ensures
        ({
            let (t, action) = s.next(event);
            &&& action is Finish ==> s.stage is Removing || s.stage is Finalizing
            &&& t.stage is Removing <==> action is RemoveTemp
            &&& t.stage is Finalizing <==> action is Finalize
        }),
{
}

} // verus!
