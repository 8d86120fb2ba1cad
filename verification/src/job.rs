//! How a job and the program that runs it talk to each other.
//!
//! A job never touches a file. It hands out one [`FileAction`] after the other; the program
//! performs each and answers with a [`FileEvent`].

use vstd::prelude::*;
use vstd::string::*;

use crate::failure::Failure;

verus! {

/// The files that a job is about.
pub struct JobPaths<'a> {
    pub input: &'a str,
    pub output: &'a str,
    pub temp: String,
}

/// The contents of [`JobPaths`].
pub struct PathsView {
    pub input: Seq<char>,
    pub output: Seq<char>,
    pub temp: Seq<char>,
}

impl<'a> View for JobPaths<'a> {
    type V = PathsView;

    open spec fn view(&self) -> PathsView {
        PathsView { input: self.input@, output: self.output@, temp: self.temp@ }
    }
}

impl PathsView {
    /// The output is put together beside its place, under its name with `.tmp` added.
    pub open spec fn of(input: Seq<char>, output: Seq<char>) -> PathsView {
        PathsView { input, output, temp: output + ".tmp"@ }
    }
}

impl<'a> JobPaths<'a> {
    pub fn new(input: &'a str, output: &'a str) -> (paths: JobPaths<'a>)
        ensures
            paths@ == PathsView::of(input@, output@),
            paths@.input == input@,
            paths@.output == output@,
            paths@.temp == output@ + ".tmp"@,
            paths.input@ == input@,
            paths.output@ == output@,
            paths.temp@ == output@ + ".tmp"@,
    {
        let mut temp = output.to_owned();
        temp.append(".tmp");
        JobPaths { input, output, temp }
    }
}

/// What the program is to do next. `B` is the type of bytes.
pub enum FileAction<B> {
    /// Open the input file for reading.
    OpenInput,
    /// Create the temporary file and make it readable by its owner alone. Where something is at
    /// its path already, that is replaced if `replace` says so; otherwise it is left as it is, and
    /// the action fails.
    CreateTemp { replace: bool },
    /// Read once from the input, at most this many bytes. No bytes at all stand for its end.
    Read(usize),
    /// Read exactly this many bytes from the input.
    ReadExact(usize),
    /// Write all of these bytes to the temporary file.
    Write(B),
    /// Show the user that one more chunk is done.
    ShowProgress,
    /// Close the temporary file and remove it.
    RemoveTemp,
    /// Close the temporary file and move it to the place of the output file.
    Finalize,
    /// The job is over, with this result.
    Finish(Result<(), Failure>),
}

/// How an action turned out. `B` is the type of bytes.
pub enum FileEvent<B> {
    /// It was done.
    Done,
    /// These bytes were read.
    Data(B),
    /// The input ended before all bytes that were asked for.
    EndOfInput,
    /// It failed.
    Failed,
}

impl View for FileAction<Vec<u8>> {
    type V = FileAction<Seq<u8>>;

    open spec fn view(&self) -> FileAction<Seq<u8>> {
        match *self {
            FileAction::OpenInput => FileAction::OpenInput,
            FileAction::CreateTemp { replace } => FileAction::CreateTemp { replace },
            FileAction::Read(n) => FileAction::Read(n),
            FileAction::ReadExact(n) => FileAction::ReadExact(n),
            FileAction::Write(b) => FileAction::Write(b@),
            FileAction::ShowProgress => FileAction::ShowProgress,
            FileAction::RemoveTemp => FileAction::RemoveTemp,
            FileAction::Finalize => FileAction::Finalize,
            FileAction::Finish(r) => FileAction::Finish(r),
        }
    }
}

impl View for FileEvent<Vec<u8>> {
    type V = FileEvent<Seq<u8>>;

    open spec fn view(&self) -> FileEvent<Seq<u8>> {
        match *self {
            FileEvent::Done => FileEvent::Done,
            FileEvent::Data(b) => FileEvent::Data(b@),
            FileEvent::EndOfInput => FileEvent::EndOfInput,
            FileEvent::Failed => FileEvent::Failed,
        }
    }
}

/// The temporary file is beside the output, under its whole name with four more characters.
pub proof fn temporary_path_follows_the_output(input: Seq<char>, output: Seq<char>)
    ensures
        PathsView::of(input, output).input == input,
        PathsView::of(input, output).output == output,
        PathsView::of(input, output).temp == output + seq!['.', 't', 'm', 'p'],
{
    reveal_strlit(".tmp");
    assert(".tmp"@ =~= seq!['.', 't', 'm', 'p']);
}

/// An action and an event are seen as what they are, with the very bytes that they hold.
pub proof fn nothing_is_seen_otherwise(action: FileAction<Vec<u8>>, event: FileEvent<Vec<u8>>)
    ensures
        match action {
            FileAction::OpenInput => action@ is OpenInput,
            FileAction::CreateTemp { replace } => action@ == FileAction::<Seq<u8>>::CreateTemp {
                replace,
            },
            FileAction::Read(n) => action@ == FileAction::<Seq<u8>>::Read(n),
            FileAction::ReadExact(n) => action@ == FileAction::<Seq<u8>>::ReadExact(n),
            FileAction::Write(b) => action@ == FileAction::Write(b@),
            FileAction::ShowProgress => action@ is ShowProgress,
            FileAction::RemoveTemp => action@ is RemoveTemp,
            FileAction::Finalize => action@ is Finalize,
            FileAction::Finish(r) => action@ == FileAction::<Seq<u8>>::Finish(r),
        },
        match event {
            FileEvent::Done => event@ is Done,
            FileEvent::Data(b) => event@ == FileEvent::Data(b@),
            FileEvent::EndOfInput => event@ is EndOfInput,
            FileEvent::Failed => event@ is Failed,
        },
{
}

} // verus!
