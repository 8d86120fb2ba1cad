//! The overwriting and removal of a file.
//!
//! This is best effort: a drive that levels its wear may keep copies of the data elsewhere.

use vstd::prelude::*;
use vstd::slice::{slice_subrange, slice_to_vec};

use crate::failure::Failure;
use crate::secret;
use crate::secret::Draw;

verus! {

/// How many random bytes are drawn at a time.
pub const BLOCK_LEN: usize = 4096;

/// What the program is to do next. `B` is the type of bytes.
pub enum ShredAction<B> {
    /// Find out how many bytes the file has.
    Measure,
    /// Open the file for writing from its start on, without changing its length.
    Open,
    /// Write all of these bytes.
    Write(B),
    /// Wait until the drive has all that was written.
    Sync,
    /// Set the length of the file to zero.
    Truncate,
    /// Close the file, if it is open, and remove it.
    Remove,
    /// The job is over, with this result.
    Finish(Result<(), Failure>),
}

/// How an action turned out.
#[derive(Clone, Copy, Debug)]
pub enum ShredEvent {
    /// It was done.
    Done,
    /// The file has this many bytes.
    Size(u64),
    /// It failed.
    Failed,
}

/// What a [`ShredJob`] is waiting for.
#[derive(Clone, Copy, Debug)]
pub enum ShredStage {
    Measuring,
    Opening,
    Writing,
    Syncing,
    Truncating,
    Removing,
    Finished(Result<(), Failure>),
}

/// The shredding of one file under way.
pub struct ShredJob<'a> {
    path: &'a str,
    stage: ShredStage,
    size: u64,
    written: u64,
    draw: Option<Draw>,
}

/// What a [`ShredJob`] knows: the file, how long it is, and how many bytes were handed out to
/// overwrite it.
pub struct ShredState {
    pub path: Seq<char>,
    pub stage: ShredStage,
    pub size: int,
    pub written: int,
}

impl View for ShredAction<Vec<u8>> {
    type V = ShredAction<Seq<u8>>;

    open spec fn view(&self) -> ShredAction<Seq<u8>> {
        match *self {
            ShredAction::Measure => ShredAction::Measure,
            ShredAction::Open => ShredAction::Open,
            ShredAction::Write(b) => ShredAction::Write(b@),
            ShredAction::Sync => ShredAction::Sync,
            ShredAction::Truncate => ShredAction::Truncate,
            ShredAction::Remove => ShredAction::Remove,
            ShredAction::Finish(r) => ShredAction::Finish(r),
        }
    }
}

impl<'a> View for ShredJob<'a> {
    type V = ShredState;

    closed spec fn view(&self) -> ShredState {
        ShredState {
            path: self.path@,
            stage: self.stage,
            size: self.size as int,
            written: self.written as int,
        }
    }
}

impl ShredState {
    /// A job that has done nothing yet.
    pub open spec fn start(path: Seq<char>) -> ShredState {
        ShredState { path, stage: ShredStage::Measuring, size: 0, written: 0 }
    }

    pub open spec fn at(self, stage: ShredStage) -> ShredState {
        ShredState { stage, ..self }
    }

    pub open spec fn finish(self, r: Result<(), Failure>) -> (ShredState, ShredAction<Seq<u8>>) {
        (self.at(ShredStage::Finished(r)), ShredAction::Finish(r))
    }

    /// As much of `block` goes out as there is left to overwrite.
    pub open spec fn overwrite(self, block: Seq<u8>) -> (ShredState, ShredAction<Seq<u8>>) {
        let left = self.size - self.written;
        let n = if left < BLOCK_LEN {
            left
        } else {
            BLOCK_LEN as int
        };
        (
            ShredState { stage: ShredStage::Writing, written: self.written + n, ..self },
            ShredAction::Write(block.take(n)),
        )
    }

    /// What the job makes of `event`, if the random source gives `block` where it is asked.
    pub open spec fn next(self, event: ShredEvent, block: Option<Seq<u8>>) -> (
        ShredState,
        ShredAction<Seq<u8>>,
    ) {
        match self.stage {
            ShredStage::Measuring => match event {
                ShredEvent::Size(n) => if n == 0 {
                    (self.at(ShredStage::Removing), ShredAction::Remove)
                } else {
                    (
                        ShredState { stage: ShredStage::Opening, size: n as int, ..self },
                        ShredAction::Open,
                    )
                },
                _ => self.finish(Err(Failure::Io)),
            },
            ShredStage::Opening | ShredStage::Writing => if event !is Done {
                self.finish(
                    Err(
                        if self.stage is Opening {
                            Failure::OpenForShredding
                        } else {
                            Failure::Io
                        },
                    ),
                )
            } else if self.written < self.size {
                match block {
                    Some(b) => self.overwrite(b),
                    None => self.finish(Err(Failure::RandomSource)),
                }
            } else {
                (self.at(ShredStage::Syncing), ShredAction::Sync)
            },
            ShredStage::Syncing => if event is Done {
                (self.at(ShredStage::Truncating), ShredAction::Truncate)
            } else {
                self.finish(Err(Failure::Io))
            },
            ShredStage::Truncating => if event is Done {
                (self.at(ShredStage::Removing), ShredAction::Remove)
            } else {
                self.finish(Err(Failure::Io))
            },
            ShredStage::Removing => if event is Done {
                self.finish(Ok(()))
            } else {
                self.finish(Err(Failure::Io))
            },
            ShredStage::Finished(r) => self.finish(r),
        }
    }

    /// No more is overwritten than the file has, and all of it before anything else is done.
    pub open spec fn faithful(self) -> bool {
        &&& 0 <= self.written <= self.size <= u64::MAX
        &&& match self.stage {
            ShredStage::Measuring => self.size == 0,
            ShredStage::Opening => self.written == 0 < self.size,
            ShredStage::Writing => self.written > 0,
            ShredStage::Syncing | ShredStage::Truncating | ShredStage::Removing => self.written
                == self.size,
            ShredStage::Finished(r) => r is Ok ==> self.written == self.size,
        }
    }
}

/// Starts the shredding of the file at `path`, with `first_action`.
pub fn shred_file(path: &str) -> (job: ShredJob<'_>)
    ensures
        job@ == ShredState::start(path@),
        job@.faithful(),
        job@.path == path@,
        job@.stage is Measuring,
{
    ShredJob { path, stage: ShredStage::Measuring, size: 0, written: 0, draw: None }
}

impl<'a> ShredJob<'a> {
    /// What the random source gave when this job last asked it.
    pub closed spec fn draw(&self) -> Option<Draw> {
        self.draw
    }

    /// What is to be done first: to measure the file.
    pub fn first_action(&self) -> (action: ShredAction<Vec<u8>>)
        requires
            self@.stage is Measuring,
        ensures
            action@ == ShredAction::<Seq<u8>>::Measure,
    {
        ShredAction::Measure
    }

    /// The file that is shredded.
    pub fn path(&self) -> (path: &'a str)
        ensures
            path@ == self@.path,
    {
        self.path
    }

    fn finish(&mut self, r: Result<(), Failure>) -> (action: ShredAction<Vec<u8>>)
        ensures
            (final(self)@, action@) == old(self)@.finish(r),
            final(self).draw() == old(self).draw(),
    {
        self.stage = ShredStage::Finished(r);
        ShredAction::Finish(r)
    }

    /// Hands out the next bytes to overwrite the file with, from the freshly drawn `block`.
    pub fn overwrite(&mut self, block: &[u8]) -> (action: ShredAction<Vec<u8>>)
        requires
            old(self)@.faithful(),
            old(self)@.stage is Opening || old(self)@.stage is Writing,
            old(self)@.written < old(self)@.size,
            block@.len() == BLOCK_LEN,
        ensures
            (final(self)@, action@) == old(self)@.overwrite(block@),
            final(self).draw() == old(self).draw(),
            final(self)@.faithful(),
    {
        let left = self.size - self.written;
        let n: usize = if left < BLOCK_LEN as u64 {
            left as usize
        } else {
            BLOCK_LEN
        };
        self.stage = ShredStage::Writing;
        self.written = self.written + n as u64;
        assert(block@.subrange(0, n as int) =~= block@.take(n as int));
        ShredAction::Write(slice_to_vec(slice_subrange(block, 0, n)))
    }

    /// Takes the answer to the last action and gives the next one. Random bytes are drawn here
    /// while there is something to overwrite, and just these go out. The job gives up for want of
    /// them only where the source failed.
    pub fn step(&mut self, event: ShredEvent) -> (action: ShredAction<Vec<u8>>)
        requires
            old(self)@.faithful(),
            old(self)@.stage !is Finished,
        ensures
            exists|block: Option<Seq<u8>>|
                (block matches Some(b) ==> b.len() == BLOCK_LEN) && (final(self)@, action@)
                    == #[trigger] old(self)@.next(event, block),
            final(self)@.faithful(),
            ({
                let asked = (old(self)@.stage is Opening || old(self)@.stage is Writing) && event
                    is Done && old(self)@.written < old(self)@.size;
                &&& asked ==> {
                    &&& final(self).draw() is Some
                    &&& match final(self).draw()->Some_0@ {
                        Some(block) => {
                            &&& block.len() == 4096
                            &&& (final(self)@, action@) == old(self)@.next(event, Some(block))
                            &&& action is Write
                        },
                        None => {
                            &&& final(self).draw()->Some_0.fault() is Some
                            &&& (final(self)@, action@) == old(self)@.next(event, None)
                            &&& action@ == ShredAction::<Seq<u8>>::Finish(
                                Err(Failure::RandomSource),
                            )
                        },
                    }
                }
                &&& !asked ==> {
                    &&& final(self).draw() == old(self).draw()
                    &&& (final(self)@, action@) == old(self)@.next(event, None)
                }
            }),
    {
        let ghost s = self@;
        let ghost mut drawn: Option<Seq<u8>> = None;
        let done = match event {
            ShredEvent::Done => true,
            _ => false,
        };
        let action = match self.stage {
            ShredStage::Measuring => match event {
                ShredEvent::Size(n) => if n == 0 {
                    self.stage = ShredStage::Removing;
                    ShredAction::Remove
                } else {
                    self.stage = ShredStage::Opening;
                    self.size = n;
                    ShredAction::Open
                },
                _ => self.finish(Err(Failure::Io)),
            },
            ShredStage::Opening | ShredStage::Writing => if !done {
                let opening = match self.stage {
                    ShredStage::Opening => true,
                    _ => false,
                };
                self.finish(
                    Err(
                        if opening {
                            Failure::OpenForShredding
                        } else {
                            Failure::Io
                        },
                    ),
                )
            } else if self.written < self.size {
                let draw = secret::random_bytes(BLOCK_LEN);
                let action = match draw.bytes() {
                    Some(block) => {
                        proof {
                            drawn = Some(block@);
                        }
                        self.overwrite(block)
                    },
                    None => self.finish(Err(Failure::RandomSource)),
                };
                self.draw = Some(draw);
                action
            } else {
                self.stage = ShredStage::Syncing;
                ShredAction::Sync
            },
            ShredStage::Syncing => if done {
                self.stage = ShredStage::Truncating;
                ShredAction::Truncate
            } else {
                self.finish(Err(Failure::Io))
            },
            ShredStage::Truncating => if done {
                self.stage = ShredStage::Removing;
                ShredAction::Remove
            } else {
                self.finish(Err(Failure::Io))
            },
            ShredStage::Removing => if done {
                self.finish(Ok(()))
            } else {
                self.finish(Err(Failure::Io))
            },
            ShredStage::Finished(r) => self.finish(r),
        };
        assert((self@, action@) == s.next(event, drawn));
        action
    }
}

/// The file is removed, or its length touched, only when as many bytes were handed out to overwrite
/// it as it has.
pub proof fn removed_only_when_overwritten(
    s: ShredState,
    event: ShredEvent,
    block: Option<Seq<u8>>,
)
    requires
        s.faithful(),
    ensures
        ({
            let (t, action) = s.next(event, block);
            action is Sync || action is Truncate || action is Remove ==> t.written == t.size
        }),
{
}

/// Where a job gets to in `steps` steps, or sooner if it is over sooner, where nothing fails, the
/// file has `size` bytes, and the random source gives `blocks(n)` after the first `n` bytes.
pub open spec fn run(
    s: ShredState,
    action: ShredAction<Seq<u8>>,
    size: u64,
    blocks: spec_fn(int) -> Seq<u8>,
    steps: nat,
) -> (ShredState, ShredAction<Seq<u8>>)
    decreases steps,
{
    if steps == 0 || action is Finish {
        (s, action)
    } else {
        let event = if action is Measure {
            ShredEvent::Size(size)
        } else {
            ShredEvent::Done
        };
        let (t, then) = s.next(event, Some(blocks(s.written)));
        run(t, then, size, blocks, (steps - 1) as nat)
    }
}

proof fn lemma_run_writes(
    s: ShredState,
    action: ShredAction<Seq<u8>>,
    blocks: spec_fn(int) -> Seq<u8>,
    steps: nat,
)
    requires
        s.faithful(),
        s.stage is Opening || s.stage is Writing,
        action is Open || action is Write,
        steps >= s.size - s.written + 4,
    ensures
        ({
            let (t, then) = run(s, action, s.size as u64, blocks, steps);
            &&& then == ShredAction::<Seq<u8>>::Finish(Ok(()))
            &&& t.written == t.size == s.size
        }),
    decreases s.size - s.written,
{
    if s.written < s.size {
        let (t, write) = s.overwrite(blocks(s.written));
        assert(run(s, action, s.size as u64, blocks, steps) == run(
            t,
            write,
            s.size as u64,
            blocks,
            (steps - 1) as nat,
        ));
        lemma_run_writes(t, write, blocks, (steps - 1) as nat);
    } else {
        reveal_with_fuel(run, 5);
    }
}

/// Where nothing fails, a job comes to its end with success, and as many bytes were handed out to
/// overwrite the file as it has.
pub proof fn shreds_the_whole_file(path: Seq<char>, size: u64, blocks: spec_fn(int) -> Seq<u8>, steps: nat)
    requires
        steps >= size + 5,
    ensures
        ({
            let (t, action) = run(
                ShredState::start(path),
                ShredAction::Measure,
                size,
                blocks,
                steps,
            );
            &&& action == ShredAction::<Seq<u8>>::Finish(Ok(()))
            &&& t.written == t.size == size
        }),
{
    let s = ShredState::start(path);
    if size == 0 {
        reveal_with_fuel(run, 3);
    } else {
        let t = ShredState { stage: ShredStage::Opening, size: size as int, ..s };
        assert(run(s, ShredAction::Measure, size, blocks, steps) == run(
            t,
            ShredAction::Open,
            size,
            blocks,
            (steps - 1) as nat,
        ));
        lemma_run_writes(t, ShredAction::Open, blocks, (steps - 1) as nat);
    }
}

/// An action is seen as what it is, with the very bytes that it holds.
pub proof fn nothing_is_seen_otherwise(action: ShredAction<Vec<u8>>)
    ensures
        match action {
            ShredAction::Measure => action@ is Measure,
            ShredAction::Open => action@ is Open,
            ShredAction::Write(b) => action@ == ShredAction::Write(b@),
            ShredAction::Sync => action@ is Sync,
            ShredAction::Truncate => action@ is Truncate,
            ShredAction::Remove => action@ is Remove,
            ShredAction::Finish(r) => action@ == ShredAction::<Seq<u8>>::Finish(r),
        },
{
}

/// A job ends with success only when it was told that the file is removed.
pub proof fn success_comes_only_from_removal(
    s: ShredState,
    event: ShredEvent,
    block: Option<Seq<u8>>,
)
    requires
        s.stage !is Finished,
        s.next(event, block).1 == ShredAction::<Seq<u8>>::Finish(Ok(())),
    ensures
        s.stage is Removing && event is Done,
{
}

/// How many blocks a file of `size` bytes takes.
pub open spec fn block_count(size: int) -> int {
    (size + 4095) / 4096
}

#[verifier::rlimit(40)]
proof fn lemma_write_at(
    s: ShredState,
    action: ShredAction<Seq<u8>>,
    blocks: spec_fn(int) -> Seq<u8>,
    k: int,
    j: nat,
)
    requires
        s.faithful(),
        s.stage is Opening || s.stage is Writing,
        action is Open || action is Write,
        0 <= k < block_count(s.size),
        s.written == 4096 * k,
        k + j < block_count(s.size),
    ensures
        ({
            let (t, then) = run(s, action, s.size as u64, blocks, (j + 1) as nat);
            let at = 4096 * (k + j);
            let n = if s.size - at < 4096 {
                s.size - at
            } else {
                4096
            };
            &&& t.stage is Writing
            &&& t.faithful()
            &&& t.size == s.size
            &&& t.written == at + n
            &&& then == ShredAction::Write(blocks(at).take(n))
        }),
    decreases j,
{
    let (t, write) = s.overwrite(blocks(s.written));
    let size = s.size as u64;
    assert(run(s, action, size, blocks, (j + 1) as nat) == run(t, write, size, blocks, j));
    if j > 0 {
        lemma_write_at(t, write, blocks, k + 1, (j - 1) as nat);
    }
}

proof fn lemma_run_splits(
    s: ShredState,
    action: ShredAction<Seq<u8>>,
    size: u64,
    blocks: spec_fn(int) -> Seq<u8>,
    i: nat,
    j: nat,
)
    ensures
        ({
            let (t, then) = run(s, action, size, blocks, i);
            run(s, action, size, blocks, i + j) == run(t, then, size, blocks, j)
        }),
    decreases i,
{
    if i > 0 && action !is Finish {
        let event = if action is Measure {
            ShredEvent::Size(size)
        } else {
            ShredEvent::Done
        };
        let (t, then) = s.next(event, Some(blocks(s.written)));
        lemma_run_splits(t, then, size, blocks, (i - 1) as nat, j);
    }
}

/// What a job asks for, step by step, where nothing fails. The file is measured. If it has nothing, it
/// is removed. Otherwise it is opened and overwritten from its start to its end, in blocks of 4096
/// bytes and what is left, each with the bytes that were drawn for it; then the job waits for the
/// drive, sets the length to zero, and has the file removed, in this order. Only then is it over.
#[verifier::rlimit(40)]
pub proof fn actions_of_a_shredding(
    path: Seq<char>,
    size: u64,
    blocks: spec_fn(int) -> Seq<u8>,
    i: nat,
)
    ensures
        ({
            let action = run(ShredState::start(path), ShredAction::Measure, size, blocks, i).1;
            let n = (size + 4095) / 4096;
            if i == 0 {
                action is Measure
            } else if size == 0 {
                if i == 1 {
                    action is Remove
                } else {
                    action == ShredAction::<Seq<u8>>::Finish(Ok(()))
                }
            } else if i == 1 {
                action is Open
            } else if i < 2 + n {
                let at = 4096 * (i - 2);
                action == ShredAction::Write(
                    blocks(at).take(
                        if size - at < 4096 {
                            size - at
                        } else {
                            4096
                        },
                    ),
                )
            } else if i == 2 + n {
                action is Sync
            } else if i == 3 + n {
                action is Truncate
            } else if i == 4 + n {
                action is Remove
            } else {
                action == ShredAction::<Seq<u8>>::Finish(Ok(()))
            }
        }),
{
    let s = ShredState::start(path);
    let n = block_count(size as int);
    if i > 0 && size == 0 {
        reveal_with_fuel(run, 4);
    } else if i > 0 {
        let t = ShredState { stage: ShredStage::Opening, size: size as int, ..s };
        assert(run(s, ShredAction::Measure, size, blocks, i) == run(
            t,
            ShredAction::Open,
            size,
            blocks,
            (i - 1) as nat,
        ));
        if 2 <= i < 2 + n {
            lemma_write_at(t, ShredAction::Open, blocks, 0, (i - 2) as nat);
        } else if i >= 2 + n {
            lemma_write_at(t, ShredAction::Open, blocks, 0, (n - 1) as nat);
            lemma_run_splits(t, ShredAction::Open, size, blocks, n as nat, (i - 1 - n) as nat);
            reveal_with_fuel(run, 6);
        }
    }
}

/// A job in which any action fails is over with that, and with a failure: that the file could not be
/// opened, or that of the system.
pub proof fn a_failed_action_ends_the_shredding(
    path: Seq<char>,
    size: u64,
    blocks: spec_fn(int) -> Seq<u8>,
    i: nat,
    block: Option<Seq<u8>>,
)
    ensures
        ({
            let (t, action) = run(ShredState::start(path), ShredAction::Measure, size, blocks, i);
            let then = t.next(ShredEvent::Failed, block).1;
            action !is Finish ==> then == ShredAction::<Seq<u8>>::Finish(
                Err(
                    if action is Open {
                        Failure::OpenForShredding
                    } else {
                        Failure::Io
                    },
                ),
            )
        }),
{
    lemma_stage_of_action(ShredState::start(path), ShredAction::Measure, size, blocks, i);
}

/// The stage of a job is that of the action it asked for.
spec fn in_step(stage: ShredStage, action: ShredAction<Seq<u8>>) -> bool {
    match stage {
        ShredStage::Measuring => action is Measure,
        ShredStage::Opening => action is Open,
        ShredStage::Writing => action is Write,
        ShredStage::Syncing => action is Sync,
        ShredStage::Truncating => action is Truncate,
        ShredStage::Removing => action is Remove,
        ShredStage::Finished(r) => action == ShredAction::<Seq<u8>>::Finish(r),
    }
}

proof fn lemma_stage_of_action(
    s: ShredState,
    action: ShredAction<Seq<u8>>,
    size: u64,
    blocks: spec_fn(int) -> Seq<u8>,
    i: nat,
)
    requires
        in_step(s.stage, action),
    ensures
        ({
            let (t, then) = run(s, action, size, blocks, i);
            in_step(t.stage, then)
        }),
    decreases i,
{
    if i > 0 && action !is Finish {
        let event = if action is Measure {
            ShredEvent::Size(size)
        } else {
            ShredEvent::Done
        };
        let (t, then) = s.next(event, Some(blocks(s.written)));
        lemma_stage_of_action(t, then, size, blocks, (i - 1) as nat);
    }
}

} // verus!
