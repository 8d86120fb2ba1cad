//! What is checked before any file is touched.

use vstd::prelude::*;
use vstd::string::*;
use vstd::utf8;

use crate::bytes;
use crate::failure::Failure;
use crate::job::{JobPaths, PathsView};

verus! {

/// Why a pair of paths is not usable. `S` is the type of text.
#[derive(Debug, PartialEq, Eq)]
pub enum PathFault<S> {
    /// Input and output are the same path.
    SamePath,
    /// Nothing is at this input path.
    InputMissing(S),
    /// Something is at this output path, and it may not be overwritten.
    OutputExists(S),
    /// The temporary file at this path would take the place of the input.
    TempIsInput(S),
    /// Something is at this path, where the temporary file goes, and it may not be overwritten.
    TempExists(S),
}

impl View for PathFault<String> {
    type V = PathFault<Seq<char>>;

    open spec fn view(&self) -> PathFault<Seq<char>> {
        match *self {
            PathFault::SamePath => PathFault::SamePath,
            PathFault::InputMissing(p) => PathFault::InputMissing(p@),
            PathFault::OutputExists(p) => PathFault::OutputExists(p@),
            PathFault::TempIsInput(p) => PathFault::TempIsInput(p@),
            PathFault::TempExists(p) => PathFault::TempExists(p@),
        }
    }
}

/// What the user is told of a fault.
pub open spec fn fault_text(fault: PathFault<Seq<char>>) -> Seq<char> {
    match fault {
        PathFault::SamePath => {
            "Input and output paths can't be the same. That's a good way to lose your data."@
        },
        PathFault::InputMissing(path) => "Input file doesn't exist: "@ + path,
        PathFault::OutputExists(path) => "Output file already exists: "@ + path
            + ". Use --force if you really want to overwrite it."@,
        PathFault::TempIsInput(path) => "Input file would be lost: the output is put together at "@
            + path + "."@,
        PathFault::TempExists(path) => "Temporary file already exists: "@ + path
            + ". Use --force if you really want to overwrite it."@,
    }
}

impl PathFault<String> {
    /// What the user is told of this fault.
    pub fn message(&self) -> (m: String)
        ensures
            m@ == fault_text(self@),
    {
        match self {
            PathFault::SamePath => {
                "Input and output paths can't be the same. That's a good way to lose your data.".to_owned()
            },
            PathFault::InputMissing(path) => {
                let mut s = "Input file doesn't exist: ".to_owned();
                s.append(path.as_str());
                s
            },
            PathFault::OutputExists(path) => {
                let mut s = "Output file already exists: ".to_owned();
                s.append(path.as_str());
                s.append(". Use --force if you really want to overwrite it.");
                s
            },
            PathFault::TempIsInput(path) => {
                let mut s = "Input file would be lost: the output is put together at ".to_owned();
                s.append(path.as_str());
                s.append(".");
                s
            },
            PathFault::TempExists(path) => {
                let mut s = "Temporary file already exists: ".to_owned();
                s.append(path.as_str());
                s.append(". Use --force if you really want to overwrite it.");
                s
            },
        }
    }
}

/// The pieces of `path` between its slashes.
pub open spec fn pieces(path: Seq<char>) -> Seq<Seq<char>>
    decreases path.len(),
{
    if path.len() == 0 {
        seq![Seq::empty()]
    } else {
        let front = pieces(path.drop_last());
        if path.last() == '/' {
            front.push(Seq::empty())
        } else {
            front.drop_last().push(front.last().push(path.last()))
        }
    }
}

/// Whether `path` starts at the root, and the names that it is made of. Empty names do not count,
/// nor does `.` other than at the start.
pub open spec fn components(path: Seq<char>) -> (bool, Seq<Seq<char>>) {
    let first = pieces(path)[0];
    let others = pieces(path).drop_first().filter(
        |name: Seq<char>| name.len() > 0 && name != seq!['.'],
    );
    if first.len() > 0 {
        (false, seq![first] + others)
    } else {
        (path.len() > 0, others)
    }
}

/// `path` is parsed alike on every platform: it has no prefix that names a drive or a server, and
/// no separator but the slash.
pub open spec fn is_portable(path: Seq<char>) -> bool {
    &&& !path.contains('\\')
    &&& !path.contains(':')
    &&& !(path.len() >= 2 && path[0] == '/' && path[1] == '/')
}

/// What follows the last slash, backslash or colon of `path`: on every platform the end of its last
/// component, where there is anything.
pub open spec fn tail(path: Seq<char>) -> Seq<char>
    decreases path.len(),
{
    if path.len() == 0 || path.last() == '/' || path.last() == '\\' || path.last() == ':' {
        Seq::empty()
    } else {
        tail(path.drop_last()).push(path.last())
    }
}

/// `path` ends with a name that counts on every platform.
pub open spec fn has_tail(path: Seq<char>) -> bool {
    tail(path).len() > 0 && tail(path) != seq!['.']
}

/// `same` may be the answer to whether `a` and `b` are the same path. Platforms may differ where a
/// path is not portable, but not on paths that end differently.
pub open spec fn may_be_same(a: Seq<char>, b: Seq<char>, same: bool) -> bool {
    &&& a == b ==> same
    &&& has_tail(a) && has_tail(b) && tail(a) != tail(b) ==> !same
    &&& is_portable(a) && is_portable(b) ==> same == (components(a) == components(b))
}

/// `std::path::Path::eq`: paths are compared by their components. Of paths that are not portable it
/// is stated only that a path equals itself, and none that ends in another name.
#[verifier::external_body]
fn same_path(a: &str, b: &str) -> (same: bool)
    ensures
        may_be_same(a@, b@, same),
{
    std::path::Path::new(a) == std::path::Path::new(b)
}

proof fn lemma_last_piece(path: Seq<char>)
    requires
        !path.contains('\\'),
        !path.contains(':'),
    ensures
        pieces(path).len() > 0,
        pieces(path).last() == tail(path),
    decreases path.len(),
{
    if path.len() > 0 {
        let front = path.drop_last();
        assert(path.contains(path.last()));
        assert forall|c: char| front.contains(c) implies path.contains(c) by {
            let i = choose|i: int| 0 <= i < front.len() && front[i] == c;
            assert(path[i] == c);
        }
        lemma_last_piece(front);
    }
}

proof fn lemma_last_name(path: Seq<char>)
    requires
        is_portable(path),
        has_tail(path),
    ensures
        components(path).1.len() > 0,
        components(path).1.last() == tail(path),
{
    lemma_last_piece(path);
    let counts = |name: Seq<char>| name.len() > 0 && name != seq!['.'];
    let others = pieces(path).drop_first();
    if others.len() > 0 {
        assert(others.last() == tail(path));
        reveal(Seq::filter);
        assert(others.filter(counts).last() == tail(path));
    } else {
        assert(others.filter(counts).len() == 0) by {
            reveal(Seq::filter);
        }
    }
}

/// Of any two paths there is an answer to whether they are the same.
pub proof fn some_answer_fits(a: Seq<char>, b: Seq<char>)
    ensures
        may_be_same(a, b, true) || may_be_same(a, b, false),
{
    if is_portable(a) && is_portable(b) && has_tail(a) && has_tail(b) {
        lemma_last_name(a);
        lemma_last_name(b);
    }
}

/// What is wrong with a pair of paths, given whether they are the same and whether something is
/// there.
pub open spec fn path_verdict(
    input: Seq<char>,
    output: Seq<char>,
    force: bool,
    same: bool,
    input_exists: bool,
    output_exists: bool,
) -> Option<PathFault<Seq<char>>> {
    if same {
        Some(PathFault::SamePath)
    } else if !input_exists {
        Some(PathFault::InputMissing(input))
    } else if output_exists && !force {
        Some(PathFault::OutputExists(output))
    } else {
        None
    }
}

/// `r` says what `verdict` says.
pub open spec fn says(
    r: Result<(), PathFault<String>>,
    verdict: Option<PathFault<Seq<char>>>,
) -> bool {
    match r {
        Ok(()) => verdict is None,
        Err(fault) => verdict == Some(fault@),
    }
}

/// Judges a pair of paths, given whether they are the same and whether something is there.
pub fn judge_paths(
    input_path: &str,
    output_path: &str,
    force: bool,
    same: bool,
    input_exists: bool,
    output_exists: bool,
) -> (r: Result<(), PathFault<String>>)
    ensures
        says(
            r,
            path_verdict(input_path@, output_path@, force, same, input_exists, output_exists),
        ),
        r is Ok == (!same && input_exists && (force || !output_exists)),
        r matches Err(fault) ==> match fault@ {
            PathFault::SamePath => same,
            PathFault::InputMissing(path) => !same && !input_exists && path == input_path@,
            PathFault::OutputExists(path) => !same && input_exists && output_exists && !force
                && path == output_path@,
            _ => false,
        },
{
    if same {
        return Err(PathFault::SamePath);
    }
    if !input_exists {
        return Err(PathFault::InputMissing(input_path.to_owned()));
    }
    if output_exists && !force {
        return Err(PathFault::OutputExists(output_path.to_owned()));
    }
    Ok(())
}

/// Checks that the file at `input_path` can be turned into one at `output_path`, given whether
/// something is at either path. What is at the output path is overwritten only with `force`.
pub fn validate_paths(
    input_path: &str,
    output_path: &str,
    force: bool,
    input_exists: bool,
    output_exists: bool,
) -> (r: Result<(), PathFault<String>>)
    ensures
        ({
            ||| may_be_same(input_path@, output_path@, true) && says(
                r,
                path_verdict(input_path@, output_path@, force, true, input_exists, output_exists),
            )
            ||| may_be_same(input_path@, output_path@, false) && says(
                r,
                path_verdict(input_path@, output_path@, force, false, input_exists, output_exists),
            )
        }),
        r is Ok ==> input_path@ != output_path@ && input_exists && (force || !output_exists),
        input_path@ == output_path@ ==> r is Err && r->Err_0@ == PathFault::<Seq<char>>::SamePath,
        may_be_same(input_path@, output_path@, false) && !may_be_same(
            input_path@,
            output_path@,
            true,
        ) ==> {
            &&& r is Ok == (input_exists && (force || !output_exists))
            &&& !input_exists ==> r is Err && r->Err_0@ == PathFault::InputMissing(input_path@)
            &&& input_exists && output_exists && !force ==> r is Err && r->Err_0@
                == PathFault::OutputExists(output_path@)
        },
{
    let same = same_path(input_path, output_path);
    judge_paths(input_path, output_path, force, same, input_exists, output_exists)
}

/// What is wrong with the path of the temporary file, given whether it is that of the input and
/// whether something is there.
pub open spec fn temp_verdict(temp: Seq<char>, force: bool, is_input: bool, exists: bool) -> Option<
    PathFault<Seq<char>>,
> {
    if is_input {
        Some(PathFault::TempIsInput(temp))
    } else if exists && !force {
        Some(PathFault::TempExists(temp))
    } else {
        None
    }
}

/// Judges the path of the temporary file, given whether it is that of the input and whether
/// something is there.
pub fn judge_temp(temp: &str, force: bool, is_input: bool, exists: bool) -> (r: Result<
    (),
    PathFault<String>,
>)
    ensures
        says(r, temp_verdict(temp@, force, is_input, exists)),
        r is Ok == (!is_input && (force || !exists)),
        r matches Err(fault) ==> match fault@ {
            PathFault::TempIsInput(path) => is_input && path == temp@,
            PathFault::TempExists(path) => !is_input && exists && !force && path == temp@,
            _ => false,
        },
{
    if is_input {
        return Err(PathFault::TempIsInput(temp.to_owned()));
    }
    if exists && !force {
        return Err(PathFault::TempExists(temp.to_owned()));
    }
    Ok(())
}

/// Checks that the output at `output_path` can be put together at its temporary path, given whether
/// something is there and whether that is the input file. The input is never given up for it, and
/// any other file only with `force`.
pub fn validate_temp(
    input_path: &str,
    output_path: &str,
    force: bool,
    temp_exists: bool,
    temp_is_input: bool,
) -> (r: Result<(), PathFault<String>>)
    ensures
        ({
            let temp = PathsView::of(input_path@, output_path@).temp;
            ||| may_be_same(input_path@, temp, true) && says(
                r,
                temp_verdict(temp, force, true, temp_exists),
            )
            ||| may_be_same(input_path@, temp, false) && says(
                r,
                temp_verdict(temp, force, temp_is_input, temp_exists),
            )
        }),
        r is Ok ==> input_path@ != output_path@ + ".tmp"@ && !temp_is_input && (force
            || !temp_exists),
        input_path@ == output_path@ + ".tmp"@ || temp_is_input ==> r is Err && r->Err_0@
            == PathFault::TempIsInput(output_path@ + ".tmp"@),
        may_be_same(input_path@, output_path@ + ".tmp"@, false) && !may_be_same(
            input_path@,
            output_path@ + ".tmp"@,
            true,
        ) && !temp_is_input ==> {
            &&& r is Ok == (force || !temp_exists)
            &&& r is Err ==> r->Err_0@ == PathFault::TempExists(output_path@ + ".tmp"@)
        },
{
    let paths = JobPaths::new(input_path, output_path);
    let same = same_path(input_path, paths.temp.as_str());
    judge_temp(paths.temp.as_str(), force, same || temp_is_input, temp_exists)
}

/// Checks that the password was typed the same twice.
pub fn confirm_password(password: &str, confirm: &str) -> (r: Result<(), Failure>)
    ensures
        r == if password@ == confirm@ {
            Ok::<(), Failure>(())
        } else {
            Err(Failure::PasswordMismatch)
        },
{
    proof {
        utf8::encode_utf8_decode_utf8(password@);
        utf8::encode_utf8_decode_utf8(confirm@);
    }
    if bytes::same_bytes(password.as_bytes(), confirm.as_bytes()) {
        Ok(())
    } else {
        Err(Failure::PasswordMismatch)
    }
}

/// A pair of paths is accepted exactly where they differ, something is at the input path, and nothing
/// is at the output path or it may be overwritten. The first of these that fails is what is told.
pub proof fn paths_are_accepted_exactly_when_usable(
    input: Seq<char>,
    output: Seq<char>,
    force: bool,
    same: bool,
    input_exists: bool,
    output_exists: bool,
)
    ensures
        ({
            let verdict = path_verdict(input, output, force, same, input_exists, output_exists);
            &&& verdict is None <==> !same && input_exists && (force || !output_exists)
            &&& same ==> verdict == Some(PathFault::<Seq<char>>::SamePath)
            &&& !same && !input_exists ==> verdict == Some(PathFault::InputMissing(input))
            &&& !same && input_exists && output_exists && !force ==> verdict == Some(
                PathFault::OutputExists(output),
            )
        }),
{
}

/// The path of the temporary file is accepted exactly where it is not that of the input and nothing is
/// there or it may be overwritten.
pub proof fn temporary_path_is_accepted_exactly_when_usable(
    temp: Seq<char>,
    force: bool,
    is_input: bool,
    exists: bool,
)
    ensures
        ({
            let verdict = temp_verdict(temp, force, is_input, exists);
            &&& verdict is None <==> !is_input && (force || !exists)
            &&& is_input ==> verdict == Some(PathFault::TempIsInput(temp))
            &&& !is_input && exists && !force ==> verdict == Some(PathFault::TempExists(temp))
        }),
{
}

/// A fault is seen as what it is, with the very path that it names.
pub proof fn nothing_is_seen_otherwise(fault: PathFault<String>)
    ensures
        match fault {
            PathFault::SamePath => fault@ is SamePath,
            PathFault::InputMissing(p) => fault@ == PathFault::InputMissing(p@),
            PathFault::OutputExists(p) => fault@ == PathFault::OutputExists(p@),
            PathFault::TempIsInput(p) => fault@ == PathFault::TempIsInput(p@),
            PathFault::TempExists(p) => fault@ == PathFault::TempExists(p@),
        },
{
}

/// What is told of a path holds the whole path, whatever it is.
pub proof fn told_path_is_the_whole_path(path: Seq<char>)
    ensures
        fault_text(PathFault::InputMissing(path)) == "Input file doesn't exist: "@ + path,
        fault_text(PathFault::OutputExists(path)) == "Output file already exists: "@ + path
            + ". Use --force if you really want to overwrite it."@,
        fault_text(PathFault::TempIsInput(path))
            == "Input file would be lost: the output is put together at "@ + path + "."@,
        fault_text(PathFault::TempExists(path)) == "Temporary file already exists: "@ + path
            + ". Use --force if you really want to overwrite it."@,
        fault_text(PathFault::SamePath)
            == "Input and output paths can't be the same. That's a good way to lose your data."@,
{
}

/// An output that is there already is never accepted without `force`.
pub proof fn nothing_is_overwritten_unasked(
    input: Seq<char>,
    output: Seq<char>,
    same: bool,
    input_exists: bool,
)
    ensures
        path_verdict(input, output, false, same, input_exists, true) is Some,
{
}

/// What is at the temporary path is never given up without `force`, and never if it is the input.
pub proof fn nothing_at_the_temporary_path_is_lost_unasked(
    temp: Seq<char>,
    force: bool,
    is_input: bool,
)
    ensures
        temp_verdict(temp, false, is_input, true) is Some,
        temp_verdict(temp, force, true, true) is Some,
{
}

/// A file is never accepted as its own output, with `force` or without, even where its path is
/// written in another way.
pub proof fn input_is_never_the_output(
    input: Seq<char>,
    output: Seq<char>,
    same: bool,
    force: bool,
    input_exists: bool,
    output_exists: bool,
)
    requires
        may_be_same(input, output, same),
        input == output || is_portable(input) && is_portable(output) && components(input)
            == components(output),
    ensures
        path_verdict(input, output, force, same, input_exists, output_exists) == Some(
            PathFault::<Seq<char>>::SamePath,
        ),
{
}

} // verus!
