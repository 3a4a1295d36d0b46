//! What the tool reads from the commands it runs: whether the working
//! directory is a repository, whether a command succeeded, and the lines a
//! command printed. The commands themselves are run by the caller.

use vstd::prelude::*;
use crate::text::{
    chars_equal, chars_of, line_content_exec, lines_of, nonempty_items, split_inclusive_lines,
    string_of, trim, trim_chars,
};

verus! {

/// Why a command's result was refused.
#[derive(Clone, Debug, PartialEq, Eq)]
pub enum GitError {
    /// `git rev-parse --is-inside-work-tree` did not print `true`.
    NotARepository,
    /// The command exited unsuccessfully; its error output, trimmed.
    CommandFailed { stderr: String },
}

/// A `GitError` as plain values.
pub enum GitFailure {
    NotARepository,
    CommandFailed(Seq<char>),
}

impl View for GitError {
    type V = GitFailure;

    open spec fn view(&self) -> GitFailure {
        match self {
            GitError::NotARepository => GitFailure::NotARepository,
            GitError::CommandFailed { stderr } => GitFailure::CommandFailed(stderr@),
        }
    }
}

impl GitFailure {
    pub open spec fn text(self) -> Seq<char> {
        match self {
            GitFailure::NotARepository => "current directory is not inside a Git repository"@,
            GitFailure::CommandFailed(e) => "command failed: "@ + e,
        }
    }
}

impl GitError {
    /// The message that reports the error.
    pub fn message(&self) -> (m: String)
        ensures
            m@ == self@.text(),
    {
        match self {
            GitError::NotARepository => string_of(chars_of("current directory is not inside a Git repository").as_slice()),
            GitError::CommandFailed { stderr } => {
                let mut m = chars_of("command failed: ");
                crate::text::append_chars(&mut m, chars_of(stderr.as_str()).as_slice());
                string_of(m.as_slice())
            },
        }
    }
}

/// Accepts the output of `git rev-parse --is-inside-work-tree` when it is
/// `true`, surrounding white space aside.
pub fn ensure_inside_git_repo(rev_parse_output: &str) -> (r: Result<(), GitError>)
    ensures
        r is Ok <==> trim(rev_parse_output@) == "true"@,
        r matches Err(e) ==> e@ == GitFailure::NotARepository,
{
    let answer = trim_chars(chars_of(rev_parse_output).as_slice());
    if chars_equal(answer.as_slice(), chars_of("true").as_slice()) {
        Ok(())
    } else {
        Err(GitError::NotARepository)
    }
}

/// A finished command is accepted when it succeeded; otherwise its error
/// output, trimmed, is reported.
pub fn check_command_status(success: bool, stderr: &str) -> (r: Result<(), GitError>)
    ensures
        r is Ok <==> success,
        r matches Err(e) ==> e@ == GitFailure::CommandFailed(trim(stderr@)),
{
    if success {
        Ok(())
    } else {
        Err(GitError::CommandFailed { stderr: string_of(trim_chars(chars_of(stderr).as_slice()).as_slice()) })
    }
}

/// `git diff --no-index` exits with 1 when the files differ, which is the
/// expected outcome for a new file.
pub fn no_index_diff_succeeded(success: bool, code: Option<i32>) -> (r: bool)
    ensures
        r == (success || code == Some(1i32)),
{
    success || code == Some(1i32)
}

/// The lines of a command's output, trimmed, without the empty ones.
pub open spec fn output_lines(output: Seq<char>) -> Seq<Seq<char>> {
    nonempty_items(lines_of(output).map_values(|l: Seq<char>| trim(l)))
}

/// Reads the output of a command that prints one item per line.
pub fn run_lines_command(output: &str) -> (r: Vec<String>)
    ensures
        r.deep_view() == output_lines(output@),
{
    let pieces = split_inclusive_lines(chars_of(output).as_slice());
    let ghost all = lines_of(output@).map_values(|l: Seq<char>| trim(l));
    let n: usize = pieces.len();
    let mut r: Vec<String> = Vec::new();
    let mut i: usize = 0;
    assert(all.len() == n);
    assert(r.deep_view() =~~= nonempty_items(all.subrange(0, 0)));
    while i < n
        invariant
            i <= n == pieces.deep_view().len(),
            pieces.deep_view() == crate::text::split_incl(output@),
            all == lines_of(output@).map_values(|l: Seq<char>| trim(l)),
            all.len() == n,
            r.deep_view() == nonempty_items(all.subrange(0, i as int)),
        decreases n - i,
    {
        assert(pieces.deep_view()[i as int] =~= pieces[i as int]@);
        let line = trim_chars(line_content_exec(pieces[i].as_slice()).as_slice());
        assert(line@ == all[i as int]);
        assert(all.subrange(0, i + 1).drop_last() == all.subrange(0, i as int));
        assert(all.subrange(0, i + 1).last() == all[i as int]);
        if line.len() > 0 {
            let ghost before = r.deep_view();
            r.push(string_of(line.as_slice()));
            assert(r.deep_view() =~~= before.push(line@));
        }
        i = i + 1;
    }
    assert(all.subrange(0, n as int) == all);
    r
}

} // verus!
