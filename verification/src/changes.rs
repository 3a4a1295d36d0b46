//! The change set sent for message generation: which unstaged and untracked
//! files join it, the file selector that excludes some of them, and the
//! assembly of the diff text.

use vstd::prelude::*;
use crate::config::{AppConfig, IncludeUnstagedMode};
use crate::diff::{DiffPreparationReport, prepare_diff_for_llm, prepared_diff, sanitize_diff, sanitize_diff_for_llm, input_budget};
use crate::text::{
    chars_of, contains_chars, contains_sub, occurs_at, copy_strings, parse_unsigned, parse_usize,
    slice_range, split_whitespace_chars, trim, trim_chars, ws_tokens, find_char, find_char_exec,
    string_of, push_decimal, decimal, append_chars, join_with, trim_bounds, to_lowercase,
    unicode_lowercase, chars_equal, lemma_decimal_digits, lemma_parse_decimal, lemma_single_token,
    lemma_ws_tokens_append_word, lemma_ws_tokens_trim,
};

verus! {

/// The diff to describe and the extra paths that it includes.
#[derive(Clone, Debug, Default, PartialEq, Eq)]
pub struct ChangeSet {
    pub diff: String,
    pub included_unstaged_paths: Vec<String>,
    pub included_untracked_paths: Vec<String>,
    pub diff_report: DiffPreparationReport,
}

impl ChangeSet {
    pub fn has_included_extra_paths(&self) -> (b: bool)
        ensures
            b == (self.included_unstaged_paths@.len() > 0 || self.included_untracked_paths@.len() > 0),
    {
        self.included_unstaged_paths.len() > 0 || self.included_untracked_paths.len() > 0
    }
}

/// The unstaged and untracked paths chosen to join the change set.
#[derive(Clone, Debug, Default, PartialEq, Eq)]
pub struct ExtraChangeSelection {
    pub unstaged_paths: Vec<String>,
    pub untracked_paths: Vec<String>,
}

impl ExtraChangeSelection {
    /// Every given path.
    pub fn all(unstaged_paths: &[String], untracked_paths: &[String]) -> (r: Self)
        ensures
            r.unstaged_paths.deep_view() == unstaged_paths@.map_values(|s: String| s@),
            r.untracked_paths.deep_view() == untracked_paths@.map_values(|s: String| s@),
    {
        ExtraChangeSelection {
            unstaged_paths: copy_strings(unstaged_paths),
            untracked_paths: copy_strings(untracked_paths),
        }
    }

    /// No path.
    pub fn none() -> (r: Self)
        ensures
            r.unstaged_paths@.len() == 0,
            r.untracked_paths@.len() == 0,
    {
        ExtraChangeSelection { unstaged_paths: Vec::new(), untracked_paths: Vec::new() }
    }

    pub fn is_empty(&self) -> (b: bool)
        ensures
            b == (self.unstaged_paths@.len() == 0 && self.untracked_paths@.len() == 0),
    {
        self.unstaged_paths.len() == 0 && self.untracked_paths.len() == 0
    }
}

/// Whether a path that is not staged is tracked or untracked.
#[derive(Clone, Copy, Debug, PartialEq, Eq)]
pub enum ExtraPathKind {
    Unstaged,
    Untracked,
}

/// A path offered in the file selector.
#[derive(Clone, Debug, PartialEq, Eq)]
pub struct SelectablePath {
    pub path: String,
    pub kind: ExtraPathKind,
}

/// The arguments of the `git` call that stages the included extra paths
/// (`add -- <unstaged...> <untracked...>`), or `None` when there is none.
pub open spec fn stage_args(unstaged: Seq<Seq<char>>, untracked: Seq<Seq<char>>) -> Option<Seq<Seq<char>>> {
    if unstaged.len() + untracked.len() == 0 {
        None
    } else {
        Some(seq!["add"@, "--"@] + unstaged + untracked)
    }
}

/// Staging runs `git add --` followed by every included path, unstaged and
/// untracked, each kept whole after the `--` so that none is read as an
/// option; it runs exactly when some path is included.
pub proof fn law_every_included_path_is_staged(unstaged: Seq<Seq<char>>, untracked: Seq<Seq<char>>)
    ensures
        stage_args(unstaged, untracked) is Some <==> unstaged.len() + untracked.len() > 0,
        stage_args(unstaged, untracked) matches Some(a) ==> {
            &&& a.len() == 2 + unstaged.len() + untracked.len()
            &&& a[0] == "add"@
            &&& a[1] == "--"@
            &&& forall|i: int| 0 <= i < unstaged.len() ==> a[2 + i] == #[trigger] unstaged[i]
            &&& forall|i: int| 0 <= i < untracked.len() ==> a[2 + unstaged.len() + i] == #[trigger] untracked[i]
        },
{
}

/// The `git` arguments that stage the change set's included extra paths, or
/// `None` when nothing needs staging.
pub fn stage_included_paths(changes: &ChangeSet) -> (r: Option<Vec<String>>)
    ensures
        match r {
            Some(args) => stage_args(changes.included_unstaged_paths.deep_view(), changes.included_untracked_paths.deep_view()) == Some(args.deep_view()),
            None => stage_args(changes.included_unstaged_paths.deep_view(), changes.included_untracked_paths.deep_view()) is None,
        },
{
    if changes.included_unstaged_paths.len() == 0 && changes.included_untracked_paths.len() == 0 {
        return None;
    }
    let mut args: Vec<String> = vec!["add".to_string(), "--".to_string()];
    let ghost mut model = seq!["add"@, "--"@];
    assert(args.deep_view() =~~= model);
    let mut i: usize = 0;
    while i < changes.included_unstaged_paths.len()
        invariant
            i <= changes.included_unstaged_paths@.len(),
            args.deep_view() == seq!["add"@, "--"@] + changes.included_unstaged_paths.deep_view().subrange(0, i as int),
        decreases changes.included_unstaged_paths.len() - i,
    {
        let ghost before = args.deep_view();
        args.push(changes.included_unstaged_paths[i].clone());
        assert(args.deep_view() =~~= before.push(changes.included_unstaged_paths.deep_view()[i as int]));
        i = i + 1;
        assert(changes.included_unstaged_paths.deep_view().subrange(0, i as int) =~~= changes.included_unstaged_paths.deep_view().subrange(0, i - 1).push(changes.included_unstaged_paths.deep_view()[i - 1]));
    }
    assert(changes.included_unstaged_paths.deep_view().subrange(0, i as int) =~~= changes.included_unstaged_paths.deep_view());
    let ghost head = args.deep_view();
    let mut j: usize = 0;
    while j < changes.included_untracked_paths.len()
        invariant
            j <= changes.included_untracked_paths@.len(),
            args.deep_view() == head + changes.included_untracked_paths.deep_view().subrange(0, j as int),
        decreases changes.included_untracked_paths.len() - j,
    {
        let ghost before = args.deep_view();
        args.push(changes.included_untracked_paths[j].clone());
        assert(args.deep_view() =~~= before.push(changes.included_untracked_paths.deep_view()[j as int]));
        j = j + 1;
        assert(changes.included_untracked_paths.deep_view().subrange(0, j as int) =~~= changes.included_untracked_paths.deep_view().subrange(0, j - 1).push(changes.included_untracked_paths.deep_view()[j - 1]));
    }
    assert(changes.included_untracked_paths.deep_view().subrange(0, j as int) =~~= changes.included_untracked_paths.deep_view());
    Some(args)
}

/// What follows once the commit message is shown.
#[derive(Clone, Debug, PartialEq, Eq)]
pub enum AfterMessage {
    /// The user declined the message: nothing is staged or committed.
    Declined,
    /// A dry run: nothing is staged or committed.
    DryRun,
    /// Commit, after running `git` with `stage` when it is given;
    /// `staged_for_commit` tells the commit retries that the included paths
    /// were staged.
    Commit { stage: Option<Vec<String>>, staged_for_commit: bool },
}

/// The decision after the message is shown: a declined confirmation (asked
/// only when `confirm`) or a dry run ends the run with nothing staged or
/// committed; otherwise the included extra paths are staged when
/// `stage_all`, and then the commit is made.
pub fn after_message(confirm: bool, accepted: bool, dry_run: bool, stage_all: bool, changes: &ChangeSet) -> (r: AfterMessage)
    ensures
        confirm && !accepted ==> r is Declined,
        !(confirm && !accepted) && dry_run ==> r is DryRun,
        !(confirm && !accepted) && !dry_run ==> (r matches AfterMessage::Commit { stage, staged_for_commit }
            && staged_for_commit == (stage_all && (changes.included_unstaged_paths@.len() > 0 || changes.included_untracked_paths@.len() > 0))
            && (staged_for_commit ==> (stage matches Some(a) && stage_args(changes.included_unstaged_paths.deep_view(), changes.included_untracked_paths.deep_view()) == Some(a.deep_view())))
            && (!staged_for_commit ==> stage is None)),
{
    if confirm && !accepted {
        return AfterMessage::Declined;
    }
    if dry_run {
        return AfterMessage::DryRun;
    }
    if stage_all && changes.has_included_extra_paths() {
        let stage = stage_included_paths(changes);
        AfterMessage::Commit { stage, staged_for_commit: true }
    } else {
        AfterMessage::Commit { stage: None, staged_for_commit: false }
    }
}

/// A selectable path as a plain value.
pub open spec fn selectable_view(p: SelectablePath) -> (Seq<char>, ExtraPathKind) {
    (p.path@, p.kind)
}

/// The selector's list: the unstaged paths, then the untracked ones.
pub open spec fn selectable(unstaged: Seq<Seq<char>>, untracked: Seq<Seq<char>>) -> Seq<(Seq<char>, ExtraPathKind)> {
    unstaged.map_values(|p: Seq<char>| (p, ExtraPathKind::Unstaged))
        + untracked.map_values(|p: Seq<char>| (p, ExtraPathKind::Untracked))
}

pub fn selectable_paths(unstaged_paths: &[String], untracked_paths: &[String]) -> (paths: Vec<SelectablePath>)
    ensures
        paths@.map_values(|p: SelectablePath| selectable_view(p)) == selectable(
            unstaged_paths@.map_values(|s: String| s@),
            untracked_paths@.map_values(|s: String| s@),
        ),
{
    let ghost u = unstaged_paths@.map_values(|s: String| s@);
    let ghost t = untracked_paths@.map_values(|s: String| s@);
    let mut paths: Vec<SelectablePath> = Vec::new();
    let mut i: usize = 0;
    while i < unstaged_paths.len()
        invariant
            i <= unstaged_paths@.len(),
            u == unstaged_paths@.map_values(|s: String| s@),
            paths@.map_values(|p: SelectablePath| selectable_view(p))
                == u.subrange(0, i as int).map_values(|p: Seq<char>| (p, ExtraPathKind::Unstaged)),
        decreases unstaged_paths.len() - i,
    {
        let ghost old_m = paths@.map_values(|p: SelectablePath| selectable_view(p));
        let path = unstaged_paths[i].clone();
        assert(path@ == u[i as int]);
        paths.push(SelectablePath { path, kind: ExtraPathKind::Unstaged });
        assert(paths@.map_values(|p: SelectablePath| selectable_view(p)) =~= old_m.push((u[i as int], ExtraPathKind::Unstaged)));
        assert(u.subrange(0, i + 1).map_values(|p: Seq<char>| (p, ExtraPathKind::Unstaged))
            =~= u.subrange(0, i as int).map_values(|p: Seq<char>| (p, ExtraPathKind::Unstaged)).push((u[i as int], ExtraPathKind::Unstaged)));
        i = i + 1;
    }
    let ghost head = paths@.map_values(|p: SelectablePath| selectable_view(p));
    assert(u.subrange(0, i as int) == u);
    let mut j: usize = 0;
    while j < untracked_paths.len()
        invariant
            j <= untracked_paths@.len(),
            t == untracked_paths@.map_values(|s: String| s@),
            head == u.map_values(|p: Seq<char>| (p, ExtraPathKind::Unstaged)),
            paths@.map_values(|p: SelectablePath| selectable_view(p))
                == head + t.subrange(0, j as int).map_values(|p: Seq<char>| (p, ExtraPathKind::Untracked)),
        decreases untracked_paths.len() - j,
    {
        let ghost old_m = paths@.map_values(|p: SelectablePath| selectable_view(p));
        let path = untracked_paths[j].clone();
        assert(path@ == t[j as int]);
        paths.push(SelectablePath { path, kind: ExtraPathKind::Untracked });
        assert(paths@.map_values(|p: SelectablePath| selectable_view(p)) =~= old_m.push((t[j as int], ExtraPathKind::Untracked)));
        assert(t.subrange(0, j + 1).map_values(|p: Seq<char>| (p, ExtraPathKind::Untracked))
            =~= t.subrange(0, j as int).map_values(|p: Seq<char>| (p, ExtraPathKind::Untracked)).push((t[j as int], ExtraPathKind::Untracked)));
        j = j + 1;
    }
    assert(t.subrange(0, j as int) == t);
    paths
}


/// Why a file selection was refused.
#[derive(Clone, Debug, PartialEq, Eq)]
pub enum SelectionError {
    InvalidNumber(String),
    OutOfRange(usize),
    UnknownSelector(String),
}

/// A refused file selection as a plain value.
pub enum SelectionErrorModel {
    InvalidNumber(Seq<char>),
    OutOfRange(nat),
    UnknownSelector(Seq<char>),
}

impl View for SelectionError {
    type V = SelectionErrorModel;

    open spec fn view(&self) -> SelectionErrorModel {
        match self {
            SelectionError::InvalidNumber(v) => SelectionErrorModel::InvalidNumber(v@),
            SelectionError::OutOfRange(n) => SelectionErrorModel::OutOfRange(*n as nat),
            SelectionError::UnknownSelector(t) => SelectionErrorModel::UnknownSelector(t@),
        }
    }
}

impl SelectionError {
    /// The message that reports the error.
    pub fn message(&self) -> (m: String)
        ensures
            m@ == match self@ {
                SelectionErrorModel::InvalidNumber(v) => "invalid file number: "@ + v,
                SelectionErrorModel::OutOfRange(n) => "file number out of range: "@ + decimal(n),
                SelectionErrorModel::UnknownSelector(t) => "unknown file selector: "@ + t,
            },
    {
        let mut m = match self {
            SelectionError::InvalidNumber(_) => chars_of("invalid file number: "),
            SelectionError::OutOfRange(_) => chars_of("file number out of range: "),
            SelectionError::UnknownSelector(_) => chars_of("unknown file selector: "),
        };
        match self {
            SelectionError::InvalidNumber(v) => append_chars(&mut m, chars_of(v.as_str()).as_slice()),
            SelectionError::OutOfRange(n) => push_decimal(&mut m, *n),
            SelectionError::UnknownSelector(t) => append_chars(&mut m, chars_of(t.as_str()).as_slice()),
        }
        string_of(m.as_slice())
    }
}

/// A 1-based file number of the selector, as a 0-based index.
pub open spec fn selection_number(value: Seq<char>, len: nat) -> Result<nat, SelectionErrorModel> {
    match parse_unsigned(value) {
        Some(n) => if n > usize::MAX {
            Err(SelectionErrorModel::InvalidNumber(value))
        } else if n == 0 || n > len {
            Err(SelectionErrorModel::OutOfRange(n))
        } else {
            Ok((n - 1) as nat)
        },
        None => Err(SelectionErrorModel::InvalidNumber(value)),
    }
}

/// Text that reads as an unsigned number that fits in `usize`.
pub open spec fn is_number_text(v: Seq<char>) -> bool {
    parse_unsigned(v) matches Some(n) && n <= usize::MAX
}

/// Where a range token `a-b` splits: at its first `-`, when the text on
/// both sides of it is a number. Any other token is a single file number
/// or a file-name fragment.
pub open spec fn range_split(token: Seq<char>) -> Option<int> {
    match find_char(token, '-') {
        Some(k) => if is_number_text(token.subrange(0, k)) && is_number_text(token.subrange(k + 1, token.len() as int)) {
            Some(k)
        } else {
            None
        },
        None => None,
    }
}

/// Why a selector token is refused: a range (`a-b`) with an end out of
/// range, or a token that is no file number and is in no listed path.
pub open spec fn token_error(token: Seq<char>, names: Seq<Seq<char>>) -> Option<SelectionErrorModel> {
    match range_split(token) {
        Some(k) => match selection_number(token.subrange(0, k), names.len()) {
            Err(e) => Some(e),
            Ok(_) => match selection_number(token.subrange(k + 1, token.len() as int), names.len()) {
                Err(e) => Some(e),
                Ok(_) => None,
            },
        },
        None => if selection_number(token, names.len()) is Ok {
            None
        } else if exists|i: int| 0 <= i < names.len() && contains_sub(#[trigger] names[i], token) {
            None
        } else {
            Some(SelectionErrorModel::UnknownSelector(token))
        },
    }
}

/// Whether a selector token names the file at index `i`: a range names the
/// files between its ends, a number names one file, and other text names
/// every file whose path contains it.
pub open spec fn token_selects(token: Seq<char>, names: Seq<Seq<char>>, i: int) -> bool {
    match range_split(token) {
        Some(k) => match (
            selection_number(token.subrange(0, k), names.len()),
            selection_number(token.subrange(k + 1, token.len() as int), names.len()),
        ) {
            (Ok(a), Ok(b)) => if a <= b { a <= i <= b } else { b <= i <= a },
            _ => false,
        },
        None => match selection_number(token, names.len()) {
            Ok(n) => i == n,
            Err(_) => contains_sub(names[i], token),
        },
    }
}

/// The effect of one token on the inclusion mask: it excludes the files it
/// names, or, after `^`, includes them again.
#[verifier::opaque]
pub open spec fn apply_token(token: Seq<char>, names: Seq<Seq<char>>, mask: Seq<bool>) -> Result<Seq<bool>, SelectionErrorModel> {
    let caret = token.len() > 0 && token[0] == '^';
    let rest = if caret { token.drop_first() } else { token };
    match token_error(rest, names) {
        Some(e) => Err(e),
        None => Ok(Seq::new(mask.len(), |i: int| if token_selects(rest, names, i) { caret } else { mask[i] })),
    }
}

pub open spec fn selection_fold(tokens: Seq<Seq<char>>, names: Seq<Seq<char>>, mask: Seq<bool>) -> Result<Seq<bool>, SelectionErrorModel>
    decreases tokens.len(),
{
    if tokens.len() == 0 {
        Ok(mask)
    } else {
        match selection_fold(tokens.drop_last(), names, mask) {
            Ok(m) => apply_token(tokens.last(), names, m),
            Err(e) => Err(e),
        }
    }
}

/// The indexes whose mask entry is set, in increasing order.
pub open spec fn mask_indexes(mask: Seq<bool>) -> Seq<usize>
    decreases mask.len(),
{
    if mask.len() == 0 {
        Seq::empty()
    } else if mask.last() {
        mask_indexes(mask.drop_last()).push((mask.len() - 1) as usize)
    } else {
        mask_indexes(mask.drop_last())
    }
}

/// The paths offered by the selector.
pub open spec fn path_names(paths: Seq<SelectablePath>) -> Seq<Seq<char>> {
    paths.map_values(|p: SelectablePath| p.path@)
}

/// The indexes left selected by `input`: all files start included, and the
/// white-space separated tokens are applied in order.
pub open spec fn file_selection(input: Seq<char>, names: Seq<Seq<char>>) -> Result<Seq<usize>, SelectionErrorModel> {
    if names.len() == 0 {
        Ok(Seq::empty())
    } else {
        match selection_fold(ws_tokens(trim(input)), names, Seq::new(names.len(), |i: int| true)) {
            Ok(m) => Ok(mask_indexes(m)),
            Err(e) => Err(e),
        }
    }
}

fn parse_selection_number(value: &[char], len: usize) -> (r: Result<usize, SelectionError>)
    ensures
        match selection_number(value@, len as nat) {
            Ok(n) => r == Ok::<usize, SelectionError>(n as usize),
            Err(e) => r matches Err(x) && x@ == e,
        },
{
    match parse_usize(value) {
        Some(number) => {
            if number == 0 || number > len {
                Err(SelectionError::OutOfRange(number))
            } else {
                Ok(number - 1)
            }
        },
        None => Err(SelectionError::InvalidNumber(string_of(value))),
    }
}

/// `i` is one of the indexes in `v`.
pub open spec fn idx_in(v: Seq<usize>, i: int) -> bool {
    exists|q: int| 0 <= q < v.len() && v[q] as int == i
}

proof fn lemma_idx_in_push(v: Seq<usize>, x: usize, i: int)
    ensures
        idx_in(v.push(x), i) <==> (idx_in(v, i) || x as int == i),
{
    if idx_in(v.push(x), i) {
        let q = choose|q: int| 0 <= q < v.push(x).len() && v.push(x)[q] as int == i;
        if q < v.len() {
            assert(v[q] as int == i);
        }
    }
    if idx_in(v, i) {
        let q = choose|q: int| 0 <= q < v.len() && v[q] as int == i;
        assert(v.push(x)[q] as int == i);
    }
    if x as int == i {
        assert(v.push(x)[v.len() as int] as int == i);
    }
}

/// The files whose path contains `token`, in order.
fn matching_paths(token: &[char], paths: &[SelectablePath]) -> (r: Vec<usize>)
    ensures
        forall|k: int| 0 <= k < r@.len() ==> r@[k] < paths@.len(),
        forall|i: int| 0 <= i < paths@.len() ==> (idx_in(r@, i) <==> contains_sub(#[trigger] path_names(paths@)[i], token@)),
{
    let mut r: Vec<usize> = Vec::new();
    let mut i: usize = 0;
    while i < paths.len()
        invariant
            i <= paths@.len(),
            forall|k: int| 0 <= k < r@.len() ==> r@[k] < i,
            forall|j: int| 0 <= j < paths@.len() ==> (idx_in(r@, j) <==> (j < i && contains_sub(#[trigger] path_names(paths@)[j], token@))),
        decreases paths.len() - i,
    {
        let name = chars_of(paths[i].path.as_str());
        assert(path_names(paths@)[i as int] == name@);
        let ghost old_r = r@;
        if contains_chars(name.as_slice(), token) {
            r.push(i);
            assert forall|j: int| 0 <= j < paths@.len() implies (idx_in(r@, j) <==> (j < i + 1 && contains_sub(#[trigger] path_names(paths@)[j], token@))) by {
                lemma_idx_in_push(old_r, i, j);
            }
        }
        i = i + 1;
    }
    r
}

/// The indexes `lo..=hi`.
fn index_range(lo: usize, hi: usize) -> (v: Vec<usize>)
    requires
        lo <= hi < usize::MAX,
    ensures
        forall|k: int| 0 <= k < v@.len() ==> v@[k] <= hi,
        forall|i: int| idx_in(v@, i) <==> lo <= i <= hi,
{
    let mut v: Vec<usize> = Vec::new();
    let mut i: usize = lo;
    while i <= hi
        invariant
            lo <= i <= hi + 1,
            hi < usize::MAX,
            v@.len() == i - lo,
            forall|k: int| 0 <= k < v@.len() ==> v@[k] == lo + k,
        decreases hi + 1 - i,
    {
        v.push(i);
        i = i + 1;
    }
    assert forall|j: int| idx_in(v@, j) <==> lo <= j <= hi by {
        if lo <= j <= hi {
            assert(v@[j - lo] as int == j);
        }
    }
    v
}

/// Where `token` splits as a range, if it is one.
fn range_position(token: &[char]) -> (r: Option<usize>)
    ensures
        match r {
            Some(k) => range_split(token@) == Some(k as int) && k < token@.len(),
            None => range_split(token@) is None,
        },
{
    let n: usize = token.len();
    match find_char_exec(token, '-') {
        Some(k) => {
            assert(k < n);
            let first = slice_range(token, 0, k);
            let second = slice_range(token, k + 1, token.len());
            let a = parse_usize(first.as_slice());
            let b = parse_usize(second.as_slice());
            assert(a is Some <==> is_number_text(token@.subrange(0, k as int)));
            assert(b is Some <==> is_number_text(token@.subrange(k + 1, token@.len() as int)));
            if a.is_some() && b.is_some() {
                Some(k)
            } else {
                None
            }
        },
        None => None,
    }
}

fn resolve_range_token(token: &[char], k: usize, paths: &[SelectablePath]) -> (r: Result<Vec<usize>, SelectionError>)
    requires
        range_split(token@) == Some(k as int),
        k < token.len(),
    ensures
        match r {
            Ok(v) => token_error(token@, path_names(paths@)) is None
                && (forall|q: int| 0 <= q < v@.len() ==> v@[q] < paths@.len())
                && forall|i: int| 0 <= i < paths@.len() ==> (idx_in(v@, i) <==> token_selects(token@, path_names(paths@), i)),
            Err(e) => token_error(token@, path_names(paths@)) == Some(e@),
        },
{
    let len: usize = paths.len();
    assert(path_names(paths@).len() == len);
    let first = slice_range(token, 0, k);
    let second = slice_range(token, k + 1, token.len());
    let start = match parse_selection_number(first.as_slice(), len) {
        Ok(n) => n,
        Err(e) => return Err(e),
    };
    let end = match parse_selection_number(second.as_slice(), len) {
        Ok(n) => n,
        Err(e) => return Err(e),
    };
    let (lo, hi) = if start <= end { (start, end) } else { (end, start) };
    Ok(index_range(lo, hi))
}

fn resolve_selection_token(token: &[char], paths: &[SelectablePath]) -> (r: Result<Vec<usize>, SelectionError>)
    ensures
        match r {
            Ok(v) => token_error(token@, path_names(paths@)) is None
                && (forall|q: int| 0 <= q < v@.len() ==> v@[q] < paths@.len())
                && forall|i: int| 0 <= i < paths@.len() ==> (idx_in(v@, i) <==> token_selects(token@, path_names(paths@), i)),
            Err(e) => token_error(token@, path_names(paths@)) == Some(e@),
        },
{
    let len: usize = paths.len();
    assert(path_names(paths@).len() == len);
    if let Some(k) = range_position(token) {
        return resolve_range_token(token, k, paths);
    }
    if let Ok(index) = parse_selection_number(token, len) {
        let v = vec![index];
        assert forall|j: int| idx_in(v@, j) <==> j == index by {
            if j == index {
                assert(v@[0] as int == j);
            }
        }
        return Ok(v);
    }
    let matches = matching_paths(token, paths);
    if matches.len() == 0 {
        assert forall|i: int| 0 <= i < path_names(paths@).len() implies !contains_sub(#[trigger] path_names(paths@)[i], token@) by {
            assert(!idx_in(matches@, i));
        }
        return Err(SelectionError::UnknownSelector(string_of(token)));
    }
    assert(idx_in(matches@, matches@[0] as int));
    assert(contains_sub(path_names(paths@)[matches@[0] as int], token@));
    Ok(matches)
}

fn apply_selection_token(token: &[char], paths: &[SelectablePath], included: &mut Vec<bool>) -> (r: Result<(), SelectionError>)
    requires
        old(included)@.len() == paths@.len(),
    ensures
        final(included)@.len() == old(included)@.len(),
        match apply_token(token@, path_names(paths@), old(included)@) {
            Ok(m) => r is Ok && final(included)@ == m,
            Err(e) => r matches Err(x) && x@ == e,
        },
{
    reveal(apply_token);
    let caret = token.len() > 0 && token[0] == '^';
    let rest = if caret { slice_range(token, 1, token.len()) } else { slice_range(token, 0, token.len()) };
    assert(token@.subrange(0, token@.len() as int) == token@);
    assert(token@.len() > 0 ==> token@.drop_first() == token@.subrange(1, token@.len() as int));
    let indexes = match resolve_selection_token(rest.as_slice(), paths) {
        Ok(v) => v,
        Err(e) => return Err(e),
    };
    let ghost mask0 = included@;
    let mut k: usize = 0;
    while k < indexes.len()
        invariant
            k <= indexes@.len(),
            included@.len() == mask0.len() == paths@.len(),
            forall|q: int| 0 <= q < indexes@.len() ==> indexes@[q] < paths@.len(),
            forall|i: int| 0 <= i < mask0.len() ==> #[trigger] included@[i] == if idx_in(indexes@.subrange(0, k as int), i) { caret } else { mask0[i] },
        decreases indexes.len() - k,
    {
        let index = indexes[k];
        included.set(index, caret);
        proof {
            let pre = indexes@.subrange(0, k as int);
            assert(indexes@.subrange(0, k + 1) == pre.push(index));
            assert forall|i: int| 0 <= i < mask0.len() implies #[trigger] included@[i] == if idx_in(pre.push(index), i) { caret } else { mask0[i] } by {
                lemma_idx_in_push(pre, index, i);
            }
        }
        k = k + 1;
    }
    assert(indexes@.subrange(0, indexes@.len() as int) == indexes@);
    assert(included@ =~= Seq::new(mask0.len(), |i: int| if token_selects(rest@, path_names(paths@), i) { caret } else { mask0[i] }));
    Ok(())
}

fn indexes_from_mask(included: &Vec<bool>) -> (r: Vec<usize>)
    ensures
        r@ == mask_indexes(included@),
{
    let mut r: Vec<usize> = Vec::new();
    let mut i: usize = 0;
    while i < included.len()
        invariant
            i <= included@.len(),
            r@ == mask_indexes(included@.subrange(0, i as int)),
        decreases included.len() - i,
    {
        assert(included@.subrange(0, i + 1).drop_last() == included@.subrange(0, i as int));
        if included[i] {
            r.push(i);
        }
        i = i + 1;
    }
    assert(included@.subrange(0, included@.len() as int) == included@);
    r
}

/// The indexes of the files left selected by a selector input; see
/// `file_selection`.
pub fn parse_file_selection(input: &str, paths: &[SelectablePath]) -> (r: Result<Vec<usize>, SelectionError>)
    ensures
        match file_selection(input@, path_names(paths@)) {
            Ok(v) => r matches Ok(x) && x@ == v,
            Err(e) => r matches Err(x) && x@ == e,
        },
{
    if paths.len() == 0 {
        return Ok(Vec::new());
    }
    let mut included: Vec<bool> = Vec::new();
    let mut i: usize = 0;
    while i < paths.len()
        invariant
            i <= paths@.len(),
            included@ == Seq::new(i as nat, |k: int| true),
        decreases paths.len() - i,
    {
        included.push(true);
        i = i + 1;
        assert(included@ =~= Seq::new(i as nat, |k: int| true));
    }
    let text = chars_of(input);
    let trimmed = trim_chars(text.as_slice());
    let tokens = split_whitespace_chars(trimmed.as_slice());
    let ghost names = path_names(paths@);
    let ghost all = included@;
    assert(names.len() == paths@.len());
    let mut t: usize = 0;
    while t < tokens.len()
        invariant
            t <= tokens.deep_view().len(),
            tokens.deep_view() == ws_tokens(trim(input@)),
            all == Seq::new(names.len(), |k: int| true),
            names == path_names(paths@),
            paths@.len() > 0,
            included@.len() == paths@.len(),
            selection_fold(tokens.deep_view().subrange(0, t as int), names, all) == Ok::<Seq<bool>, SelectionErrorModel>(included@),
        decreases tokens.len() - t,
    {
        assert(tokens.deep_view().subrange(0, t + 1).drop_last() == tokens.deep_view().subrange(0, t as int));
        assert(tokens.deep_view().subrange(0, t + 1).last() == tokens.deep_view()[t as int]);
        assert(tokens.deep_view()[t as int] =~= tokens[t as int]@);
        let ghost before = included@;
        match apply_selection_token(tokens[t].as_slice(), paths, &mut included) {
            Ok(()) => {},
            Err(e) => {
                proof {
                    assert(apply_token(tokens.deep_view()[t as int], names, before) is Err);
                    assert(selection_fold(tokens.deep_view().subrange(0, t + 1), names, all) is Err);
                    lemma_selection_fold_err(tokens.deep_view(), t as int + 1, names, all);
                    let e2 = apply_token(tokens.deep_view()[t as int], names, before)->Err_0;
                    assert(e@ == e2);
                    assert(selection_fold(tokens.deep_view(), names, all) == Err::<Seq<bool>, SelectionErrorModel>(e2));
                    assert(names.len() > 0);
                    assert(file_selection(input@, names) == Err::<Seq<usize>, SelectionErrorModel>(e2));
                }
                return Err(e);
            },
        }
        t = t + 1;
    }
    assert(tokens.deep_view().subrange(0, tokens.deep_view().len() as int) == tokens.deep_view());
    Ok(indexes_from_mask(&included))
}

proof fn lemma_selection_fold_err(tokens: Seq<Seq<char>>, k: int, names: Seq<Seq<char>>, mask: Seq<bool>)
    requires
        0 <= k <= tokens.len(),
        selection_fold(tokens.subrange(0, k), names, mask) is Err,
    ensures
        selection_fold(tokens, names, mask) == selection_fold(tokens.subrange(0, k), names, mask),
    decreases tokens.len() - k,
{
    if k < tokens.len() {
        assert(tokens.subrange(0, k + 1).drop_last() == tokens.subrange(0, k));
        lemma_selection_fold_err(tokens, k + 1, names, mask);
    } else {
        assert(tokens.subrange(0, k) == tokens);
    }
}


/// The paths at `idx` whose kind is `kind`, in the order of `idx`.
pub open spec fn select_kind(paths: Seq<(Seq<char>, ExtraPathKind)>, idx: Seq<usize>, kind: ExtraPathKind) -> Seq<Seq<char>>
    decreases idx.len(),
{
    if idx.len() == 0 {
        Seq::empty()
    } else {
        let prev = select_kind(paths, idx.drop_last(), kind);
        let p = paths[idx.last() as int];
        if p.1 == kind {
            prev.push(p.0)
        } else {
            prev
        }
    }
}

/// The selection made of the files at `selected_indexes`.
pub fn selection_from_indexes(paths: &[SelectablePath], selected_indexes: &[usize]) -> (r: ExtraChangeSelection)
    requires
        forall|k: int| 0 <= k < selected_indexes@.len() ==> selected_indexes@[k] < paths@.len(),
    ensures
        r.unstaged_paths.deep_view() == select_kind(paths@.map_values(|p: SelectablePath| selectable_view(p)), selected_indexes@, ExtraPathKind::Unstaged),
        r.untracked_paths.deep_view() == select_kind(paths@.map_values(|p: SelectablePath| selectable_view(p)), selected_indexes@, ExtraPathKind::Untracked),
{
    let ghost model = paths@.map_values(|p: SelectablePath| selectable_view(p));
    let mut selection = ExtraChangeSelection::none();
    let mut i: usize = 0;
    assert(selection.unstaged_paths.deep_view() =~~= Seq::<Seq<char>>::empty());
    assert(selection.untracked_paths.deep_view() =~~= Seq::<Seq<char>>::empty());
    while i < selected_indexes.len()
        invariant
            i <= selected_indexes@.len(),
            model == paths@.map_values(|p: SelectablePath| selectable_view(p)),
            forall|k: int| 0 <= k < selected_indexes@.len() ==> selected_indexes@[k] < paths@.len(),
            selection.unstaged_paths.deep_view() == select_kind(model, selected_indexes@.subrange(0, i as int), ExtraPathKind::Unstaged),
            selection.untracked_paths.deep_view() == select_kind(model, selected_indexes@.subrange(0, i as int), ExtraPathKind::Untracked),
        decreases selected_indexes.len() - i,
    {
        let index = selected_indexes[i];
        assert(selected_indexes@.subrange(0, i + 1).drop_last() == selected_indexes@.subrange(0, i as int));
        assert(selected_indexes@.subrange(0, i + 1).last() == index);
        assert(model[index as int] == selectable_view(paths@[index as int]));
        let path = paths[index].path.clone();
        let ghost u0 = selection.unstaged_paths.deep_view();
        let ghost t0 = selection.untracked_paths.deep_view();
        match paths[index].kind {
            ExtraPathKind::Unstaged => {
                selection.unstaged_paths.push(path);
                assert(selection.unstaged_paths.deep_view() =~~= u0.push(model[index as int].0));
            },
            ExtraPathKind::Untracked => {
                selection.untracked_paths.push(path);
                assert(selection.untracked_paths.deep_view() =~~= t0.push(model[index as int].0));
            },
        }
        i = i + 1;
    }
    assert(selected_indexes@.subrange(0, selected_indexes@.len() as int) == selected_indexes@);
    selection
}

/// `0, 1, ..., n - 1`.
pub open spec fn index_seq(n: nat) -> Seq<usize> {
    Seq::new(n, |i: int| i as usize)
}

proof fn lemma_all_true_mask(n: nat)
    requires
        n <= usize::MAX,
    ensures
        mask_indexes(Seq::new(n, |i: int| true)) == index_seq(n),
    decreases n,
{
    if n > 0 {
        lemma_all_true_mask((n - 1) as nat);
        assert(Seq::new(n, |i: int| true).drop_last() == Seq::new((n - 1) as nat, |i: int| true));
        assert(index_seq((n - 1) as nat).push((n - 1) as usize) == index_seq(n));
    }
}

proof fn lemma_select_range(u: Seq<Seq<char>>, t: Seq<Seq<char>>, k: nat)
    requires
        k <= u.len() + t.len(),
        u.len() + t.len() <= usize::MAX,
    ensures
        k <= u.len() ==> select_kind(selectable(u, t), index_seq(k), ExtraPathKind::Unstaged) == u.subrange(0, k as int)
            && select_kind(selectable(u, t), index_seq(k), ExtraPathKind::Untracked) == Seq::<Seq<char>>::empty(),
        k > u.len() ==> select_kind(selectable(u, t), index_seq(k), ExtraPathKind::Unstaged) == u
            && select_kind(selectable(u, t), index_seq(k), ExtraPathKind::Untracked) == t.subrange(0, k - u.len()),
    decreases k,
{
    if k > 0 {
        lemma_select_range(u, t, (k - 1) as nat);
        assert(index_seq(k).drop_last() == index_seq((k - 1) as nat));
        assert(index_seq(k).last() == (k - 1) as usize);
        let sel = selectable(u, t);
        if k - 1 < u.len() {
            assert(sel[k - 1] == (u[k - 1], ExtraPathKind::Unstaged));
            assert(u.subrange(0, k - 1).push(u[k - 1]) == u.subrange(0, k as int));
        } else {
            assert(sel[k - 1] == (t[k - 1 - u.len()], ExtraPathKind::Untracked));
            assert(t.subrange(0, k - 1 - u.len()).push(t[k - 1 - u.len()]) == t.subrange(0, k - u.len()));
            if k - 1 == u.len() {
                assert(u.subrange(0, u.len() as int) == u);
            }
        }
    }
}

/// With an empty selector input every listed file stays selected: the
/// selection is every unstaged and every untracked path, in order.
pub proof fn law_empty_selection_keeps_every_file(unstaged: Seq<Seq<char>>, untracked: Seq<Seq<char>>)
    requires
        unstaged.len() + untracked.len() <= usize::MAX,
    ensures
        ({
            let sel = selectable(unstaged, untracked);
            let names = sel.map_values(|p: (Seq<char>, ExtraPathKind)| p.0);
            &&& file_selection(Seq::empty(), names) == Ok::<Seq<usize>, SelectionErrorModel>(index_seq(sel.len()))
            &&& select_kind(sel, index_seq(sel.len()), ExtraPathKind::Unstaged) == unstaged
            &&& select_kind(sel, index_seq(sel.len()), ExtraPathKind::Untracked) == untracked
        }),
{
    let sel = selectable(unstaged, untracked);
    let n = sel.len();
    assert(trim(Seq::<char>::empty()) == Seq::<char>::empty());
    assert(ws_tokens(Seq::<char>::empty()) == Seq::<Seq<char>>::empty());
    lemma_all_true_mask(n);
    lemma_select_range(unstaged, untracked, n);
    assert(unstaged.subrange(0, unstaged.len() as int) == unstaged);
    assert(untracked.subrange(0, untracked.len() as int) == untracked);
    if n == 0 {
        assert(index_seq(0) == Seq::<usize>::empty());
        assert(unstaged == Seq::<Seq<char>>::empty());
        assert(untracked == Seq::<Seq<char>>::empty());
    }
}

proof fn lemma_mask_indexes_sorted(mask: Seq<bool>)
    requires
        mask.len() <= usize::MAX,
    ensures
        forall|k: int| 0 <= k < mask_indexes(mask).len() ==> mask_indexes(mask)[k] < mask.len(),
        forall|a: int, b: int| 0 <= a < b < mask_indexes(mask).len() ==> mask_indexes(mask)[a] < mask_indexes(mask)[b],
    decreases mask.len(),
{
    if mask.len() > 0 {
        let prev = mask_indexes(mask.drop_last());
        lemma_mask_indexes_sorted(mask.drop_last());
        if mask.last() {
            let r = prev.push((mask.len() - 1) as usize);
            assert(mask_indexes(mask) == r);
            assert forall|k: int| 0 <= k < r.len() implies r[k] < mask.len() by {
                if k < prev.len() {
                    assert(r[k] == prev[k]);
                }
            }
            assert forall|a: int, b: int| 0 <= a < b < r.len() implies r[a] < r[b] by {
                assert(r[a] == prev[a]);
                if b < prev.len() {
                    assert(r[b] == prev[b]);
                }
            }
        }
    }
}

proof fn lemma_selection_fold_len(tokens: Seq<Seq<char>>, names: Seq<Seq<char>>, mask: Seq<bool>)
    ensures
        selection_fold(tokens, names, mask) matches Ok(m) ==> m.len() == mask.len(),
    decreases tokens.len(),
{
    reveal(apply_token);
    if tokens.len() > 0 {
        lemma_selection_fold_len(tokens.drop_last(), names, mask);
    }
}

/// A selection lists each selected file once, by increasing index, and
/// only files that are listed.
pub proof fn law_selection_indexes_increase(input: Seq<char>, names: Seq<Seq<char>>)
    requires
        names.len() <= usize::MAX,
    ensures
        file_selection(input, names) matches Ok(v) ==> {
            &&& forall|k: int| 0 <= k < v.len() ==> v[k] < names.len()
            &&& forall|a: int, b: int| 0 <= a < b < v.len() ==> v[a] < v[b]
        },
{
    let all = Seq::new(names.len(), |i: int| true);
    lemma_selection_fold_len(ws_tokens(trim(input)), names, all);
    if let Ok(m) = selection_fold(ws_tokens(trim(input)), names, all) {
        lemma_mask_indexes_sorted(m);
    }
}


proof fn lemma_mask_indexes_members(mask: Seq<bool>)
    requires
        mask.len() <= usize::MAX,
    ensures
        forall|i: int| #[trigger] idx_in(mask_indexes(mask), i) <==> (0 <= i < mask.len() && mask[i]),
    decreases mask.len(),
{
    if mask.len() > 0 {
        let prev = mask_indexes(mask.drop_last());
        lemma_mask_indexes_members(mask.drop_last());
        assert forall|i: int| #[trigger] idx_in(mask_indexes(mask), i) <==> (0 <= i < mask.len() && mask[i]) by {
            assert(idx_in(prev, i) <==> (0 <= i < mask.len() - 1 && mask.drop_last()[i]));
            if 0 <= i < mask.len() - 1 {
                assert(mask.drop_last()[i] == mask[i]);
            }
            if mask.last() {
                assert(mask_indexes(mask) == prev.push((mask.len() - 1) as usize));
                lemma_idx_in_push(prev, (mask.len() - 1) as usize, i);
            } else {
                assert(mask_indexes(mask) == prev);
            }
        }
    } else {
        assert forall|i: int| #[trigger] idx_in(mask_indexes(mask), i) <==> (0 <= i < mask.len() && mask[i]) by {
            assert(mask_indexes(mask).len() == 0);
        }
    }
}

/// The facts about a file number written in decimal that the selector uses.
proof fn lemma_number_token(n: nat, len: nat)
    requires
        1 <= n <= len,
        len <= usize::MAX,
    ensures
        range_split(decimal(n)) is None,
        selection_number(decimal(n), len) == Ok::<nat, SelectionErrorModel>((n - 1) as nat),
        decimal(n).len() > 0,
        decimal(n)[0] != '^',
        forall|i: int| 0 <= i < decimal(n).len() ==> !crate::text::is_ws(#[trigger] decimal(n)[i]),
{
    let d = decimal(n);
    lemma_decimal_digits(n);
    lemma_parse_decimal(n);
    assert forall|i: int| 0 <= i < d.len() implies !crate::text::is_ws(#[trigger] d[i]) by {
        assert(crate::text::is_digit(d[i]));
    }
    assert(!(exists|i: int| 0 <= i < d.len() && d[i] == '-')) by {
        assert forall|i: int| 0 <= i < d.len() implies d[i] != '-' by {
            assert(crate::text::is_digit(d[i]));
        }
    }
    assert(crate::text::is_digit(d[0]));
}

/// A token naming the file number `n` (1-based) sets that file's entry of
/// the mask and no other: `n` excludes it, `^n` includes it again.
proof fn lemma_number_token_mask(n: nat, names: Seq<Seq<char>>, mask: Seq<bool>, caret: bool)
    requires
        1 <= n <= names.len() <= usize::MAX,
        mask.len() == names.len(),
    ensures
        apply_token(if caret { seq!['^'] + decimal(n) } else { decimal(n) }, names, mask)
            == Ok::<Seq<bool>, SelectionErrorModel>(mask.update(n - 1, caret)),
{
    reveal(apply_token);
    lemma_number_token(n, names.len());
    let d = decimal(n);
    let token = if caret { seq!['^'] + d } else { d };
    if caret {
        assert(token.drop_first() =~= d);
    }
    assert(token_error(d, names) is None);
    assert(Seq::new(mask.len(), |i: int| if token_selects(d, names, i) { caret } else { mask[i] }) =~= mask.update(n - 1, caret));
}

/// Entering a file's number excludes exactly that file: on its own, the
/// input `n` selects every file but the `n`-th.
pub proof fn law_number_excludes_one_file(n: nat, names: Seq<Seq<char>>)
    requires
        1 <= n <= names.len() <= usize::MAX,
    ensures
        file_selection(decimal(n), names) matches Ok(v)
            && forall|i: int| idx_in(v, i) <==> (0 <= i < names.len() && i != n - 1),
{
    let d = decimal(n);
    lemma_number_token(n, names.len());
    lemma_single_token(d);
    let all = Seq::new(names.len(), |i: int| true);
    let tokens = ws_tokens(trim(d));
    assert(tokens == seq![d]);
    assert(tokens.drop_last() =~~= Seq::<Seq<char>>::empty());
    lemma_number_token_mask(n, names, all, false);
    let m = all.update(n - 1, false);
    assert(tokens.last() == d);
    assert(selection_fold(tokens.drop_last(), names, all) == Ok::<Seq<bool>, SelectionErrorModel>(all));
    assert(selection_fold(tokens, names, all) == Ok::<Seq<bool>, SelectionErrorModel>(m));
    lemma_mask_indexes_members(m);
}

/// After any tokens that are accepted, a further token `n` excludes the
/// `n`-th file and a further token `^n` includes it again, leaving every
/// other file as it was.
pub proof fn law_number_tokens_set_one_file(tokens: Seq<Seq<char>>, names: Seq<Seq<char>>, start: Seq<bool>, n: nat, caret: bool)
    requires
        1 <= n <= names.len() <= usize::MAX,
        start.len() == names.len(),
        selection_fold(tokens, names, start) is Ok,
    ensures
        selection_fold(tokens.push(if caret { seq!['^'] + decimal(n) } else { decimal(n) }), names, start)
            == Ok::<Seq<bool>, SelectionErrorModel>(selection_fold(tokens, names, start)->Ok_0.update(n - 1, caret)),
{
    let token = if caret { seq!['^'] + decimal(n) } else { decimal(n) };
    assert(tokens.push(token).drop_last() == tokens);
    lemma_selection_fold_len(tokens, names, start);
    lemma_number_token_mask(n, names, selection_fold(tokens, names, start)->Ok_0, caret);
}

/// The items at the indexes of `idx` that lie in `lo..hi`, in the order of
/// `idx`, each taken from `items` at its offset from `lo`.
pub open spec fn picked(idx: Seq<usize>, lo: int, hi: int, items: Seq<Seq<char>>) -> Seq<Seq<char>>
    decreases idx.len(),
{
    if idx.len() == 0 {
        Seq::empty()
    } else {
        let prev = picked(idx.drop_last(), lo, hi, items);
        let i = idx.last() as int;
        if lo <= i < hi { prev.push(items[i - lo]) } else { prev }
    }
}

/// The files chosen from the selector's list are listed files of their
/// kind: the unstaged ones are the listed unstaged paths at the chosen
/// positions, the untracked ones likewise, in the order chosen. Since a
/// selection's indexes increase (`law_selection_indexes_increase`), each is
/// a subsequence of the listed paths.
pub proof fn law_selected_paths_are_listed(unstaged: Seq<Seq<char>>, untracked: Seq<Seq<char>>, idx: Seq<usize>)
    requires
        forall|k: int| 0 <= k < idx.len() ==> idx[k] < unstaged.len() + untracked.len(),
    ensures
        select_kind(selectable(unstaged, untracked), idx, ExtraPathKind::Unstaged)
            == picked(idx, 0, unstaged.len() as int, unstaged),
        select_kind(selectable(unstaged, untracked), idx, ExtraPathKind::Untracked)
            == picked(idx, unstaged.len() as int, (unstaged.len() + untracked.len()) as int, untracked),
    decreases idx.len(),
{
    if idx.len() > 0 {
        let p = idx.drop_last();
        assert forall|k: int| 0 <= k < p.len() implies p[k] < unstaged.len() + untracked.len() by {
            assert(p[k] == idx[k]);
        }
        law_selected_paths_are_listed(unstaged, untracked, p);
        let sel = selectable(unstaged, untracked);
        let i = idx.last() as int;
        assert(idx.last() == idx[idx.len() - 1]);
        if i < unstaged.len() {
            assert(sel[i] == (unstaged[i], ExtraPathKind::Unstaged));
        } else {
            assert(sel[i] == (untracked[i - unstaged.len()], ExtraPathKind::Untracked));
        }
    }
}

/// With no files listed, every input selects nothing.
pub proof fn law_no_files_select_nothing(input: Seq<char>)
    ensures
        file_selection(input, Seq::empty()) == Ok::<Seq<usize>, SelectionErrorModel>(Seq::empty()),
{
}

/// Appending ` ^n` to an accepted input includes the `n`-th file again and
/// leaves every other file as the input left it.
pub proof fn law_caret_reincludes_file(input: Seq<char>, names: Seq<Seq<char>>, n: nat)
    requires
        1 <= n <= names.len() <= usize::MAX,
        file_selection(input, names) is Ok,
    ensures
        file_selection(input + seq![' ', '^'] + decimal(n), names) matches Ok(w)
            && forall|i: int| #[trigger] idx_in(w, i) <==> (idx_in(file_selection(input, names)->Ok_0, i) || i == n - 1),
{
    let d = decimal(n);
    let token = seq!['^'] + d;
    lemma_number_token(n, names.len());
    assert forall|i: int| 0 <= i < token.len() implies !crate::text::is_ws(#[trigger] token[i]) by {
        if i > 0 {
            assert(token[i] == d[i - 1]);
        }
    }
    let longer = input + seq![' ', '^'] + d;
    assert(longer =~= input + seq![' '] + token);
    lemma_ws_tokens_append_word(input, token);
    lemma_ws_tokens_trim(longer);
    lemma_ws_tokens_trim(input);
    let tokens = ws_tokens(trim(input));
    let all = Seq::new(names.len(), |i: int| true);
    assert(ws_tokens(trim(longer)) == tokens.push(token));
    law_number_tokens_set_one_file(tokens, names, all, n, true);
    lemma_selection_fold_len(tokens, names, all);
    let m = selection_fold(tokens, names, all)->Ok_0;
    let m2 = m.update(n - 1, true);
    lemma_mask_indexes_members(m);
    lemma_mask_indexes_members(m2);
    assert(file_selection(input, names) == Ok::<Seq<usize>, SelectionErrorModel>(mask_indexes(m)));
    assert(file_selection(longer, names) == Ok::<Seq<usize>, SelectionErrorModel>(mask_indexes(m2)));
}

/// A selector token without its leading `^`, if it has one.
pub open spec fn caret_free(token: Seq<char>) -> Seq<char> {
    if token.len() > 0 && token[0] == '^' { token.drop_first() } else { token }
}

proof fn lemma_selection_fold_errors(tokens: Seq<Seq<char>>, names: Seq<Seq<char>>, mask: Seq<bool>)
    ensures
        selection_fold(tokens, names, mask) is Err <==> exists|i: int| 0 <= i < tokens.len()
            && token_error(caret_free(#[trigger] tokens[i]), names) is Some,
        selection_fold(tokens, names, mask) matches Err(e) ==> exists|i: int| 0 <= i < tokens.len()
            && token_error(caret_free(#[trigger] tokens[i]), names) == Some(e)
            && forall|j: int| 0 <= j < i ==> token_error(caret_free(#[trigger] tokens[j]), names) is None,
    decreases tokens.len(),
{
    reveal(apply_token);
    if tokens.len() > 0 {
        let p = tokens.drop_last();
        lemma_selection_fold_errors(p, names, mask);
        assert forall|i: int| 0 <= i < p.len() implies #[trigger] p[i] == tokens[i] by {}
        let last = tokens.last();
        assert(last == tokens[tokens.len() - 1]);
        if selection_fold(p, names, mask) is Err {
            let e = selection_fold(p, names, mask)->Err_0;
            let i = choose|i: int| 0 <= i < p.len()
                && token_error(caret_free(#[trigger] p[i]), names) == Some(e)
                && forall|j: int| 0 <= j < i ==> token_error(caret_free(#[trigger] p[j]), names) is None;
            assert(tokens[i] == p[i]);
            assert forall|j: int| 0 <= j < i implies token_error(caret_free(#[trigger] tokens[j]), names) is None by {
                assert(tokens[j] == p[j]);
            }
        } else if token_error(caret_free(last), names) is Some {
            let i = tokens.len() - 1;
            assert forall|j: int| 0 <= j < i implies token_error(caret_free(#[trigger] tokens[j]), names) is None by {
                assert(tokens[j] == p[j]);
                if token_error(caret_free(tokens[j]), names) is Some {
                    assert(token_error(caret_free(p[j]), names) is Some);
                }
            }
        } else {
            assert forall|i: int| 0 <= i < tokens.len() implies token_error(caret_free(#[trigger] tokens[i]), names) is None by {
                if i < p.len() {
                    assert(tokens[i] == p[i]);
                    if token_error(caret_free(tokens[i]), names) is Some {
                        assert(token_error(caret_free(p[i]), names) is Some);
                    }
                }
            }
        }
    }
}

/// A selector input is refused exactly when one of its tokens (without a
/// leading `^`) is refused on its own: a range with an end out of range, or
/// a token that is no file number and occurs in no listed path; the first
/// such token gives the error.
pub proof fn law_selection_refused_iff_bad_token(input: Seq<char>, names: Seq<Seq<char>>)
    requires
        names.len() > 0,
    ensures
        file_selection(input, names) is Err <==> exists|i: int| 0 <= i < ws_tokens(trim(input)).len()
            && token_error(caret_free(#[trigger] ws_tokens(trim(input))[i]), names) is Some,
        file_selection(input, names) matches Err(e) ==> exists|i: int| 0 <= i < ws_tokens(trim(input)).len()
            && token_error(caret_free(#[trigger] ws_tokens(trim(input))[i]), names) == Some(e)
            && forall|j: int| 0 <= j < i ==> token_error(caret_free(#[trigger] ws_tokens(trim(input))[j]), names) is None,
{
    lemma_selection_fold_errors(ws_tokens(trim(input)), names, Seq::new(names.len(), |i: int| true));
}

/// The labelled parts of the change set's raw diff: staged changes when
/// there are any, then, when extra files were selected, their unstaged and
/// untracked diffs when not blank.
pub open spec fn change_parts(
    staged: Seq<char>,
    has_selection: bool,
    unstaged: Seq<char>,
    untracked: Seq<char>,
) -> Seq<Seq<char>> {
    let p1 = if trim(staged).len() > 0 { seq!["Staged changes:\n"@ + staged] } else { Seq::empty() };
    if !has_selection {
        p1
    } else {
        let p2 = if trim(unstaged).len() > 0 { p1.push("Unstaged tracked changes:\n"@ + unstaged) } else { p1 };
        if trim(untracked).len() > 0 { p2.push("Untracked files:\n"@ + untracked) } else { p2 }
    }
}

proof fn lemma_join_holds_items(items: Seq<Seq<char>>, sep: Seq<char>)
    ensures
        forall|i: int| 0 <= i < items.len() ==> contains_sub(join_with(items, sep), #[trigger] items[i]),
    decreases items.len(),
{
    if items.len() == 1 {
        assert(join_with(items, sep) == items[0]);
        assert(items[0].subrange(0, items[0].len() as int) =~= items[0]);
        assert(occurs_at(join_with(items, sep), items[0], 0));
    } else if items.len() > 1 {
        let p = items.drop_last();
        let jp = join_with(p, sep);
        let j = join_with(items, sep);
        lemma_join_holds_items(p, sep);
        assert(j == jp + sep + items.last());
        assert forall|i: int| 0 <= i < items.len() implies contains_sub(j, #[trigger] items[i]) by {
            if i < p.len() {
                assert(p[i] == items[i]);
                let k = choose|k: int| occurs_at(jp, p[i], k);
                assert(j.subrange(k, k + p[i].len()) =~= jp.subrange(k, k + p[i].len()));
                assert(occurs_at(j, items[i], k));
            } else {
                let k: int = jp.len() as int + sep.len() as int;
                assert(j.subrange(k, k + items.last().len()) =~= items.last());
                assert(occurs_at(j, items[i], k));
            }
        }
    }
}

/// Every diff that joins the change set reaches the text sent to the model,
/// under its label: the staged diff when it is not blank, and, when extra
/// files were selected, the unstaged and the untracked diff when not blank.
/// With no selection the text is the labelled staged diff alone (empty when
/// that is blank).
pub proof fn law_included_diffs_reach_the_text(staged: Seq<char>, has_selection: bool, unstaged: Seq<char>, untracked: Seq<char>)
    ensures
        ({
            let raw = join_with(change_parts(staged, has_selection, unstaged, untracked), seq!['\n', '\n']);
            &&& trim(staged).len() > 0 ==> contains_sub(raw, "Staged changes:\n"@ + staged)
            &&& (has_selection && trim(unstaged).len() > 0) ==> contains_sub(raw, "Unstaged tracked changes:\n"@ + unstaged)
            &&& (has_selection && trim(untracked).len() > 0) ==> contains_sub(raw, "Untracked files:\n"@ + untracked)
            &&& !has_selection ==> raw == if trim(staged).len() > 0 { "Staged changes:\n"@ + staged } else { Seq::empty() }
        }),
{
    let parts = change_parts(staged, has_selection, unstaged, untracked);
    lemma_join_holds_items(parts, seq!['\n', '\n']);
    let p1 = if trim(staged).len() > 0 { seq!["Staged changes:\n"@ + staged] } else { Seq::<Seq<char>>::empty() };
    let p2 = if trim(unstaged).len() > 0 { p1.push("Unstaged tracked changes:\n"@ + unstaged) } else { p1 };
    if trim(staged).len() > 0 {
        assert(parts[0] == "Staged changes:\n"@ + staged);
    }
    if has_selection {
        if trim(unstaged).len() > 0 {
            assert(parts[p1.len() as int] == "Unstaged tracked changes:\n"@ + unstaged);
        }
        if trim(untracked).len() > 0 {
            assert(parts[p2.len() as int] == "Untracked files:\n"@ + untracked);
        }
    }
}

/// The change set built from collected diffs: the labelled parts are joined
/// by blank lines, sanitized and prepared under the configured budget; the
/// selected unstaged (untracked) paths are included when their diff is not
/// blank.
pub fn assemble_changes(
    config: &AppConfig,
    staged_diff: &str,
    selection: ExtraChangeSelection,
    unstaged_diff: &str,
    untracked_diff: &str,
) -> (r: ChangeSet)
    ensures
        ({
            let has_selection = selection.unstaged_paths@.len() > 0 || selection.untracked_paths@.len() > 0;
            let raw = join_with(change_parts(staged_diff@, has_selection, unstaged_diff@, untracked_diff@), seq!['\n', '\n']);
            let st = prepared_diff(sanitize_diff(raw), config.max_input_chars as nat, config.max_file_chars as nat,
                config.include_lockfiles, config.ignore_diff_paths.deep_view());
            &&& r.diff@ == st.0
            &&& r.diff_report.original_chars == sanitize_diff(raw).len()
            &&& r.diff_report.prepared_chars == st.0.len()
            &&& r.diff_report.input_budget_chars == input_budget(config.max_input_chars as nat)
            &&& r.diff_report.omitted_files.deep_view() == st.2
            &&& r.diff_report.truncated_files.deep_view() == st.3
            &&& r.diff_report.reached_input_budget == st.4
            &&& r.included_unstaged_paths.deep_view() == if has_selection && trim(unstaged_diff@).len() > 0 {
                selection.unstaged_paths.deep_view()
            } else {
                Seq::empty()
            }
            &&& r.included_untracked_paths.deep_view() == if has_selection && trim(untracked_diff@).len() > 0 {
                selection.untracked_paths.deep_view()
            } else {
                Seq::empty()
            }
        }),
{
    let has_selection = !selection.is_empty();
    let staged = chars_of(staged_diff);
    let unstaged = chars_of(unstaged_diff);
    let untracked = chars_of(untracked_diff);
    let ghost parts = change_parts(staged_diff@, has_selection, unstaged_diff@, untracked_diff@);
    let mut raw: Vec<char> = Vec::new();
    let ghost mut done: Seq<Seq<char>> = Seq::empty();
    let (sa, sb) = trim_bounds(staged.as_slice());
    if sa < sb {
        append_chars(&mut raw, chars_of("Staged changes:\n").as_slice());
        append_chars(&mut raw, staged.as_slice());
        proof { done = seq!["Staged changes:\n"@ + staged_diff@]; }
    }
    assert(raw@ == join_with(done, seq!['\n', '\n']));
    let mut included_unstaged_paths: Vec<String> = Vec::new();
    let mut included_untracked_paths: Vec<String> = Vec::new();
    let ExtraChangeSelection { unstaged_paths, untracked_paths } = selection;
    if has_selection {
        let (ua, ub) = trim_bounds(unstaged.as_slice());
        if ua < ub {
            let mut part = chars_of("Unstaged tracked changes:\n");
            append_chars(&mut part, unstaged.as_slice());
            if raw.len() > 0 {
                raw.push('\n');
                raw.push('\n');
            }
            append_chars(&mut raw, part.as_slice());
            proof {
                assert(done.push(part@).drop_last() == done);
                done = done.push(part@);
            }
            included_unstaged_paths = unstaged_paths;
        }
        assert(raw@ == join_with(done, seq!['\n', '\n']));
        let (ta, tb) = trim_bounds(untracked.as_slice());
        if ta < tb {
            let mut part = chars_of("Untracked files:\n");
            append_chars(&mut part, untracked.as_slice());
            if raw.len() > 0 {
                raw.push('\n');
                raw.push('\n');
            }
            append_chars(&mut raw, part.as_slice());
            proof {
                assert(done.push(part@).drop_last() == done);
                done = done.push(part@);
            }
            included_untracked_paths = untracked_paths;
        }
    }
    assert(done == parts);
    assert(raw@ == join_with(parts, seq!['\n', '\n']));
    assert(included_unstaged_paths.deep_view() =~~= (if has_selection && trim(unstaged_diff@).len() > 0 { unstaged_paths.deep_view() } else { Seq::empty() }));
    assert(included_untracked_paths.deep_view() =~~= (if has_selection && trim(untracked_diff@).len() > 0 { untracked_paths.deep_view() } else { Seq::empty() }));
    let raw_string = string_of(raw.as_slice());
    let sanitized = sanitize_diff_for_llm(raw_string.as_str());
    let prepared = prepare_diff_for_llm(config, sanitized.as_str());
    ChangeSet {
        diff: prepared.content,
        included_unstaged_paths,
        included_untracked_paths,
        diff_report: prepared.report,
    }
}

/// A run goes on to ask for a message when the prepared diff is not blank,
/// or when empty commits are allowed.
pub fn has_changes_to_commit(diff: &str, allow_empty: bool) -> (b: bool)
    ensures
        b == (trim(diff@).len() > 0 || allow_empty),
{
    let (a, e) = trim_bounds(chars_of(diff).as_slice());
    a < e || allow_empty
}

/// What to do about unstaged and untracked files found next to the staged
/// changes.
#[derive(Clone, Copy, Debug, PartialEq, Eq)]
pub enum ExtraSelectionPlan {
    IncludeAll,
    IncludeNone,
    Ask,
}

/// `always` includes them, `never` leaves them out, and `ask` asks unless the
/// run assumes yes, in which case it includes them.
pub fn extra_selection_plan(mode: IncludeUnstagedMode, assume_yes: bool) -> (r: ExtraSelectionPlan)
    ensures
        r == match mode {
            IncludeUnstagedMode::Always => ExtraSelectionPlan::IncludeAll,
            IncludeUnstagedMode::Never => ExtraSelectionPlan::IncludeNone,
            IncludeUnstagedMode::Ask => if assume_yes { ExtraSelectionPlan::IncludeAll } else { ExtraSelectionPlan::Ask },
        },
{
    match mode {
        IncludeUnstagedMode::Always => ExtraSelectionPlan::IncludeAll,
        IncludeUnstagedMode::Never => ExtraSelectionPlan::IncludeNone,
        IncludeUnstagedMode::Ask => if assume_yes { ExtraSelectionPlan::IncludeAll } else { ExtraSelectionPlan::Ask },
    }
}

/// An answer to whether unstaged and untracked files are included.
#[derive(Clone, Copy, Debug, PartialEq, Eq)]
pub enum ExtraChangeAnswer {
    IncludeAll,
    IncludeNone,
    SelectFiles,
}

/// The answer that `input` gives, read trimmed and lower-cased: empty, `y`
/// or `yes` include all; `n` or `no` include none; `s`, `select`, `select
/// files` or `select files to add` ask which files; anything else is no
/// answer.
pub open spec fn extra_change_answer(input: Seq<char>) -> Option<ExtraChangeAnswer> {
    answer_for_lowercased(unicode_lowercase(trim(input)))
}

/// The answer that an input already trimmed and lower-cased gives.
pub open spec fn answer_for_lowercased(a: Seq<char>) -> Option<ExtraChangeAnswer> {
    if a == Seq::<char>::empty() || a == "y"@ || a == "yes"@ {
        Some(ExtraChangeAnswer::IncludeAll)
    } else if a == "n"@ || a == "no"@ {
        Some(ExtraChangeAnswer::IncludeNone)
    } else if a == "s"@ || a == "select"@ || a == "select files"@ || a == "select files to add"@ {
        Some(ExtraChangeAnswer::SelectFiles)
    } else {
        None
    }
}

fn equals_literal(a: &[char], lit: &str) -> (b: bool)
    ensures
        b == (a@ == lit@),
{
    let l = chars_of(lit);
    chars_equal(a, l.as_slice())
}

pub fn parse_extra_change_answer(input: &str) -> (r: Option<ExtraChangeAnswer>)
    ensures
        r == extra_change_answer(input@),
{
    let text = chars_of(input);
    let trimmed = string_of(trim_chars(text.as_slice()).as_slice());
    let lower = to_lowercase(trimmed.as_str());
    lowercased_extra_change_answer(lower.as_str())
}

/// The answer that an input already trimmed and lower-cased gives.
pub fn lowercased_extra_change_answer(lowered: &str) -> (r: Option<ExtraChangeAnswer>)
    ensures
        r == answer_for_lowercased(lowered@),
{
    let a = chars_of(lowered);
    assert(a@.len() == 0 ==> a@ == Seq::<char>::empty());
    if a.len() == 0 || equals_literal(a.as_slice(), "y") || equals_literal(a.as_slice(), "yes") {
        return Some(ExtraChangeAnswer::IncludeAll);
    }
    if equals_literal(a.as_slice(), "n") || equals_literal(a.as_slice(), "no") {
        return Some(ExtraChangeAnswer::IncludeNone);
    }
    if equals_literal(a.as_slice(), "s") || equals_literal(a.as_slice(), "select")
        || equals_literal(a.as_slice(), "select files") || equals_literal(a.as_slice(), "select files to add") {
        return Some(ExtraChangeAnswer::SelectFiles);
    }
    None
}

/// The lines that list the files found next to the staged changes.
pub open spec fn extra_paths_listing(unstaged: Seq<Seq<char>>, untracked: Seq<Seq<char>>) -> Seq<Seq<char>> {
    seq!["Found files that are not staged with git add:"@]
        + unstaged.map_values(|p: Seq<char>| "  unstaged: "@ + p)
        + untracked.map_values(|p: Seq<char>| "  untracked: "@ + p)
}

fn push_labelled(lines: &mut Vec<String>, label: &str, paths: &[String])
    ensures
        final(lines).deep_view() == old(lines).deep_view() + paths@.map_values(|p: String| label@ + p@),
{
    let ghost start = lines.deep_view();
    let mut i: usize = 0;
    while i < paths.len()
        invariant
            i <= paths@.len(),
            lines.deep_view() == start + paths@.subrange(0, i as int).map_values(|p: String| label@ + p@),
        decreases paths.len() - i,
    {
        let mut line = chars_of(label);
        append_chars(&mut line, chars_of(paths[i].as_str()).as_slice());
        let ghost before = lines.deep_view();
        lines.push(string_of(line.as_slice()));
        assert(lines.deep_view() =~~= before.push(label@ + paths@[i as int]@));
        assert(paths@.subrange(0, i + 1).map_values(|p: String| label@ + p@) =~~= paths@.subrange(0, i as int).map_values(|p: String| label@ + p@).push(label@ + paths@[i as int]@));
        i = i + 1;
    }
    assert(paths@.subrange(0, paths@.len() as int) == paths@);
}

pub fn extra_paths_lines(unstaged_paths: &[String], untracked_paths: &[String]) -> (lines: Vec<String>)
    ensures
        lines.deep_view() == extra_paths_listing(
            unstaged_paths@.map_values(|s: String| s@),
            untracked_paths@.map_values(|s: String| s@),
        ),
{
    let first = chars_of("Found files that are not staged with git add:");
    let mut lines: Vec<String> = vec![string_of(first.as_slice())];
    assert(lines.deep_view() =~~= seq!["Found files that are not staged with git add:"@]);
    push_labelled(&mut lines, "  unstaged: ", unstaged_paths);
    push_labelled(&mut lines, "  untracked: ", untracked_paths);
    assert(unstaged_paths@.map_values(|p: String| "  unstaged: "@ + p@) =~~= unstaged_paths@.map_values(|s: String| s@).map_values(|p: Seq<char>| "  unstaged: "@ + p));
    assert(untracked_paths@.map_values(|p: String| "  untracked: "@ + p@) =~~= untracked_paths@.map_values(|s: String| s@).map_values(|p: Seq<char>| "  untracked: "@ + p));
    lines
}

/// The lines of the file selector: a count, the files numbered from 1 and
/// listed from the highest number down, and a hint.
pub open spec fn selection_ui_listing(names: Seq<Seq<char>>) -> Seq<Seq<char>> {
    seq![":: "@ + decimal(names.len()) + " files..."@]
        + Seq::new(names.len(), |k: int| decimal((names.len() - k) as nat) + seq![' ', ' '] + names[names.len() - 1 - k])
        + seq!["==> Files to exclude: (for example: \"1 2 3\", \"1-3\", \"^4\", or file names)"@]
}

pub fn selection_ui_lines(paths: &[SelectablePath]) -> (lines: Vec<String>)
    ensures
        lines.deep_view() == selection_ui_listing(path_names(paths@)),
{
    let ghost names = path_names(paths@);
    let n: usize = paths.len();
    let mut first = chars_of(":: ");
    push_decimal(&mut first, n);
    append_chars(&mut first, chars_of(" files...").as_slice());
    let mut lines: Vec<String> = vec![string_of(first.as_slice())];
    let ghost head = seq![":: "@ + decimal(names.len()) + " files..."@];
    assert(lines.deep_view() =~~= head);
    let ghost body = Seq::new(names.len(), |k: int| decimal((names.len() - k) as nat) + seq![' ', ' '] + names[names.len() - 1 - k]);
    let mut k: usize = 0;
    while k < n
        invariant
            k <= n == names.len() == paths@.len(),
            names == path_names(paths@),
            body == Seq::new(names.len(), |k: int| decimal((names.len() - k) as nat) + seq![' ', ' '] + names[names.len() - 1 - k]),
            lines.deep_view() == head + body.subrange(0, k as int),
        decreases n - k,
    {
        let index: usize = n - 1 - k;
        let mut line: Vec<char> = Vec::new();
        push_decimal(&mut line, index + 1);
        line.push(' ');
        line.push(' ');
        let name = chars_of(paths[index].path.as_str());
        assert(name@ == names[index as int]);
        append_chars(&mut line, name.as_slice());
        assert(line@ == body[k as int]);
        let ghost before = lines.deep_view();
        lines.push(string_of(line.as_slice()));
        assert(lines.deep_view() =~~= before.push(line@));
        assert(body.subrange(0, k + 1) =~~= body.subrange(0, k as int).push(body[k as int]));
        k = k + 1;
    }
    assert(body.subrange(0, n as int) == body);
    let hint = chars_of("==> Files to exclude: (for example: \"1 2 3\", \"1-3\", \"^4\", or file names)");
    let ghost before = lines.deep_view();
    lines.push(string_of(hint.as_slice()));
    assert(lines.deep_view() =~~= before.push(hint@));
    lines
}

/// The text of the untracked files' diffs: for each file, a line naming it
/// followed by the output of its diff.
pub open spec fn untracked_diff_text(paths: Seq<Seq<char>>, outputs: Seq<Seq<char>>) -> Seq<char>
    decreases paths.len(),
{
    if paths.len() == 0 || outputs.len() < paths.len() {
        Seq::empty()
    } else {
        untracked_diff_text(paths.drop_last(), outputs) + "\nUntracked file: "@ + paths.last() + seq!['\n']
            + outputs[paths.len() - 1]
    }
}

pub fn diff_untracked_paths(paths: &[String], outputs: &[String]) -> (r: String)
    requires
        outputs@.len() == paths@.len(),
    ensures
        r@ == untracked_diff_text(paths@.map_values(|s: String| s@), outputs@.map_values(|s: String| s@)),
{
    let ghost ps = paths@.map_values(|s: String| s@);
    let ghost os = outputs@.map_values(|s: String| s@);
    let mut out: Vec<char> = Vec::new();
    let mut i: usize = 0;
    while i < paths.len()
        invariant
            i <= paths@.len() == outputs@.len(),
            ps == paths@.map_values(|s: String| s@),
            os == outputs@.map_values(|s: String| s@),
            out@ == untracked_diff_text(ps.subrange(0, i as int), os),
        decreases paths.len() - i,
    {
        assert(ps.subrange(0, i + 1).drop_last() == ps.subrange(0, i as int));
        append_chars(&mut out, chars_of("\nUntracked file: ").as_slice());
        append_chars(&mut out, chars_of(paths[i].as_str()).as_slice());
        out.push('\n');
        append_chars(&mut out, chars_of(outputs[i].as_str()).as_slice());
        i = i + 1;
    }
    assert(ps.subrange(0, paths@.len() as int) == ps);
    string_of(out.as_slice())
}

} // verus!
