//! Building `git commit` arguments and deciding how to retry a failed commit.

use vstd::prelude::*;
use crate::shell::{shell_split, shell_words_split};
use crate::text::{chars_of, contains_chars, contains_sub, occurs_at, string_of, to_lowercase, trim_chars, unicode_lowercase, trim, chars_equal};

verus! {

/// The `--cleanup` modes that `git commit` accepts.
#[derive(Clone, Copy, Debug, PartialEq, Eq)]
pub enum CleanupMode {
    Strip,
    Whitespace,
    Verbatim,
    Scissors,
    Default,
}

/// Options of the `git commit` call.
#[derive(Clone, Debug, Default, PartialEq)]
pub struct CommitOptions {
    pub amend: bool,
    pub signoff: bool,
    pub skip_hooks: bool,
    pub allow_empty: bool,
    pub allow_empty_message: bool,
    pub author: Option<String>,
    pub date: Option<String>,
    pub cleanup: Option<CleanupMode>,
    pub gpg_sign: Option<Option<String>>,
    pub args: Vec<String>,
}

/// A simple fix for a failed commit that the user may accept.
#[derive(Debug, Clone, Copy, PartialEq, Eq)]
pub enum CommitFix {
    AllowEmpty,
    AllowEmptyMessage,
    StageAll,
}


impl CleanupMode {
    /// The value `git commit --cleanup=` takes for the mode.
    pub open spec fn git_value(self) -> Seq<char> {
        match self {
            CleanupMode::Strip => "strip"@,
            CleanupMode::Whitespace => "whitespace"@,
            CleanupMode::Verbatim => "verbatim"@,
            CleanupMode::Scissors => "scissors"@,
            CleanupMode::Default => "default"@,
        }
    }

    pub fn as_git_value(&self) -> (r: &'static str)
        ensures
            r@ == self.git_value(),
    {
        match self {
            CleanupMode::Strip => "strip",
            CleanupMode::Whitespace => "whitespace",
            CleanupMode::Verbatim => "verbatim",
            CleanupMode::Scissors => "scissors",
            CleanupMode::Default => "default",
        }
    }
}

pub open spec fn opt_str(o: Option<String>) -> Option<Seq<char>> {
    match o {
        Some(s) => Some(s@),
        None => None,
    }
}

/// The flags that the boolean options give.
pub open spec fn flag_args(o: CommitOptions) -> Seq<Seq<char>> {
    (if o.amend { seq!["--amend"@] } else { Seq::empty() })
        + (if o.signoff { seq!["--signoff"@] } else { Seq::empty() })
        + (if o.skip_hooks { seq!["--no-verify"@] } else { Seq::empty() })
        + (if o.allow_empty { seq!["--allow-empty"@] } else { Seq::empty() })
        + (if o.allow_empty_message { seq!["--allow-empty-message"@] } else { Seq::empty() })
}

/// The arguments that the valued options give.
pub open spec fn value_args(o: CommitOptions) -> Seq<Seq<char>> {
    (match opt_str(o.author) { Some(a) => seq!["--author"@, a], None => Seq::empty() })
        + (match opt_str(o.date) { Some(d) => seq!["--date"@, d], None => Seq::empty() })
        + (match o.cleanup { Some(c) => seq!["--cleanup="@ + c.git_value()], None => Seq::empty() })
        + (match o.gpg_sign {
            Some(Some(k)) => seq!["--gpg-sign="@ + k@],
            Some(None) => seq!["--gpg-sign"@],
            None => Seq::empty(),
        })
}

/// The arguments that the named options give, after `commit -m <message>`.
pub open spec fn named_commit_args(o: CommitOptions, message: Seq<char>) -> Seq<Seq<char>> {
    seq!["commit"@, "-m"@, message] + flag_args(o) + value_args(o)
}

/// The raw arguments split into words one after the other; `Err` holds the
/// first raw argument that does not split.
pub open spec fn split_raw_args(raw: Seq<Seq<char>>) -> Result<Seq<Seq<char>>, Seq<char>>
    decreases raw.len(),
{
    if raw.len() == 0 {
        Ok(Seq::empty())
    } else {
        match split_raw_args(raw.drop_last()) {
            Err(e) => Err(e),
            Ok(words) => match shell_words_split(raw.last()) {
                Some(w) => Ok(words + w),
                None => Err(raw.last()),
            },
        }
    }
}

/// The `git commit` arguments for the options and message: the named ones,
/// then the words of each raw argument; `Err` holds the first raw argument
/// that does not split.
pub open spec fn commit_args(o: CommitOptions, message: Seq<char>) -> Result<Seq<Seq<char>>, Seq<char>> {
    match split_raw_args(o.args.deep_view()) {
        Ok(words) => Ok(named_commit_args(o, message) + words),
        Err(e) => Err(e),
    }
}

/// Whatever the options, the message reaches git as `commit -m <message>`:
/// the first three arguments, unchanged.
pub proof fn law_message_is_passed_after_m(o: CommitOptions, message: Seq<char>)
    requires
        commit_args(o, message) is Ok,
    ensures
        ({
            let a = commit_args(o, message)->Ok_0;
            &&& a.len() >= 3
            &&& a[0] == "commit"@
            &&& a[1] == "-m"@
            &&& a[2] == message
        }),
{
    let words = split_raw_args(o.args.deep_view())->Ok_0;
    let head = seq!["commit"@, "-m"@, message];
    let a = named_commit_args(o, message) + words;
    assert(a == head + flag_args(o) + value_args(o) + words);
    assert(a[0] == head[0]);
    assert(a[1] == head[1]);
    assert(a[2] == head[2]);
}

/// The words of every raw argument, one argument after the other.
pub open spec fn all_words(raw: Seq<Seq<char>>) -> Seq<Seq<char>>
    decreases raw.len(),
{
    if raw.len() == 0 {
        Seq::empty()
    } else {
        all_words(raw.drop_last()) + match shell_words_split(raw.last()) {
            Some(w) => w,
            None => Seq::empty(),
        }
    }
}

proof fn lemma_split_raw_args(raw: Seq<Seq<char>>)
    ensures
        split_raw_args(raw) is Err <==> exists|i: int| 0 <= i < raw.len() && shell_words_split(#[trigger] raw[i]) is None,
        split_raw_args(raw) matches Ok(w) ==> w == all_words(raw),
        split_raw_args(raw) matches Err(e) ==> exists|i: int| 0 <= i < raw.len() && #[trigger] raw[i] == e
            && shell_words_split(raw[i]) is None
            && forall|j: int| 0 <= j < i ==> shell_words_split(#[trigger] raw[j]) is Some,
    decreases raw.len(),
{
    if raw.len() > 0 {
        let p = raw.drop_last();
        lemma_split_raw_args(p);
        assert forall|i: int| 0 <= i < p.len() implies #[trigger] p[i] == raw[i] by {}
        if split_raw_args(p) is Err {
            let e = split_raw_args(p)->Err_0;
            let i = choose|i: int| 0 <= i < p.len() && #[trigger] p[i] == e
                && shell_words_split(p[i]) is None
                && forall|j: int| 0 <= j < i ==> shell_words_split(#[trigger] p[j]) is Some;
            assert(raw[i] == e);
            assert forall|j: int| 0 <= j < i implies shell_words_split(#[trigger] raw[j]) is Some by {
                assert(p[j] == raw[j]);
            }
        } else if shell_words_split(raw.last()) is None {
            let i = raw.len() - 1;
            assert(raw[i] == raw.last());
            assert forall|j: int| 0 <= j < i implies shell_words_split(#[trigger] raw[j]) is Some by {
                assert(p[j] == raw[j]);
                if shell_words_split(raw[j]) is None {
                    assert(shell_words_split(p[j]) is None);
                }
            }
        } else {
            assert forall|i: int| 0 <= i < raw.len() implies shell_words_split(#[trigger] raw[i]) is Some by {
                if i < p.len() {
                    assert(p[i] == raw[i]);
                    if shell_words_split(raw[i]) is None {
                        assert(shell_words_split(p[i]) is None);
                    }
                } else {
                    assert(raw[i] == raw.last());
                }
            }
        }
    }
}

/// The commit arguments are refused exactly when some raw argument does
/// not split into shell words (an unmatched quote), and then the first such
/// argument is named; otherwise they are the named arguments followed by
/// the words of each raw argument in order, the message kept whole as the
/// third argument.
pub proof fn law_commit_args_refused_iff_unsplittable(o: CommitOptions, message: Seq<char>)
    ensures
        commit_args(o, message) is Err <==> exists|i: int| 0 <= i < o.args.deep_view().len()
            && shell_words_split(#[trigger] o.args.deep_view()[i]) is None,
        commit_args(o, message) matches Err(e) ==> exists|i: int| 0 <= i < o.args.deep_view().len()
            && #[trigger] o.args.deep_view()[i] == e
            && shell_words_split(o.args.deep_view()[i]) is None
            && forall|j: int| 0 <= j < i ==> shell_words_split(#[trigger] o.args.deep_view()[j]) is Some,
        commit_args(o, message) matches Ok(a) ==> a == named_commit_args(o, message) + all_words(o.args.deep_view()),
{
    lemma_split_raw_args(o.args.deep_view());
}

/// Every option that is set reaches `git commit`: each boolean option that
/// is on gives its flag, the author and the date are passed as
/// `--author <author>` and `--date <date>` (the value right after its
/// option), the cleanup mode as `--cleanup=<mode>`, and the signing key as
/// `--gpg-sign=<key>`, or `--gpg-sign` alone when none is given. All of them
/// stand after `commit -m <message>`.
pub proof fn law_set_options_reach_git(o: CommitOptions, message: Seq<char>)
    requires
        commit_args(o, message) is Ok,
    ensures
        ({
            let a = commit_args(o, message)->Ok_0;
            &&& o.amend ==> exists|i: int| 3 <= i < a.len() && a[i] == "--amend"@
            &&& o.signoff ==> exists|i: int| 3 <= i < a.len() && a[i] == "--signoff"@
            &&& o.skip_hooks ==> exists|i: int| 3 <= i < a.len() && a[i] == "--no-verify"@
            &&& o.allow_empty ==> exists|i: int| 3 <= i < a.len() && a[i] == "--allow-empty"@
            &&& o.allow_empty_message ==> exists|i: int| 3 <= i < a.len() && a[i] == "--allow-empty-message"@
            &&& o.author matches Some(x) ==> exists|i: int| 3 <= i && i + 1 < a.len() && #[trigger] a[i] == "--author"@ && a[i + 1] == x@
            &&& o.date matches Some(d) ==> exists|i: int| 3 <= i && i + 1 < a.len() && #[trigger] a[i] == "--date"@ && a[i + 1] == d@
            &&& o.cleanup matches Some(m) ==> exists|i: int| 3 <= i < a.len() && a[i] == "--cleanup="@ + m.git_value()
            &&& o.gpg_sign matches Some(Some(k)) ==> exists|i: int| 3 <= i < a.len() && a[i] == "--gpg-sign="@ + k@
            &&& o.gpg_sign matches Some(None) ==> exists|i: int| 3 <= i < a.len() && a[i] == "--gpg-sign"@
        }),
{
    let words = split_raw_args(o.args.deep_view())->Ok_0;
    let a = commit_args(o, message)->Ok_0;
    let fa = flag_args(o);
    let va = value_args(o);
    lemma_named_arg_positions(o, message, words);
    assert(a == named_commit_args(o, message) + words);
    lemma_flag_positions(o);
    lemma_value_positions(o);
    if o.amend { assert(a[3] == "--amend"@); }
    if o.signoff { let k = 3 + flag_index(o, 1); assert(a[k] == "--signoff"@); }
    if o.skip_hooks { let k = 3 + flag_index(o, 2); assert(a[k] == "--no-verify"@); }
    if o.allow_empty { let k = 3 + flag_index(o, 3); assert(a[k] == "--allow-empty"@); }
    if o.allow_empty_message { let k = 3 + flag_index(o, 4); assert(a[k] == "--allow-empty-message"@); }
    let m: int = 3 + fa.len() as int;
    if o.author is Some { assert(a[m] == "--author"@ && a[m + 1] == o.author->Some_0@); }
    if o.date is Some { let k = m + value_index(o, 1); assert(a[k] == "--date"@ && a[k + 1] == o.date->Some_0@); }
    if o.cleanup is Some { let k = m + value_index(o, 2); assert(a[k] == "--cleanup="@ + o.cleanup->Some_0.git_value()); }
    if let Some(Some(key)) = o.gpg_sign { let k = m + value_index(o, 3); assert(a[k] == "--gpg-sign="@ + key@); }
    if o.gpg_sign == Option::<Option<String>>::Some(None) { let k = m + value_index(o, 3); assert(a[k] == "--gpg-sign"@); }
}

/// How many flags the first `n` boolean options give.
spec fn flag_index(o: CommitOptions, n: int) -> int {
    (if n > 0 && o.amend { 1int } else { 0 })
        + (if n > 1 && o.signoff { 1int } else { 0 })
        + (if n > 2 && o.skip_hooks { 1int } else { 0 })
        + (if n > 3 && o.allow_empty { 1int } else { 0 })
}

/// How many arguments the first `n` valued options give.
spec fn value_index(o: CommitOptions, n: int) -> int {
    (if n > 0 && o.author is Some { 2int } else { 0 })
        + (if n > 1 && o.date is Some { 2int } else { 0 })
        + (if n > 2 && o.cleanup is Some { 1int } else { 0 })
}

proof fn lemma_named_arg_positions(o: CommitOptions, message: Seq<char>, words: Seq<Seq<char>>)
    ensures
        ({
            let a = named_commit_args(o, message) + words;
            &&& forall|j: int| 0 <= j < flag_args(o).len() ==> a[3 + j] == #[trigger] flag_args(o)[j]
            &&& forall|j: int| 0 <= j < value_args(o).len() ==> a[3 + flag_args(o).len() + j] == #[trigger] value_args(o)[j]
            &&& a.len() >= 3 + flag_args(o).len() + value_args(o).len()
        }),
{
    let head = seq!["commit"@, "-m"@, message];
    let a = named_commit_args(o, message) + words;
    assert forall|j: int| 0 <= j < flag_args(o).len() implies a[3 + j] == #[trigger] flag_args(o)[j] by {
        assert((head + flag_args(o))[3 + j] == flag_args(o)[j]);
    }
    assert forall|j: int| 0 <= j < value_args(o).len() implies a[3 + flag_args(o).len() + j] == #[trigger] value_args(o)[j] by {
        assert((head + flag_args(o) + value_args(o))[3 + flag_args(o).len() + j] == value_args(o)[j]);
    }
}

proof fn lemma_flag_positions(o: CommitOptions)
    ensures
        o.amend ==> flag_args(o)[0] == "--amend"@,
        o.signoff ==> flag_args(o)[flag_index(o, 1)] == "--signoff"@,
        o.skip_hooks ==> flag_args(o)[flag_index(o, 2)] == "--no-verify"@,
        o.allow_empty ==> flag_args(o)[flag_index(o, 3)] == "--allow-empty"@,
        o.allow_empty_message ==> flag_args(o)[flag_index(o, 4)] == "--allow-empty-message"@,
        0 <= flag_index(o, 4),
        o.allow_empty_message ==> flag_index(o, 4) < flag_args(o).len(),
        o.allow_empty ==> flag_index(o, 3) < flag_args(o).len(),
        o.skip_hooks ==> flag_index(o, 2) < flag_args(o).len(),
        o.signoff ==> flag_index(o, 1) < flag_args(o).len(),
        o.amend ==> 0 < flag_args(o).len(),
{
}

proof fn lemma_value_positions(o: CommitOptions)
    ensures
        o.author matches Some(x) ==> value_args(o)[0] == "--author"@ && value_args(o)[1] == x@,
        o.date matches Some(d) ==> value_args(o)[value_index(o, 1)] == "--date"@
            && value_args(o)[value_index(o, 1) + 1] == d@,
        o.cleanup matches Some(m) ==> value_args(o)[value_index(o, 2)] == "--cleanup="@ + m.git_value(),
        o.gpg_sign matches Some(Some(k)) ==> value_args(o)[value_index(o, 3)] == "--gpg-sign="@ + k@,
        o.gpg_sign matches Some(None) ==> value_args(o)[value_index(o, 3)] == "--gpg-sign"@,
        0 <= value_index(o, 3),
        o.author is Some ==> 1 < value_args(o).len(),
        o.date is Some ==> value_index(o, 1) + 1 < value_args(o).len(),
        o.cleanup is Some ==> value_index(o, 2) < value_args(o).len(),
        o.gpg_sign is Some ==> value_index(o, 3) < value_args(o).len(),
{
}

/// A raw commit argument that cannot be split into words (it has an
/// unmatched quote).
#[derive(Clone, Debug, PartialEq, Eq)]
pub struct CommitArgError {
    pub arg: String,
}

fn push_str_arg(args: &mut Vec<String>, s: &str)
    ensures
        final(args).deep_view() == old(args).deep_view().push(s@),
{
    let ghost before = args.deep_view();
    args.push(s.to_string());
    assert(args.deep_view() =~~= before.push(s@));
}

fn push_string_arg(args: &mut Vec<String>, s: String)
    ensures
        final(args).deep_view() == old(args).deep_view().push(s@),
{
    let ghost before = args.deep_view();
    args.push(s);
    assert(args.deep_view() =~~= before.push(s@));
}

fn concat_string(a: &str, b: &str) -> (r: String)
    ensures
        r@ == a@ + b@,
{
    let mut v = chars_of(a);
    crate::text::append_chars(&mut v, chars_of(b).as_slice());
    string_of(v.as_slice())
}

fn push_flag(args: &mut Vec<String>, on: bool, flag: &str)
    ensures
        final(args).deep_view() == old(args).deep_view() + (if on { seq![flag@] } else { Seq::empty() }),
{
    if on {
        push_str_arg(args, flag);
    }
    assert(args.deep_view() =~~= old(args).deep_view() + (if on { seq![flag@] } else { Seq::<Seq<char>>::empty() }));
}

fn push_flags(args: &mut Vec<String>, options: &CommitOptions)
    ensures
        final(args).deep_view() == old(args).deep_view() + flag_args(*options),
{
    let ghost start = args.deep_view();
    push_flag(args, options.amend, "--amend");
    push_flag(args, options.signoff, "--signoff");
    push_flag(args, options.skip_hooks, "--no-verify");
    push_flag(args, options.allow_empty, "--allow-empty");
    push_flag(args, options.allow_empty_message, "--allow-empty-message");
    assert(args.deep_view() =~~= start + flag_args(*options));
}

fn push_values(args: &mut Vec<String>, options: &CommitOptions)
    ensures
        final(args).deep_view() == old(args).deep_view() + value_args(*options),
{
    let ghost start = args.deep_view();
    if let Some(author) = &options.author {
        push_str_arg(args, "--author");
        push_str_arg(args, author.as_str());
    }
    let ghost s1 = args.deep_view();
    if let Some(date) = &options.date {
        push_str_arg(args, "--date");
        push_str_arg(args, date.as_str());
    }
    let ghost s2 = args.deep_view();
    if let Some(cleanup) = &options.cleanup {
        push_string_arg(args, concat_string("--cleanup=", cleanup.as_git_value()));
    }
    let ghost s3 = args.deep_view();
    if let Some(gpg_sign) = &options.gpg_sign {
        match gpg_sign {
            Some(key_id) => push_string_arg(args, concat_string("--gpg-sign=", key_id.as_str())),
            None => push_str_arg(args, "--gpg-sign"),
        }
    }
    assert(s1 =~~= start + (match opt_str(options.author) { Some(a) => seq!["--author"@, a], None => Seq::<Seq<char>>::empty() }));
    assert(s2 =~~= s1 + (match opt_str(options.date) { Some(d) => seq!["--date"@, d], None => Seq::<Seq<char>>::empty() }));
    assert(s3 =~~= s2 + (match options.cleanup { Some(c) => seq!["--cleanup="@ + c.git_value()], None => Seq::<Seq<char>>::empty() }));
    assert(args.deep_view() =~~= start + value_args(*options));
}

fn named_args(options: &CommitOptions, message: &str) -> (args: Vec<String>)
    ensures
        args.deep_view() == named_commit_args(*options, message@),
{
    let mut args: Vec<String> = Vec::new();
    push_str_arg(&mut args, "commit");
    push_str_arg(&mut args, "-m");
    push_str_arg(&mut args, message);
    assert(args.deep_view() =~~= seq!["commit"@, "-m"@, message@]);
    push_flags(&mut args, options);
    push_values(&mut args, options);
    args
}

/// Appends the words that `raw_arg` was split into, or refuses `raw_arg`
/// when it could not be split (`words` is `None`).
pub fn extend_with_words(args: &mut Vec<String>, raw_arg: &str, words: Option<Vec<String>>) -> (r: Result<(), CommitArgError>)
    ensures
        match words.deep_view() {
            Some(w) => r is Ok && final(args).deep_view() == old(args).deep_view() + w,
            None => r matches Err(e) && e.arg@ == raw_arg@ && final(args).deep_view() == old(args).deep_view(),
        },
{
    match words {
        Some(words) => {
            let ghost before = args.deep_view();
            let mut k: usize = 0;
            while k < words.len()
                invariant
                    k <= words.deep_view().len(),
                    args.deep_view() == before + words.deep_view().subrange(0, k as int),
                decreases words.len() - k,
            {
                let ghost b2 = args.deep_view();
                args.push(words[k].clone());
                assert(args.deep_view() =~~= b2.push(words.deep_view()[k as int]));
                assert(words.deep_view().subrange(0, k + 1) =~~= words.deep_view().subrange(0, k as int).push(words.deep_view()[k as int]));
                k = k + 1;
            }
            assert(words.deep_view().subrange(0, words.deep_view().len() as int) == words.deep_view());
            Ok(())
        },
        None => Err(CommitArgError { arg: raw_arg.to_string() }),
    }
}

/// The arguments of `git commit` for `options` and `message`.
pub fn build_commit_args(options: &CommitOptions, message: &str) -> (r: Result<Vec<String>, CommitArgError>)
    ensures
        match commit_args(*options, message@) {
            Ok(a) => r matches Ok(v) && v.deep_view() == a,
            Err(e) => r matches Err(x) && x.arg@ == e,
        },
{
    let mut args = named_args(options, message);
    let ghost named = args.deep_view();
    assert(args.deep_view().subrange(named.len() as int, args.deep_view().len() as int) =~~= Seq::<Seq<char>>::empty());
    assert(args.deep_view().subrange(0, named.len() as int) =~~= named);
    let ghost raw = options.args.deep_view();
    assert(raw.subrange(0, 0) =~~= Seq::<Seq<char>>::empty());
    let mut i: usize = 0;
    while i < options.args.len()
        invariant
            i <= raw.len(),
            raw == options.args.deep_view(),
            split_raw_args(raw.subrange(0, i as int)) == Ok::<Seq<Seq<char>>, Seq<char>>(args.deep_view().subrange(named.len() as int, args.deep_view().len() as int)),
            named.len() <= args.deep_view().len(),
            args.deep_view().subrange(0, named.len() as int) == named,
        decreases options.args.len() - i,
    {
        let raw_arg = &options.args[i];
        assert(raw[i as int] == raw_arg@);
        assert(raw.subrange(0, i + 1).drop_last() == raw.subrange(0, i as int));
        assert(raw.subrange(0, i + 1).last() == raw_arg@);
        let words = shell_split(raw_arg.as_str());
        let ghost before = args.deep_view();
        let ghost split = words.deep_view();
        match extend_with_words(&mut args, raw_arg.as_str(), words) {
            Ok(()) => {
                proof {
                    let w = split->Some_0;
                    assert(args.deep_view().subrange(named.len() as int, args.deep_view().len() as int)
                        =~~= before.subrange(named.len() as int, before.len() as int) + w);
                    assert(args.deep_view().subrange(0, named.len() as int) =~~= named);
                }
            },
            Err(e) => {
                proof {
                    lemma_split_raw_args_err(raw, i as int + 1);
                }
                return Err(e);
            },
        }
        i = i + 1;
    }
    assert(raw.subrange(0, raw.len() as int) == raw);
    assert(args.deep_view() =~~= named + args.deep_view().subrange(named.len() as int, args.deep_view().len() as int));
    Ok(args)
}

proof fn lemma_split_raw_args_err(raw: Seq<Seq<char>>, k: int)
    requires
        0 <= k <= raw.len(),
        split_raw_args(raw.subrange(0, k)) is Err,
    ensures
        split_raw_args(raw) == split_raw_args(raw.subrange(0, k)),
    decreases raw.len() - k,
{
    if k < raw.len() {
        assert(raw.subrange(0, k + 1).drop_last() == raw.subrange(0, k));
        lemma_split_raw_args_err(raw, k + 1);
    } else {
        assert(raw.subrange(0, k) == raw);
    }
}

/// The fix to offer for a failed commit, read from git's output once
/// lower-cased: staging everything when changes were not added and nothing
/// was staged yet, allowing an empty commit when there is nothing to commit,
/// and allowing an empty message when the message was empty; each only when
/// it is not already in effect.
pub open spec fn fix_for_lowercased(n: Seq<char>, already_stage_all: bool, allow_empty: bool, allow_empty_message: bool) -> Option<CommitFix> {
    let nothing = contains_sub(n, "nothing to commit"@);
    let not_added = contains_sub(n, "no changes added to commit"@);
    if !allow_empty && (nothing || not_added) {
        if not_added && !already_stage_all {
            Some(CommitFix::StageAll)
        } else {
            Some(CommitFix::AllowEmpty)
        }
    } else if !allow_empty_message && (contains_sub(n, "empty commit message"@)
        || contains_sub(n, "aborting commit due to empty commit message"@)) {
        Some(CommitFix::AllowEmptyMessage)
    } else {
        None
    }
}

/// A fix is offered only for the complaint it answers and only when it is
/// not in effect yet: staging everything for unadded changes, an empty
/// commit for nothing to commit, an empty message for an empty message.
/// Unadded changes are answered by staging everything whenever that was not
/// done yet, and output that names none of the complaints gets no fix.
pub proof fn law_fix_answers_the_complaint(n: Seq<char>, already_stage_all: bool, allow_empty: bool, allow_empty_message: bool)
    ensures
        ({
            let r = fix_for_lowercased(n, already_stage_all, allow_empty, allow_empty_message);
            let nothing = contains_sub(n, "nothing to commit"@);
            let not_added = contains_sub(n, "no changes added to commit"@);
            let empty_message = contains_sub(n, "empty commit message"@);
            &&& r == Some(CommitFix::StageAll) ==> !already_stage_all && not_added
            &&& r == Some(CommitFix::AllowEmpty) ==> !allow_empty && (nothing || not_added)
            &&& r == Some(CommitFix::AllowEmptyMessage) ==> !allow_empty_message && empty_message
            &&& (!allow_empty && not_added && !already_stage_all) ==> r == Some(CommitFix::StageAll)
            &&& (!allow_empty && nothing && !not_added) ==> r == Some(CommitFix::AllowEmpty)
            &&& (!nothing && !not_added && !empty_message) ==> r is None
        }),
{
    reveal_strlit("empty commit message");
    reveal_strlit("aborting commit due to empty commit message");
    let long = "aborting commit due to empty commit message"@;
    let short = "empty commit message"@;
    if contains_sub(n, long) {
        let i = choose|i: int| occurs_at(n, long, i);
        assert(n.subrange(i + 23, i + 23 + short.len()) =~= long.subrange(23, long.len() as int));
        assert(long.subrange(23, long.len() as int) =~= short);
        assert(occurs_at(n, short, i + 23));
    }
}

/// The fix to offer for git's output `error`, lower-cased as
/// `str::to_lowercase` does.
pub open spec fn commit_fix_for(error: Seq<char>, already_stage_all: bool, allow_empty: bool, allow_empty_message: bool) -> Option<CommitFix> {
    fix_for_lowercased(unicode_lowercase(error), already_stage_all, allow_empty, allow_empty_message)
}

fn contains_literal(s: &[char], lit: &str) -> (b: bool)
    ensures
        b == contains_sub(s@, lit@),
{
    let p = chars_of(lit);
    contains_chars(s, p.as_slice())
}

/// The fix to offer for git's output once it is lower-cased.
pub fn fix_for_lowercased_output(lowered: &str, already_stage_all: bool, options: &CommitOptions) -> (r: Option<CommitFix>)
    ensures
        r == fix_for_lowercased(lowered@, already_stage_all, options.allow_empty, options.allow_empty_message),
{
    let n = chars_of(lowered);
    let nothing = contains_literal(n.as_slice(), "nothing to commit");
    let not_added = contains_literal(n.as_slice(), "no changes added to commit");
    if !options.allow_empty && (nothing || not_added) {
        if not_added && !already_stage_all {
            return Some(CommitFix::StageAll);
        }
        return Some(CommitFix::AllowEmpty);
    }
    if !options.allow_empty_message && (contains_literal(n.as_slice(), "empty commit message")
        || contains_literal(n.as_slice(), "aborting commit due to empty commit message")) {
        return Some(CommitFix::AllowEmptyMessage);
    }
    None
}

pub fn detect_commit_fix(error: &str, already_stage_all: bool, options: &CommitOptions) -> (r: Option<CommitFix>)
    ensures
        r == commit_fix_for(error@, already_stage_all, options.allow_empty, options.allow_empty_message),
{
    let lowered = to_lowercase(error);
    fix_for_lowercased_output(lowered.as_str(), already_stage_all, options)
}

/// Applies an accepted fix: allowing an empty commit or an empty message in
/// the options, or recording that everything was staged (the caller stages
/// it).
pub fn apply_commit_fix(options: &mut CommitOptions, already_stage_all: &mut bool, fix: CommitFix)
    ensures
        final(options).allow_empty == (old(options).allow_empty || fix == CommitFix::AllowEmpty),
        final(options).allow_empty_message == (old(options).allow_empty_message || fix == CommitFix::AllowEmptyMessage),
        *final(already_stage_all) == (*old(already_stage_all) || fix == CommitFix::StageAll),
        final(options).amend == old(options).amend,
        final(options).signoff == old(options).signoff,
        final(options).skip_hooks == old(options).skip_hooks,
        final(options).author == old(options).author,
        final(options).date == old(options).date,
        final(options).cleanup == old(options).cleanup,
        final(options).gpg_sign == old(options).gpg_sign,
        final(options).args == old(options).args,
{
    match fix {
        CommitFix::AllowEmpty => options.allow_empty = true,
        CommitFix::AllowEmptyMessage => options.allow_empty_message = true,
        CommitFix::StageAll => *already_stage_all = true,
    }
}

/// Where a commit that may be retried stands: the options of the next
/// `git commit` and whether everything was staged already.
#[derive(Clone, Debug, PartialEq)]
pub struct CommitRetry {
    pub options: CommitOptions,
    pub already_stage_all: bool,
}

/// What a finished `git commit` leads to.
#[derive(Clone, Copy, Debug, PartialEq, Eq)]
pub enum CommitStep {
    /// The commit was made.
    Committed,
    /// The commit failed with an error this fix may cure; ask the user.
    Offer(CommitFix),
    /// The commit failed and nothing is offered.
    Failed,
}

/// What the answer to an offered fix leads to.
#[derive(Clone, Copy, Debug, PartialEq, Eq)]
pub enum FixAnswer {
    /// Run `git commit` again, after `git add -A` when `stage_everything`.
    Retry { stage_everything: bool },
    /// Stop: the commit failed.
    GiveUp,
}

impl CommitRetry {
    /// The state before the first `git commit`; `staged_for_commit` tells
    /// whether the included paths were staged already.
    pub fn new(options: CommitOptions, staged_for_commit: bool) -> (r: CommitRetry)
        ensures
            r.options == options,
            r.already_stage_all == staged_for_commit,
    {
        CommitRetry { options, already_stage_all: staged_for_commit }
    }

    /// The step after `git commit` finished: done when it succeeded, else
    /// the fix that its output calls for, if any.
    pub fn after_commit(&self, success: bool, output: &str) -> (r: CommitStep)
        ensures
            success ==> r == CommitStep::Committed,
            !success ==> r == match commit_fix_for(output@, self.already_stage_all, self.options.allow_empty, self.options.allow_empty_message) {
                Some(f) => CommitStep::Offer(f),
                None => CommitStep::Failed,
            },
    {
        if success {
            return CommitStep::Committed;
        }
        match detect_commit_fix(output, self.already_stage_all, &self.options) {
            Some(f) => CommitStep::Offer(f),
            None => CommitStep::Failed,
        }
    }

    /// Takes the answer to an offered fix: a declined fix ends the retries
    /// and changes nothing; an accepted one is applied, and staging
    /// everything is asked for only when it was not done before.
    pub fn answer_fix(&mut self, fix: CommitFix, accepted: bool) -> (r: FixAnswer)
        ensures
            !accepted ==> r == FixAnswer::GiveUp && *final(self) == *old(self),
            accepted ==> r == (FixAnswer::Retry { stage_everything: fix == CommitFix::StageAll && !old(self).already_stage_all }),
            accepted ==> final(self).already_stage_all == (old(self).already_stage_all || fix == CommitFix::StageAll),
            accepted ==> final(self).options.allow_empty == (old(self).options.allow_empty || fix == CommitFix::AllowEmpty),
            accepted ==> final(self).options.allow_empty_message == (old(self).options.allow_empty_message || fix == CommitFix::AllowEmptyMessage),
            final(self).options.amend == old(self).options.amend,
            final(self).options.signoff == old(self).options.signoff,
            final(self).options.skip_hooks == old(self).options.skip_hooks,
            final(self).options.author == old(self).options.author,
            final(self).options.date == old(self).options.date,
            final(self).options.cleanup == old(self).options.cleanup,
            final(self).options.gpg_sign == old(self).options.gpg_sign,
            final(self).options.args == old(self).options.args,
    {
        if !accepted {
            return FixAnswer::GiveUp;
        }
        let stage_everything = matches!(fix, CommitFix::StageAll) && !self.already_stage_all;
        apply_commit_fix(&mut self.options, &mut self.already_stage_all, fix);
        FixAnswer::Retry { stage_everything }
    }
}

/// How many of the fixes are still available.
pub open spec fn fixes_left(already_stage_all: bool, allow_empty: bool, allow_empty_message: bool) -> nat {
    (if already_stage_all { 0nat } else { 1nat }) + (if allow_empty { 0nat } else { 1nat })
        + (if allow_empty_message { 0nat } else { 1nat })
}

/// An offered fix, once applied, is not offered again for the same output,
/// and it uses up one of the available fixes; so a commit is retried at most
/// three times.
pub proof fn law_applied_fix_is_not_offered_again(error: Seq<char>, already_stage_all: bool, allow_empty: bool, allow_empty_message: bool, fix: CommitFix)
    requires
        commit_fix_for(error, already_stage_all, allow_empty, allow_empty_message) == Some(fix),
    ensures
        ({
            let s2 = already_stage_all || fix == CommitFix::StageAll;
            let e2 = allow_empty || fix == CommitFix::AllowEmpty;
            let m2 = allow_empty_message || fix == CommitFix::AllowEmptyMessage;
            &&& commit_fix_for(error, s2, e2, m2) != Some(fix)
            &&& fixes_left(s2, e2, m2) < fixes_left(already_stage_all, allow_empty, allow_empty_message)
        }),
{
}

/// A commit is run at most four times, and `git add -A` at most once and
/// never when everything was staged for the commit: each accepted fix uses
/// up one of at most three available fixes, and staging everything is asked
/// for only while it was not done.
pub proof fn law_commit_retries_run_out(error: Seq<char>, s: CommitRetry, fix: CommitFix)
    requires
        commit_fix_for(error, s.already_stage_all, s.options.allow_empty, s.options.allow_empty_message) == Some(fix),
    ensures
        fixes_left(s.already_stage_all, s.options.allow_empty, s.options.allow_empty_message) <= 3,
        fixes_left(
            s.already_stage_all || fix == CommitFix::StageAll,
            s.options.allow_empty || fix == CommitFix::AllowEmpty,
            s.options.allow_empty_message || fix == CommitFix::AllowEmptyMessage,
        ) < fixes_left(s.already_stage_all, s.options.allow_empty, s.options.allow_empty_message),
        fix == CommitFix::StageAll ==> !s.already_stage_all,
{
    law_applied_fix_is_not_offered_again(error, s.already_stage_all, s.options.allow_empty, s.options.allow_empty_message, fix);
}

/// The question asked before applying a fix.
pub open spec fn fix_question(fix: CommitFix) -> Seq<char> {
    match fix {
        CommitFix::AllowEmpty => "Retry with --allow-empty? [Y/n]"@,
        CommitFix::AllowEmptyMessage => "Retry with --allow-empty-message? [Y/n]"@,
        CommitFix::StageAll => "Stage all changes with git add -A and retry? [Y/n]"@,
    }
}

pub fn commit_fix_question(fix: CommitFix) -> (r: &'static str)
    ensures
        r@ == fix_question(fix),
{
    match fix {
        CommitFix::AllowEmpty => "Retry with --allow-empty? [Y/n]",
        CommitFix::AllowEmptyMessage => "Retry with --allow-empty-message? [Y/n]",
        CommitFix::StageAll => "Stage all changes with git add -A and retry? [Y/n]",
    }
}

/// A normalized answer that says yes: empty, `y` or `yes`.
pub open spec fn yes_answer(a: Seq<char>) -> bool {
    a == Seq::<char>::empty() || a == "y"@ || a == "yes"@
}

/// A confirmation answer is yes when, trimmed and lower-cased, it is empty,
/// `y` or `yes`.
pub open spec fn confirmed(input: Seq<char>) -> bool {
    yes_answer(unicode_lowercase(trim(input)))
}

/// Whether an answer already trimmed and lower-cased says yes.
pub fn is_yes_answer(answer: &str) -> (b: bool)
    ensures
        b == yes_answer(answer@),
{
    let a = chars_of(answer);
    assert(a@.len() == 0 ==> a@ == Seq::<char>::empty());
    a.len() == 0 || chars_equal(a.as_slice(), chars_of("y").as_slice()) || chars_equal(a.as_slice(), chars_of("yes").as_slice())
}

pub fn confirmation_accepted(input: &str) -> (b: bool)
    ensures
        b == confirmed(input@),
{
    let text = chars_of(input);
    let trimmed = string_of(trim_chars(text.as_slice()).as_slice());
    let lower = to_lowercase(trimmed.as_str());
    is_yes_answer(lower.as_str())
}

} // verus!
