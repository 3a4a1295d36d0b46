//! Preparing a collected Git diff for the chat request: binary payloads are
//! replaced by markers, sections are split per file, summarized by path
//! policy, truncated per file and limited by the input budget.

use vstd::prelude::*;
use crate::config::{AppConfig, CHAT_MESSAGE_CHAR_LIMIT};
use crate::shell::{shell_split, shell_words_split};
use crate::text::{
    lemma_nonblank_has_visible, lemma_visible_char,
    append_chars, basename, basename_exec, chars_equal, chars_of, decimal, ends_with_chars,
    push_decimal, rfind, rfind_exec, slice_range, split_incl, split_inclusive_lines,
    starts_with_chars, string_of, trim, trim_bounds, trim_char, trim_char_exec, trim_chars,
    trim_end_char, trim_end_char_exec, chars_list, strings_of, lines_of, line_content,
    line_content_exec, ws_tokens, split_whitespace_chars, parse_unsigned, parse_u64,
    join_with, join_chars, incl_lines_wf, lemma_split_incl_wf, lemma_split_incl_flatten,
    lemma_incl_lines_wf_subrange, is_ws, trim_start, trim_end,
};

verus! {

/// Diff sections whose paths match these patterns are summarized.
pub open spec fn default_ignored_patterns() -> Seq<Seq<char>> {
    seq!["dist/**"@, "build/**"@, "coverage/**"@, "target/**"@, "*.map"@, "*.min.js"@, "*.min.css"@]
}

fn default_ignored_patterns_exec() -> (v: Vec<Vec<char>>)
    ensures
        v.deep_view() == default_ignored_patterns(),
{
    let v = vec![
        chars_of("dist/**"),
        chars_of("build/**"),
        chars_of("coverage/**"),
        chars_of("target/**"),
        chars_of("*.map"),
        chars_of("*.min.js"),
        chars_of("*.min.css"),
    ];
    assert(v.deep_view() =~~= default_ignored_patterns());
    v
}

/// File names of lock files, summarized unless lock files are included.
pub open spec fn default_lockfile_names() -> Seq<Seq<char>> {
    seq!["package-lock.json"@, "pnpm-lock.yaml"@, "yarn.lock"@, "Cargo.lock"@]
}

fn default_lockfile_names_exec() -> (v: Vec<Vec<char>>)
    ensures
        v.deep_view() == default_lockfile_names(),
{
    let v = vec![
        chars_of("package-lock.json"),
        chars_of("pnpm-lock.yaml"),
        chars_of("yarn.lock"),
        chars_of("Cargo.lock"),
    ];
    assert(v.deep_view() =~~= default_lockfile_names());
    v
}

/// A path is a lock file when its file name is one of the lock file names.
pub open spec fn is_lockfile(path: Seq<char>) -> bool {
    default_lockfile_names().contains(basename(path))
}

/// Whether `path` matches `pattern`: `dir/**` matches the directory and what
/// is under it, `*.ext` matches file names ending in `.ext`, `*suffix`
/// matches paths ending in `suffix`, and any other pattern matches the path
/// itself and what is under it. Patterns are trimmed; an empty one matches
/// nothing.
pub open spec fn path_matches(path: Seq<char>, pattern: Seq<char>) -> bool {
    let p = trim(pattern);
    if p.len() == 0 {
        false
    } else if seq!['/', '*', '*'].is_suffix_of(p) {
        let prefix = trim_end_char(p.subrange(0, p.len() - 3), '/');
        path == prefix || prefix.push('/').is_prefix_of(path)
    } else if seq!['*', '.'].is_prefix_of(p) {
        // the file name ends with `.` followed by the rest of the pattern
        p.subrange(1, p.len() as int).is_suffix_of(basename(path))
    } else if seq!['*'].is_prefix_of(p) {
        p.subrange(1, p.len() as int).is_suffix_of(path)
    } else {
        path == p || p.push('/').is_prefix_of(path)
    }
}

/// Whether a section for `path` is summarized instead of sent in full.
pub open spec fn should_ignore(path: Seq<char>, include_lockfiles: bool, ignore: Seq<Seq<char>>) -> bool {
    (!include_lockfiles && is_lockfile(path))
        || (exists|i: int| 0 <= i < default_ignored_patterns().len()
            && path_matches(path, #[trigger] default_ignored_patterns()[i]))
        || (exists|i: int| 0 <= i < ignore.len() && path_matches(path, #[trigger] ignore[i]))
}

fn path_matches_pattern(path: &[char], pattern: &[char]) -> (b: bool)
    ensures
        b == path_matches(path@, pattern@),
{
    let p = trim_chars(pattern);
    let n: usize = p.len();
    if n == 0 {
        return false;
    }
    let dstar = vec!['/', '*', '*'];
    if ends_with_chars(p.as_slice(), dstar.as_slice()) {
        let head = slice_range(p.as_slice(), 0, n - 3);
        let mut prefix = trim_end_char_exec(head.as_slice(), '/');
        if chars_equal(path, prefix.as_slice()) {
            return true;
        }
        prefix.push('/');
        return starts_with_chars(path, prefix.as_slice());
    }
    let star_dot = vec!['*', '.'];
    if starts_with_chars(p.as_slice(), star_dot.as_slice()) {
        let suffix = slice_range(p.as_slice(), 1, n);
        let name = basename_exec(path);
        return ends_with_chars(name.as_slice(), suffix.as_slice());
    }
    let star = vec!['*'];
    if starts_with_chars(p.as_slice(), star.as_slice()) {
        let suffix = slice_range(p.as_slice(), 1, n);
        return ends_with_chars(path, suffix.as_slice());
    }
    if chars_equal(path, p.as_slice()) {
        return true;
    }
    let mut dir = p;
    dir.push('/');
    starts_with_chars(path, dir.as_slice())
}

fn is_lockfile_path(path: &[char]) -> (b: bool)
    ensures
        b == is_lockfile(path@),
{
    let name = basename_exec(path);
    let names = default_lockfile_names_exec();
    let mut i: usize = 0;
    while i < names.len()
        invariant
            i <= names.deep_view().len(),
            names.deep_view() == default_lockfile_names(),
            name@ == basename(path@),
            forall|j: int| 0 <= j < i ==> names.deep_view()[j] != name@,
        decreases names.len() - i,
    {
        assert(names.deep_view()[i as int] =~= names[i as int]@);
        if chars_equal(names[i].as_slice(), name.as_slice()) {
            assert(names.deep_view()[i as int] == name@);
            assert(default_lockfile_names()[i as int] == basename(path@));
            assert(default_lockfile_names().contains(basename(path@)));
            return true;
        }
        i = i + 1;
    }
    assert(!default_lockfile_names().contains(name@));
    false
}

proof fn lemma_basename_without_slash(dir: Seq<char>, name: Seq<char>)
    requires
        forall|i: int| 0 <= i < name.len() ==> name[i] != '/',
    ensures
        basename(dir + seq!['/'] + name) == name,
        basename(name) == name,
    decreases name.len(),
{
    if name.len() == 0 {
        assert(dir + seq!['/'] + name =~= dir.push('/'));
    } else {
        let n0 = name.drop_last();
        lemma_basename_without_slash(dir, n0);
        assert((dir + seq!['/'] + name).drop_last() =~= dir + seq!['/'] + n0);
        assert((dir + seq!['/'] + name).last() == name.last());
        assert(n0.push(name.last()) =~= name);
    }
}

/// Lock files are recognised by their file name at any depth: a
/// `package-lock.json`, `pnpm-lock.yaml`, `yarn.lock` or `Cargo.lock` at the
/// top of the tree or under any directory is summarized unless lock files
/// are included, whatever else is configured; its section then reads as an
/// edit of the file and the file is reported as omitted.
pub proof fn law_lock_files_found_at_any_depth(dir: Seq<char>, name: Seq<char>, text: Seq<char>, max_file: nat, ignore: Seq<Seq<char>>)
    requires
        name == "package-lock.json"@ || name == "pnpm-lock.yaml"@ || name == "yarn.lock"@ || name == "Cargo.lock"@,
    ensures
        should_ignore(name, false, ignore),
        should_ignore(dir + "/"@ + name, false, ignore),
        prepare_part(Some(dir + "/"@ + name), text, max_file, false, ignore) == (
            "Edit file "@ + (dir + "/"@ + name) + " (diff omitted by input policy)"@,
            Some(dir + "/"@ + name + " (ignored by diff input policy)"@),
            None::<Seq<char>>,
        ),
{
    reveal_strlit("/");
    reveal_strlit("package-lock.json");
    reveal_strlit("pnpm-lock.yaml");
    reveal_strlit("yarn.lock");
    reveal_strlit("Cargo.lock");
    assert("/"@ == seq!['/']);
    lemma_basename_without_slash(dir, name);
    let names = default_lockfile_names();
    if name == "package-lock.json"@ {
        assert(names[0] == name);
    } else if name == "pnpm-lock.yaml"@ {
        assert(names[1] == name);
    } else if name == "yarn.lock"@ {
        assert(names[2] == name);
    } else {
        assert(names[3] == name);
    }
    assert(is_lockfile(name));
    assert(is_lockfile(dir + "/"@ + name));
}

proof fn lemma_trim_unpadded(s: Seq<char>)
    requires
        s.len() > 0,
        !is_ws(s[0]),
        !is_ws(s.last()),
    ensures
        trim(s) == s,
{
    assert(trim_start(s) == s);
    assert(trim_end(s) == s);
}

/// A directory pattern `dir/**` covers the directory itself and everything
/// under it, at any depth.
pub proof fn law_directory_pattern_covers_tree(dir: Seq<char>, rest: Seq<char>)
    requires
        dir.len() > 0,
        !is_ws(dir[0]),
        dir.last() != '/',
    ensures
        path_matches(dir, dir + "/**"@),
        path_matches(dir + "/"@ + rest, dir + "/**"@),
{
    reveal_strlit("/**");
    reveal_strlit("/");
    let p = dir + "/**"@;
    assert(p[0] == dir[0]);
    lemma_trim_unpadded(p);
    assert(seq!['/', '*', '*'].is_suffix_of(p)) by {
        assert(p.subrange(p.len() - 3, p.len() as int) =~= seq!['/', '*', '*']);
    }
    assert(p.subrange(0, p.len() - 3) =~= dir);
    assert(trim_end_char(dir, '/') == dir);
    let path = dir + "/"@ + rest;
    assert(dir.push('/').is_prefix_of(path)) by {
        assert(path.subrange(0, dir.len() as int + 1) =~= dir.push('/'));
    }
}

/// An extension pattern `*.ext` covers every file whose name ends in `.ext`,
/// at the top of the tree or in any directory.
pub proof fn law_extension_pattern_any_depth(dir: Seq<char>, name: Seq<char>, ext: Seq<char>)
    requires
        ext.len() > 0,
        !is_ws(ext.last()),
        forall|i: int| 0 <= i < ext.len() ==> ext[i] != '/',
        forall|i: int| 0 <= i < name.len() ==> name[i] != '/',
    ensures
        path_matches(name + "."@ + ext, "*."@ + ext),
        path_matches(dir + "/"@ + name + "."@ + ext, "*."@ + ext),
{
    reveal_strlit("*.");
    reveal_strlit(".");
    reveal_strlit("/");
    let p = "*."@ + ext;
    let file = name + "."@ + ext;
    assert(p[0] == '*');
    assert(p.last() == ext.last());
    lemma_trim_unpadded(p);
    assert forall|i: int| 0 <= i < file.len() implies file[i] != '/' by {
        if i >= name.len() + 1 {
            assert(file[i] == ext[i - name.len() - 1]);
        }
    }
    lemma_basename_without_slash(dir, file);
    assert(dir + "/"@ + name + "."@ + ext =~= dir + seq!['/'] + file);
    assert(!seq!['/', '*', '*'].is_suffix_of(p)) by {
        if seq!['/', '*', '*'].is_suffix_of(p) {
            if ext.len() >= 3 {
                assert(p[p.len() - 3] == ext[ext.len() - 3]);
            } else if ext.len() == 2 {
                assert(p[p.len() - 3] == '.');
            } else {
                assert(p[p.len() - 3] == '*');
            }
            assert(p[p.len() - 3] == seq!['/', '*', '*'][0]);
        }
    }
    assert(seq!['*', '.'].is_prefix_of(p)) by {
        assert(p.subrange(0, 2) =~= seq!['*', '.']);
    }
    let suffix = p.subrange(1, p.len() as int);
    assert(suffix =~= "."@ + ext);
    assert(suffix.is_suffix_of(file)) by {
        assert(file.subrange(file.len() - suffix.len(), file.len() as int) =~= suffix);
    }
}

/// A suffix pattern `*suffix` (one that is not an extension pattern) covers
/// every path that ends in the suffix.
pub proof fn law_suffix_pattern_matches_ending(prefix: Seq<char>, suffix: Seq<char>)
    requires
        suffix.len() > 0,
        suffix[0] != '.',
        !is_ws(suffix.last()),
        !seq!['/', '*', '*'].is_suffix_of(suffix),
    ensures
        path_matches(prefix + suffix, "*"@ + suffix),
{
    reveal_strlit("*");
    let p = "*"@ + suffix;
    assert(p[0] == '*');
    assert(p.last() == suffix.last());
    lemma_trim_unpadded(p);
    assert(!seq!['/', '*', '*'].is_suffix_of(p)) by {
        if seq!['/', '*', '*'].is_suffix_of(p) {
            if suffix.len() >= 3 {
                assert(suffix.subrange(suffix.len() - 3, suffix.len() as int) =~= p.subrange(p.len() - 3, p.len() as int));
            } else {
                assert(p[p.len() - 3] == '*');
                assert(p[p.len() - 3] == seq!['/', '*', '*'][0]);
            }
        }
    }
    assert(!seq!['*', '.'].is_prefix_of(p)) by {
        assert(p[1] == suffix[0]);
        if seq!['*', '.'].is_prefix_of(p) {
            assert(p[1] == seq!['*', '.'][1]);
        }
    }
    assert(seq!['*'].is_prefix_of(p)) by {
        assert(p.subrange(0, 1) =~= seq!['*']);
    }
    assert(p.subrange(1, p.len() as int) =~= suffix);
    let path = prefix + suffix;
    assert(suffix.is_suffix_of(path)) by {
        assert(path.subrange(path.len() - suffix.len(), path.len() as int) =~= suffix);
    }
}

/// Any other pattern is an exact path: it covers that path and, when it
/// names a directory, everything under it.
pub proof fn law_exact_pattern_covers_path(p: Seq<char>, rest: Seq<char>)
    requires
        p.len() > 0,
        !is_ws(p[0]),
        !is_ws(p.last()),
        p[0] != '*',
        !seq!['/', '*', '*'].is_suffix_of(p),
    ensures
        path_matches(p, p),
        path_matches(p + "/"@ + rest, p),
{
    reveal_strlit("/");
    lemma_trim_unpadded(p);
    assert(!seq!['*', '.'].is_prefix_of(p)) by {
        if seq!['*', '.'].is_prefix_of(p) {
            assert(p[0] == seq!['*', '.'][0]);
        }
    }
    assert(!seq!['*'].is_prefix_of(p)) by {
        if seq!['*'].is_prefix_of(p) {
            assert(p[0] == seq!['*'][0]);
        }
    }
    let path = p + "/"@ + rest;
    assert(p.push('/').is_prefix_of(path)) by {
        assert(path.subrange(0, p.len() as int + 1) =~= p.push('/'));
    }
}

/// A section whose path matches a configured pattern is summarized,
/// whether lock files are included or not.
pub proof fn law_configured_pattern_summarizes(path: Seq<char>, include_lockfiles: bool, ignore: Seq<Seq<char>>, i: int)
    requires
        0 <= i < ignore.len(),
        path_matches(path, ignore[i]),
    ensures
        should_ignore(path, include_lockfiles, ignore),
{
}

/// Generated directories (`dist`, `build`, `coverage`, `target` at the top
/// of the tree) and source maps and minified scripts and style sheets at any
/// depth are summarized by default, whatever else is configured.
pub proof fn law_generated_files_summarized(rest: Seq<char>, dir: Seq<char>, name: Seq<char>, include_lockfiles: bool, ignore: Seq<Seq<char>>)
    requires
        forall|i: int| 0 <= i < name.len() ==> name[i] != '/',
    ensures
        should_ignore("dist/"@ + rest, include_lockfiles, ignore),
        should_ignore("build/"@ + rest, include_lockfiles, ignore),
        should_ignore("coverage/"@ + rest, include_lockfiles, ignore),
        should_ignore("target/"@ + rest, include_lockfiles, ignore),
        should_ignore(dir + "/"@ + name + ".map"@, include_lockfiles, ignore),
        should_ignore(dir + "/"@ + name + ".min.js"@, include_lockfiles, ignore),
        should_ignore(dir + "/"@ + name + ".min.css"@, include_lockfiles, ignore),
{
    reveal_strlit("dist/");
    reveal_strlit("build/");
    reveal_strlit("coverage/");
    reveal_strlit("target/");
    reveal_strlit("dist");
    reveal_strlit("build");
    reveal_strlit("coverage");
    reveal_strlit("target");
    reveal_strlit("/");
    reveal_strlit("/**");
    reveal_strlit("dist/**");
    reveal_strlit("build/**");
    reveal_strlit("coverage/**");
    reveal_strlit("target/**");
    reveal_strlit(".map");
    reveal_strlit(".min.js");
    reveal_strlit(".min.css");
    reveal_strlit(".");
    reveal_strlit("map");
    reveal_strlit("min.js");
    reveal_strlit("min.css");
    reveal_strlit("*.");
    reveal_strlit("*.map");
    reveal_strlit("*.min.js");
    reveal_strlit("*.min.css");
    let pats = default_ignored_patterns();
    law_directory_pattern_covers_tree("dist"@, rest);
    assert("dist"@ + "/**"@ =~= pats[0]);
    assert("dist"@ + "/"@ + rest =~= "dist/"@ + rest);
    law_directory_pattern_covers_tree("build"@, rest);
    assert("build"@ + "/**"@ =~= pats[1]);
    assert("build"@ + "/"@ + rest =~= "build/"@ + rest);
    law_directory_pattern_covers_tree("coverage"@, rest);
    assert("coverage"@ + "/**"@ =~= pats[2]);
    assert("coverage"@ + "/"@ + rest =~= "coverage/"@ + rest);
    law_directory_pattern_covers_tree("target"@, rest);
    assert("target"@ + "/**"@ =~= pats[3]);
    assert("target"@ + "/"@ + rest =~= "target/"@ + rest);
    law_extension_pattern_any_depth(dir, name, "map"@);
    assert("*."@ + "map"@ =~= pats[4]);
    assert(dir + "/"@ + name + "."@ + "map"@ =~= dir + "/"@ + name + ".map"@);
    law_extension_pattern_any_depth(dir, name, "min.js"@);
    assert("*."@ + "min.js"@ =~= pats[5]);
    assert(dir + "/"@ + name + "."@ + "min.js"@ =~= dir + "/"@ + name + ".min.js"@);
    law_extension_pattern_any_depth(dir, name, "min.css"@);
    assert("*."@ + "min.css"@ =~= pats[6]);
    assert(dir + "/"@ + name + "."@ + "min.css"@ =~= dir + "/"@ + name + ".min.css"@);
}

/// Whether some pattern of `patterns` matches `path`.
fn any_pattern_matches(path: &[char], patterns: &Vec<Vec<char>>) -> (b: bool)
    ensures
        b == exists|i: int| 0 <= i < patterns.deep_view().len()
            && path_matches(path@, #[trigger] patterns.deep_view()[i]),
{
    let mut i: usize = 0;
    while i < patterns.len()
        invariant
            i <= patterns.deep_view().len(),
            forall|j: int| 0 <= j < i ==> !path_matches(path@, #[trigger] patterns.deep_view()[j]),
        decreases patterns.len() - i,
    {
        if path_matches_pattern(path, patterns[i].as_slice()) {
            assert(patterns.deep_view()[i as int] =~= patterns[i as int]@);
            return true;
        }
        assert(patterns.deep_view()[i as int] =~= patterns[i as int]@);
        i = i + 1;
    }
    false
}

fn should_ignore_diff_path(path: &[char], include_lockfiles: bool, ignore: &Vec<Vec<char>>) -> (b: bool)
    ensures
        b == should_ignore(path@, include_lockfiles, ignore.deep_view()),
{
    if !include_lockfiles && is_lockfile_path(path) {
        return true;
    }
    let defaults = default_ignored_patterns_exec();
    any_pattern_matches(path, &defaults) || any_pattern_matches(path, ignore)
}


/// The line that starts a file section of a Git diff.
pub open spec fn header_prefix() -> Seq<char> {
    "diff --git "@
}

/// The line that starts the diff of an untracked file.
pub open spec fn untracked_prefix() -> Seq<char> {
    "Untracked file: "@
}

/// The path named by the file section header after `diff --git `: the text
/// after the last ` b/`, trimmed and without surrounding double quotes; when
/// there is no ` b/`, the second shell word without its `b/` or `a/`.
pub open spec fn diff_git_path(header: Seq<char>) -> Option<Seq<char>> {
    if !header_prefix().is_prefix_of(header) {
        None
    } else {
        let rest = header.subrange(header_prefix().len() as int, header.len() as int);
        match rfind(rest, seq![' ', 'b', '/']) {
            Some(i) => Some(trim_char(trim(rest.subrange(i + 3, rest.len() as int)), '"')),
            None => second_word_path(rest),
        }
    }
}

/// The second of the shell words of a header, without its `b/` or `a/`
/// prefix; `None` when the words could not be split.
pub open spec fn words_path(words: Option<Seq<Seq<char>>>) -> Option<Seq<char>> {
    match words {
        Some(words) => if words.len() > 1 && (seq!['b', '/'].is_prefix_of(words[1])
            || seq!['a', '/'].is_prefix_of(words[1])) {
            Some(words[1].subrange(2, words[1].len() as int))
        } else {
            None
        },
        None => None,
    }
}

/// The second shell word of `rest` without its `b/` or `a/` prefix.
pub open spec fn second_word_path(rest: Seq<char>) -> Option<Seq<char>> {
    words_path(shell_words_split(rest))
}

fn second_word_path_exec(rest: &[char]) -> (r: Option<Vec<char>>)
    ensures
        match r {
            Some(p) => second_word_path(rest@) == Some(p@),
            None => second_word_path(rest@) is None,
        },
{
    let rest_string = string_of(rest);
    let words = shell_split(rest_string.as_str());
    path_from_header_words(&words)
}

/// The path that the shell words of a `diff --git` header name.
pub fn path_from_header_words(words: &Option<Vec<String>>) -> (r: Option<Vec<char>>)
    ensures
        match r {
            Some(p) => words_path(words.deep_view()) == Some(p@),
            None => words_path(words.deep_view()) is None,
        },
{
    match words {
        Some(words) => {
            if words.len() > 1 {
                let word = chars_of(words[1].as_str());
                assert(words.deep_view()[1] == word@);
                let b_slash = vec!['b', '/'];
                let a_slash = vec!['a', '/'];
                if starts_with_chars(word.as_slice(), b_slash.as_slice())
                    || starts_with_chars(word.as_slice(), a_slash.as_slice()) {
                    Some(slice_range(word.as_slice(), 2, word.len()))
                } else {
                    None
                }
            } else {
                None
            }
        },
        None => None,
    }
}

#[verifier::rlimit(30)]
fn parse_diff_git_path(header: &[char]) -> (r: Option<Vec<char>>)
    ensures
        match r {
            Some(p) => diff_git_path(header@) == Some(p@),
            None => diff_git_path(header@) is None,
        },
{
    let prefix = chars_of("diff --git ");
    if !starts_with_chars(header, prefix.as_slice()) {
        return None;
    }
    let rest = slice_range(header, prefix.len(), header.len());
    let bsep = vec![' ', 'b', '/'];
    match rfind_exec(rest.as_slice(), bsep.as_slice()) {
        Some(i) => {
            let after = slice_range(rest.as_slice(), i + 3, rest.len());
            let trimmed = trim_chars(after.as_slice());
            Some(trim_char_exec(trimmed.as_slice(), '"'))
        },
        None => second_word_path_exec(rest.as_slice()),
    }
}

/// The path of the section that `line` starts, as the section splitter reads
/// it: a `diff --git` header's path, or the trimmed, non-empty name after
/// `Untracked file: `.
pub open spec fn part_path(line: Seq<char>) -> Option<Seq<char>> {
    if header_prefix().is_prefix_of(line) {
        diff_git_path(line)
    } else if untracked_prefix().is_prefix_of(line) {
        let name = trim(line.subrange(untracked_prefix().len() as int, line.len() as int));
        if name.len() > 0 {
            Some(name)
        } else {
            None
        }
    } else {
        None
    }
}

fn parse_diff_part_path(line: &[char]) -> (r: Option<Vec<char>>)
    ensures
        match r {
            Some(p) => part_path(line@) == Some(p@),
            None => part_path(line@) is None,
        },
{
    let header = chars_of("diff --git ");
    if starts_with_chars(line, header.as_slice()) {
        return parse_diff_git_path(line);
    }
    let untracked = chars_of("Untracked file: ");
    if starts_with_chars(line, untracked.as_slice()) {
        let rest = slice_range(line, untracked.len(), line.len());
        let name = trim_chars(rest.as_slice());
        if name.len() > 0 {
            return Some(name);
        }
    }
    None
}

/// Whether `line` starts a new section when a diff is split per file.
pub open spec fn starts_part(line: Seq<char>) -> bool {
    header_prefix().is_prefix_of(line) || untracked_prefix().is_prefix_of(line)
}

/// The state of the per-file splitter: finished sections, the section being
/// read, and its path.
pub type SplitState = (Seq<(Option<Seq<char>>, Seq<char>)>, Seq<char>, Option<Seq<char>>);

pub open spec fn split_step(st: SplitState, line: Seq<char>) -> SplitState {
    if starts_part(line) {
        let parts = if st.1.len() > 0 { st.0.push((st.2, st.1)) } else { st.0 };
        let current = if st.1.len() > 0 { line } else { st.1 + line };
        (parts, current, part_path(line))
    } else {
        (st.0, st.1 + line, st.2)
    }
}

pub open spec fn split_fold(lines: Seq<Seq<char>>) -> SplitState
    decreases lines.len(),
{
    if lines.len() == 0 {
        (Seq::empty(), Seq::empty(), None)
    } else {
        split_step(split_fold(lines.drop_last()), lines.last())
    }
}

/// The sections of a diff, each with the path it is about: a new section
/// starts at each `diff --git ` or `Untracked file: ` line.
pub open spec fn split_parts(diff: Seq<char>) -> Seq<(Option<Seq<char>>, Seq<char>)> {
    let st = split_fold(split_incl(diff));
    if st.1.len() > 0 {
        st.0.push((st.2, st.1))
    } else {
        st.0
    }
}

/// One section of a diff and the path it is about.
pub struct DiffPart {
    pub path: Option<Vec<char>>,
    pub text: Vec<char>,
}

impl View for DiffPart {
    type V = (Option<Seq<char>>, Seq<char>);

    open spec fn view(&self) -> (Option<Seq<char>>, Seq<char>) {
        (
            match self.path {
                Some(p) => Some(p@),
                None => None,
            },
            self.text@,
        )
    }
}

pub open spec fn parts_view(parts: Seq<DiffPart>) -> Seq<(Option<Seq<char>>, Seq<char>)> {
    parts.map_values(|p: DiffPart| p@)
}

fn split_diff_parts(diff: &[char]) -> (parts: Vec<DiffPart>)
    ensures
        parts_view(parts@) == split_parts(diff@),
{
    let lines = split_inclusive_lines(diff);
    let mut parts: Vec<DiffPart> = Vec::new();
    let mut current: Vec<char> = Vec::new();
    let mut current_path: Option<Vec<char>> = None;
    let mut i: usize = 0;
    while i < lines.len()
        invariant
            i <= lines.deep_view().len(),
            lines.deep_view() == split_incl(diff@),
            split_fold(lines.deep_view().subrange(0, i as int)) == (
                parts_view(parts@),
                current@,
                match current_path {
                    Some(p) => Some(p@),
                    None => None,
                },
            ),
        decreases lines.len() - i,
    {
        let line = &lines[i];
        assert(lines.deep_view()[i as int] =~= line@);
        let ghost prev = lines.deep_view().subrange(0, i as int);
        assert(lines.deep_view().subrange(0, i + 1).drop_last() == prev);
        let header = chars_of("diff --git ");
        let untracked = chars_of("Untracked file: ");
        if starts_with_chars(line.as_slice(), header.as_slice())
            || starts_with_chars(line.as_slice(), untracked.as_slice()) {
            if current.len() > 0 {
                let text = current;
                let path = current_path;
                let ghost old_parts = parts@;
                parts.push(DiffPart { path, text });
                assert(parts_view(parts@) =~= parts_view(old_parts).push(parts@.last()@));
                current = Vec::new();
            }
            current_path = parse_diff_part_path(line.as_slice());
        }
        append_chars(&mut current, line.as_slice());
        i = i + 1;
    }
    assert(lines.deep_view().subrange(0, lines.deep_view().len() as int) == lines.deep_view());
    if current.len() > 0 {
        let ghost old_parts = parts@;
        parts.push(DiffPart { path: current_path, text: current });
        assert(parts_view(parts@) =~= parts_view(old_parts).push(parts@.last()@));
    }
    parts
}


/// `text` cut to at most `max` characters, ending with `marker`: the first
/// characters of `text` followed by `marker`, or the first `max` characters
/// of `marker` when it does not fit.
pub open spec fn truncate_text(text: Seq<char>, max: nat, marker: Seq<char>) -> Seq<char> {
    if marker.len() >= max {
        marker.subrange(0, max as int)
    } else {
        let keep = (max - marker.len()) as nat;
        let kept = if text.len() <= keep { text } else { text.subrange(0, keep as int) };
        kept + marker
    }
}

pub proof fn lemma_truncate_len(text: Seq<char>, max: nat, marker: Seq<char>)
    ensures
        truncate_text(text, max, marker).len() <= max,
{
}

fn truncate_to_char_boundary(text: &[char], max_chars: usize, marker: &[char]) -> (r: Vec<char>)
    ensures
        r@ == truncate_text(text@, max_chars as nat, marker@),
{
    if marker.len() >= max_chars {
        return slice_range(marker, 0, max_chars);
    }
    let keep: usize = max_chars - marker.len();
    let end: usize = if text.len() <= keep { text.len() } else { keep };
    let mut r = slice_range(text, 0, end);
    assert(text@.subrange(0, text@.len() as int) == text@);
    append_chars(&mut r, marker);
    r
}

/// A section cut to the per-file budget keeps its start and never exceeds
/// the budget: when the marker fits, the result is the first characters of
/// the text, as many as fit beside the marker (all of them when the text is
/// short enough), followed by the whole marker; when it does not fit, the
/// result is the start of the marker.
pub proof fn law_truncation_keeps_the_start(text: Seq<char>, max: nat, marker: Seq<char>)
    ensures
        ({
            let r = truncate_text(text, max, marker);
            &&& r.len() <= max
            &&& marker.len() < max ==> exists|k: int| 0 <= k <= text.len() && r == text.subrange(0, k) + marker
            &&& marker.len() < max ==> r.len() == if text.len() + marker.len() <= max {
                text.len() + marker.len()
            } else {
                max
            }
            &&& marker.len() >= max ==> r == marker.subrange(0, max as int)
        }),
{
    if marker.len() < max {
        let k: int = if text.len() + marker.len() <= max { text.len() as int } else { max - marker.len() };
        assert(text.subrange(0, text.len() as int) == text);
        assert(truncate_text(text, max, marker) == text.subrange(0, k) + marker);
    }
}

/// The label under which a section is reported.
pub open spec fn part_label(path: Option<Seq<char>>) -> Seq<char> {
    match path {
        Some(p) => p,
        None => "<metadata>"@,
    }
}

/// What one section contributes: its prepared text, and the report entries
/// it adds to the omitted and to the truncated sections.
pub open spec fn prepare_part(
    path: Option<Seq<char>>,
    text: Seq<char>,
    max_file: nat,
    include_lockfiles: bool,
    ignore: Seq<Seq<char>>,
) -> (Seq<char>, Option<Seq<char>>, Option<Seq<char>>) {
    if path is Some && should_ignore(path->0, include_lockfiles, ignore) {
        (
            "Edit file "@ + path->0 + " (diff omitted by input policy)"@,
            Some(path->0 + " (ignored by diff input policy)"@),
            None,
        )
    } else if text.len() <= max_file {
        (text, None, None)
    } else {
        let label = part_label(path);
        (
            truncate_text(
                text,
                max_file,
                "\n[omitted: "@ + label + ", original diff was "@ + decimal(text.len())
                    + " chars, exceeded per-file budget]\n"@,
            ),
            None,
            Some(label + " ("@ + decimal(text.len()) + " chars -> "@ + decimal(max_file)
                + " chars)"@),
        )
    }
}

pub open spec fn push_opt(s: Seq<Seq<char>>, e: Option<Seq<char>>) -> Seq<Seq<char>> {
    match e {
        Some(x) => s.push(x),
        None => s,
    }
}

fn prepare_diff_part(
    part: &DiffPart,
    max_file_chars: usize,
    include_lockfiles: bool,
    ignore_diff_paths: &Vec<Vec<char>>,
    omitted_files: &mut Vec<Vec<char>>,
    truncated_files: &mut Vec<Vec<char>>,
) -> (prepared: Vec<char>)
    ensures
        ({
            let r = prepare_part(part@.0, part@.1, max_file_chars as nat, include_lockfiles, ignore_diff_paths.deep_view());
            &&& prepared@ == r.0
            &&& final(omitted_files).deep_view() == push_opt(old(omitted_files).deep_view(), r.1)
            &&& final(truncated_files).deep_view() == push_opt(old(truncated_files).deep_view(), r.2)
        }),
{
    let ghost om0 = omitted_files.deep_view();
    let ghost tr0 = truncated_files.deep_view();
    if let Some(path) = &part.path {
        if should_ignore_diff_path(path.as_slice(), include_lockfiles, ignore_diff_paths) {
            let mut entry = path.clone();
            append_chars(&mut entry, chars_of(" (ignored by diff input policy)").as_slice());
            omitted_files.push(entry);
            assert(omitted_files.deep_view() =~~= om0.push(entry@));
            let mut text = chars_of("Edit file ");
            append_chars(&mut text, path.as_slice());
            append_chars(&mut text, chars_of(" (diff omitted by input policy)").as_slice());
            return text;
        }
    }
    let text_chars: usize = part.text.len();
    if text_chars <= max_file_chars {
        assert(part.text@.subrange(0, part.text@.len() as int) == part.text@);
        return slice_range(part.text.as_slice(), 0, text_chars);
    }
    let label: Vec<char> = match &part.path {
        Some(p) => p.clone(),
        None => chars_of("<metadata>"),
    };
    let mut entry = label.clone();
    append_chars(&mut entry, chars_of(" (").as_slice());
    push_decimal(&mut entry, text_chars);
    append_chars(&mut entry, chars_of(" chars -> ").as_slice());
    push_decimal(&mut entry, max_file_chars);
    append_chars(&mut entry, chars_of(" chars)").as_slice());
    truncated_files.push(entry);
    assert(truncated_files.deep_view() =~~= tr0.push(entry@));
    let mut marker = chars_of("\n[omitted: ");
    append_chars(&mut marker, label.as_slice());
    append_chars(&mut marker, chars_of(", original diff was ").as_slice());
    push_decimal(&mut marker, text_chars);
    append_chars(&mut marker, chars_of(" chars, exceeded per-file budget]\n").as_slice());
    truncate_to_char_boundary(part.text.as_slice(), max_file_chars, marker.as_slice())
}


/// The state of the budgeted assembly: the content so far, the remaining
/// budget, the omitted and truncated report entries, whether the budget was
/// reached, and whether assembly stopped.
pub type PrepState = (Seq<char>, nat, Seq<Seq<char>>, Seq<Seq<char>>, bool, bool);

pub open spec fn prep_step(
    st: PrepState,
    part: (Option<Seq<char>>, Seq<char>),
    max_file: nat,
    include_lockfiles: bool,
    ignore: Seq<Seq<char>>,
) -> PrepState {
    if st.5 {
        st
    } else {
        let r = prepare_part(part.0, part.1, max_file, include_lockfiles, ignore);
        let prepared = r.0;
        let omitted = push_opt(st.2, r.1);
        let truncated = push_opt(st.3, r.2);
        if trim(prepared).len() == 0 {
            (st.0, st.1, omitted, truncated, st.4, false)
        } else {
            let sep: nat = if st.0.len() == 0 { 0 } else { 2 };
            if prepared.len() + sep <= st.1 {
                let content = if st.0.len() == 0 { prepared } else { st.0 + seq!['\n', '\n'] + prepared };
                (content, (st.1 - sep - prepared.len()) as nat, omitted, truncated, st.4, false)
            } else {
                let entry = part_label(part.0) + " (omitted: remaining input budget "@ + decimal(st.1)
                    + " chars)"@;
                (st.0, st.1, omitted.push(entry), truncated, true, true)
            }
        }
    }
}

pub open spec fn prep_fold(
    parts: Seq<(Option<Seq<char>>, Seq<char>)>,
    budget: nat,
    max_file: nat,
    include_lockfiles: bool,
    ignore: Seq<Seq<char>>,
) -> PrepState
    decreases parts.len(),
{
    if parts.len() == 0 {
        (Seq::empty(), budget, Seq::empty(), Seq::empty(), false, false)
    } else {
        prep_step(prep_fold(parts.drop_last(), budget, max_file, include_lockfiles, ignore), parts.last(), max_file, include_lockfiles, ignore)
    }
}

proof fn lemma_prep_fold_stopped(
    parts: Seq<(Option<Seq<char>>, Seq<char>)>,
    k: int,
    budget: nat,
    max_file: nat,
    include_lockfiles: bool,
    ignore: Seq<Seq<char>>,
)
    requires
        0 <= k <= parts.len(),
        prep_fold(parts.subrange(0, k), budget, max_file, include_lockfiles, ignore).5,
    ensures
        prep_fold(parts, budget, max_file, include_lockfiles, ignore)
            == prep_fold(parts.subrange(0, k), budget, max_file, include_lockfiles, ignore),
    decreases parts.len() - k,
{
    if k < parts.len() {
        assert(parts.subrange(0, k + 1).drop_last() == parts.subrange(0, k));
        lemma_prep_fold_stopped(parts, k + 1, budget, max_file, include_lockfiles, ignore);
    } else {
        assert(parts.subrange(0, k) == parts);
    }
}

/// The input budget: the configured one, kept below the chat message limit.
pub open spec fn input_budget(max_input_chars: nat) -> nat {
    if max_input_chars < CHAT_MESSAGE_CHAR_LIMIT - 1 {
        max_input_chars
    } else {
        (CHAT_MESSAGE_CHAR_LIMIT - 1) as nat
    }
}

/// The per-section budget: the configured one, at most the input budget.
pub open spec fn file_budget(max_file_chars: nat, budget: nat) -> nat {
    if max_file_chars < budget {
        max_file_chars
    } else {
        budget
    }
}

/// The prepared diff and its report: the sections that fit the budget, in
/// order and separated by a blank line; or, when none of the diff's text got
/// in, the diff itself cut to the budget.
pub open spec fn prepared_diff(
    diff: Seq<char>,
    max_input_chars: nat,
    max_file_chars: nat,
    include_lockfiles: bool,
    ignore: Seq<Seq<char>>,
) -> PrepState {
    let budget = input_budget(max_input_chars);
    let st = prep_fold(split_parts(diff), budget, file_budget(max_file_chars, budget), include_lockfiles, ignore);
    if trim(st.0).len() == 0 && trim(diff).len() > 0 {
        (truncate_text(diff, budget, "\n[diff omitted: input budget exhausted]\n"@), st.1, st.2, st.3, true, st.5)
    } else {
        st
    }
}

/// What was done to a diff to fit it into the chat request.
#[derive(Clone, Debug, Default, PartialEq, Eq)]
pub struct DiffPreparationReport {
    pub original_chars: usize,
    pub prepared_chars: usize,
    pub input_budget_chars: usize,
    pub omitted_files: Vec<String>,
    pub truncated_files: Vec<String>,
    pub reached_input_budget: bool,
}

/// A diff prepared for the chat request and its report.
#[derive(Clone, Debug, PartialEq, Eq)]
pub struct PreparedDiff {
    pub content: String,
    pub report: DiffPreparationReport,
}

/// Splits `diff` per file, summarizes sections by path policy, truncates
/// sections above the per-file budget and stops adding sections once the
/// input budget is exhausted.
pub fn prepare_diff_for_llm(config: &AppConfig, diff: &str) -> (r: PreparedDiff)
    ensures
        ({
            let st = prepared_diff(
                diff@,
                config.max_input_chars as nat,
                config.max_file_chars as nat,
                config.include_lockfiles,
                config.ignore_diff_paths.deep_view(),
            );
            &&& r.content@ == st.0
            &&& r.report.original_chars == diff@.len()
            &&& r.report.prepared_chars == st.0.len()
            &&& r.report.input_budget_chars == input_budget(config.max_input_chars as nat)
            &&& r.report.omitted_files.deep_view() == st.2
            &&& r.report.truncated_files.deep_view() == st.3
            &&& r.report.reached_input_budget == st.4
        }),
{
    let text = chars_of(diff);
    let original_chars: usize = text.len();
    let budget: usize = if config.max_input_chars < CHAT_MESSAGE_CHAR_LIMIT - 1 {
        config.max_input_chars
    } else {
        CHAT_MESSAGE_CHAR_LIMIT - 1
    };
    let max_file_chars: usize = if config.max_file_chars < budget { config.max_file_chars } else { budget };
    let ignore = chars_list(&config.ignore_diff_paths);
    let parts = split_diff_parts(text.as_slice());
    let ghost pv = parts_view(parts@);
    let ghost incl = config.include_lockfiles;
    let ghost ig = ignore.deep_view();
    let mut remaining: usize = budget;
    let mut content: Vec<char> = Vec::new();
    let mut omitted_files: Vec<Vec<char>> = Vec::new();
    let mut truncated_files: Vec<Vec<char>> = Vec::new();
    let mut reached_input_budget: bool = false;
    let mut stopped: bool = false;
    let mut taken: usize = 0;
    let n: usize = parts.len();
    while taken < n && !stopped
        invariant
            taken <= n == pv.len(),
            pv == parts_view(parts@),
            remaining <= budget,
            incl == config.include_lockfiles,
            ig == config.ignore_diff_paths.deep_view(),
            ig == ignore.deep_view(),
            max_file_chars == file_budget(config.max_file_chars as nat, budget as nat),
            prep_fold(pv.subrange(0, taken as int), budget as nat, max_file_chars as nat, incl, ig)
                == (content@, remaining as nat, omitted_files.deep_view(), truncated_files.deep_view(), reached_input_budget, stopped),
        decreases n - taken,
    {
        let part = &parts[taken];
        assert(part@ == pv[taken as int]);
        let ghost before = (content@, remaining as nat, omitted_files.deep_view(), truncated_files.deep_view(), reached_input_budget, stopped);
        assert(pv.subrange(0, taken + 1).drop_last() == pv.subrange(0, taken as int));
        assert(pv.subrange(0, taken + 1).last() == pv[taken as int]);
        let path_label: Vec<char> = match &part.path {
            Some(p) => p.clone(),
            None => chars_of("<metadata>"),
        };
        assert(path_label@ == part_label(part@.0));
        let ghost r = prepare_part(part@.0, part@.1, max_file_chars as nat, incl, ig);
        let prepared = prepare_diff_part(part, max_file_chars, incl_exec(config), &ignore, &mut omitted_files, &mut truncated_files);
        assert(prepared@ == r.0);
        taken = taken + 1;
        let (a, b) = trim_bounds(prepared.as_slice());
        if a == b {
            assert(trim(prepared@).len() == 0);
            continue;
        }
        assert(trim(prepared@).len() > 0);
        let ghost old_content = content@;
        let separator_chars: usize = if content.len() == 0 { 0 } else { 2 };
        let prepared_chars: usize = prepared.len();
        if prepared_chars <= remaining && separator_chars <= remaining - prepared_chars {
            if content.len() > 0 {
                content.push('\n');
                content.push('\n');
                remaining = remaining - 2;
            }
            append_chars(&mut content, prepared.as_slice());
            remaining = remaining - prepared_chars;
            assert(content@ == if old_content.len() == 0 { prepared@ } else { old_content + seq!['\n', '\n'] + prepared@ });
            continue;
        }
        reached_input_budget = true;
        let mut entry = path_label;
        append_chars(&mut entry, chars_of(" (omitted: remaining input budget ").as_slice());
        push_decimal(&mut entry, remaining);
        append_chars(&mut entry, chars_of(" chars)").as_slice());
        let ghost om = omitted_files.deep_view();
        omitted_files.push(entry);
        assert(omitted_files.deep_view() =~~= om.push(entry@));
        stopped = true;
    }
    proof {
        if stopped {
            lemma_prep_fold_stopped(pv, taken as int, budget as nat, max_file_chars as nat, incl, ig);
        } else {
            assert(pv.subrange(0, n as int) == pv);
        }
    }
    let (ca, cb) = trim_bounds(content.as_slice());
    let (da, db) = trim_bounds(text.as_slice());
    if ca == cb && da < db {
        let marker = chars_of("\n[diff omitted: input budget exhausted]\n");
        content = truncate_to_char_boundary(text.as_slice(), budget, marker.as_slice());
        reached_input_budget = true;
    }
    let prepared_chars: usize = content.len();
    PreparedDiff {
        content: string_of(content.as_slice()),
        report: DiffPreparationReport {
            original_chars,
            prepared_chars,
            input_budget_chars: budget,
            omitted_files: strings_of(&omitted_files),
            truncated_files: strings_of(&truncated_files),
            reached_input_budget,
        },
    }
}

fn incl_exec(config: &AppConfig) -> (b: bool)
    ensures
        b == config.include_lockfiles,
{
    config.include_lockfiles
}


/// A `delta <size>` line of a Git binary patch whose size, read as a `u64`,
/// is at least 100000.
pub open spec fn large_delta(line: Seq<char>) -> bool {
    "delta "@.is_prefix_of(line) && {
        let tokens = ws_tokens(line.subrange("delta "@.len() as int, line.len() as int));
        tokens.len() > 0 && match parse_unsigned(tokens[0]) {
            Some(n) => n <= u64::MAX && n >= 100000,
            None => false,
        }
    }
}

/// A line that marks binary content.
pub open spec fn binary_marker_line(line: Seq<char>) -> bool {
    line == "GIT binary patch"@ || large_delta(line)
}

/// A section is replaced when one of its lines marks binary content.
pub open spec fn should_omit(section: Seq<char>) -> bool {
    exists|i: int| 0 <= i < lines_of(section).len() && binary_marker_line(#[trigger] lines_of(section)[i])
}

/// The path a section is about, read from its first line.
pub open spec fn section_file_path(section: Seq<char>) -> Seq<char> {
    if lines_of(section).len() == 0 {
        "<unknown>"@
    } else {
        match diff_git_path(lines_of(section)[0]) {
            Some(p) => p,
            None => "<unknown>"@,
        }
    }
}

/// A section as sent: unchanged, or a one-line marker when it holds binary
/// content.
pub open spec fn sanitize_section(section: Seq<char>) -> Seq<char> {
    if section.len() == 0 || !should_omit(section) {
        section
    } else {
        "Edit file "@ + section_file_path(section) + " (large binary diff omitted)\n"@
    }
}

/// A file section with a `GIT binary patch` line, or a binary delta of at
/// least 100000 bytes, is sent as one line that names the edited file; a
/// section without such a line is sent unchanged.
pub proof fn law_binary_section_becomes_marker(section: Seq<char>, i: int)
    ensures
        (0 <= i < lines_of(section).len() && lines_of(section)[i] == "GIT binary patch"@)
            ==> sanitize_section(section) == "Edit file "@ + section_file_path(section) + " (large binary diff omitted)\n"@,
        (0 <= i < lines_of(section).len() && large_delta(lines_of(section)[i]))
            ==> sanitize_section(section) == "Edit file "@ + section_file_path(section) + " (large binary diff omitted)\n"@,
        (forall|j: int| 0 <= j < lines_of(section).len() ==> !binary_marker_line(#[trigger] lines_of(section)[j]))
            ==> sanitize_section(section) == section,
{
    if 0 <= i < lines_of(section).len() && (lines_of(section)[i] == "GIT binary patch"@ || large_delta(lines_of(section)[i])) {
        assert(binary_marker_line(lines_of(section)[i]));
        assert(should_omit(section));
        assert(section.len() > 0) by {
            if section.len() == 0 {
                assert(split_incl(section).len() == 0);
                assert(lines_of(section).len() == 0);
            }
        }
    }
}

/// The state of the sanitizer: the output so far and the file section being
/// read.
pub type SanState = (Seq<char>, Seq<char>);

pub open spec fn sanitize_step(st: SanState, line: Seq<char>) -> SanState {
    let is_header = header_prefix().is_prefix_of(line);
    let out = if is_header { st.0 + sanitize_section(st.1) } else { st.0 };
    let cur = if is_header { Seq::<char>::empty() } else { st.1 };
    if cur.len() == 0 && !is_header {
        (out + line, cur)
    } else {
        (out, cur + line)
    }
}

pub open spec fn sanitize_fold(lines: Seq<Seq<char>>) -> SanState
    decreases lines.len(),
{
    if lines.len() == 0 {
        (Seq::empty(), Seq::empty())
    } else {
        sanitize_step(sanitize_fold(lines.drop_last()), lines.last())
    }
}

/// The diff with each file section that holds binary content replaced by a
/// marker; text before the first section and other sections are kept.
pub open spec fn sanitize_diff(diff: Seq<char>) -> Seq<char> {
    let st = sanitize_fold(split_incl(diff));
    st.0 + sanitize_section(st.1)
}

fn large_binary_delta_size(line: &[char]) -> (r: Option<u64>)
    ensures
        r is Some == large_delta(line@),
{
    let prefix = chars_of("delta ");
    if !starts_with_chars(line, prefix.as_slice()) {
        return None;
    }
    let rest = slice_range(line, prefix.len(), line.len());
    let tokens = split_whitespace_chars(rest.as_slice());
    if tokens.len() == 0 {
        return None;
    }
    assert(tokens.deep_view()[0] =~= tokens[0]@);
    match parse_u64(tokens[0].as_slice()) {
        Some(size) => {
            if size >= 100000 {
                Some(size)
            } else {
                None
            }
        },
        None => None,
    }
}

fn should_omit_diff_section(section: &[char]) -> (b: bool)
    ensures
        b == should_omit(section@),
{
    let pieces = split_inclusive_lines(section);
    let marker = chars_of("GIT binary patch");
    let ghost lines = lines_of(section@);
    let mut i: usize = 0;
    while i < pieces.len()
        invariant
            i <= pieces.deep_view().len(),
            pieces.deep_view() == split_incl(section@),
            lines == lines_of(section@),
            marker@ == "GIT binary patch"@,
            forall|j: int| 0 <= j < i ==> !binary_marker_line(#[trigger] lines[j]),
        decreases pieces.len() - i,
    {
        assert(pieces.deep_view()[i as int] =~= pieces[i as int]@);
        let line = line_content_exec(pieces[i].as_slice());
        assert(line@ == lines[i as int]);
        if chars_equal(line.as_slice(), marker.as_slice()) || large_binary_delta_size(line.as_slice()).is_some() {
            return true;
        }
        i = i + 1;
    }
    false
}

fn diff_section_file_path(section: &[char]) -> (r: Vec<char>)
    ensures
        r@ == section_file_path(section@),
{
    let pieces = split_inclusive_lines(section);
    if pieces.len() == 0 {
        return chars_of("<unknown>");
    }
    assert(pieces.deep_view()[0] =~= pieces[0]@);
    let header = line_content_exec(pieces[0].as_slice());
    match parse_diff_git_path(header.as_slice()) {
        Some(p) => p,
        None => chars_of("<unknown>"),
    }
}

fn sanitize_diff_section(section: &[char]) -> (r: Vec<char>)
    ensures
        r@ == sanitize_section(section@),
{
    if section.len() == 0 || !should_omit_diff_section(section) {
        return slice_range(section, 0, section.len());
    }
    let mut r = chars_of("Edit file ");
    append_chars(&mut r, diff_section_file_path(section).as_slice());
    append_chars(&mut r, chars_of(" (large binary diff omitted)\n").as_slice());
    r
}

/// Replaces each file section that holds a Git binary patch or a large binary
/// delta by a one-line marker.
#[verifier::rlimit(30)]
pub fn sanitize_diff_for_llm(diff: &str) -> (r: String)
    ensures
        r@ == sanitize_diff(diff@),
{
    let text = chars_of(diff);
    let lines = split_inclusive_lines(text.as_slice());
    let header = chars_of("diff --git ");
    let mut sanitized: Vec<char> = Vec::new();
    let mut current: Vec<char> = Vec::new();
    let mut i: usize = 0;
    while i < lines.len()
        invariant
            i <= lines.deep_view().len(),
            lines.deep_view() == split_incl(diff@),
            header@ == header_prefix(),
            sanitize_fold(lines.deep_view().subrange(0, i as int)) == (sanitized@, current@),
        decreases lines.len() - i,
    {
        let line = &lines[i];
        assert(lines.deep_view()[i as int] =~= line@);
        assert(lines.deep_view().subrange(0, i + 1).drop_last() == lines.deep_view().subrange(0, i as int));
        let is_header = starts_with_chars(line.as_slice(), header.as_slice());
        if is_header {
            let done = sanitize_diff_section(current.as_slice());
            append_chars(&mut sanitized, done.as_slice());
            current = Vec::new();
        }
        if current.len() == 0 && !is_header {
            append_chars(&mut sanitized, line.as_slice());
        } else {
            append_chars(&mut current, line.as_slice());
        }
        i = i + 1;
    }
    assert(lines.deep_view().subrange(0, lines.deep_view().len() as int) == lines.deep_view());
    let last = sanitize_diff_section(current.as_slice());
    append_chars(&mut sanitized, last.as_slice());
    string_of(sanitized.as_slice())
}


impl DiffPreparationReport {
    /// Whether the diff was changed to fit the request.
    pub open spec fn summarized(&self) -> bool {
        self.original_chars != self.prepared_chars || self.omitted_files@.len() > 0
            || self.truncated_files@.len() > 0 || self.reached_input_budget
    }

    pub fn was_summarized(&self) -> (b: bool)
        ensures
            b == self.summarized(),
    {
        self.original_chars != self.prepared_chars || self.omitted_files.len() > 0
            || self.truncated_files.len() > 0 || self.reached_input_budget
    }
}

/// At most five items joined by `, `, followed by `, ... and N more` when
/// there are more.
pub open spec fn report_items_summary(items: Seq<Seq<char>>) -> Seq<char> {
    if items.len() <= 5 {
        join_with(items, seq![',', ' '])
    } else {
        join_with(items.subrange(0, 5), seq![',', ' ']) + ", ... and "@ + decimal((items.len() - 5) as nat)
            + " more"@
    }
}

pub fn summarize_report_items(items: &Vec<String>) -> (r: String)
    ensures
        r@ == report_items_summary(items.deep_view()),
{
    let list = chars_list(items);
    let sep = vec![',', ' '];
    let n: usize = list.len();
    let shown: usize = if n > 5 { 5 } else { n };
    let mut summary = join_chars(&list, shown, sep.as_slice());
    assert(list.deep_view().subrange(0, n as int) == list.deep_view());
    if n > 5 {
        append_chars(&mut summary, chars_of(", ... and ").as_slice());
        push_decimal(&mut summary, n - 5);
        append_chars(&mut summary, chars_of(" more").as_slice());
    }
    string_of(summary.as_slice())
}

/// The lines that report how a diff was summarized; none when it was not.
pub open spec fn report_lines(r: DiffPreparationReport) -> Seq<Seq<char>> {
    if !r.summarized() {
        Seq::empty()
    } else {
        let first = "Diff input summarized: "@ + decimal(r.original_chars as nat) + " chars -> "@
            + decimal(r.prepared_chars as nat) + " chars (budget: "@ + decimal(r.input_budget_chars as nat)
            + " chars)."@;
        let truncated = r.truncated_files.deep_view();
        let omitted = r.omitted_files.deep_view();
        let l1 = seq![first];
        let l2 = if truncated.len() > 0 {
            l1.push("Truncated "@ + decimal(truncated.len()) + " large diff section(s): "@
                + report_items_summary(truncated))
        } else {
            l1
        };
        let l3 = if omitted.len() > 0 {
            l2.push("Omitted "@ + decimal(omitted.len()) + " diff section(s): "@ + report_items_summary(omitted))
        } else {
            l2
        };
        if r.reached_input_budget {
            l3.push("Input budget was exhausted before all diff sections were included."@)
        } else {
            l3
        }
    }
}

/// The report lines for a prepared diff, to be shown before the request.
pub fn diff_preparation_report_lines(report: &DiffPreparationReport) -> (lines: Vec<String>)
    ensures
        lines.deep_view() == report_lines(*report),
{
    let mut lines: Vec<String> = Vec::new();
    if !report.was_summarized() {
        assert(lines.deep_view() =~~= report_lines(*report));
        return lines;
    }
    let mut first = chars_of("Diff input summarized: ");
    push_decimal(&mut first, report.original_chars);
    append_chars(&mut first, chars_of(" chars -> ").as_slice());
    push_decimal(&mut first, report.prepared_chars);
    append_chars(&mut first, chars_of(" chars (budget: ").as_slice());
    push_decimal(&mut first, report.input_budget_chars);
    append_chars(&mut first, chars_of(" chars).").as_slice());
    let ghost mut l = seq![first@];
    lines.push(string_of(first.as_slice()));
    assert(lines.deep_view() =~~= l);
    if report.truncated_files.len() > 0 {
        let mut line = chars_of("Truncated ");
        push_decimal(&mut line, report.truncated_files.len());
        append_chars(&mut line, chars_of(" large diff section(s): ").as_slice());
        append_chars(&mut line, chars_of(summarize_report_items(&report.truncated_files).as_str()).as_slice());
        proof { l = l.push(line@); }
        lines.push(string_of(line.as_slice()));
        assert(lines.deep_view() =~~= l);
    }
    if report.omitted_files.len() > 0 {
        let mut line = chars_of("Omitted ");
        push_decimal(&mut line, report.omitted_files.len());
        append_chars(&mut line, chars_of(" diff section(s): ").as_slice());
        append_chars(&mut line, chars_of(summarize_report_items(&report.omitted_files).as_str()).as_slice());
        proof { l = l.push(line@); }
        lines.push(string_of(line.as_slice()));
        assert(lines.deep_view() =~~= l);
    }
    if report.reached_input_budget {
        let line = chars_of("Input budget was exhausted before all diff sections were included.");
        proof { l = l.push(line@); }
        lines.push(string_of(line.as_slice()));
        assert(lines.deep_view() =~~= l);
    }
    lines
}


proof fn lemma_prep_fold_budget(
    parts: Seq<(Option<Seq<char>>, Seq<char>)>,
    budget: nat,
    max_file: nat,
    include_lockfiles: bool,
    ignore: Seq<Seq<char>>,
)
    ensures
        ({
            let st = prep_fold(parts, budget, max_file, include_lockfiles, ignore);
            st.0.len() + st.1 == budget
        }),
    decreases parts.len(),
{
    if parts.len() > 0 {
        lemma_prep_fold_budget(parts.drop_last(), budget, max_file, include_lockfiles, ignore);
    }
}

/// The prepared diff is never longer than the input budget, and the input
/// budget stays below the chat message limit.
pub proof fn law_prepared_diff_fits_budget(
    diff: Seq<char>,
    max_input_chars: nat,
    max_file_chars: nat,
    include_lockfiles: bool,
    ignore: Seq<Seq<char>>,
)
    ensures
        prepared_diff(diff, max_input_chars, max_file_chars, include_lockfiles, ignore).0.len()
            <= input_budget(max_input_chars),
        input_budget(max_input_chars) < CHAT_MESSAGE_CHAR_LIMIT,
{
    let budget = input_budget(max_input_chars);
    lemma_prep_fold_budget(split_parts(diff), budget, file_budget(max_file_chars, budget), include_lockfiles, ignore);
    lemma_truncate_len(diff, budget, "\n[diff omitted: input budget exhausted]\n"@);
}


/// The prepared forms of the sections that are not blank, in order.
pub open spec fn prepared_texts(
    parts: Seq<(Option<Seq<char>>, Seq<char>)>,
    max_file: nat,
    include_lockfiles: bool,
    ignore: Seq<Seq<char>>,
) -> Seq<Seq<char>>
    decreases parts.len(),
{
    if parts.len() == 0 {
        Seq::empty()
    } else {
        let prev = prepared_texts(parts.drop_last(), max_file, include_lockfiles, ignore);
        let t = prepare_part(parts.last().0, parts.last().1, max_file, include_lockfiles, ignore).0;
        if trim(t).len() == 0 { prev } else { prev.push(t) }
    }
}

/// Sections joined by a blank line.
pub open spec fn joined_sections(ps: Seq<Seq<char>>) -> Seq<char> {
    join_with(ps, seq!['\n', '\n'])
}

/// How many sections fit: the longest prefix of `ps` whose joined text is
/// within the budget.
pub open spec fn sections_that_fit(ps: Seq<Seq<char>>, budget: nat) -> nat
    decreases ps.len(),
{
    if ps.len() == 0 {
        0
    } else {
        let k = sections_that_fit(ps.drop_last(), budget);
        if k == ps.len() - 1 && joined_sections(ps).len() <= budget { ps.len() } else { k }
    }
}

proof fn lemma_joined_push(ps: Seq<Seq<char>>, t: Seq<char>)
    ensures
        joined_sections(ps.push(t)) == if ps.len() == 0 { t } else { joined_sections(ps) + seq!['\n', '\n'] + t },
{
    assert(ps.push(t).drop_last() =~= ps);
    if ps.len() == 0 {
        assert(ps.push(t).len() == 1);
    }
}

proof fn lemma_joined_nonempty(ps: Seq<Seq<char>>)
    requires
        forall|i: int| 0 <= i < ps.len() ==> #[trigger] ps[i].len() > 0,
    ensures
        joined_sections(ps).len() == 0 <==> ps.len() == 0,
        ps.len() > 0 ==> joined_sections(ps).len() >= ps.last().len(),
{
    if ps.len() > 1 {
        assert(ps[ps.len() - 1].len() > 0);
    } else if ps.len() == 1 {
        assert(ps[0].len() > 0);
    }
}

/// Joined prefixes grow with their length.
proof fn lemma_joined_prefix_grows(ps: Seq<Seq<char>>, i: int, j: int)
    requires
        0 <= i <= j <= ps.len(),
        forall|q: int| 0 <= q < ps.len() ==> #[trigger] ps[q].len() > 0,
    ensures
        joined_sections(ps.subrange(0, i)).len() <= joined_sections(ps.subrange(0, j)).len(),
        i < j ==> joined_sections(ps.subrange(0, i)).len() < joined_sections(ps.subrange(0, j)).len(),
    decreases j - i,
{
    if i < j {
        lemma_joined_prefix_grows(ps, i, j - 1);
        let p = ps.subrange(0, j - 1);
        assert(ps.subrange(0, j) =~= p.push(ps[j - 1]));
        lemma_joined_push(p, ps[j - 1]);
    }
}

proof fn lemma_prepared_texts_nonblank(
    parts: Seq<(Option<Seq<char>>, Seq<char>)>,
    max_file: nat,
    include_lockfiles: bool,
    ignore: Seq<Seq<char>>,
)
    ensures
        forall|i: int| 0 <= i < prepared_texts(parts, max_file, include_lockfiles, ignore).len()
            ==> (#[trigger] prepared_texts(parts, max_file, include_lockfiles, ignore)[i]).len() > 0
                && trim(prepared_texts(parts, max_file, include_lockfiles, ignore)[i]).len() > 0,
    decreases parts.len(),
{
    if parts.len() > 0 {
        lemma_prepared_texts_nonblank(parts.drop_last(), max_file, include_lockfiles, ignore);
        let prev = prepared_texts(parts.drop_last(), max_file, include_lockfiles, ignore);
        let t = prepare_part(parts.last().0, parts.last().1, max_file, include_lockfiles, ignore).0;
        if trim(t).len() > 0 {
            let r = prev.push(t);
            assert forall|i: int| 0 <= i < r.len() implies (#[trigger] r[i]).len() > 0 && trim(r[i]).len() > 0 by {
                if i < prev.len() {
                    assert(r[i] == prev[i]);
                } else if t.len() == 0 {
                    assert(trim(t) =~= t);
                }
            }
        }
    }
}

proof fn lemma_prep_fold_prefix(
    parts: Seq<(Option<Seq<char>>, Seq<char>)>,
    budget: nat,
    max_file: nat,
    include_lockfiles: bool,
    ignore: Seq<Seq<char>>,
)
    ensures
        ({
            let st = prep_fold(parts, budget, max_file, include_lockfiles, ignore);
            let ps = prepared_texts(parts, max_file, include_lockfiles, ignore);
            let k = sections_that_fit(ps, budget);
            &&& !st.5 ==> k == ps.len() && st.0 == joined_sections(ps) && !st.4
                && joined_sections(ps).len() <= budget
            &&& st.5 ==> k < ps.len() && st.0 == joined_sections(ps.subrange(0, k as int)) && st.4
        }),
    decreases parts.len(),
{
    lemma_prep_fold_budget(parts, budget, max_file, include_lockfiles, ignore);
    lemma_prepared_texts_nonblank(parts, max_file, include_lockfiles, ignore);
    if parts.len() == 0 {
        assert(joined_sections(Seq::<Seq<char>>::empty()) =~= Seq::<char>::empty());
    } else {
        let init = parts.drop_last();
        lemma_prep_fold_prefix(init, budget, max_file, include_lockfiles, ignore);
        lemma_prep_fold_budget(init, budget, max_file, include_lockfiles, ignore);
        lemma_prepared_texts_nonblank(init, max_file, include_lockfiles, ignore);
        let st = prep_fold(init, budget, max_file, include_lockfiles, ignore);
        let ps = prepared_texts(init, max_file, include_lockfiles, ignore);
        let k = sections_that_fit(ps, budget);
        let t = prepare_part(parts.last().0, parts.last().1, max_file, include_lockfiles, ignore).0;
        lemma_joined_nonempty(ps);
        if trim(t).len() > 0 {
            let ps2 = ps.push(t);
            assert(ps2.drop_last() =~= ps);
            lemma_joined_push(ps, t);
            if st.5 {
                assert(ps2.subrange(0, k as int) =~= ps.subrange(0, k as int));
            } else {
                assert(ps2.subrange(0, ps.len() as int) =~= ps);
            }
        }
    }
}

/// The prepared diff keeps the longest run of leading sections that fits
/// the input budget: with `ps` the prepared forms of the sections that are
/// not blank (a marker for a section left out by policy, the section, or
/// the section cut to the per-file budget) and `k` how many of them fit when
/// joined by blank lines, the content is the first `k` joined, and the
/// budget is reported as reached exactly when some were left out. When not
/// even the first fits and the diff is not blank, the diff itself is cut to
/// the budget.
pub proof fn law_prepared_diff_keeps_fitting_prefix(
    diff: Seq<char>,
    max_input_chars: nat,
    max_file_chars: nat,
    include_lockfiles: bool,
    ignore: Seq<Seq<char>>,
)
    ensures
        ({
            let b = input_budget(max_input_chars);
            let m = file_budget(max_file_chars, b);
            let ps = prepared_texts(split_parts(diff), m, include_lockfiles, ignore);
            let k = sections_that_fit(ps, b);
            let r = prepared_diff(diff, max_input_chars, max_file_chars, include_lockfiles, ignore);
            &&& k <= ps.len()
            &&& joined_sections(ps.subrange(0, k as int)).len() <= b
            &&& forall|j: int| k < j <= ps.len() ==> #[trigger] joined_sections(ps.subrange(0, j)).len() > b
            &&& k > 0 ==> r.0 == joined_sections(ps.subrange(0, k as int)) && (r.4 <==> k < ps.len())
            &&& k == 0 && trim(diff).len() > 0 ==> r.4
                && r.0 == truncate_text(diff, b, "\n[diff omitted: input budget exhausted]\n"@)
            &&& k == 0 && trim(diff).len() == 0 ==> r.0.len() == 0
        }),
{
    let b = input_budget(max_input_chars);
    let m = file_budget(max_file_chars, b);
    let parts = split_parts(diff);
    let ps = prepared_texts(parts, m, include_lockfiles, ignore);
    let k = sections_that_fit(ps, b);
    let st = prep_fold(parts, b, m, include_lockfiles, ignore);
    lemma_prep_fold_prefix(parts, b, m, include_lockfiles, ignore);
    lemma_prepared_texts_nonblank(parts, m, include_lockfiles, ignore);
    if !st.5 {
        assert(ps.subrange(0, k as int) =~= ps);
    } else {
        let ps_k1 = ps.subrange(0, (k + 1) as int);
        assert(ps_k1.drop_last() =~= ps.subrange(0, k as int));
        lemma_fit_count_stops(ps, b);
        assert forall|j: int| k < j <= ps.len() implies #[trigger] joined_sections(ps.subrange(0, j)).len() > b by {
            lemma_joined_prefix_grows(ps, (k + 1) as int, j);
        }
    }
    let sub = ps.subrange(0, k as int);
    assert forall|q: int| 0 <= q < sub.len() implies #[trigger] sub[q].len() > 0 by {
        assert(sub[q] == ps[q]);
    }
    lemma_joined_nonempty(sub);
    if k > 0 {
        assert(sub.last() == ps[k - 1]);
        lemma_trim_nonempty_sections(sub);
    } else {
        assert(sub =~= Seq::<Seq<char>>::empty());
        assert(st.0.len() == 0);
        assert(trim(st.0) =~= st.0);
    }
}

/// Where `sections_that_fit` stops short, the next prefix is over budget.
proof fn lemma_fit_count_stops(ps: Seq<Seq<char>>, budget: nat)
    ensures
        sections_that_fit(ps, budget) <= ps.len(),
        joined_sections(ps.subrange(0, sections_that_fit(ps, budget) as int)).len() <= budget,
        sections_that_fit(ps, budget) < ps.len() ==>
            joined_sections(ps.subrange(0, (sections_that_fit(ps, budget) + 1) as int)).len() > budget,
    decreases ps.len(),
{
    if ps.len() == 0 {
        assert(ps.subrange(0, 0) =~= Seq::<Seq<char>>::empty());
        assert(joined_sections(Seq::<Seq<char>>::empty()) =~= Seq::<char>::empty());
    } else {
        let p = ps.drop_last();
        lemma_fit_count_stops(p, budget);
        let k = sections_that_fit(p, budget);
        assert(ps.subrange(0, k as int) =~= p.subrange(0, k as int));
        if k < p.len() {
            assert(ps.subrange(0, (k + 1) as int) =~= p.subrange(0, (k + 1) as int));
        } else {
            assert(p.subrange(0, k as int) =~= p);
            assert(ps.subrange(0, ps.len() as int) =~= ps);
        }
    }
}

/// Joined non-blank sections are not blank.
proof fn lemma_trim_nonempty_sections(ps: Seq<Seq<char>>)
    requires
        ps.len() > 0,
        trim(ps.last()).len() > 0,
    ensures
        trim(joined_sections(ps)).len() > 0,
{
    let last = ps.last();
    let j = lemma_nonblank_has_visible(last);
    let pre = if ps.len() == 1 { Seq::<char>::empty() } else { joined_sections(ps.drop_last()) + seq!['\n', '\n'] };
    assert(joined_sections(ps) =~= pre + last);
    assert((pre + last)[pre.len() + j] == last[j]);
    lemma_visible_char(joined_sections(ps), pre.len() + j);
}

/// Line `i` of `lines` lies in a file section: a section header stands at
/// or before it.
pub open spec fn in_section(lines: Seq<Seq<char>>, i: int) -> bool {
    exists|j: int| 0 <= j <= i && header_prefix().is_prefix_of(#[trigger] lines[j])
}

/// No line of any file section marks binary content; text before the
/// first section may.
pub open spec fn no_binary_markers_in_sections(diff: Seq<char>) -> bool {
    let lines = split_incl(diff);
    forall|i: int| 0 <= i < lines.len() && in_section(lines, i)
        ==> !binary_marker_line(crate::text::line_content(#[trigger] lines[i]))
}

proof fn lemma_run_not_omitted(diff: Seq<char>, a: int, b: int)
    requires
        no_binary_markers_in_sections(diff),
        0 <= a <= b <= split_incl(diff).len(),
        a < b ==> header_prefix().is_prefix_of(split_incl(diff)[a]),
    ensures
        !should_omit(split_incl(diff).subrange(a, b).flatten()),
{
    let lines = split_incl(diff);
    let run = lines.subrange(a, b);
    lemma_split_incl_wf(diff);
    lemma_incl_lines_wf_subrange(lines, a, b);
    lemma_split_incl_flatten(run);
    let sec = run.flatten();
    assert forall|i: int| 0 <= i < lines_of(sec).len() implies !binary_marker_line(#[trigger] lines_of(sec)[i]) by {
        assert(lines_of(sec)[i] == crate::text::line_content(run[i]));
        assert(run[i] == lines[a + i]);
        assert(header_prefix().is_prefix_of(lines[a]));
        assert(in_section(lines, a + i));
    }
}

proof fn lemma_sanitize_prefix(diff: Seq<char>, k: int) -> (j: int)
    requires
        no_binary_markers_in_sections(diff),
        0 <= k <= split_incl(diff).len(),
    ensures
        0 <= j <= k,
        j < k ==> header_prefix().is_prefix_of(split_incl(diff)[j]),
        ({
            let lines = split_incl(diff);
            let st = sanitize_fold(lines.subrange(0, k));
            &&& st.0 + st.1 == lines.subrange(0, k).flatten()
            &&& st.1 == lines.subrange(j, k).flatten()
        }),
    decreases k,
{
    let lines = split_incl(diff);
    if k == 0 {
        assert(lines.subrange(0, 0) == Seq::<Seq<char>>::empty());
        assert(lines.subrange(0, 0).flatten() == Seq::<char>::empty());
        0
    } else {
        let j0 = lemma_sanitize_prefix(diff, k - 1);
        let pre = lines.subrange(0, k - 1);
        let line = lines[k - 1];
        assert(lines.subrange(0, k).drop_last() == pre);
        assert(lines.subrange(0, k).last() == line);
        assert(pre.push(line) == lines.subrange(0, k));
        pre.lemma_flatten_push(line);
        let st = sanitize_fold(pre);
        lemma_run_not_omitted(diff, j0, k - 1);
        assert(sanitize_section(st.1) == st.1);
        let run = lines.subrange(j0, k - 1);
        assert(run.push(line) == lines.subrange(j0, k));
        run.lemma_flatten_push(line);
        if header_prefix().is_prefix_of(line) {
            assert(lines.subrange(k - 1, k) == seq![line]);
            seq![line].lemma_flatten_one_element();
            k - 1
        } else if st.1.len() == 0 {
            assert(lines.subrange(k, k) == Seq::<Seq<char>>::empty());
            assert(lines.subrange(k, k).flatten() == Seq::<char>::empty());
            k
        } else {
            if j0 == k - 1 {
                assert(lines.subrange(j0, k - 1) == Seq::<Seq<char>>::empty());
                assert(lines.subrange(j0, k - 1).flatten() == Seq::<char>::empty());
            }
            j0
        }
    }
}

/// A diff whose file sections hold no binary content is sent unchanged;
/// text before the first section is kept whatever it holds.
pub proof fn law_sanitize_keeps_text_diffs(diff: Seq<char>)
    requires
        no_binary_markers_in_sections(diff),
    ensures
        sanitize_diff(diff) == diff,
{
    let lines = split_incl(diff);
    let j = lemma_sanitize_prefix(diff, lines.len() as int);
    assert(lines.subrange(0, lines.len() as int) == lines);
    lemma_run_not_omitted(diff, j, lines.len() as int);
    lemma_split_incl_wf(diff);
}


/// The texts of a list of sections.
pub open spec fn part_texts(parts: Seq<(Option<Seq<char>>, Seq<char>)>) -> Seq<Seq<char>> {
    parts.map_values(|p: (Option<Seq<char>>, Seq<char>)| p.1)
}

proof fn lemma_split_fold_texts(lines: Seq<Seq<char>>)
    ensures
        part_texts(split_fold(lines).0).flatten() + split_fold(lines).1 == lines.flatten(),
    decreases lines.len(),
{
    if lines.len() > 0 {
        let init = lines.drop_last();
        let line = lines.last();
        lemma_split_fold_texts(init);
        assert(init.push(line) == lines);
        init.lemma_flatten_push(line);
        let st = split_fold(init);
        if starts_part(line) && st.1.len() > 0 {
            let np = st.0.push((st.2, st.1));
            assert(part_texts(np) == part_texts(st.0).push(st.1));
            part_texts(st.0).lemma_flatten_push(st.1);
        }
    }
}

/// Splitting a diff into per-file sections loses and adds nothing: the
/// sections' texts, in order, make up the diff.
pub proof fn law_split_parts_cover_diff(diff: Seq<char>)
    ensures
        part_texts(split_parts(diff)).flatten() == diff,
{
    let lines = split_incl(diff);
    lemma_split_fold_texts(lines);
    lemma_split_incl_wf(diff);
    let st = split_fold(lines);
    if st.1.len() > 0 {
        let np = st.0.push((st.2, st.1));
        assert(part_texts(np) == part_texts(st.0).push(st.1));
        part_texts(st.0).lemma_flatten_push(st.1);
    }
}

/// What the splitter keeps true as it reads lines: finished sections are
/// not empty, each but the first starts with a section header, and once a
/// section is finished the one being read starts with a header too.
pub open spec fn split_state_ok(st: SplitState) -> bool {
    &&& forall|k: int| 0 <= k < st.0.len() ==> (#[trigger] st.0[k]).1.len() > 0
    &&& forall|k: int| 0 < k < st.0.len() ==> starts_part((#[trigger] st.0[k]).1)
    &&& st.0.len() > 0 ==> st.1.len() > 0 && starts_part(st.1)
}

proof fn lemma_starts_part_extends(a: Seq<char>, b: Seq<char>)
    requires
        starts_part(a),
    ensures
        starts_part(a + b),
{
    if header_prefix().is_prefix_of(a) {
        assert((a + b).subrange(0, header_prefix().len() as int) == a.subrange(0, header_prefix().len() as int));
    } else {
        assert((a + b).subrange(0, untracked_prefix().len() as int) == a.subrange(0, untracked_prefix().len() as int));
    }
}

proof fn lemma_split_fold_ok(lines: Seq<Seq<char>>)
    requires
        forall|i: int| 0 <= i < lines.len() ==> #[trigger] lines[i].len() > 0,
    ensures
        split_state_ok(split_fold(lines)),
    decreases lines.len(),
{
    if lines.len() > 0 {
        let init = lines.drop_last();
        assert forall|i: int| 0 <= i < init.len() implies #[trigger] init[i].len() > 0 by {
            assert(init[i] == lines[i]);
        }
        lemma_split_fold_ok(init);
        let st = split_fold(init);
        let line = lines.last();
        assert(line == lines[lines.len() - 1]);
        let next = split_step(st, line);
        if starts_part(line) {
            if st.1.len() > 0 {
                let np = st.0.push((st.2, st.1));
                assert forall|k: int| 0 <= k < np.len() implies (#[trigger] np[k]).1.len() > 0 by {
                    if k < st.0.len() {
                        assert(np[k] == st.0[k]);
                    }
                }
                assert forall|k: int| 0 < k < np.len() implies starts_part((#[trigger] np[k]).1) by {
                    if k < st.0.len() {
                        assert(np[k] == st.0[k]);
                    }
                }
            } else {
                assert(st.1 + line =~= line);
            }
        } else if st.0.len() > 0 {
            lemma_starts_part_extends(st.1, line);
        }
    }
}

/// Every section of a split diff has text, and every section but the first
/// starts with a `diff --git ` or `Untracked file: ` line; the first starts
/// with one too unless the diff begins with other text.
pub proof fn law_split_parts_are_sections(diff: Seq<char>)
    ensures
        forall|k: int| 0 <= k < split_parts(diff).len() ==> (#[trigger] split_parts(diff)[k]).1.len() > 0,
        forall|k: int| 0 < k < split_parts(diff).len() ==> starts_part((#[trigger] split_parts(diff)[k]).1),
{
    let lines = split_incl(diff);
    lemma_split_incl_wf(diff);
    lemma_split_fold_ok(lines);
    let st = split_fold(lines);
    if st.1.len() > 0 {
        let np = st.0.push((st.2, st.1));
        assert forall|k: int| 0 <= k < np.len() implies (#[trigger] np[k]).1.len() > 0 by {
            if k < st.0.len() {
                assert(np[k] == st.0[k]);
            }
        }
        assert forall|k: int| 0 < k < np.len() implies starts_part((#[trigger] np[k]).1) by {
            if k < st.0.len() {
                assert(np[k] == st.0[k]);
            }
        }
    }
}

/// Where the sections of `lines` lie, as the splitter finds them: the line
/// ranges of the finished sections, and the first line of the section being
/// read.
pub open spec fn bounds_fold(lines: Seq<Seq<char>>) -> (Seq<(int, int)>, int)
    decreases lines.len(),
{
    if lines.len() == 0 {
        (Seq::empty(), 0)
    } else {
        let prev = bounds_fold(lines.drop_last());
        let n = lines.len() - 1;
        if starts_part(lines.last()) && prev.1 < n {
            (prev.0.push((prev.1, n)), n)
        } else {
            prev
        }
    }
}

/// The line range, within `split_incl(diff)`, of each section of a split
/// diff.
pub open spec fn part_bounds(diff: Seq<char>) -> Seq<(int, int)> {
    let lines = split_incl(diff);
    let b = bounds_fold(lines);
    if b.1 < lines.len() {
        b.0.push((b.1, lines.len() as int))
    } else {
        b.0
    }
}

/// `part` is the section made of `lines[a..b]`: only its first line may
/// start a section, and its path is read from that line; a section that
/// does not start with a header is the first one, at the top, with no path.
pub open spec fn part_in_lines(lines: Seq<Seq<char>>, part: (Option<Seq<char>>, Seq<char>), a: int, b: int, first: bool) -> bool {
    &&& 0 <= a < b <= lines.len()
    &&& part.1 == lines.subrange(a, b).flatten()
    &&& forall|i: int| a < i < b ==> !starts_part(#[trigger] lines[i])
    &&& if starts_part(lines[a]) {
        part.0 == part_path(lines[a])
    } else {
        first && a == 0 && part.0 is None
    }
}

spec fn split_inv(lines: Seq<Seq<char>>, n: int) -> bool {
    let st = split_fold(lines.subrange(0, n));
    let bs = bounds_fold(lines.subrange(0, n));
    let rs = bs.0;
    let c = bs.1;
    &&& rs.len() == st.0.len()
    &&& forall|k: int| 0 <= k < rs.len() ==> part_in_lines(lines, #[trigger] st.0[k], rs[k].0, rs[k].1, k == 0)
    &&& rs.len() > 0 ==> rs[0].0 == 0
    &&& rs.len() == 0 ==> c == 0
    &&& forall|k: int| #![trigger rs[k]] 0 <= k < rs.len() - 1 ==> rs[k].1 == rs[k + 1].0
    &&& rs.len() > 0 ==> rs[rs.len() - 1].1 == c
    &&& 0 <= c <= n
    &&& st.1 == lines.subrange(c, n).flatten()
    &&& c == n ==> n == 0 && rs.len() == 0 && st.2 is None
    &&& c < n ==> (forall|i: int| c < i < n ==> !starts_part(#[trigger] lines[i]))
    &&& c < n ==> if starts_part(lines[c]) {
        st.2 == part_path(lines[c])
    } else {
        rs.len() == 0 && c == 0 && st.2 is None
    }
}

proof fn lemma_flatten_first_len(s: Seq<Seq<char>>)
    requires
        s.len() > 0,
    ensures
        s.flatten().len() >= s[0].len(),
{
    assert(s.flatten() == s[0] + s.drop_first().flatten());
}

proof fn lemma_split_inv(lines: Seq<Seq<char>>, n: int)
    requires
        0 <= n <= lines.len(),
        forall|i: int| 0 <= i < lines.len() ==> #[trigger] lines[i].len() > 0,
    ensures
        split_inv(lines, n),
    decreases n,
{
    if n == 0 {
        assert(lines.subrange(0, 0) =~= Seq::<Seq<char>>::empty());
        assert(lines.subrange(0, 0).flatten() =~= Seq::<char>::empty());
    } else {
        let m = n - 1;
        lemma_split_inv(lines, m);
        let pre = lines.subrange(0, m);
        let now = lines.subrange(0, n);
        assert(now.drop_last() =~= pre);
        assert(now.last() == lines[m]);
        let line = lines[m];
        let st = split_fold(pre);
        let bs = bounds_fold(pre);
        let rs = bs.0;
        let c = bs.1;
        let st2 = split_fold(now);
        let bs2 = bounds_fold(now);
        assert(st2 == split_step(st, line));
        let run = lines.subrange(c, m);
        assert(run.push(line) =~= lines.subrange(c, n));
        run.lemma_flatten_push(line);
        if c < m {
            assert(lines.subrange(c, m)[0] == lines[c]);
            lemma_flatten_first_len(lines.subrange(c, m));
            assert(st.1.len() > 0);
        }
        assert(lines.subrange(m, n) =~= seq![line]);
        seq![line].lemma_flatten_one_element();
        if starts_part(line) && c < m {
            let np = st.0.push((st.2, st.1));
            assert(st2.0 == np);
            assert(bs2 == (rs.push((c, m)), m));
            assert forall|k: int| 0 <= k < np.len() implies part_in_lines(lines, #[trigger] np[k], rs.push((c, m))[k].0, rs.push((c, m))[k].1, k == 0) by {
                if k < rs.len() {
                    assert(np[k] == st.0[k]);
                    assert(rs.push((c, m))[k] == rs[k]);
                } else {
                    assert(np[k] == (st.2, st.1));
                    assert(rs.push((c, m))[k] == (c, m));
                }
            }
            let rs2 = rs.push((c, m));
            assert forall|k: int| #![trigger rs2[k]] 0 <= k < rs2.len() - 1 implies rs2[k].1 == rs2[k + 1].0 by {
                if k < rs.len() - 1 {
                    assert(rs2[k] == rs[k]);
                    assert(rs2[k + 1] == rs[k + 1]);
                } else {
                    assert(rs2[k] == rs[rs.len() - 1]);
                }
            }
        } else if starts_part(line) {
            assert(c == m);
            assert(st.1 =~= Seq::<char>::empty());
            assert(st.1 + line =~= line);
        } else {
            assert(bs2 == bs);
        }
    }
}

/// The sections of a split diff cut its lines into consecutive runs: each
/// section is the text of its run, no line after the first of a run starts
/// a section, a section's path is read from its first line, and a section
/// that does not start with a `diff --git ` or `Untracked file: ` line is
/// the first one and has no path.
pub proof fn law_split_parts_follow_headers(diff: Seq<char>)
    ensures
        ({
            let lines = split_incl(diff);
            let parts = split_parts(diff);
            let bs = part_bounds(diff);
            &&& bs.len() == parts.len()
            &&& forall|k: int| 0 <= k < parts.len() ==> part_in_lines(lines, #[trigger] parts[k], bs[k].0, bs[k].1, k == 0)
            &&& parts.len() > 0 ==> bs[0].0 == 0 && bs[bs.len() - 1].1 == lines.len()
            &&& forall|k: int| #![trigger bs[k]] 0 <= k < bs.len() - 1 ==> bs[k].1 == bs[k + 1].0
        }),
{
    let lines = split_incl(diff);
    lemma_split_incl_wf(diff);
    let n = lines.len() as int;
    lemma_split_inv(lines, n);
    assert(lines.subrange(0, n) =~= lines);
    let st = split_fold(lines);
    let b = bounds_fold(lines);
    let rs = b.0;
    let c = b.1;
    assert(split_parts(diff) == if st.1.len() > 0 { st.0.push((st.2, st.1)) } else { st.0 });
    assert(part_bounds(diff) == if c < n { rs.push((c, n)) } else { rs });
    if c < n {
        assert(lines.subrange(c, n)[0] == lines[c]);
        lemma_flatten_first_len(lines.subrange(c, n));
        let parts = st.0.push((st.2, st.1));
        let bs = rs.push((c, n));
        assert forall|k: int| 0 <= k < parts.len() implies part_in_lines(lines, #[trigger] parts[k], bs[k].0, bs[k].1, k == 0) by {
            if k < rs.len() {
                assert(parts[k] == st.0[k]);
                assert(bs[k] == rs[k]);
            } else {
                assert(parts[k] == (st.2, st.1));
                assert(bs[k] == (c, n));
            }
        }
        assert forall|k: int| #![trigger bs[k]] 0 <= k < bs.len() - 1 implies bs[k].1 == bs[k + 1].0 by {
            if k < rs.len() - 1 {
                assert(bs[k] == rs[k]);
                assert(bs[k + 1] == rs[k + 1]);
            } else {
                assert(bs[k] == rs[rs.len() - 1]);
            }
        }
    } else {
        assert(st.1 =~= Seq::<char>::empty());
    }
}

} // verus!
