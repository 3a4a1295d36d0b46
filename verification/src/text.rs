//! Character-level text operations used across the crate, each with the
//! meaning of the corresponding `str` method stated over `Seq<char>`.

use vstd::prelude::*;

verus! {

/// The Unicode `White_Space` property, which `char::is_whitespace` tests.
pub open spec fn is_ws(c: char) -> bool {
    let u = c as u32;
    (0x9 <= u && u <= 0xd) || u == 0x20 || u == 0x85 || u == 0xa0 || u == 0x1680
        || (0x2000 <= u && u <= 0x200a) || u == 0x2028 || u == 0x2029 || u == 0x202f
        || u == 0x205f || u == 0x3000
}

pub fn is_whitespace(c: char) -> (b: bool)
    ensures
        b == is_ws(c),
{
    let u: u32 = c as u32;
    (0x9 <= u && u <= 0xd) || u == 0x20 || u == 0x85 || u == 0xa0 || u == 0x1680
        || (0x2000 <= u && u <= 0x200a) || u == 0x2028 || u == 0x2029 || u == 0x202f
        || u == 0x205f || u == 0x3000
}

/// `str::trim_start`.
pub open spec fn trim_start(s: Seq<char>) -> Seq<char>
    decreases s.len(),
{
    if s.len() > 0 && is_ws(s[0]) {
        trim_start(s.drop_first())
    } else {
        s
    }
}

/// `str::trim_end`.
pub open spec fn trim_end(s: Seq<char>) -> Seq<char>
    decreases s.len(),
{
    if s.len() > 0 && is_ws(s.last()) {
        trim_end(s.drop_last())
    } else {
        s
    }
}

/// `str::trim`.
pub open spec fn trim(s: Seq<char>) -> Seq<char> {
    trim_end(trim_start(s))
}

/// What `trim_start` leaves does not start with white space.
pub proof fn lemma_trim_start_first(s: Seq<char>)
    ensures
        trim_start(s).len() > 0 ==> !is_ws(trim_start(s)[0]),
    decreases s.len(),
{
    if s.len() > 0 && is_ws(s[0]) {
        lemma_trim_start_first(s.drop_first());
    }
}

/// What `trim_end` leaves is a prefix of its input that does not end with
/// white space.
pub proof fn lemma_trim_end_prefix(s: Seq<char>)
    ensures
        trim_end(s).len() <= s.len(),
        trim_end(s) == s.subrange(0, trim_end(s).len() as int),
        trim_end(s).len() > 0 ==> !is_ws(trim_end(s).last()),
    decreases s.len(),
{
    if s.len() > 0 && is_ws(s.last()) {
        lemma_trim_end_prefix(s.drop_last());
        assert(s.drop_last().subrange(0, trim_end(s).len() as int) == s.subrange(0, trim_end(s).len() as int));
    } else {
        assert(s.subrange(0, s.len() as int) == s);
    }
}

/// What `trim_start` leaves is a suffix of its input.
pub proof fn lemma_trim_start_suffix(s: Seq<char>)
    ensures
        trim_start(s).len() <= s.len(),
        trim_start(s) == s.subrange(s.len() - trim_start(s).len(), s.len() as int),
    decreases s.len(),
{
    if s.len() > 0 && is_ws(s[0]) {
        lemma_trim_start_suffix(s.drop_first());
        assert(s.drop_first().subrange(s.drop_first().len() - trim_start(s).len(), s.drop_first().len() as int)
            =~= s.subrange(s.len() - trim_start(s).len(), s.len() as int));
    } else {
        assert(s.subrange(0, s.len() as int) =~= s);
    }
}

proof fn lemma_trim_start_keeps(s: Seq<char>, i: int)
    requires
        0 <= i < s.len(),
        !is_ws(s[i]),
    ensures
        trim_start(s).len() >= s.len() - i,
    decreases s.len(),
{
    if s.len() > 0 && is_ws(s[0]) {
        assert(i > 0);
        assert(s.drop_first()[i - 1] == s[i]);
        lemma_trim_start_keeps(s.drop_first(), i - 1);
    }
}

proof fn lemma_trim_end_keeps(s: Seq<char>, j: int)
    requires
        0 <= j < s.len(),
        !is_ws(s[j]),
    ensures
        trim_end(s).len() > j,
    decreases s.len(),
{
    if s.len() > 0 && is_ws(s.last()) {
        assert(j < s.len() - 1);
        assert(s.drop_last()[j] == s[j]);
        lemma_trim_end_keeps(s.drop_last(), j);
    }
}

/// A text is not blank exactly when it holds a character that is not white
/// space.
pub proof fn lemma_visible_char(s: Seq<char>, i: int)
    requires
        0 <= i < s.len(),
        !is_ws(s[i]),
    ensures
        trim(s).len() > 0,
{
    let u = trim_start(s);
    lemma_trim_start_keeps(s, i);
    lemma_trim_start_suffix(s);
    let off = s.len() - u.len();
    assert(u[i - off] == s[i]);
    lemma_trim_end_keeps(u, i - off);
}

/// A text that is not blank holds a character that is not white space.
pub proof fn lemma_nonblank_has_visible(s: Seq<char>) -> (i: int)
    requires
        trim(s).len() > 0,
    ensures
        0 <= i < s.len(),
        !is_ws(s[i]),
{
    let u = trim_start(s);
    lemma_trim_start_first(s);
    lemma_trim_start_suffix(s);
    lemma_trim_end_prefix(u);
    let t = trim_end(u);
    assert(t[0] == u[0]);
    let off = s.len() - u.len();
    assert(u[0] == s[off]);
    off
}

/// Trimming a trimmed text changes nothing.
pub proof fn lemma_trim_idempotent(s: Seq<char>)
    ensures
        trim(trim(s)) == trim(s),
{
    let u = trim_start(s);
    let t = trim(s);
    lemma_trim_start_first(s);
    lemma_trim_end_prefix(u);
    if t.len() > 0 {
        assert(t[0] == u[0]);
        assert(trim_start(t) == t);
        assert(trim_end(t) == t);
    }
}

/// `p` occurs in `s` starting at `i`.
pub open spec fn occurs_at(s: Seq<char>, p: Seq<char>, i: int) -> bool {
    0 <= i && i + p.len() <= s.len() && s.subrange(i, i + p.len()) == p
}

/// `str::contains` with a string pattern.
pub open spec fn contains_sub(s: Seq<char>, p: Seq<char>) -> bool {
    exists|i: int| occurs_at(s, p, i)
}

/// The characters of `s`, collected from `str::chars`; the contract claims
/// that they are the string's characters in order.
#[verifier::external_body]
pub fn chars_of(s: &str) -> (v: Vec<char>)
    ensures
        v@ == s@,
{
    s.chars().collect()
}

/// The string made of `v`'s characters, collected into a `String` by
/// `FromIterator<&char>`; the contract claims that it holds exactly those
/// characters in order.
#[verifier::external_body]
pub fn string_of(v: &[char]) -> (s: String)
    ensures
        s@ == v@,
{
    v.iter().collect()
}

/// The positions `(a, b)` such that `s[a..b]` is `s` trimmed of white space
/// at both ends.
pub fn trim_bounds(s: &[char]) -> (r: (usize, usize))
    ensures
        r.0 <= r.1 <= s@.len(),
        s@.subrange(r.0 as int, r.1 as int) == trim(s@),
{
    let n: usize = s.len();
    let mut a: usize = 0;
    assert(s@.subrange(0, n as int) == s@);
    while a < n && is_whitespace(s[a])
        invariant
            a <= n == s@.len(),
            trim_start(s@) == trim_start(s@.subrange(a as int, n as int)),
        decreases n - a,
    {
        assert(s@.subrange(a as int, n as int).drop_first() == s@.subrange(a + 1, n as int));
        a = a + 1;
    }
    let mut b: usize = n;
    assert(trim_start(s@) == s@.subrange(a as int, n as int));
    while b > a && is_whitespace(s[b - 1])
        invariant
            a <= b <= n == s@.len(),
            trim(s@) == trim_end(s@.subrange(a as int, b as int)),
        decreases b,
    {
        assert(s@.subrange(a as int, b as int).drop_last() == s@.subrange(a as int, b - 1));
        b = b - 1;
    }
    (a, b)
}

/// `str::trim`.
pub fn trim_chars(s: &[char]) -> (r: Vec<char>)
    ensures
        r@ == trim(s@),
{
    let (a, b) = trim_bounds(s);
    slice_range(s, a, b)
}

/// A copy of `s[a..b]`.
pub fn slice_range(s: &[char], a: usize, b: usize) -> (r: Vec<char>)
    requires
        a <= b <= s@.len(),
    ensures
        r@ == s@.subrange(a as int, b as int),
{
    let mut r: Vec<char> = Vec::new();
    let mut i: usize = a;
    while i < b
        invariant
            a <= i <= b <= s@.len(),
            r@ == s@.subrange(a as int, i as int),
        decreases b - i,
    {
        r.push(s[i]);
        i = i + 1;
    }
    r
}

/// Whether `p` occurs in `s` at position `i`.
pub fn occurs_at_exec(s: &[char], p: &[char], i: usize) -> (b: bool)
    ensures
        b == occurs_at(s@, p@, i as int),
{
    if p.len() > s.len() || i > s.len() - p.len() {
        return false;
    }
    let mut k: usize = 0;
    while k < p.len()
        invariant
            i + p@.len() <= s@.len(),
            i + p.len() <= s.len(),
            k <= p@.len(),
            forall|j: int| 0 <= j < k ==> s@[i + j] == p@[j],
        decreases p.len() - k,
    {
        if s[i + k] != p[k] {
            assert(s@.subrange(i as int, i + p@.len())[k as int] != p@[k as int]);
            return false;
        }
        k = k + 1;
    }
    assert(s@.subrange(i as int, i + p@.len()) == p@);
    true
}

/// `str::contains` with a string pattern.
pub fn contains_chars(s: &[char], p: &[char]) -> (b: bool)
    ensures
        b == contains_sub(s@, p@),
{
    if p.len() > s.len() {
        assert(forall|i: int| !occurs_at(s@, p@, i));
        return false;
    }
    let last: usize = s.len() - p.len();
    let mut i: usize = 0;
    while i < last
        invariant
            i <= last,
            last + p@.len() == s@.len(),
            forall|j: int| 0 <= j < i ==> !occurs_at(s@, p@, j),
        decreases last - i,
    {
        if occurs_at_exec(s, p, i) {
            return true;
        }
        i = i + 1;
    }
    if occurs_at_exec(s, p, last) {
        return true;
    }
    assert(forall|j: int| !occurs_at(s@, p@, j));
    false
}

/// `str::starts_with`.
pub fn starts_with_chars(s: &[char], p: &[char]) -> (b: bool)
    ensures
        b == p@.is_prefix_of(s@),
{
    let r = occurs_at_exec(s, p, 0);
    proof {
        if r {
            assert forall|j: int| 0 <= j < p@.len() implies p@[j] == s@[j] by {
                assert(s@.subrange(0, p@.len() as int)[j] == s@[j]);
            }
        } else if p@.len() <= s@.len() {
            assert(s@.subrange(0, p@.len() as int) != p@);
            if p@.is_prefix_of(s@) {
                assert(s@.subrange(0, p@.len() as int) == p@);
            }
        }
    }
    r
}

/// `str::ends_with`.
pub fn ends_with_chars(s: &[char], p: &[char]) -> (b: bool)
    ensures
        b == p@.is_suffix_of(s@),
{
    if p.len() > s.len() {
        return false;
    }
    let i: usize = s.len() - p.len();
    let r = occurs_at_exec(s, p, i);
    proof {
        if r {
            assert forall|j: int| 0 <= j < p@.len() implies p@[j] == s@[s@.len() - p@.len() + j] by {
                assert(s@.subrange(i as int, s@.len() as int)[j] == s@[i + j]);
            }
        } else {
            if p@.is_suffix_of(s@) {
                assert(s@.subrange(i as int, s@.len() as int) == p@);
            }
        }
    }
    r
}

/// Equality of two character sequences.
pub fn chars_equal(a: &[char], b: &[char]) -> (r: bool)
    ensures
        r == (a@ == b@),
{
    if a.len() != b.len() {
        return false;
    }
    let mut i: usize = 0;
    while i < a.len()
        invariant
            a@.len() == b@.len(),
            i <= a@.len(),
            forall|j: int| 0 <= j < i ==> a@[j] == b@[j],
        decreases a.len() - i,
    {
        if a[i] != b[i] {
            return false;
        }
        i = i + 1;
    }
    assert(a@ == b@);
    true
}

/// Appends `t` to `v`.
pub fn append_chars(v: &mut Vec<char>, t: &[char])
    ensures
        final(v)@ == old(v)@ + t@,
{
    let mut i: usize = 0;
    let ghost start = v@;
    while i < t.len()
        invariant
            i <= t@.len(),
            v@ == start + t@.subrange(0, i as int),
        decreases t.len() - i,
    {
        v.push(t[i]);
        i = i + 1;
    }
    assert(t@.subrange(0, t@.len() as int) == t@);
}


/// `str::split_inclusive('\n')`: the pieces of `s`, each ending just after a
/// line feed, the last one possibly without it; no empty piece.
pub open spec fn split_incl(s: Seq<char>) -> Seq<Seq<char>>
    decreases s.len(),
{
    if s.len() == 0 {
        Seq::empty()
    } else {
        let prev = split_incl(s.drop_last());
        if prev.len() > 0 && prev.last().last() != '\n' {
            prev.drop_last().push(prev.last().push(s.last()))
        } else {
            prev.push(seq![s.last()])
        }
    }
}

/// The well-formedness of a line decomposition: pieces are non-empty, line
/// feeds end pieces, and every piece but the last ends in a line feed.
pub open spec fn incl_lines_wf(lines: Seq<Seq<char>>) -> bool {
    &&& forall|i: int| 0 <= i < lines.len() ==> #[trigger] lines[i].len() > 0
    &&& forall|i: int, j: int|
        0 <= i < lines.len() && 0 <= j < lines[i].len() - 1 ==> #[trigger] lines[i][j] != '\n'
    &&& forall|i: int| 0 <= i < lines.len() - 1 ==> #[trigger] lines[i].last() == '\n'
}

pub proof fn lemma_split_incl_wf(s: Seq<char>)
    ensures
        incl_lines_wf(split_incl(s)),
        split_incl(s).flatten() == s,
    decreases s.len(),
{
    if s.len() > 0 {
        let prev = split_incl(s.drop_last());
        lemma_split_incl_wf(s.drop_last());
        let r = split_incl(s);
        if prev.len() > 0 && prev.last().last() != '\n' {
            assert(r == prev.drop_last().push(prev.last().push(s.last())));
            assert forall|i: int, j: int|
                0 <= i < r.len() && 0 <= j < r[i].len() - 1 implies #[trigger] r[i][j] != '\n' by {
                if i == r.len() - 1 {
                    if j < prev.last().len() - 1 {
                        assert(prev[i][j] != '\n');
                    }
                } else {
                    assert(prev[i][j] != '\n');
                }
            }
            prev.drop_last().lemma_flatten_push(prev.last().push(s.last()));
            prev.drop_last().lemma_flatten_push(prev.last());
            assert(prev.drop_last().push(prev.last()) == prev);
            assert(s.drop_last().push(s.last()) == s);
        } else {
            assert(r == prev.push(seq![s.last()]));
            assert forall|i: int, j: int|
                0 <= i < r.len() && 0 <= j < r[i].len() - 1 implies #[trigger] r[i][j] != '\n' by {
                if i < r.len() - 1 {
                    assert(prev[i][j] != '\n');
                }
            }
            prev.lemma_flatten_push(seq![s.last()]);
            assert(s.drop_last() + seq![s.last()] == s);
        }
    }
}

/// `str::split_inclusive('\n')`.
pub fn split_inclusive_lines(s: &[char]) -> (lines: Vec<Vec<char>>)
    ensures
        lines.deep_view() == split_incl(s@),
{
    let mut lines: Vec<Vec<char>> = Vec::new();
    let mut cur: Vec<char> = Vec::new();
    let mut i: usize = 0;
    while i < s.len()
        invariant
            i <= s@.len(),
            forall|k: int| 0 <= k < cur@.len() ==> cur@[k] != '\n',
            lines.deep_view().len() == 0 || lines.deep_view().last().last() == '\n',
            forall|k: int| 0 <= k < lines.deep_view().len() ==> #[trigger] lines.deep_view()[k].len() > 0,
            split_incl(s@.subrange(0, i as int)) == if cur@.len() > 0 {
                lines.deep_view().push(cur@)
            } else {
                lines.deep_view()
            },
        decreases s.len() - i,
    {
        let c = s[i];
        let ghost prefix = s@.subrange(0, i as int);
        let ghost now = s@.subrange(0, i + 1);
        let ghost old_lines = lines.deep_view();
        let ghost old_cur = cur@;
        assert(now.drop_last() == prefix);
        assert(now.last() == c);
        assert(old_cur.len() == 0 ==> old_cur.push(c) == seq![c]);
        proof {
            if old_cur.len() > 0 {
                assert(old_lines.push(old_cur).last() == old_cur);
                assert(old_lines.push(old_cur).drop_last() == old_lines);
            }
        }
        cur.push(c);
        if c == '\n' {
            let done = cur;
            lines.push(done);
            cur = Vec::new();
            assert(lines.deep_view() =~~= old_lines.push(old_cur.push(c)));
        }
        i = i + 1;
    }
    let ghost old_lines = lines.deep_view();
    let ghost old_cur = cur@;
    if cur.len() > 0 {
        lines.push(cur);
        assert(lines.deep_view() =~~= old_lines.push(old_cur));
    }
    assert(s@.subrange(0, s@.len() as int) == s@);
    lines
}

/// One item of `str::lines`: the piece without its line feed, and without a
/// carriage return that stood before that line feed.
pub open spec fn line_content(l: Seq<char>) -> Seq<char> {
    if l.len() > 0 && l.last() == '\n' {
        let m = l.drop_last();
        if m.len() > 0 && m.last() == '\r' {
            m.drop_last()
        } else {
            m
        }
    } else {
        l
    }
}

/// `str::lines`.
pub open spec fn lines_of(s: Seq<char>) -> Seq<Seq<char>> {
    split_incl(s).map_values(|l: Seq<char>| line_content(l))
}

pub fn line_content_exec(l: &[char]) -> (r: Vec<char>)
    ensures
        r@ == line_content(l@),
{
    let mut end: usize = l.len();
    if end > 0 && l[end - 1] == '\n' {
        end = end - 1;
        if end > 0 && l[end - 1] == '\r' {
            end = end - 1;
        }
    }
    let r = slice_range(l, 0, end);
    assert(l@.subrange(0, l@.len() as int) == l@);
    assert(l@.len() > 0 ==> l@.drop_last() == l@.subrange(0, l@.len() - 1));
    assert(l@.len() > 1 ==> l@.drop_last().drop_last() == l@.subrange(0, l@.len() - 2));
    r
}

/// `str::split_whitespace`: the maximal runs of characters without white
/// space, in order.
pub open spec fn ws_tokens(s: Seq<char>) -> Seq<Seq<char>>
    decreases s.len(),
{
    if s.len() == 0 {
        Seq::empty()
    } else {
        let prev = ws_tokens(s.drop_last());
        if is_ws(s.last()) {
            prev
        } else if s.len() >= 2 && !is_ws(s[s.len() - 2]) {
            prev.drop_last().push(prev.last().push(s.last()))
        } else {
            prev.push(seq![s.last()])
        }
    }
}

/// White space in front of a text adds no token.
pub proof fn lemma_ws_tokens_leading_space(c: char, y: Seq<char>)
    requires
        is_ws(c),
    ensures
        ws_tokens(seq![c] + y) == ws_tokens(y),
    decreases y.len(),
{
    let z = seq![c] + y;
    if y.len() == 0 {
        assert(z.drop_last() =~= Seq::<char>::empty());
        assert(z.last() == c);
        assert(ws_tokens(z.drop_last()) == Seq::<Seq<char>>::empty());
        assert(ws_tokens(z) == ws_tokens(z.drop_last()));
        assert(ws_tokens(y) == Seq::<Seq<char>>::empty());
    } else {
        lemma_ws_tokens_leading_space(c, y.drop_last());
        assert(z.drop_last() =~= seq![c] + y.drop_last());
        assert(z.last() == y.last());
        let p = ws_tokens(y.drop_last());
        assert(ws_tokens(z.drop_last()) == p);
        if y.len() >= 2 {
            assert(z[z.len() - 2] == y[y.len() - 2]);
        } else {
            assert(z[z.len() - 2] == c);
        }
        assert(ws_tokens(z) == if is_ws(y.last()) {
            p
        } else if y.len() >= 2 && !is_ws(y[y.len() - 2]) {
            p.drop_last().push(p.last().push(y.last()))
        } else {
            p.push(seq![y.last()])
        });
        assert(ws_tokens(y) == if is_ws(y.last()) {
            p
        } else if y.len() >= 2 && !is_ws(y[y.len() - 2]) {
            p.drop_last().push(p.last().push(y.last()))
        } else {
            p.push(seq![y.last()])
        });
    }
}

/// Trimming a text does not change its tokens.
pub proof fn lemma_ws_tokens_trim(x: Seq<char>)
    ensures
        ws_tokens(trim(x)) == ws_tokens(x),
{
    lemma_ws_tokens_trim_start(x);
    lemma_ws_tokens_trim_end(trim_start(x));
}

proof fn lemma_ws_tokens_trim_start(x: Seq<char>)
    ensures
        ws_tokens(trim_start(x)) == ws_tokens(x),
    decreases x.len(),
{
    if x.len() > 0 && is_ws(x[0]) {
        lemma_ws_tokens_trim_start(x.drop_first());
        assert(seq![x[0]] + x.drop_first() =~= x);
        lemma_ws_tokens_leading_space(x[0], x.drop_first());
    }
}

proof fn lemma_ws_tokens_trim_end(x: Seq<char>)
    ensures
        ws_tokens(trim_end(x)) == ws_tokens(x),
    decreases x.len(),
{
    if x.len() > 0 && is_ws(x.last()) {
        lemma_ws_tokens_trim_end(x.drop_last());
    }
}

/// A word without white space, written after a space, is one more token.
pub proof fn lemma_ws_tokens_append_word(s: Seq<char>, w: Seq<char>)
    requires
        w.len() > 0,
        forall|i: int| 0 <= i < w.len() ==> !is_ws(#[trigger] w[i]),
    ensures
        ws_tokens(s + seq![' '] + w) == ws_tokens(s).push(w),
    decreases w.len(),
{
    let z = s + seq![' '] + w;
    assert(z.last() == w[w.len() - 1]);
    assert(is_ws(' '));
    if w.len() == 1 {
        let sp = s + seq![' '];
        assert(z.drop_last() =~= sp);
        assert(sp.drop_last() =~= s);
        assert(sp.last() == ' ');
        assert(ws_tokens(sp) == ws_tokens(s));
        assert(z[z.len() - 2] == ' ');
        assert(seq![z.last()] =~= w);
        assert(ws_tokens(z) == ws_tokens(sp).push(seq![z.last()]));
    } else {
        let w1 = w.drop_last();
        assert forall|i: int| 0 <= i < w1.len() implies !is_ws(#[trigger] w1[i]) by {
            assert(w1[i] == w[i]);
        }
        lemma_ws_tokens_append_word(s, w1);
        assert(z.drop_last() =~= s + seq![' '] + w1);
        assert(z[z.len() - 2] == w[w.len() - 2]);
        let prev = ws_tokens(s).push(w1);
        assert(ws_tokens(z.drop_last()) == prev);
        assert(prev.drop_last() =~= ws_tokens(s));
        assert(prev.last() == w1);
        assert(w1.push(z.last()) =~= w);
        assert(ws_tokens(z) == prev.drop_last().push(prev.last().push(z.last())));
        assert(prev.drop_last().push(prev.last().push(z.last())) =~~= ws_tokens(s).push(w));
    }
}

/// `str::split_whitespace`.
pub fn split_whitespace_chars(s: &[char]) -> (tokens: Vec<Vec<char>>)
    ensures
        tokens.deep_view() == ws_tokens(s@),
{
    let mut tokens: Vec<Vec<char>> = Vec::new();
    let mut cur: Vec<char> = Vec::new();
    let mut i: usize = 0;
    while i < s.len()
        invariant
            i <= s@.len(),
            i == 0 || is_ws(s@[i - 1]) <==> cur@.len() == 0,
            ws_tokens(s@.subrange(0, i as int)) == if cur@.len() > 0 {
                tokens.deep_view().push(cur@)
            } else {
                tokens.deep_view()
            },
        decreases s.len() - i,
    {
        let c = s[i];
        let ghost prefix = s@.subrange(0, i as int);
        let ghost now = s@.subrange(0, i + 1);
        let ghost old_tokens = tokens.deep_view();
        let ghost old_cur = cur@;
        assert(now.drop_last() == prefix);
        assert(now.last() == c);
        assert(old_cur.len() == 0 ==> old_cur.push(c) == seq![c]);
        proof {
            if old_cur.len() > 0 {
                assert(old_tokens.push(old_cur).last() == old_cur);
                assert(old_tokens.push(old_cur).drop_last() == old_tokens);
            }
        }
        if is_whitespace(c) {
            if cur.len() > 0 {
                let done = cur;
                tokens.push(done);
                cur = Vec::new();
                assert(tokens.deep_view() =~~= old_tokens.push(old_cur));
            }
        } else {
            cur.push(c);
            proof {
                if i >= 1 {
                    assert(now[now.len() - 2] == s@[i - 1]);
                }
            }
        }
        i = i + 1;
    }
    let ghost old_tokens = tokens.deep_view();
    let ghost old_cur = cur@;
    if cur.len() > 0 {
        tokens.push(cur);
        assert(tokens.deep_view() =~~= old_tokens.push(old_cur));
    }
    assert(s@.subrange(0, s@.len() as int) == s@);
    tokens
}

/// The value of a character that is an ASCII digit.
pub open spec fn digit_value(c: char) -> nat {
    ((c as u32) - 48) as nat
}

pub open spec fn is_digit(c: char) -> bool {
    '0' <= c && c <= '9'
}

/// The number that a string of ASCII digits denotes.
pub open spec fn digits_value(s: Seq<char>) -> nat
    decreases s.len(),
{
    if s.len() == 0 {
        0
    } else {
        digits_value(s.drop_last()) * 10 + digit_value(s.last())
    }
}

/// The digits part of an unsigned number: without one leading `+` that is
/// followed by something.
pub open spec fn unsigned_digits(s: Seq<char>) -> Seq<char> {
    if s.len() > 1 && s[0] == '+' {
        s.drop_first()
    } else {
        s
    }
}

/// What `from_str` of an unsigned integer type accepts, before its range
/// check: one optional `+`, then at least one ASCII digit and nothing else.
pub open spec fn parse_unsigned(s: Seq<char>) -> Option<nat> {
    let d = unsigned_digits(s);
    if d.len() > 0 && (forall|i: int| 0 <= i < d.len() ==> is_digit(#[trigger] d[i])) {
        Some(digits_value(d))
    } else {
        None
    }
}

/// `u64::from_str`.
pub fn parse_u64(s: &[char]) -> (r: Option<u64>)
    ensures
        r == (match parse_unsigned(s@) {
            Some(n) => if n <= u64::MAX { Some(n as u64) } else { None },
            None => None,
        }),
{
    let start: usize = if s.len() > 1 && s[0] == '+' { 1 } else { 0 };
    let ghost d = unsigned_digits(s@);
    assert(d == s@.subrange(start as int, s@.len() as int));
    if start >= s.len() {
        assert(d.len() == 0);
        return None;
    }
    let mut value: u64 = 0;
    let mut i: usize = start;
    let mut overflow: bool = false;
    while i < s.len()
        invariant
            start <= i <= s@.len(),
            d == s@.subrange(start as int, s@.len() as int),
            d == unsigned_digits(s@),
            forall|k: int| start <= k < i ==> is_digit(#[trigger] s@[k]),
            !overflow ==> value == digits_value(s@.subrange(start as int, i as int)),
            overflow ==> digits_value(s@.subrange(start as int, i as int)) > u64::MAX,
        decreases s.len() - i,
    {
        let c = s[i];
        if !('0' <= c && c <= '9') {
            assert(d[i - start] == s@[i as int]);
            assert(!is_digit(d[i - start]));
            assert(!(forall|k: int| 0 <= k < d.len() ==> is_digit(#[trigger] d[k])));
            assert(parse_unsigned(s@) is None);
            return None;
        }
        let ghost prev = s@.subrange(start as int, i as int);
        assert(s@.subrange(start as int, i + 1).drop_last() == prev);
        let dv: u64 = ((c as u32) - 48) as u64;
        if !overflow {
            if value > (u64::MAX - dv) / 10 {
                overflow = true;
            } else {
                value = value * 10 + dv;
            }
        }
        i = i + 1;
    }
    proof {
        assert forall|k: int| 0 <= k < d.len() implies is_digit(#[trigger] d[k]) by {
            assert(d[k] == s@[start + k]);
        }
    }
    if overflow {
        None
    } else {
        Some(value)
    }
}

/// `usize::from_str`.
pub fn parse_usize(s: &[char]) -> (r: Option<usize>)
    ensures
        r == (match parse_unsigned(s@) {
            Some(n) => if n <= usize::MAX { Some(n as usize) } else { None },
            None => None,
        }),
{
    match parse_u64(s) {
        Some(v) => {
            if v as u128 <= usize::MAX as u128 {
                Some(v as usize)
            } else {
                None
            }
        },
        None => {
            proof {
                if let Some(n) = parse_unsigned(s@) {
                    assert(n > u64::MAX);
                }
            }
            None
        },
    }
}

/// The ASCII digit for `d < 10`.
pub open spec fn digit_char(d: nat) -> char {
    ((48 + d) as u8) as char
}

/// The decimal representation of `n`, as `Display` writes an unsigned
/// integer.
pub open spec fn decimal(n: nat) -> Seq<char>
    decreases n,
{
    if n < 10 {
        seq![digit_char(n)]
    } else {
        decimal(n / 10).push(digit_char(n % 10))
    }
}

/// The decimal representation of `n` is a non-empty run of ASCII digits
/// that reads back as `n`.
pub proof fn lemma_decimal_digits(n: nat)
    ensures
        decimal(n).len() > 0,
        forall|i: int| 0 <= i < decimal(n).len() ==> is_digit(#[trigger] decimal(n)[i]),
        digits_value(decimal(n)) == n,
    decreases n,
{
    if n >= 10 {
        lemma_decimal_digits(n / 10);
        let p = decimal(n / 10);
        let d = decimal(n);
        assert(d == p.push(digit_char(n % 10)));
        assert forall|i: int| 0 <= i < d.len() implies is_digit(#[trigger] d[i]) by {
            if i < p.len() {
                assert(d[i] == p[i]);
            }
        }
        assert(d.drop_last() == p);
        assert(d.last() == digit_char(n % 10));
        lemma_digit_char_value(n % 10);
        assert(digits_value(d) == digits_value(p) * 10 + digit_value(d.last()));
        assert(n == (n / 10) * 10 + n % 10);
    } else {
        lemma_digit_char_value(n);
        let d = decimal(n);
        assert(d.drop_last() =~= Seq::<char>::empty());
        assert(digits_value(d) == digits_value(d.drop_last()) * 10 + digit_value(d.last()));
    }
}

proof fn lemma_digit_char_value(d: nat)
    requires
        d < 10,
    ensures
        is_digit(digit_char(d)),
        digit_value(digit_char(d)) == d,
{
    assert(digit_char(d) as u32 == 48 + d);
}

/// The number `n` read from its decimal representation.
pub proof fn lemma_parse_decimal(n: nat)
    ensures
        parse_unsigned(decimal(n)) == Some(n),
{
    lemma_decimal_digits(n);
    assert(decimal(n)[0] != '+');
}

/// A non-empty run of characters without white space is one token and
/// is its own trimmed form.
pub proof fn lemma_single_token(s: Seq<char>)
    requires
        s.len() > 0,
        forall|i: int| 0 <= i < s.len() ==> !is_ws(#[trigger] s[i]),
    ensures
        ws_tokens(s) == seq![s],
        trim(s) == s,
    decreases s.len(),
{
    assert(!is_ws(s[0]));
    assert(!is_ws(s.last()));
    assert(trim_start(s) == s);
    assert(trim_end(s) == s);
    if s.len() > 1 {
        let p = s.drop_last();
        lemma_single_token(p);
        assert(!is_ws(s[s.len() - 2]));
        assert(p.push(s.last()) == s);
        let prev = ws_tokens(p);
        assert(prev.drop_last() =~~= Seq::<Seq<char>>::empty());
        assert(prev.last() == p);
        assert(prev.drop_last().push(prev.last().push(s.last())) =~~= seq![s]);
    } else {
        assert(s.drop_last() =~= Seq::<char>::empty());
        assert(ws_tokens(s.drop_last()) =~~= Seq::<Seq<char>>::empty());
        assert(seq![s.last()] =~= s);
        assert(ws_tokens(s.drop_last()).push(seq![s.last()]) =~~= seq![s]);
    }
}

/// Appends the decimal representation of `n` to `out`.
pub fn push_decimal(out: &mut Vec<char>, n: usize)
    ensures
        final(out)@ == old(out)@ + decimal(n as nat),
    decreases n,
{
    if n >= 10 {
        push_decimal(out, n / 10);
    }
    let d: u8 = (n % 10) as u8;
    out.push((48 + d) as char);
    proof {
        if n >= 10 {
            assert(decimal(n as nat) == decimal((n / 10) as nat).push(digit_char((n % 10) as nat)));
        }
    }
}

/// ASCII lower-casing of one character, as `char::to_ascii_lowercase`.
pub open spec fn ascii_lower(c: char) -> char {
    if 'A' <= c && c <= 'Z' {
        ((c as u32) + 32) as char
    } else {
        c
    }
}

/// `str::to_ascii_lowercase`.
pub open spec fn ascii_lowercase(s: Seq<char>) -> Seq<char> {
    s.map_values(|c: char| ascii_lower(c))
}

/// ASCII upper-casing of one character, as `char::to_ascii_uppercase`.
pub open spec fn ascii_upper(c: char) -> char {
    if 'a' <= c && c <= 'z' {
        ((c as u32) - 32) as char
    } else {
        c
    }
}

/// `str::to_ascii_uppercase`.
pub open spec fn ascii_uppercase(s: Seq<char>) -> Seq<char> {
    s.map_values(|c: char| ascii_upper(c))
}

proof fn lemma_ascii_upper_char(c: char)
    ensures
        ascii_lower(ascii_upper(c)) == ascii_lower(c),
        is_ws(ascii_upper(c)) == is_ws(c),
{
    if 'a' <= c && c <= 'z' {
        assert(ascii_upper(c) as u32 == c as u32 - 32);
        assert(ascii_lower(ascii_upper(c)) as u32 == c as u32);
    }
}

proof fn lemma_trim_start_upper(x: Seq<char>)
    ensures
        trim_start(ascii_uppercase(x)) == ascii_uppercase(trim_start(x)),
    decreases x.len(),
{
    let u = ascii_uppercase(x);
    if x.len() > 0 {
        lemma_ascii_upper_char(x[0]);
        assert(u[0] == ascii_upper(x[0]));
        if is_ws(x[0]) {
            lemma_trim_start_upper(x.drop_first());
            assert(u.drop_first() =~= ascii_uppercase(x.drop_first()));
        }
    }
}

proof fn lemma_trim_end_upper(x: Seq<char>)
    ensures
        trim_end(ascii_uppercase(x)) == ascii_uppercase(trim_end(x)),
    decreases x.len(),
{
    let u = ascii_uppercase(x);
    if x.len() > 0 {
        lemma_ascii_upper_char(x.last());
        assert(u.last() == ascii_upper(x.last()));
        if is_ws(x.last()) {
            lemma_trim_end_upper(x.drop_last());
            assert(u.drop_last() =~= ascii_uppercase(x.drop_last()));
        }
    }
}

/// Lower-casing a text's upper-cased, trimmed form gives what lower-casing
/// its trimmed form gives.
pub proof fn lemma_upper_then_lower(x: Seq<char>)
    ensures
        ascii_lowercase(trim(ascii_uppercase(trim(x)))) == ascii_lowercase(trim(x)),
{
    let t = trim(x);
    lemma_trim_start_upper(t);
    lemma_trim_end_upper(trim_start(t));
    lemma_trim_idempotent(x);
    assert(trim(ascii_uppercase(t)) == ascii_uppercase(t));
    assert forall|i: int| 0 <= i < t.len() implies
        #[trigger] ascii_lowercase(ascii_uppercase(t))[i] == ascii_lowercase(t)[i] by {
        lemma_ascii_upper_char(t[i]);
    }
    assert(ascii_lowercase(ascii_uppercase(t)) =~= ascii_lowercase(t));
}

pub fn ascii_lowercase_chars(s: &[char]) -> (r: Vec<char>)
    ensures
        r@ == ascii_lowercase(s@),
{
    let mut r: Vec<char> = Vec::new();
    let mut i: usize = 0;
    while i < s.len()
        invariant
            i <= s@.len(),
            r@ == ascii_lowercase(s@.subrange(0, i as int)),
        decreases s.len() - i,
    {
        let c = s[i];
        let lc: char = if 'A' <= c && c <= 'Z' {
            ((c as u8) + 32) as char
        } else {
            c
        };
        r.push(lc);
        i = i + 1;
        assert(ascii_lowercase(s@.subrange(0, i as int)) == ascii_lowercase(s@.subrange(0, i - 1)).push(lc));
    }
    assert(s@.subrange(0, s@.len() as int) == s@);
    r
}


/// `str::trim_end_matches(c)`.
pub open spec fn trim_end_char(s: Seq<char>, c: char) -> Seq<char>
    decreases s.len(),
{
    if s.len() > 0 && s.last() == c {
        trim_end_char(s.drop_last(), c)
    } else {
        s
    }
}

/// `str::trim_start_matches(c)`.
pub open spec fn trim_start_char(s: Seq<char>, c: char) -> Seq<char>
    decreases s.len(),
{
    if s.len() > 0 && s[0] == c {
        trim_start_char(s.drop_first(), c)
    } else {
        s
    }
}

/// `str::trim_matches(c)`.
pub open spec fn trim_char(s: Seq<char>, c: char) -> Seq<char> {
    trim_end_char(trim_start_char(s, c), c)
}

/// `str::trim_end_matches(c)`.
pub fn trim_end_char_exec(s: &[char], c: char) -> (r: Vec<char>)
    ensures
        r@ == trim_end_char(s@, c),
{
    let mut b: usize = s.len();
    assert(s@.subrange(0, b as int) == s@);
    while b > 0 && s[b - 1] == c
        invariant
            b <= s@.len(),
            trim_end_char(s@, c) == trim_end_char(s@.subrange(0, b as int), c),
        decreases b,
    {
        assert(s@.subrange(0, b as int).drop_last() == s@.subrange(0, b - 1));
        b = b - 1;
    }
    slice_range(s, 0, b)
}

/// `str::trim_matches(c)`.
pub fn trim_char_exec(s: &[char], c: char) -> (r: Vec<char>)
    ensures
        r@ == trim_char(s@, c),
{
    let n: usize = s.len();
    let mut a: usize = 0;
    assert(s@.subrange(0, n as int) == s@);
    while a < n && s[a] == c
        invariant
            a <= n == s@.len(),
            trim_start_char(s@, c) == trim_start_char(s@.subrange(a as int, n as int), c),
        decreases n - a,
    {
        assert(s@.subrange(a as int, n as int).drop_first() == s@.subrange(a + 1, n as int));
        a = a + 1;
    }
    let rest = slice_range(s, a, n);
    trim_end_char_exec(rest.as_slice(), c)
}

/// The part of `s` after its last `/` (all of `s` without one), as
/// `s.rsplit('/').next()`.
pub open spec fn basename(s: Seq<char>) -> Seq<char>
    decreases s.len(),
{
    if s.len() == 0 {
        s
    } else if s.last() == '/' {
        Seq::empty()
    } else {
        basename(s.drop_last()).push(s.last())
    }
}

pub fn basename_exec(s: &[char]) -> (r: Vec<char>)
    ensures
        r@ == basename(s@),
{
    let mut r: Vec<char> = Vec::new();
    let mut i: usize = 0;
    while i < s.len()
        invariant
            i <= s@.len(),
            r@ == basename(s@.subrange(0, i as int)),
        decreases s.len() - i,
    {
        assert(s@.subrange(0, i + 1).drop_last() == s@.subrange(0, i as int));
        if s[i] == '/' {
            r = Vec::new();
        } else {
            r.push(s[i]);
        }
        i = i + 1;
    }
    assert(s@.subrange(0, s@.len() as int) == s@);
    r
}

/// The start of the last occurrence of `p` in `s`, as `str::rfind`.
pub open spec fn rfind(s: Seq<char>, p: Seq<char>) -> Option<int> {
    if exists|i: int| occurs_at(s, p, i) {
        Some(choose|i: int| occurs_at(s, p, i) && forall|j: int| occurs_at(s, p, j) ==> j <= i)
    } else {
        None
    }
}

pub fn rfind_exec(s: &[char], p: &[char]) -> (r: Option<usize>)
    ensures
        match r {
            Some(i) => rfind(s@, p@) == Some(i as int) && occurs_at(s@, p@, i as int),
            None => rfind(s@, p@) is None,
        },
{
    if p.len() > s.len() {
        assert(forall|i: int| !occurs_at(s@, p@, i));
        return None;
    }
    let mut i: usize = s.len() - p.len();
    loop
        invariant
            i + p@.len() <= s@.len(),
            forall|j: int| i < j ==> !occurs_at(s@, p@, j),
        decreases i,
    {
        if occurs_at_exec(s, p, i) {
            proof {
                let ii = i as int;
                assert(occurs_at(s@, p@, ii) && forall|j: int| occurs_at(s@, p@, j) ==> j <= ii);
                let c = choose|k: int| occurs_at(s@, p@, k) && forall|j: int| occurs_at(s@, p@, j) ==> j <= k;
                assert(c == ii);
            }
            return Some(i);
        }
        if i == 0 {
            assert(forall|j: int| !occurs_at(s@, p@, j));
            return None;
        }
        i = i - 1;
    }
}

/// Each string's characters.
pub fn chars_list(v: &Vec<String>) -> (r: Vec<Vec<char>>)
    ensures
        r.deep_view() == v.deep_view(),
{
    let mut r: Vec<Vec<char>> = Vec::new();
    let mut i: usize = 0;
    while i < v.len()
        invariant
            i <= v@.len(),
            r.deep_view() == v.deep_view().subrange(0, i as int),
        decreases v.len() - i,
    {
        let c = chars_of(v[i].as_str());
        let ghost old_r = r.deep_view();
        r.push(c);
        assert(r.deep_view() =~~= old_r.push(v.deep_view()[i as int]));
        assert(v.deep_view().subrange(0, i + 1) =~~= v.deep_view().subrange(0, i as int).push(v.deep_view()[i as int]));
        i = i + 1;
    }
    assert(v.deep_view().subrange(0, v@.len() as int) =~~= v.deep_view());
    r
}

/// A string for each character sequence.
pub fn strings_of(v: &Vec<Vec<char>>) -> (r: Vec<String>)
    ensures
        r.deep_view() == v.deep_view(),
{
    let mut r: Vec<String> = Vec::new();
    let mut i: usize = 0;
    while i < v.len()
        invariant
            i <= v@.len(),
            r.deep_view() == v.deep_view().subrange(0, i as int),
        decreases v.len() - i,
    {
        let c = string_of(v[i].as_slice());
        let ghost old_r = r.deep_view();
        r.push(c);
        assert(r.deep_view() =~~= old_r.push(v.deep_view()[i as int]));
        assert(v.deep_view().subrange(0, i + 1) =~~= v.deep_view().subrange(0, i as int).push(v.deep_view()[i as int]));
        i = i + 1;
    }
    assert(v.deep_view().subrange(0, v@.len() as int) =~~= v.deep_view());
    r
}


/// The items joined with `sep` between each two, as `join` on a slice.
pub open spec fn join_with(items: Seq<Seq<char>>, sep: Seq<char>) -> Seq<char>
    decreases items.len(),
{
    if items.len() == 0 {
        Seq::empty()
    } else if items.len() == 1 {
        items[0]
    } else {
        join_with(items.drop_last(), sep) + sep + items.last()
    }
}

/// Joins `items[..count]` with `sep`.
pub fn join_chars(items: &Vec<Vec<char>>, count: usize, sep: &[char]) -> (r: Vec<char>)
    requires
        count <= items.deep_view().len(),
    ensures
        r@ == join_with(items.deep_view().subrange(0, count as int), sep@),
{
    let mut r: Vec<char> = Vec::new();
    let mut i: usize = 0;
    while i < count
        invariant
            i <= count <= items.deep_view().len(),
            r@ == join_with(items.deep_view().subrange(0, i as int), sep@),
        decreases count - i,
    {
        let ghost pre = items.deep_view().subrange(0, i as int);
        let ghost next = items.deep_view().subrange(0, i + 1);
        assert(next.drop_last() == pre);
        assert(items.deep_view()[i as int] =~= items[i as int]@);
        if i > 0 {
            append_chars(&mut r, sep);
        } else {
            assert(next.len() == 1);
        }
        append_chars(&mut r, items[i].as_slice());
        i = i + 1;
    }
    r
}


proof fn lemma_split_incl_append_line(s: Seq<char>, l: Seq<char>, k: int)
    requires
        split_incl(s).len() == 0 || split_incl(s).last().last() == '\n',
        1 <= k <= l.len(),
        forall|j: int| 0 <= j < l.len() - 1 ==> l[j] != '\n',
    ensures
        split_incl(s + l.subrange(0, k)) == split_incl(s).push(l.subrange(0, k)),
    decreases k,
{
    let t = s + l.subrange(0, k);
    assert(t.drop_last() == s + l.subrange(0, k - 1));
    assert(t.last() == l[k - 1]);
    if k == 1 {
        assert(s + l.subrange(0, 0) == s);
        assert(l.subrange(0, 1) == seq![l[0]]);
    } else {
        lemma_split_incl_append_line(s, l, k - 1);
        let prev = split_incl(s).push(l.subrange(0, k - 1));
        assert(prev.last() == l.subrange(0, k - 1));
        assert(prev.last().last() == l[k - 2]);
        assert(prev.drop_last() == split_incl(s));
        assert(l.subrange(0, k - 1).push(l[k - 1]) == l.subrange(0, k));
    }
}

/// Splitting the concatenation of well-formed lines gives back those lines.
pub proof fn lemma_split_incl_flatten(m: Seq<Seq<char>>)
    requires
        incl_lines_wf(m),
    ensures
        split_incl(m.flatten()) == m,
    decreases m.len(),
{
    if m.len() > 0 {
        let init = m.drop_last();
        let l = m.last();
        assert(incl_lines_wf(init)) by {
            assert forall|i: int, j: int| 0 <= i < init.len() && 0 <= j < init[i].len() - 1 implies #[trigger] init[i][j] != '\n' by {
                assert(m[i][j] != '\n');
            }
            assert forall|i: int| 0 <= i < init.len() - 1 implies #[trigger] init[i].last() == '\n' by {
                assert(m[i].last() == '\n');
            }
            assert forall|i: int| 0 <= i < init.len() implies #[trigger] init[i].len() > 0 by {
                assert(m[i].len() > 0);
            }
        }
        lemma_split_incl_flatten(init);
        assert(init.push(l) == m);
        init.lemma_flatten_push(l);
        if init.len() > 0 {
            assert(m[init.len() - 1].last() == '\n');
        }
        assert forall|j: int| 0 <= j < l.len() - 1 implies l[j] != '\n' by {
            assert(m[m.len() - 1][j] != '\n');
        }
        assert(m[m.len() - 1].len() > 0);
        lemma_split_incl_append_line(init.flatten(), l, l.len() as int);
        assert(l.subrange(0, l.len() as int) == l);
    }
}

/// A run of consecutive lines of a well-formed decomposition is well formed.
pub proof fn lemma_incl_lines_wf_subrange(m: Seq<Seq<char>>, a: int, b: int)
    requires
        incl_lines_wf(m),
        0 <= a <= b <= m.len(),
    ensures
        incl_lines_wf(m.subrange(a, b)),
{
    let r = m.subrange(a, b);
    assert forall|i: int, j: int| 0 <= i < r.len() && 0 <= j < r[i].len() - 1 implies #[trigger] r[i][j] != '\n' by {
        assert(m[a + i][j] != '\n');
    }
    assert forall|i: int| 0 <= i < r.len() - 1 implies #[trigger] r[i].last() == '\n' by {
        assert(m[a + i].last() == '\n');
    }
    assert forall|i: int| 0 <= i < r.len() implies #[trigger] r[i].len() > 0 by {
        assert(m[a + i].len() > 0);
    }
}


/// What `str::to_lowercase` returns for `s`: its lowercase form under the
/// Unicode `Lowercase` mapping.
pub uninterp spec fn unicode_lowercase(s: Seq<char>) -> Seq<char>;

/// Calls `str::to_lowercase`; the contract claims only that the result is
/// the named function of the input.
#[verifier::external_body]
pub fn to_lowercase(s: &str) -> (r: String)
    ensures
        r@ == unicode_lowercase(s@),
{
    s.to_lowercase()
}

/// A copy of a list of strings.
pub fn copy_strings(v: &[String]) -> (r: Vec<String>)
    ensures
        r.deep_view() == v@.map_values(|s: String| s@),
{
    let mut r: Vec<String> = Vec::new();
    let mut i: usize = 0;
    while i < v.len()
        invariant
            i <= v@.len(),
            r.deep_view() == v@.subrange(0, i as int).map_values(|s: String| s@),
        decreases v.len() - i,
    {
        let ghost old_r = r.deep_view();
        r.push(v[i].clone());
        assert(r.deep_view() =~~= old_r.push(v@[i as int]@));
        assert(v@.subrange(0, i + 1).map_values(|s: String| s@) =~~= v@.subrange(0, i as int).map_values(|s: String| s@).push(v@[i as int]@));
        i = i + 1;
    }
    assert(v@.subrange(0, v@.len() as int) == v@);
    r
}


/// The position of the first `c` in `s`, as `str::find` with a character.
pub open spec fn find_char(s: Seq<char>, c: char) -> Option<int> {
    if exists|i: int| 0 <= i < s.len() && s[i] == c {
        Some(choose|i: int| 0 <= i < s.len() && s[i] == c && forall|j: int| 0 <= j < i ==> s[j] != c)
    } else {
        None
    }
}

pub fn find_char_exec(s: &[char], c: char) -> (r: Option<usize>)
    ensures
        match r {
            Some(i) => find_char(s@, c) == Some(i as int) && i < s@.len() && s@[i as int] == c,
            None => find_char(s@, c) is None,
        },
{
    let mut i: usize = 0;
    while i < s.len()
        invariant
            i <= s@.len(),
            forall|j: int| 0 <= j < i ==> s@[j] != c,
        decreases s.len() - i,
    {
        if s[i] == c {
            proof {
                let ii = i as int;
                let w = choose|k: int| 0 <= k < s@.len() && s@[k] == c && forall|j: int| 0 <= j < k ==> s@[j] != c;
                assert(0 <= ii < s@.len() && s@[ii] == c && forall|j: int| 0 <= j < ii ==> s@[j] != c);
                if w < ii {
                    assert(s@[w] != c);
                } else if w > ii {
                    assert(s@[ii] != c);
                }
            }
            return Some(i);
        }
        i = i + 1;
    }
    None
}


/// `str::split(c)`: the pieces between occurrences of `c`, empty ones
/// included; one empty piece for an empty string.
pub open spec fn split_char(s: Seq<char>, c: char) -> Seq<Seq<char>>
    decreases s.len(),
{
    if s.len() == 0 {
        seq![Seq::empty()]
    } else {
        let prev = split_char(s.drop_last(), c);
        if s.last() == c {
            prev.push(Seq::empty())
        } else {
            prev.drop_last().push(prev.last().push(s.last()))
        }
    }
}

/// `split` always gives at least one piece, and no piece holds the
/// separator.
pub proof fn lemma_split_char_pieces(s: Seq<char>, c: char)
    ensures
        split_char(s, c).len() > 0,
        forall|k: int, j: int| 0 <= k < split_char(s, c).len() && 0 <= j < split_char(s, c)[k].len()
            ==> #[trigger] split_char(s, c)[k][j] != c,
    decreases s.len(),
{
    if s.len() > 0 {
        lemma_split_char_pieces(s.drop_last(), c);
        let prev = split_char(s.drop_last(), c);
        let r = split_char(s, c);
        if s.last() == c {
            assert forall|k: int, j: int| 0 <= k < r.len() && 0 <= j < r[k].len() implies #[trigger] r[k][j] != c by {
                if k < prev.len() {
                    assert(r[k] == prev[k]);
                }
            }
        } else {
            let last = prev.last().push(s.last());
            assert forall|k: int, j: int| 0 <= k < r.len() && 0 <= j < r[k].len() implies #[trigger] r[k][j] != c by {
                if k < prev.len() - 1 {
                    assert(r[k] == prev[k]);
                } else {
                    assert(r[k] == last);
                    if j < prev.last().len() {
                        assert(last[j] == prev[prev.len() - 1][j]);
                    }
                }
            }
        }
    }
}

/// Splitting at a separator that joins two texts gives the pieces of each.
pub proof fn lemma_split_char_concat(a: Seq<char>, b: Seq<char>, c: char)
    ensures
        split_char(a + seq![c] + b, c) == split_char(a, c) + split_char(b, c),
    decreases b.len(),
{
    let z = a + seq![c] + b;
    if b.len() == 0 {
        assert(z =~= a.push(c));
        assert(z.drop_last() =~= a);
        assert(split_char(b, c) == seq![Seq::<char>::empty()]);
        assert(split_char(z, c) == split_char(a, c).push(Seq::empty()));
        assert(split_char(a, c).push(Seq::empty()) =~= split_char(a, c) + seq![Seq::<char>::empty()]);
    } else {
        lemma_split_char_concat(a, b.drop_last(), c);
        lemma_split_char_pieces(b.drop_last(), c);
        assert(z.drop_last() =~= a + seq![c] + b.drop_last());
        assert(z.last() == b.last());
        let pa = split_char(a, c);
        let pb = split_char(b.drop_last(), c);
        let prev = pa + pb;
        assert(split_char(z.drop_last(), c) == prev);
        if b.last() == c {
            assert(prev.push(Seq::empty()) =~= pa + pb.push(Seq::empty()));
        } else {
            assert(prev.drop_last() =~= pa + pb.drop_last());
            assert(prev.last() == pb.last());
            assert(prev.drop_last().push(prev.last().push(b.last())) =~= pa + pb.drop_last().push(pb.last().push(b.last())));
        }
    }
}

/// A text without the separator is one piece.
pub proof fn lemma_split_char_word(w: Seq<char>, c: char)
    requires
        forall|j: int| 0 <= j < w.len() ==> #[trigger] w[j] != c,
    ensures
        split_char(w, c) == seq![w],
    decreases w.len(),
{
    if w.len() > 0 {
        let p = w.drop_last();
        assert forall|j: int| 0 <= j < p.len() implies #[trigger] p[j] != c by {
            assert(p[j] == w[j]);
        }
        lemma_split_char_word(p, c);
        assert(w.last() == w[w.len() - 1]);
        assert(seq![p].drop_last().push(seq![p].last().push(w.last())) =~~= seq![w]);
    } else {
        assert(w =~= Seq::<char>::empty());
    }
}

/// Splitting joined items at their separator gives the items back, when
/// there is at least one and none holds the separator.
pub proof fn lemma_split_char_join(items: Seq<Seq<char>>, c: char)
    requires
        items.len() > 0,
        forall|k: int, j: int| 0 <= k < items.len() && 0 <= j < items[k].len() ==> #[trigger] items[k][j] != c,
    ensures
        split_char(join_with(items, seq![c]), c) == items,
    decreases items.len(),
{
    let last = items.last();
    assert forall|j: int| 0 <= j < last.len() implies #[trigger] last[j] != c by {
        assert(last[j] == items[items.len() - 1][j]);
    }
    lemma_split_char_word(last, c);
    if items.len() == 1 {
        assert(join_with(items, seq![c]) == items[0]);
        assert(seq![last] =~~= items);
    } else {
        let p = items.drop_last();
        assert forall|k: int, j: int| 0 <= k < p.len() && 0 <= j < p[k].len() implies #[trigger] p[k][j] != c by {
            assert(p[k] == items[k]);
        }
        lemma_split_char_join(p, c);
        lemma_split_char_concat(join_with(p, seq![c]), last, c);
        assert(p + seq![last] =~~= items);
    }
}

/// Keeping the non-empty items of two lists one after the other.
pub proof fn lemma_nonempty_items_concat(x: Seq<Seq<char>>, y: Seq<Seq<char>>)
    ensures
        nonempty_items(x + y) == nonempty_items(x) + nonempty_items(y),
    decreases y.len(),
{
    if y.len() == 0 {
        assert(x + y =~= x);
        assert(nonempty_items(x) + nonempty_items(y) =~= nonempty_items(x));
    } else {
        lemma_nonempty_items_concat(x, y.drop_last());
        assert((x + y).drop_last() =~= x + y.drop_last());
        assert((x + y).last() == y.last());
        if y.last().len() > 0 {
            assert((nonempty_items(x) + nonempty_items(y.drop_last())).push(y.last())
                =~= nonempty_items(x) + nonempty_items(y.drop_last()).push(y.last()));
        }
    }
}

/// A list of non-empty items keeps them all; the items that are kept are
/// never empty, and hold a character only if some item of the list did.
pub proof fn lemma_nonempty_items_props(x: Seq<Seq<char>>, c: char)
    ensures
        (forall|k: int| 0 <= k < x.len() ==> #[trigger] x[k].len() > 0) ==> nonempty_items(x) == x,
        forall|k: int| 0 <= k < nonempty_items(x).len() ==> #[trigger] nonempty_items(x)[k].len() > 0,
        (forall|k: int, j: int| 0 <= k < x.len() && 0 <= j < x[k].len() ==> #[trigger] x[k][j] != c)
            ==> forall|k: int, j: int| 0 <= k < nonempty_items(x).len() && 0 <= j < nonempty_items(x)[k].len()
                ==> #[trigger] nonempty_items(x)[k][j] != c,
    decreases x.len(),
{
    if x.len() > 0 {
        let p = x.drop_last();
        lemma_nonempty_items_props(p, c);
        let np = nonempty_items(p);
        if forall|k: int, j: int| 0 <= k < x.len() && 0 <= j < x[k].len() ==> #[trigger] x[k][j] != c {
            assert forall|k: int, j: int| 0 <= k < p.len() && 0 <= j < p[k].len() implies #[trigger] p[k][j] != c by {
                assert(p[k] == x[k]);
            }
            if x.last().len() > 0 {
                let r = np.push(x.last());
                assert forall|k: int, j: int| 0 <= k < r.len() && 0 <= j < r[k].len() implies #[trigger] r[k][j] != c by {
                    if k < np.len() {
                        assert(r[k] == np[k]);
                    } else {
                        assert(r[k] == x[x.len() - 1]);
                    }
                }
            }
        }
        if x.last().len() > 0 {
            let r = np.push(x.last());
            assert forall|k: int| 0 <= k < r.len() implies #[trigger] r[k].len() > 0 by {
                if k < np.len() {
                    assert(r[k] == np[k]);
                }
            }
        }
        if forall|k: int| 0 <= k < x.len() ==> #[trigger] x[k].len() > 0 {
            assert forall|k: int| 0 <= k < p.len() implies #[trigger] p[k].len() > 0 by {
                assert(p[k] == x[k]);
            }
            assert(x[x.len() - 1].len() > 0);
            assert(p.push(x.last()) =~= x);
        }
    }
}

/// Trimming a character from the end twice trims nothing more.
pub proof fn lemma_trim_end_char_idempotent(s: Seq<char>, c: char)
    ensures
        trim_end_char(trim_end_char(s, c), c) == trim_end_char(s, c),
        trim_end_char(s, c).len() > 0 ==> trim_end_char(s, c).last() != c,
    decreases s.len(),
{
    if s.len() > 0 && s.last() == c {
        lemma_trim_end_char_idempotent(s.drop_last(), c);
    }
}

pub fn split_char_exec(s: &[char], c: char) -> (r: Vec<Vec<char>>)
    ensures
        r.deep_view() == split_char(s@, c),
{
    let mut pieces: Vec<Vec<char>> = Vec::new();
    let mut cur: Vec<char> = Vec::new();
    let mut i: usize = 0;
    while i < s.len()
        invariant
            i <= s@.len(),
            split_char(s@.subrange(0, i as int), c) == pieces.deep_view().push(cur@),
        decreases s.len() - i,
    {
        let ghost now = s@.subrange(0, i + 1);
        assert(now.drop_last() == s@.subrange(0, i as int));
        assert(now.last() == s[i as int]);
        let ghost before = pieces.deep_view().push(cur@);
        assert(before.drop_last() == pieces.deep_view());
        assert(before.last() == cur@);
        if s[i] == c {
            let done = cur;
            let ghost dv = pieces.deep_view();
            pieces.push(done);
            assert(pieces.deep_view() =~~= dv.push(done@));
            cur = Vec::new();
            assert(cur@ == Seq::<char>::empty());
        } else {
            cur.push(s[i]);
        }
        i = i + 1;
    }
    assert(s@.subrange(0, s@.len() as int) == s@);
    let ghost dv = pieces.deep_view();
    let ghost last = cur@;
    pieces.push(cur);
    assert(pieces.deep_view() =~~= dv.push(last));
    pieces
}

/// The non-empty items, in order.
pub open spec fn nonempty_items(items: Seq<Seq<char>>) -> Seq<Seq<char>>
    decreases items.len(),
{
    if items.len() == 0 {
        Seq::empty()
    } else if items.last().len() == 0 {
        nonempty_items(items.drop_last())
    } else {
        nonempty_items(items.drop_last()).push(items.last())
    }
}

pub fn nonempty_items_exec(items: &Vec<Vec<char>>, from: usize) -> (r: Vec<Vec<char>>)
    ensures
        r.deep_view() == nonempty_items(if from <= items.deep_view().len() { items.deep_view().subrange(from as int, items.deep_view().len() as int) } else { Seq::empty() }),
{
    let n: usize = items.len();
    if from > n {
        let r: Vec<Vec<char>> = Vec::new();
        assert(r.deep_view() =~~= Seq::<Seq<char>>::empty());
        return r;
    }
    let ghost src = items.deep_view().subrange(from as int, n as int);
    let mut r: Vec<Vec<char>> = Vec::new();
    let mut i: usize = from;
    assert(r.deep_view() =~~= Seq::<Seq<char>>::empty());
    assert(items.deep_view().subrange(from as int, from as int) =~= Seq::<Seq<char>>::empty());
    while i < n
        invariant
            from <= i <= n == items.deep_view().len(),
            src == items.deep_view().subrange(from as int, n as int),
            r.deep_view() == nonempty_items(items.deep_view().subrange(from as int, i as int)),
        decreases n - i,
    {
        assert(items.deep_view().subrange(from as int, i + 1).drop_last() == items.deep_view().subrange(from as int, i as int));
        assert(items.deep_view()[i as int] =~= items[i as int]@);
        if items[i].len() > 0 {
            let ghost dv = r.deep_view();
            r.push(slice_range(items[i].as_slice(), 0, items[i].len()));
            assert(items[i as int]@.subrange(0, items[i as int]@.len() as int) == items[i as int]@);
            assert(r.deep_view() =~~= dv.push(items.deep_view()[i as int]));
        }
        i = i + 1;
    }
    r
}

/// What `Debug` writes for a string: the text in double quotes with its
/// special characters escaped.
pub uninterp spec fn debug_str(s: Seq<char>) -> Seq<char>;

/// Formats `s` with `{:?}`, the `Debug` impl of `str`. The contract claims
/// only that the result is the named function of the text.
#[verifier::external_body]
pub(crate) fn debug_quoted(s: &str) -> (r: String)
    ensures
        r@ == debug_str(s@),
{
    format!("{:?}", s)
}

} // verus!
