//! The chat completion exchange: the request URL, the request content and
//! headers, reading the reply, and when to retry.

use vstd::prelude::*;
use crate::config::{CHAT_MESSAGE_CHAR_LIMIT, ReasoningEffort};
use crate::json::{JsonValue, json_parse, parse_json};
use crate::reply::{read_reply, reply_content};
use crate::text::{
    append_chars, ascii_lowercase, ascii_lowercase_chars, chars_equal, chars_of, contains_chars,
    contains_sub, decimal, find_char, find_char_exec, join_chars, join_with, nonempty_items,
    nonempty_items_exec, push_decimal, slice_range, split_char, split_char_exec, string_of, trim,
    trim_char, trim_char_exec, trim_chars, trim_end_char, trim_end_char_exec, lemma_trim_idempotent,
    debug_quoted, debug_str, lemma_trim_end_char_idempotent, lemma_split_char_pieces,
    lemma_nonempty_items_props, lemma_split_char_join, lemma_split_char_concat,
    lemma_nonempty_items_concat,
};

verus! {

/// The non-empty path segments of a base URL after `scheme://host`.
pub open spec fn base_segments(base: Seq<char>) -> Seq<Seq<char>> {
    let pieces = split_char(base, '/');
    nonempty_items(if 3 <= pieces.len() { pieces.subrange(3, pieces.len() as int) } else { Seq::empty() })
}

/// The non-empty path segments of an endpoint.
pub open spec fn endpoint_segments(endpoint: Seq<char>) -> Seq<Seq<char>> {
    nonempty_items(split_char(trim_char(endpoint, '/'), '/'))
}

/// The last `k` segments of `b` are the first `k` of `e`.
pub open spec fn suffix_matches(b: Seq<Seq<char>>, e: Seq<Seq<char>>, k: nat) -> bool {
    k <= b.len() && k <= e.len() && b.subrange(b.len() - k, b.len() as int) == e.subrange(0, k as int)
}

/// The largest `k <= max` (and at least 1) for which the segments overlap,
/// or 0.
pub open spec fn overlap_from(b: Seq<Seq<char>>, e: Seq<Seq<char>>, k: nat) -> nat
    decreases k,
{
    if k == 0 {
        0
    } else if suffix_matches(b, e, k) {
        k
    } else {
        overlap_from(b, e, (k - 1) as nat)
    }
}

proof fn lemma_overlap_from_at_most(b: Seq<Seq<char>>, e: Seq<Seq<char>>, k: nat)
    ensures
        overlap_from(b, e, k) <= k,
    decreases k,
{
    if k > 0 {
        lemma_overlap_from_at_most(b, e, (k - 1) as nat);
    }
}

pub open spec fn overlap(b: Seq<Seq<char>>, e: Seq<Seq<char>>) -> nat {
    overlap_from(b, e, if b.len() < e.len() { b.len() } else { e.len() })
}

/// The request URL: the base without trailing slashes, followed by the
/// endpoint's segments that the base does not already end with.
pub open spec fn joined_url(base_url: Seq<char>, endpoint: Seq<char>) -> Seq<char> {
    let base = trim_end_char(base_url, '/');
    let e = endpoint_segments(endpoint);
    if e.len() == 0 {
        base
    } else {
        let rest = e.subrange(overlap(base_segments(base), e) as int, e.len() as int);
        if rest.len() == 0 {
            base
        } else {
            base + seq!['/'] + join_with(rest, seq!['/'])
        }
    }
}

/// When the base URL's path already ends with all of the endpoint's
/// segments, the request URL is the base URL without trailing slashes: the
/// endpoint is not repeated.
pub proof fn law_join_url_keeps_covered_base(base_url: Seq<char>, endpoint: Seq<char>)
    requires
        ({
            let b = base_segments(trim_end_char(base_url, '/'));
            let e = endpoint_segments(endpoint);
            e.len() <= b.len() && b.subrange(b.len() - e.len(), b.len() as int) == e
        }),
    ensures
        joined_url(base_url, endpoint) == trim_end_char(base_url, '/'),
{
    let b = base_segments(trim_end_char(base_url, '/'));
    let e = endpoint_segments(endpoint);
    assert(e.subrange(0, e.len() as int) == e);
    assert(suffix_matches(b, e, e.len()));
    assert(overlap(b, e) == e.len());
    assert(e.subrange(e.len() as int, e.len() as int).len() == 0);
}

/// When the base URL has no path, every endpoint segment is appended after
/// one slash.
pub proof fn law_join_url_appends_to_bare_host(base_url: Seq<char>, endpoint: Seq<char>)
    requires
        base_segments(trim_end_char(base_url, '/')).len() == 0,
        endpoint_segments(endpoint).len() > 0,
    ensures
        joined_url(base_url, endpoint) == trim_end_char(base_url, '/') + seq!['/']
            + join_with(endpoint_segments(endpoint), seq!['/']),
{
    let e = endpoint_segments(endpoint);
    assert(e.subrange(0, e.len() as int) == e);
}

proof fn lemma_overlap_from_matches(b: Seq<Seq<char>>, e: Seq<Seq<char>>, k: nat)
    ensures
        overlap_from(b, e, k) > 0 ==> suffix_matches(b, e, overlap_from(b, e, k)),
    decreases k,
{
    if k > 0 && !suffix_matches(b, e, k) {
        lemma_overlap_from_matches(b, e, (k - 1) as nat);
    }
}

/// The path segments of the request URL: the base URL's, then the endpoint
/// segments that it did not already end with.
proof fn lemma_joined_segments(base_url: Seq<char>, endpoint: Seq<char>)
    requires
        split_char(trim_end_char(base_url, '/'), '/').len() >= 3,
    ensures
        ({
            let base = trim_end_char(base_url, '/');
            let b = base_segments(base);
            let e = endpoint_segments(endpoint);
            let k = overlap(b, e);
            let r = joined_url(base_url, endpoint);
            &&& k <= e.len()
            &&& k <= b.len()
            &&& b.subrange(b.len() - k, b.len() as int) == e.subrange(0, k as int)
            &&& trim_end_char(r, '/') == r
            &&& split_char(r, '/').len() >= 3
            &&& base_segments(r) == b + e.subrange(k as int, e.len() as int)
        }),
{
    let base = trim_end_char(base_url, '/');
    let b = base_segments(base);
    let e = endpoint_segments(endpoint);
    let m = if b.len() < e.len() { b.len() } else { e.len() };
    let k = overlap(b, e);
    lemma_overlap_from_at_most(b, e, m);
    lemma_overlap_from_matches(b, e, m);
    if k == 0 {
        assert(b.subrange(b.len() as int, b.len() as int) =~= e.subrange(0, 0));
    }
    lemma_trim_end_char_idempotent(base_url, '/');
    let rest = e.subrange(k as int, e.len() as int);
    let r = joined_url(base_url, endpoint);
    if e.len() == 0 || rest.len() == 0 {
        assert(r == base);
        assert(rest =~= Seq::<Seq<char>>::empty());
        assert(b + rest =~= b);
    } else {
        let pieces_e = split_char(trim_char(endpoint, '/'), '/');
        lemma_split_char_pieces(trim_char(endpoint, '/'), '/');
        lemma_nonempty_items_props(pieces_e, '/');
        assert forall|q: int, j: int| 0 <= q < rest.len() && 0 <= j < rest[q].len() implies #[trigger] rest[q][j] != '/' by {
            assert(rest[q] == e[k + q]);
        }
        assert forall|q: int| 0 <= q < rest.len() implies #[trigger] rest[q].len() > 0 by {
            assert(rest[q] == e[k + q]);
        }
        let j = join_with(rest, seq!['/']);
        lemma_split_char_join(rest, '/');
        lemma_join_ends_with_last(rest);
        assert(r == base + seq!['/'] + j);
        assert(r.last() == j.last());
        assert(r.len() > 0 && r.last() != '/');
        lemma_split_char_concat(base, j, '/');
        let pb = split_char(base, '/');
        let pr = split_char(r, '/');
        assert(pr == pb + rest);
        assert(pr.subrange(3, pr.len() as int) =~= pb.subrange(3, pb.len() as int) + rest);
        lemma_nonempty_items_concat(pb.subrange(3, pb.len() as int), rest);
        lemma_nonempty_items_props(rest, '/');
    }
}

/// The last character of joined non-empty items is the last one of the last
/// item.
proof fn lemma_join_ends_with_last(items: Seq<Seq<char>>)
    requires
        items.len() > 0,
        items.last().len() > 0,
    ensures
        join_with(items, seq!['/']).len() > 0,
        join_with(items, seq!['/']).last() == items.last().last(),
{
    if items.len() > 1 {
        let p = join_with(items.drop_last(), seq!['/']) + seq!['/'];
        assert((p + items.last()).last() == items.last().last());
    }
}

/// Joining the request URL with the same endpoint again changes nothing,
/// when the base URL has the form `scheme://host...`; and the request
/// URL's path ends with every non-empty segment of the endpoint.
pub proof fn law_join_url_idempotent(base_url: Seq<char>, endpoint: Seq<char>)
    requires
        split_char(trim_end_char(base_url, '/'), '/').len() >= 3,
    ensures
        joined_url(joined_url(base_url, endpoint), endpoint) == joined_url(base_url, endpoint),
        ({
            let s = base_segments(joined_url(base_url, endpoint));
            let e = endpoint_segments(endpoint);
            e.len() <= s.len() && s.subrange(s.len() - e.len(), s.len() as int) == e
        }),
{
    lemma_joined_segments(base_url, endpoint);
    let base = trim_end_char(base_url, '/');
    let b = base_segments(base);
    let e = endpoint_segments(endpoint);
    let k = overlap(b, e);
    let r = joined_url(base_url, endpoint);
    let s = b + e.subrange(k as int, e.len() as int);
    assert(s.subrange(s.len() - e.len(), s.len() as int) =~= b.subrange(b.len() - k, b.len() as int) + e.subrange(k as int, e.len() as int));
    assert(e.subrange(0, k as int) + e.subrange(k as int, e.len() as int) =~= e);
    law_join_url_keeps_covered_base(r, endpoint);
}

fn segments_equal(b: &Vec<Vec<char>>, e: &Vec<Vec<char>>, k: usize) -> (r: bool)
    requires
        k <= b.deep_view().len(),
        k <= e.deep_view().len(),
    ensures
        r == suffix_matches(b.deep_view(), e.deep_view(), k as nat),
{
    let start: usize = b.len() - k;
    let mut j: usize = 0;
    while j < k
        invariant
            j <= k <= e.deep_view().len(),
            start + k == b.deep_view().len(),
            b.deep_view().len() == b.len(),
            e.deep_view().len() == e.len(),
            forall|q: int| 0 <= q < j ==> b.deep_view()[start + q] == e.deep_view()[q],
        decreases k - j,
    {
        assert(b.deep_view()[start + j] =~= b[start + j]@);
        assert(e.deep_view()[j as int] =~= e[j as int]@);
        if !chars_equal(b[start + j].as_slice(), e[j].as_slice()) {
            assert(b.deep_view().subrange(start as int, b.deep_view().len() as int)[j as int] != e.deep_view().subrange(0, k as int)[j as int]);
            return false;
        }
        j = j + 1;
    }
    assert(b.deep_view().subrange(start as int, b.deep_view().len() as int) =~= e.deep_view().subrange(0, k as int));
    true
}

fn overlapping_segment_count(b: &Vec<Vec<char>>, e: &Vec<Vec<char>>) -> (r: usize)
    ensures
        r == overlap(b.deep_view(), e.deep_view()),
        r <= e.deep_view().len(),
{
    proof {
        let m = if b.deep_view().len() < e.deep_view().len() { b.deep_view().len() } else { e.deep_view().len() };
        lemma_overlap_from_at_most(b.deep_view(), e.deep_view(), m);
    }
    let max: usize = if b.len() < e.len() { b.len() } else { e.len() };
    let mut k: usize = max;
    while k > 0
        invariant
            k <= max,
            max == if b.deep_view().len() < e.deep_view().len() { b.deep_view().len() } else { e.deep_view().len() },
            overlap(b.deep_view(), e.deep_view()) == overlap_from(b.deep_view(), e.deep_view(), k as nat),
        decreases k,
    {
        if segments_equal(b, e, k) {
            return k;
        }
        k = k - 1;
    }
    0
}

/// Joins a base URL and an endpoint without repeating the segments the base
/// already ends with.
pub fn join_url(base_url: &str, endpoint: &str) -> (r: String)
    ensures
        r@ == joined_url(base_url@, endpoint@),
{
    let ghost bs = trim_end_char(base_url@, '/');
    let base = trim_end_char_exec(chars_of(base_url).as_slice(), '/');
    let trimmed_endpoint = trim_char_exec(chars_of(endpoint).as_slice(), '/');
    let endpoint_pieces = split_char_exec(trimmed_endpoint.as_slice(), '/');
    let e = nonempty_items_exec(&endpoint_pieces, 0);
    assert(endpoint_pieces.deep_view().subrange(0, endpoint_pieces.deep_view().len() as int) == endpoint_pieces.deep_view());
    if e.len() == 0 {
        return string_of(base.as_slice());
    }
    let base_pieces = split_char_exec(base.as_slice(), '/');
    let b = nonempty_items_exec(&base_pieces, 3);
    assert(b.deep_view() == base_segments(bs));
    assert(e.deep_view() == endpoint_segments(endpoint@));
    let overlap: usize = overlapping_segment_count(&b, &e);
    if overlap == e.len() {
        assert(e.deep_view().subrange(overlap as int, e.deep_view().len() as int).len() == 0);
        return string_of(base.as_slice());
    }
    let mut rest: Vec<Vec<char>> = Vec::new();
    let mut i: usize = overlap;
    assert(rest.deep_view() =~~= e.deep_view().subrange(overlap as int, overlap as int));
    while i < e.len()
        invariant
            overlap <= i <= e.deep_view().len(),
            rest.deep_view() == e.deep_view().subrange(overlap as int, i as int),
        decreases e.len() - i,
    {
        let ghost dv = rest.deep_view();
        assert(e.deep_view()[i as int] =~= e[i as int]@);
        rest.push(slice_range(e[i].as_slice(), 0, e[i].len()));
        assert(e[i as int]@.subrange(0, e[i as int]@.len() as int) == e[i as int]@);
        assert(rest.deep_view() =~~= dv.push(e.deep_view()[i as int]));
        assert(e.deep_view().subrange(overlap as int, i + 1) =~~= e.deep_view().subrange(overlap as int, i as int).push(e.deep_view()[i as int]));
        i = i + 1;
    }
    let slash = vec!['/'];
    let tail = join_chars(&rest, rest.len(), slash.as_slice());
    assert(rest.deep_view().subrange(0, rest.deep_view().len() as int) == rest.deep_view());
    assert(slash@ =~= seq!['/']);
    assert(tail@ == join_with(e.deep_view().subrange(overlap as int, e.deep_view().len() as int), seq!['/']));
    let ghost b0 = base@;
    let mut url = base;
    url.push('/');
    assert(url@ =~= b0 + seq!['/']);
    append_chars(&mut url, tail.as_slice());
    assert(url@ == bs + seq!['/'] + join_with(e.deep_view().subrange(overlap as int, e.deep_view().len() as int), seq!['/']));
    string_of(url.as_slice())
}

/// How many times an empty reply is asked for again.
pub const EMPTY_LLM_RESPONSE_RETRIES: usize = 2;

/// How many characters of a reply body an error message shows.
pub const RESPONSE_PREVIEW_CHARS: usize = 600;

/// Why a commit message could not be had from the chat completion service.
#[derive(Clone, Debug, PartialEq, Eq)]
pub enum LlmError {
    /// The reply was not a chat completion.
    Unparsable { url: String, status: u16, content_type: Option<String>, detail: String, preview: String },
    /// The reply held no choice.
    NoChoices,
    /// The first choice held no text once trimmed.
    EmptyMessage,
    /// The request content reached the chat message limit.
    TooLarge { chars: usize },
    /// The service answered with a status outside `200..300`.
    RequestFailed { url: String, status: u16, content_type: Option<String>, preview: String },
    /// A configured header has no `:`.
    InvalidHeader { header: String },
}

/// An `LlmError` as plain values.
pub enum LlmFailure {
    Unparsable { url: Seq<char>, status: u16, content_type: Option<Seq<char>>, detail: Seq<char>, preview: Seq<char> },
    NoChoices,
    EmptyMessage,
    TooLarge(nat),
    RequestFailed { url: Seq<char>, status: u16, content_type: Option<Seq<char>>, preview: Seq<char> },
    InvalidHeader(Seq<char>),
}

pub open spec fn opt_view(o: Option<String>) -> Option<Seq<char>> {
    match o {
        Some(s) => Some(s@),
        None => None,
    }
}

pub open spec fn opt_str_view(o: Option<&str>) -> Option<Seq<char>> {
    match o {
        Some(s) => Some(s@),
        None => None,
    }
}

impl View for LlmError {
    type V = LlmFailure;

    open spec fn view(&self) -> LlmFailure {
        match self {
            LlmError::Unparsable { url, status, content_type, detail, preview } => LlmFailure::Unparsable {
                url: url@,
                status: *status,
                content_type: opt_view(*content_type),
                detail: detail@,
                preview: preview@,
            },
            LlmError::NoChoices => LlmFailure::NoChoices,
            LlmError::EmptyMessage => LlmFailure::EmptyMessage,
            LlmError::TooLarge { chars } => LlmFailure::TooLarge(*chars as nat),
            LlmError::RequestFailed { url, status, content_type, preview } => LlmFailure::RequestFailed {
                url: url@,
                status: *status,
                content_type: opt_view(*content_type),
                preview: preview@,
            },
            LlmError::InvalidHeader { header } => LlmFailure::InvalidHeader(header@),
        }
    }
}

/// The reason phrase `reqwest::StatusCode` has for `code`, if the code is a
/// valid status with a registered phrase.
pub uninterp spec fn status_reason(code: u16) -> Option<Seq<char>>;

/// Calls `reqwest::StatusCode::from_u16` and, for a valid code,
/// `StatusCode::canonical_reason`. The contract claims only that the result
/// is the named function of the code.
#[verifier::external_body]
fn canonical_reason(code: u16) -> (r: Option<String>)
    ensures
        opt_view(r) == status_reason(code),
{
    match reqwest::StatusCode::from_u16(code) {
        Ok(status) => status.canonical_reason().map(String::from),
        Err(_) => None,
    }
}

/// A status as `StatusCode` displays it: the code, a space and the reason
/// phrase.
pub open spec fn status_text(code: u16) -> Seq<char> {
    decimal(code as nat) + " "@ + match status_reason(code) {
        Some(r) => r,
        None => "<unknown status code>"@,
    }
}

pub open spec fn content_type_text(content_type: Option<Seq<char>>) -> Seq<char> {
    match content_type {
        Some(c) => c,
        None => "<missing>"@,
    }
}

impl LlmFailure {
    /// The message that reports the failure.
    pub open spec fn text(self) -> Seq<char> {
        match self {
            LlmFailure::Unparsable { url, status, content_type, detail, preview } =>
                "failed to parse LLM response as an OpenAI-compatible chat completion\nURL: "@ + url
                + "\nStatus: "@ + decimal(status as nat) + "\nContent-Type: "@ + content_type_text(content_type)
                + "\nParse error: "@ + detail + "\nBody preview:\n"@ + preview
                + "\nHint: verify --base-url and --endpoint. For New API/OpenAI-compatible gateways, the endpoint is commonly /v1/chat/completions."@,
            LlmFailure::NoChoices => "LLM response did not contain any choices"@,
            LlmFailure::EmptyMessage => "LLM returned an empty commit message"@,
            LlmFailure::TooLarge(n) => "LLM request is too large after diff summarization: "@ + decimal(n)
                + " chars; limit is "@ + decimal(CHAT_MESSAGE_CHAR_LIMIT as nat)
                + ". Reduce prompt size or max_input_chars."@,
            LlmFailure::RequestFailed { url, status, content_type, preview } =>
                "LLM API request failed\nURL: "@ + url + "\nStatus: "@ + status_text(status)
                + "\nContent-Type: "@ + content_type_text(content_type) + "\nBody preview:\n"@ + preview,
            LlmFailure::InvalidHeader(h) => "invalid header "@ + debug_str(h) + "; expected 'Name: value'"@,
        }
    }
}

fn push_content_type(m: &mut Vec<char>, content_type: &Option<String>)
    ensures
        final(m)@ == old(m)@ + content_type_text(opt_view(*content_type)),
{
    match content_type {
        Some(c) => append_chars(m, chars_of(c.as_str()).as_slice()),
        None => append_chars(m, chars_of("<missing>").as_slice()),
    }
}

impl LlmError {
    /// The message that reports the error.
    pub fn message(&self) -> (m: String)
        ensures
            m@ == self@.text(),
    {
        let mut m: Vec<char> = Vec::new();
        match self {
            LlmError::Unparsable { url, status, content_type, detail, preview } => {
                append_chars(&mut m, chars_of("failed to parse LLM response as an OpenAI-compatible chat completion\nURL: ").as_slice());
                append_chars(&mut m, chars_of(url.as_str()).as_slice());
                append_chars(&mut m, chars_of("\nStatus: ").as_slice());
                push_decimal(&mut m, *status as usize);
                append_chars(&mut m, chars_of("\nContent-Type: ").as_slice());
                push_content_type(&mut m, content_type);
                append_chars(&mut m, chars_of("\nParse error: ").as_slice());
                append_chars(&mut m, chars_of(detail.as_str()).as_slice());
                append_chars(&mut m, chars_of("\nBody preview:\n").as_slice());
                append_chars(&mut m, chars_of(preview.as_str()).as_slice());
                append_chars(&mut m, chars_of("\nHint: verify --base-url and --endpoint. For New API/OpenAI-compatible gateways, the endpoint is commonly /v1/chat/completions.").as_slice());
            },
            LlmError::NoChoices => {
                append_chars(&mut m, chars_of("LLM response did not contain any choices").as_slice());
            },
            LlmError::EmptyMessage => {
                append_chars(&mut m, chars_of("LLM returned an empty commit message").as_slice());
            },
            LlmError::TooLarge { chars } => {
                append_chars(&mut m, chars_of("LLM request is too large after diff summarization: ").as_slice());
                push_decimal(&mut m, *chars);
                append_chars(&mut m, chars_of(" chars; limit is ").as_slice());
                push_decimal(&mut m, CHAT_MESSAGE_CHAR_LIMIT);
                append_chars(&mut m, chars_of(". Reduce prompt size or max_input_chars.").as_slice());
            },
            LlmError::RequestFailed { url, status, content_type, preview } => {
                append_chars(&mut m, chars_of("LLM API request failed\nURL: ").as_slice());
                append_chars(&mut m, chars_of(url.as_str()).as_slice());
                append_chars(&mut m, chars_of("\nStatus: ").as_slice());
                push_decimal(&mut m, *status as usize);
                append_chars(&mut m, chars_of(" ").as_slice());
                match canonical_reason(*status) {
                    Some(r) => append_chars(&mut m, chars_of(r.as_str()).as_slice()),
                    None => append_chars(&mut m, chars_of("<unknown status code>").as_slice()),
                }
                append_chars(&mut m, chars_of("\nContent-Type: ").as_slice());
                push_content_type(&mut m, content_type);
                append_chars(&mut m, chars_of("\nBody preview:\n").as_slice());
                append_chars(&mut m, chars_of(preview.as_str()).as_slice());
            },
            LlmError::InvalidHeader { header } => {
                append_chars(&mut m, chars_of("invalid header ").as_slice());
                append_chars(&mut m, chars_of(debug_quoted(header.as_str()).as_str()).as_slice());
                append_chars(&mut m, chars_of("; expected 'Name: value'").as_slice());
            },
        }
        string_of(m.as_slice())
    }
}

/// The start of a reply body shown in error messages: trimmed, cut to
/// `RESPONSE_PREVIEW_CHARS` characters with a marker, or a placeholder when
/// nothing is left.
pub open spec fn preview_text(body: Seq<char>) -> Seq<char> {
    let t = trim(body);
    let p = if t.len() > RESPONSE_PREVIEW_CHARS {
        t.subrange(0, RESPONSE_PREVIEW_CHARS as int) + "\n...<truncated>"@
    } else {
        t
    };
    if p.len() == 0 {
        "<empty body>"@
    } else {
        p
    }
}

/// An error shows the start of the reply body, never more than the preview
/// length and its marker: a short trimmed body whole, a long one cut to its
/// first characters followed by the truncation marker, and a placeholder
/// for a blank body.
pub proof fn law_preview_shows_body_start(body: Seq<char>)
    ensures
        ({
            let t = trim(body);
            let r = preview_text(body);
            &&& t.len() == 0 ==> r == "<empty body>"@
            &&& 0 < t.len() <= RESPONSE_PREVIEW_CHARS ==> r == t
            &&& t.len() > RESPONSE_PREVIEW_CHARS ==> {
                &&& r.subrange(0, RESPONSE_PREVIEW_CHARS as int) == t.subrange(0, RESPONSE_PREVIEW_CHARS as int)
                &&& r.len() == RESPONSE_PREVIEW_CHARS + "\n...<truncated>"@.len()
                &&& "\n...<truncated>"@.is_suffix_of(r)
            }
        }),
{
    let t = trim(body);
    if t.len() > RESPONSE_PREVIEW_CHARS {
        let m = "\n...<truncated>"@;
        let r = t.subrange(0, RESPONSE_PREVIEW_CHARS as int) + m;
        assert(r.subrange(0, RESPONSE_PREVIEW_CHARS as int) =~= t.subrange(0, RESPONSE_PREVIEW_CHARS as int));
        assert(r.subrange(r.len() - m.len(), r.len() as int) =~= m);
        assert(r.len() > 0);
    }
}

pub fn response_preview(body: &str) -> (r: String)
    ensures
        r@ == preview_text(body@),
{
    let t = trim_chars(chars_of(body).as_slice());
    let mut p: Vec<char> = if t.len() > RESPONSE_PREVIEW_CHARS {
        slice_range(t.as_slice(), 0, RESPONSE_PREVIEW_CHARS)
    } else {
        slice_range(t.as_slice(), 0, t.len())
    };
    assert(t@.subrange(0, t@.len() as int) == t@);
    if t.len() > RESPONSE_PREVIEW_CHARS {
        append_chars(&mut p, chars_of("\n...<truncated>").as_slice());
    }
    if p.len() == 0 {
        string_of(chars_of("<empty body>").as_slice())
    } else {
        string_of(p.as_slice())
    }
}

/// A commit message as read from a reply's content: trimmed, stripped of
/// backticks at both ends, and trimmed again.
pub open spec fn cleaned_message(content: Seq<char>) -> Seq<char> {
    trim(trim_char(trim(content), '`'))
}

/// What a reply yields, given what the JSON parser made of its body.
pub open spec fn reply_outcome(
    parsed: Result<JsonValue, Seq<char>>,
    body: Seq<char>,
    url: Seq<char>,
    status: u16,
    content_type: Option<Seq<char>>,
) -> Result<Seq<char>, LlmFailure> {
    let decoded = match parsed {
        Ok(v) => reply_content(v),
        Err(m) => Err(m),
    };
    match decoded {
        Err(detail) => Err(LlmFailure::Unparsable {
            url: url,
            status: status,
            content_type: content_type,
            detail: detail,
            preview: preview_text(body),
        }),
        Ok(None) => Err(LlmFailure::NoChoices),
        Ok(Some(content)) => {
            let c = cleaned_message(match content {
                Some(t) => t,
                None => Seq::empty(),
            });
            if c.len() == 0 {
                Err(LlmFailure::EmptyMessage)
            } else {
                Ok(c)
            }
        },
    }
}

pub open spec fn message_view(r: Result<String, LlmError>) -> Result<Seq<char>, LlmFailure> {
    match r {
        Ok(m) => Ok(m@),
        Err(e) => Err(e@),
    }
}

pub open spec fn parsed_view(p: Result<JsonValue, String>) -> Result<JsonValue, Seq<char>> {
    match p {
        Ok(v) => Ok(v),
        Err(m) => Err(m@),
    }
}

fn owned_text(o: Option<&str>) -> (r: Option<String>)
    ensures
        opt_view(r) == opt_str_view(o),
{
    match o {
        Some(s) => Some(string_of(chars_of(s).as_slice())),
        None => None,
    }
}

/// A commit message read from a reply is never empty and has no white space
/// at either end.
pub proof fn law_reply_message_is_trimmed(
    parsed: Result<JsonValue, Seq<char>>,
    body: Seq<char>,
    url: Seq<char>,
    status: u16,
    content_type: Option<Seq<char>>,
)
    ensures
        reply_outcome(parsed, body, url, status, content_type) matches Ok(m) ==> m.len() > 0 && trim(m) == m,
{
    if let Ok(m) = reply_outcome(parsed, body, url, status, content_type) {
        let content = match parsed {
            Ok(v) => reply_content(v)->Ok_0->Some_0,
            Err(_) => None,
        };
        let c = match content {
            Some(t) => t,
            None => Seq::<char>::empty(),
        };
        lemma_trim_idempotent(trim_char(trim(c), '`'));
    }
}

/// The commit message of a reply whose body the JSON parser read as `parsed`.
pub fn commit_message_from_reply(
    parsed: Result<JsonValue, String>,
    body: &str,
    url: &str,
    status: u16,
    content_type: Option<&str>,
) -> (r: Result<String, LlmError>)
    ensures
        message_view(r) == reply_outcome(parsed_view(parsed), body@, url@, status, opt_str_view(content_type)),
{
    let decoded = match &parsed {
        Ok(v) => read_reply(v),
        Err(m) => Err(string_of(chars_of(m.as_str()).as_slice())),
    };
    match decoded {
        Err(detail) => Err(LlmError::Unparsable {
            url: string_of(chars_of(url).as_slice()),
            status: status,
            content_type: owned_text(content_type),
            detail: detail,
            preview: response_preview(body),
        }),
        Ok(None) => Err(LlmError::NoChoices),
        Ok(Some(content)) => {
            let text = match content {
                Some(t) => chars_of(t.as_str()),
                None => Vec::new(),
            };
            let once = trim_chars(text.as_slice());
            let unfenced = trim_char_exec(once.as_slice(), '`');
            let c = trim_chars(unfenced.as_slice());
            if c.len() == 0 {
                Err(LlmError::EmptyMessage)
            } else {
                Ok(string_of(c.as_slice()))
            }
        },
    }
}

/// Reads the commit message out of a chat completion reply; `url`, `status`
/// and `content_type` only enter the error message.
pub fn parse_commit_message_response(body: &str, url: &str, status: u16, content_type: Option<&str>) -> (r: Result<String, LlmError>)
    ensures
        message_view(r) == reply_outcome(json_parse(body@), body@, url@, status, opt_str_view(content_type)),
{
    let parsed = parse_json(body);
    commit_message_from_reply(parsed, body, url, status, content_type)
}

/// `parse_commit_message_response` with no request context.
pub fn parse_commit_message(body: &str) -> (r: Result<String, LlmError>)
    ensures
        message_view(r) == reply_outcome(json_parse(body@), body@, "<unknown>"@, 200, None),
{
    parse_commit_message_response(body, "<unknown>", 200, None)
}

/// Whether an error is the empty-message one, compared by its text as the
/// retry loop does.
pub fn is_empty_llm_response_error(error: &LlmError) -> (r: bool)
    ensures
        r == (error@.text() == "LLM returned an empty commit message"@),
{
    let text = chars_of(error.message().as_str());
    chars_equal(text.as_slice(), chars_of("LLM returned an empty commit message").as_slice())
}

/// The words in a rejection that say a field is not accepted.
pub open spec fn rejection_markers() -> Seq<Seq<char>> {
    seq![
        "unsupported"@, "not supported"@, "does not support"@, "unknown"@, "unrecognized"@,
        "invalid"@, "not allowed"@, "unavailable"@, "not available"@,
    ]
}

/// A rejected request is asked again without `reasoning_effort` when it was
/// refused as a bad request (400 or 422) and its body, ASCII lower-cased,
/// speaks of "effort" and says it is not accepted.
pub open spec fn rejects_effort(status: u16, body: Seq<char>) -> bool {
    let normalized = ascii_lowercase(body);
    &&& (status == 400 || status == 422)
    &&& contains_sub(normalized, "effort"@)
    &&& exists|i: int| 0 <= i < rejection_markers().len() && contains_sub(normalized, #[trigger] rejection_markers()[i])
}

pub fn should_retry_without_effort(status: u16, body: &str) -> (r: bool)
    ensures
        r == rejects_effort(status, body@),
{
    if status != 400 && status != 422 {
        return false;
    }
    let normalized = ascii_lowercase_chars(chars_of(body).as_slice());
    let mentions_effort = contains_chars(normalized.as_slice(), chars_of("effort").as_slice());
    let markers: Vec<&str> = vec![
        "unsupported", "not supported", "does not support", "unknown", "unrecognized", "invalid",
        "not allowed", "unavailable", "not available",
    ];
    assert(markers@.map_values(|m: &str| m@) =~= rejection_markers());
    let mut rejects = false;
    let mut i: usize = 0;
    while i < markers.len()
        invariant
            i <= markers@.len(),
            markers@.map_values(|m: &str| m@) == rejection_markers(),
            rejects == exists|j: int| 0 <= j < i && contains_sub(normalized@, #[trigger] rejection_markers()[j]),
        decreases markers.len() - i,
    {
        assert(markers@.map_values(|m: &str| m@)[i as int] == markers@[i as int]@);
        if contains_chars(normalized.as_slice(), chars_of(markers[i]).as_slice()) {
            rejects = true;
        }
        i = i + 1;
    }
    mentions_effort && rejects
}

/// The user message of a request: the prompt, a blank line, `Git diff:` and
/// the diff.
pub open spec fn user_content(prompt: Seq<char>, diff: Seq<char>) -> Seq<char> {
    prompt + "\n\nGit diff:\n"@ + diff
}

/// The user message starts with the prompt and ends with the diff, whole,
/// after a line `Git diff:`.
pub proof fn law_user_content_holds_prompt_and_diff(prompt: Seq<char>, diff: Seq<char>)
    ensures
        prompt.is_prefix_of(user_content(prompt, diff)),
        ("\nGit diff:\n"@ + diff).is_suffix_of(user_content(prompt, diff)),
        user_content(prompt, diff).len() == prompt.len() + diff.len() + 12,
{
    reveal_strlit("\n\nGit diff:\n");
    reveal_strlit("\nGit diff:\n");
    let u = user_content(prompt, diff);
    let tail = "\nGit diff:\n"@ + diff;
    assert(u.subrange(0, prompt.len() as int) =~= prompt);
    assert(u.subrange(u.len() - tail.len(), u.len() as int) =~= tail);
}

/// The user message, refused when it reaches the chat message limit.
pub fn chat_user_content(prompt: &str, diff: &str) -> (r: Result<String, LlmError>)
    ensures
        match r {
            Ok(c) => c@ == user_content(prompt@, diff@) && user_content(prompt@, diff@).len() < CHAT_MESSAGE_CHAR_LIMIT,
            Err(e) => e@ == LlmFailure::TooLarge(user_content(prompt@, diff@).len())
                && user_content(prompt@, diff@).len() >= CHAT_MESSAGE_CHAR_LIMIT,
        },
{
    let mut c: Vec<char> = chars_of(prompt);
    append_chars(&mut c, chars_of("\n\nGit diff:\n").as_slice());
    append_chars(&mut c, chars_of(diff).as_slice());
    if c.len() >= CHAT_MESSAGE_CHAR_LIMIT {
        Err(LlmError::TooLarge { chars: c.len() })
    } else {
        Ok(string_of(c.as_slice()))
    }
}

/// A header line `Name: value` split at its first `:`, both sides trimmed.
pub open spec fn header_parts(header: Seq<char>) -> Option<(Seq<char>, Seq<char>)> {
    match find_char(header, ':') {
        Some(i) => Some((trim(header.subrange(0, i)), trim(header.subrange(i + 1, header.len() as int)))),
        None => None,
    }
}

/// A header written `Name: value`, with a name that holds no `:`, is read as
/// that name and value, each without surrounding white space; the value
/// keeps any further `:`. A line without `:` is no header.
pub proof fn law_header_splits_at_first_colon(name: Seq<char>, value: Seq<char>)
    requires
        forall|i: int| 0 <= i < name.len() ==> name[i] != ':',
    ensures
        header_parts(name + ":"@ + value) == Some((trim(name), trim(value))),
        header_parts(name) is None,
{
    reveal_strlit(":");
    let h = name + ":"@ + value;
    let k = name.len() as int;
    assert(h[k] == ':');
    let f = find_char(h, ':')->Some_0;
    assert(f == k) by {
        if f < k {
            assert(h[f] == name[f]);
        }
        if f > k {
            assert(h[k] != ':');
        }
    }
    assert(h.subrange(0, k) =~= name);
    assert(h.subrange(k + 1, h.len() as int) =~= value);
}

pub fn parse_header(header: &str) -> (r: Result<(String, String), LlmError>)
    ensures
        match r {
            Ok((name, value)) => header_parts(header@) == Some((name@, value@)),
            Err(e) => header_parts(header@) is None && e@ == LlmFailure::InvalidHeader(header@),
        },
{
    let h = chars_of(header);
    let n: usize = h.len();
    match find_char_exec(h.as_slice(), ':') {
        Some(i) => {
            assert(i < n);
            let name = trim_chars(slice_range(h.as_slice(), 0, i).as_slice());
            let value = trim_chars(slice_range(h.as_slice(), i + 1, h.len()).as_slice());
            Ok((string_of(name.as_slice()), string_of(value.as_slice())))
        },
        None => Err(LlmError::InvalidHeader { header: string_of(h.as_slice()) }),
    }
}

/// Every configured header split, or the first one that has no `:`.
pub open spec fn headers_outcome(headers: Seq<Seq<char>>) -> Result<Seq<(Seq<char>, Seq<char>)>, Seq<char>>
    decreases headers.len(),
{
    if headers.len() == 0 {
        Ok(Seq::empty())
    } else {
        match headers_outcome(headers.drop_last()) {
            Err(h) => Err(h),
            Ok(done) => match header_parts(headers.last()) {
                Some(p) => Ok(done.push(p)),
                None => Err(headers.last()),
            },
        }
    }
}

proof fn lemma_headers_error_stays(headers: Seq<Seq<char>>, k: int)
    requires
        0 <= k <= headers.len(),
        headers_outcome(headers.subrange(0, k)) is Err,
    ensures
        headers_outcome(headers) == headers_outcome(headers.subrange(0, k)),
    decreases headers.len(),
{
    if k == headers.len() {
        assert(headers.subrange(0, k) == headers);
    } else {
        assert(headers.drop_last().subrange(0, k) == headers.subrange(0, k));
        lemma_headers_error_stays(headers.drop_last(), k);
    }
}

pub open spec fn pairs_view(v: Vec<(String, String)>) -> Seq<(Seq<char>, Seq<char>)> {
    v@.map_values(|p: (String, String)| (p.0@, p.1@))
}

pub fn parse_headers(headers: &Vec<String>) -> (r: Result<Vec<(String, String)>, LlmError>)
    ensures
        match r {
            Ok(pairs) => headers_outcome(headers.deep_view()) == Ok::<Seq<(Seq<char>, Seq<char>)>, Seq<char>>(pairs_view(pairs)),
            Err(e) => exists|h: Seq<char>| headers_outcome(headers.deep_view()) == Err::<Seq<(Seq<char>, Seq<char>)>, Seq<char>>(h)
                && e@ == LlmFailure::InvalidHeader(h),
        },
{
    let n: usize = headers.len();
    let mut pairs: Vec<(String, String)> = Vec::new();
    let mut i: usize = 0;
    assert(pairs_view(pairs) =~= Seq::<(Seq<char>, Seq<char>)>::empty());
    assert(headers.deep_view().subrange(0, 0) =~= Seq::<Seq<char>>::empty());
    while i < n
        invariant
            i <= n == headers.deep_view().len(),
            headers_outcome(headers.deep_view().subrange(0, i as int)) == Ok::<Seq<(Seq<char>, Seq<char>)>, Seq<char>>(pairs_view(pairs)),
        decreases n - i,
    {
        let ghost pre = headers.deep_view().subrange(0, i as int);
        let ghost now = headers.deep_view().subrange(0, i + 1);
        assert(now.drop_last() == pre);
        assert(now.last() == headers[i as int]@);
        match parse_header(headers[i].as_str()) {
            Ok(p) => {
                let ghost before = pairs_view(pairs);
                let ghost pv = (p.0@, p.1@);
                pairs.push(p);
                assert(pairs_view(pairs) =~= before.push(pv));
            },
            Err(e) => {
                proof {
                    lemma_headers_error_stays(headers.deep_view(), i + 1);
                }
                return Err(e);
            },
        }
        i = i + 1;
    }
    assert(headers.deep_view().subrange(0, n as int) == headers.deep_view());
    Ok(pairs)
}

/// Where a chat exchange stands between two requests.
#[derive(Clone, Copy, Debug, PartialEq, Eq)]
pub struct ChatAttempt {
    /// The `reasoning_effort` the next request carries.
    pub effort: Option<ReasoningEffort>,
    /// Whether the request was already repeated without the effort.
    pub used_effort_fallback: bool,
    /// How many empty replies were asked for again.
    pub empty_response_attempts: usize,
}

/// What the service answered to one request.
#[derive(Clone, Debug, PartialEq, Eq)]
pub struct ChatReply {
    pub status: u16,
    pub content_type: Option<String>,
    pub body: String,
}

/// What to do after a reply.
#[derive(Clone, Debug, PartialEq, Eq)]
pub enum ChatStep {
    /// Send the request again, in this state.
    Retry(ChatAttempt),
    /// The commit message.
    Done(String),
    /// Give up with this error.
    Fail(LlmError),
}

/// A `ChatStep` as plain values.
pub enum ChatStepView {
    Retry(ChatAttempt),
    Done(Seq<char>),
    Fail(LlmFailure),
}

impl View for ChatStep {
    type V = ChatStepView;

    open spec fn view(&self) -> ChatStepView {
        match self {
            ChatStep::Retry(a) => ChatStepView::Retry(*a),
            ChatStep::Done(m) => ChatStepView::Done(m@),
            ChatStep::Fail(e) => ChatStepView::Fail(e@),
        }
    }
}

impl ChatAttempt {
    /// No more empty replies were retried than allowed.
    pub open spec fn wf(self) -> bool {
        self.empty_response_attempts <= EMPTY_LLM_RESPONSE_RETRIES
    }

    /// How many more requests the exchange may still send after the next.
    pub open spec fn retries_left(self) -> nat {
        (if self.effort is Some && !self.used_effort_fallback { 1nat } else { 0nat })
            + (EMPTY_LLM_RESPONSE_RETRIES - self.empty_response_attempts) as nat
    }

    /// The state before the first request.
    pub fn first(effort: Option<ReasoningEffort>) -> (r: ChatAttempt)
        ensures
            r == (ChatAttempt { effort: effort, used_effort_fallback: false, empty_response_attempts: 0 }),
            r.wf(),
    {
        ChatAttempt { effort: effort, used_effort_fallback: false, empty_response_attempts: 0 }
    }
}

/// The next step once a successful reply was read into `outcome`: an empty
/// message is asked for again while retries are left.
pub open spec fn step_after_outcome(a: ChatAttempt, outcome: Result<Seq<char>, LlmFailure>) -> ChatStepView {
    match outcome {
        Ok(m) => ChatStepView::Done(m),
        Err(f) => if f.text() == "LLM returned an empty commit message"@
            && a.empty_response_attempts < EMPTY_LLM_RESPONSE_RETRIES {
            ChatStepView::Retry(ChatAttempt { empty_response_attempts: (a.empty_response_attempts + 1) as usize, ..a })
        } else {
            ChatStepView::Fail(f)
        },
    }
}

/// The next step after a reply with `status`, `content_type` and `body` to
/// a request sent to `url` in state `a`.
pub open spec fn chat_step(a: ChatAttempt, url: Seq<char>, status: u16, content_type: Option<Seq<char>>, body: Seq<char>) -> ChatStepView {
    if !(200 <= status && status < 300) {
        if a.effort is Some && !a.used_effort_fallback && rejects_effort(status, body) {
            ChatStepView::Retry(ChatAttempt { effort: None, used_effort_fallback: true, ..a })
        } else {
            ChatStepView::Fail(LlmFailure::RequestFailed {
                url: url,
                status: status,
                content_type: content_type,
                preview: preview_text(body),
            })
        }
    } else {
        step_after_outcome(a, reply_outcome(json_parse(body), body, url, status, content_type))
    }
}

/// The step after a successful reply whose reading gave `outcome`.
pub fn step_after_reply(a: ChatAttempt, outcome: Result<String, LlmError>) -> (r: ChatStep)
    requires
        a.wf(),
    ensures
        r@ == step_after_outcome(a, message_view(outcome)),
{
    match outcome {
        Ok(m) => ChatStep::Done(m),
        Err(e) => {
            if is_empty_llm_response_error(&e) && a.empty_response_attempts < EMPTY_LLM_RESPONSE_RETRIES {
                ChatStep::Retry(ChatAttempt { empty_response_attempts: a.empty_response_attempts + 1, ..a })
            } else {
                ChatStep::Fail(e)
            }
        },
    }
}

/// Decides what follows a reply: retry without the effort when it was
/// rejected for it, fail on any other refusal, and otherwise read the
/// commit message, retrying an empty one.
pub fn next_chat_step(a: ChatAttempt, url: &str, reply: &ChatReply) -> (r: ChatStep)
    requires
        a.wf(),
    ensures
        r@ == chat_step(a, url@, reply.status, opt_view(reply.content_type), reply.body@),
        match r@ {
            ChatStepView::Retry(next) => next.wf() && next.retries_left() < a.retries_left(),
            _ => true,
        },
{
    let status = reply.status;
    if !(200 <= status && status < 300) {
        if a.effort.is_some() && !a.used_effort_fallback && should_retry_without_effort(status, reply.body.as_str()) {
            return ChatStep::Retry(ChatAttempt { effort: None, used_effort_fallback: true, ..a });
        }
        return ChatStep::Fail(LlmError::RequestFailed {
            url: string_of(chars_of(url).as_slice()),
            status: status,
            content_type: match &reply.content_type {
                Some(c) => Some(string_of(chars_of(c.as_str()).as_slice())),
                None => None,
            },
            preview: response_preview(reply.body.as_str()),
        });
    }
    let content_type: Option<&str> = match &reply.content_type {
        Some(c) => Some(c.as_str()),
        None => None,
    };
    let outcome = parse_commit_message_response(reply.body.as_str(), url, status, content_type);
    step_after_reply(a, outcome)
}

/// Every retry spends one of the exchange's finitely many retries, so an
/// exchange that starts from `ChatAttempt::first` sends at most
/// `2 + EMPTY_LLM_RESPONSE_RETRIES` requests.
pub proof fn law_chat_retries_run_out(a: ChatAttempt, url: Seq<char>, status: u16, content_type: Option<Seq<char>>, body: Seq<char>)
    requires
        a.wf(),
    ensures
        match chat_step(a, url, status, content_type, body) {
            ChatStepView::Retry(next) => next.wf() && next.retries_left() < a.retries_left(),
            _ => true,
        },
        a.retries_left() <= 1 + EMPTY_LLM_RESPONSE_RETRIES,
{
}

/// Where an exchange that starts in state `a` ends when the service gives
/// `replies` (status, content type and body) in order: the index of the
/// reply after which it stops and its last step, or `None` when the
/// replies run out first.
pub open spec fn exchange_end(
    a: ChatAttempt,
    url: Seq<char>,
    replies: Seq<(u16, Option<Seq<char>>, Seq<char>)>,
) -> Option<(nat, ChatStepView)>
    decreases replies.len(),
{
    if replies.len() == 0 {
        None
    } else {
        let r = replies[0];
        match chat_step(a, url, r.0, r.1, r.2) {
            ChatStepView::Retry(next) => match exchange_end(next, url, replies.drop_first()) {
                Some(end) => Some(((end.0 + 1) as nat, end.1)),
                None => None,
            },
            step => Some((0nat, step)),
        }
    }
}

/// Whatever the service answers, an exchange sends at most
/// `1 + a.retries_left()` requests (at most `2 + EMPTY_LLM_RESPONSE_RETRIES`
/// from `ChatAttempt::first`), then ends with a commit message, which is
/// non-empty and trimmed, or with an error.
pub proof fn law_chat_exchange_ends(a: ChatAttempt, url: Seq<char>, replies: Seq<(u16, Option<Seq<char>>, Seq<char>)>)
    requires
        a.wf(),
        replies.len() > a.retries_left(),
    ensures
        exchange_end(a, url, replies) matches Some(end)
            && end.0 <= a.retries_left()
            && !(end.1 is Retry)
            && (end.1 matches ChatStepView::Done(m) ==> m.len() > 0 && trim(m) == m),
    decreases replies.len(),
{
    let r = replies[0];
    law_chat_retries_run_out(a, url, r.0, r.1, r.2);
    match chat_step(a, url, r.0, r.1, r.2) {
        ChatStepView::Retry(next) => {
            law_chat_exchange_ends(next, url, replies.drop_first());
        },
        _ => {
            if 200 <= r.0 && r.0 < 300 {
                law_reply_message_is_trimmed(json_parse(r.2), r.2, url, r.0, r.1);
            }
        },
    }
}

/// What a reply yields does not depend on the request URL, the status or
/// the content type when it is a commit message: those enter error
/// messages only.
pub proof fn law_reply_message_ignores_context(
    parsed: Result<JsonValue, Seq<char>>,
    body: Seq<char>,
    url: Seq<char>,
    status: u16,
    content_type: Option<Seq<char>>,
    other_url: Seq<char>,
    other_status: u16,
    other_content_type: Option<Seq<char>>,
)
    requires
        reply_outcome(parsed, body, url, status, content_type) is Ok,
    ensures
        reply_outcome(parsed, body, other_url, other_status, other_content_type)
            == reply_outcome(parsed, body, url, status, content_type),
{
}

} // verus!
