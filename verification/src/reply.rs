//! Reading a chat completion reply out of a parsed JSON value: the shape
//! `{"choices": [{"message": {"content": ...}}]}`, where each struct may also
//! be written as an array of its one field, unknown members are ignored, and
//! a missing or `null` content counts as no content.

use vstd::prelude::*;
use crate::json::{JsonMember, JsonValue};
use crate::text::{append_chars, chars_equal, chars_of, debug_quoted, debug_str, find_char, find_char_exec, string_of};

verus! {

/// The value of the first member of `members` named `key`.
pub open spec fn member_value(members: Seq<JsonMember>, key: Seq<char>) -> Option<JsonValue>
    decreases members.len(),
{
    if members.len() == 0 {
        None
    } else if members[0].key@ == key {
        Some(members[0].value)
    } else {
        member_value(members.drop_first(), key)
    }
}

/// How serde writes a floating-point number in an error: its `Display`
/// text, followed by `.0` when that text has no decimal point.
pub open spec fn float_text(t: Seq<char>) -> Seq<char> {
    if find_char(t, '.') is Some { t } else { t + ".0"@ }
}

/// How an unexpected value is described in a decoding error, as serde
/// describes it: integers by their text, floating-point numbers as above,
/// strings quoted and escaped as `Debug` writes them.
pub open spec fn unexpected(v: JsonValue) -> Seq<char> {
    match v {
        JsonValue::Null => "null"@,
        JsonValue::Bool(b) => if b { "boolean `true`"@ } else { "boolean `false`"@ },
        JsonValue::Integer(n) => "integer `"@ + n@ + "`"@,
        JsonValue::Float(n) => "floating point `"@ + float_text(n@) + "`"@,
        JsonValue::Text(s) => "string "@ + debug_str(s@),
        JsonValue::Array(_) => "sequence"@,
        JsonValue::Object(_) => "map"@,
    }
}

/// The error for a value of the wrong kind.
pub open spec fn invalid_type(v: JsonValue, expected: Seq<char>) -> Seq<char> {
    "invalid type: "@ + unexpected(v) + ", expected "@ + expected
}

/// The error for a required member that is absent.
pub open spec fn missing_field(key: Seq<char>) -> Seq<char> {
    "missing field `"@ + key + "`"@
}

/// The one field `key` of a struct named `name`: from an object, the member
/// of that name if there is one; from an array, its first element (further
/// elements are refused once the field has been read, see `ended`).
pub open spec fn struct_field(v: JsonValue, key: Seq<char>, name: Seq<char>) -> Result<Option<JsonValue>, Seq<char>> {
    match v {
        JsonValue::Object(ms) => Ok(member_value(ms@, key)),
        JsonValue::Array(items) => if items@.len() >= 1 {
            Ok(Some(items@[0]))
        } else {
            Err("invalid length 0, expected struct "@ + name + " with 1 element"@)
        },
        _ => Err(invalid_type(v, "struct "@ + name)),
    }
}

/// A struct written as an array with more elements than fields.
pub open spec fn extra_elements(v: JsonValue) -> bool {
    match v {
        JsonValue::Array(items) => items@.len() > 1,
        _ => false,
    }
}

/// A struct read from `v` as `r`: when its field was read from an array
/// that holds more, the parser refuses the rest with "trailing characters",
/// after any error of the field itself.
pub open spec fn ended<T>(v: JsonValue, r: Result<T, Seq<char>>) -> Result<T, Seq<char>> {
    match r {
        Ok(x) => if extra_elements(v) { Err("trailing characters"@) } else { Ok(x) },
        Err(e) => Err(e),
    }
}

/// The content of a choice's message: absent or `null` is `None`.
pub open spec fn message_content(v: JsonValue) -> Result<Option<Seq<char>>, Seq<char>> {
    ended(v, match struct_field(v, "content"@, "ChatChoiceMessage"@) {
        Err(e) => Err(e),
        Ok(None) => Ok(None),
        Ok(Some(c)) => match c {
            JsonValue::Null => Ok(None),
            JsonValue::Text(s) => Ok(Some(s@)),
            _ => Err(invalid_type(c, "a string"@)),
        },
    })
}

/// The content of one choice, whose message is required.
pub open spec fn choice_content(v: JsonValue) -> Result<Option<Seq<char>>, Seq<char>> {
    ended(v, match struct_field(v, "message"@, "ChatChoice"@) {
        Err(e) => Err(e),
        Ok(None) => Err(missing_field("message"@)),
        Ok(Some(m)) => message_content(m),
    })
}

/// Every choice must decode; the result is the first one's content, or
/// `None` when there is no choice. The first error in order wins.
pub open spec fn first_choice_content(items: Seq<JsonValue>) -> Result<Option<Option<Seq<char>>>, Seq<char>>
    decreases items.len(),
{
    if items.len() == 0 {
        Ok(None)
    } else {
        match first_choice_content(items.drop_last()) {
            Err(e) => Err(e),
            Ok(first) => match choice_content(items.last()) {
                Err(e) => Err(e),
                Ok(c) => Ok(if items.len() == 1 { Some(c) } else { first }),
            },
        }
    }
}

/// Once a prefix of the choices fails to decode, the whole list fails with
/// the same error.
proof fn lemma_first_choice_error_stays(items: Seq<JsonValue>, k: int)
    requires
        0 <= k <= items.len(),
        first_choice_content(items.subrange(0, k)) is Err,
    ensures
        first_choice_content(items) == first_choice_content(items.subrange(0, k)),
    decreases items.len(),
{
    if k == items.len() {
        assert(items.subrange(0, k) == items);
    } else {
        assert(items.drop_last().subrange(0, k) == items.subrange(0, k));
        lemma_first_choice_error_stays(items.drop_last(), k);
    }
}

/// The reply decoded: `Ok(None)` for an empty `choices` list, `Ok(Some(c))`
/// with the first choice's content, or the decoding error.
pub open spec fn reply_content(v: JsonValue) -> Result<Option<Option<Seq<char>>>, Seq<char>> {
    ended(v, match struct_field(v, "choices"@, "ChatResponse"@) {
        Err(e) => Err(e),
        Ok(None) => Err(missing_field("choices"@)),
        Ok(Some(c)) => match c {
            JsonValue::Array(items) => first_choice_content(items@),
            _ => Err(invalid_type(c, "a sequence"@)),
        },
    })
}

pub open spec fn text_view(o: Option<String>) -> Option<Seq<char>> {
    match o {
        Some(s) => Some(s@),
        None => None,
    }
}

pub open spec fn field_view(r: Result<Option<&JsonValue>, String>) -> Result<Option<JsonValue>, Seq<char>> {
    match r {
        Ok(Some(x)) => Ok(Some(*x)),
        Ok(None) => Ok(None),
        Err(e) => Err(e@),
    }
}

pub open spec fn content_view(r: Result<Option<String>, String>) -> Result<Option<Seq<char>>, Seq<char>> {
    match r {
        Ok(c) => Ok(text_view(c)),
        Err(e) => Err(e@),
    }
}

pub open spec fn first_view(r: Result<Option<Option<String>>, String>) -> Result<Option<Option<Seq<char>>>, Seq<char>> {
    match r {
        Ok(Some(c)) => Ok(Some(text_view(c))),
        Ok(None) => Ok(None),
        Err(e) => Err(e@),
    }
}

/// The first member named `key`.
pub fn find_member<'a>(members: &'a Vec<JsonMember>, key: &[char]) -> (r: Option<&'a JsonValue>)
    ensures
        match r {
            Some(x) => member_value(members@, key@) == Some(*x),
            None => member_value(members@, key@) is None,
        },
{
    let n: usize = members.len();
    let mut i: usize = 0;
    assert(members@.subrange(0, n as int) == members@);
    while i < n
        invariant
            i <= n == members@.len(),
            member_value(members@, key@) == member_value(members@.subrange(i as int, n as int), key@),
        decreases n - i,
    {
        let ghost rest = members@.subrange(i as int, n as int);
        assert(rest[0] == members@[i as int]);
        assert(rest.drop_first() == members@.subrange(i + 1, n as int));
        let name = chars_of(members[i].key.as_str());
        if chars_equal(name.as_slice(), key) {
            return Some(&members[i].value);
        }
        i = i + 1;
    }
    None
}

/// The description of `v` in a decoding error.
pub fn describe_unexpected(v: &JsonValue) -> (r: Vec<char>)
    ensures
        r@ == unexpected(*v),
{
    let mut r: Vec<char> = Vec::new();
    match v {
        JsonValue::Null => {
            append_chars(&mut r, chars_of("null").as_slice());
        },
        JsonValue::Bool(b) => {
            if *b {
                append_chars(&mut r, chars_of("boolean `true`").as_slice());
            } else {
                append_chars(&mut r, chars_of("boolean `false`").as_slice());
            }
        },
        JsonValue::Integer(n) => {
            append_chars(&mut r, chars_of("integer `").as_slice());
            append_chars(&mut r, chars_of(n.as_str()).as_slice());
            append_chars(&mut r, chars_of("`").as_slice());
        },
        JsonValue::Float(n) => {
            let text = chars_of(n.as_str());
            append_chars(&mut r, chars_of("floating point `").as_slice());
            append_chars(&mut r, text.as_slice());
            if find_char_exec(text.as_slice(), '.').is_none() {
                append_chars(&mut r, chars_of(".0").as_slice());
            }
            append_chars(&mut r, chars_of("`").as_slice());
        },
        JsonValue::Text(s) => {
            append_chars(&mut r, chars_of("string ").as_slice());
            append_chars(&mut r, chars_of(debug_quoted(s.as_str()).as_str()).as_slice());
        },
        JsonValue::Array(_) => {
            append_chars(&mut r, chars_of("sequence").as_slice());
        },
        JsonValue::Object(_) => {
            append_chars(&mut r, chars_of("map").as_slice());
        },
    }
    r
}

/// The error for `v` where `expected` was wanted.
pub fn invalid_type_error(v: &JsonValue, expected: &[char]) -> (r: String)
    ensures
        r@ == invalid_type(*v, expected@),
{
    let mut r: Vec<char> = chars_of("invalid type: ");
    append_chars(&mut r, describe_unexpected(v).as_slice());
    append_chars(&mut r, chars_of(", expected ").as_slice());
    append_chars(&mut r, expected);
    string_of(r.as_slice())
}

/// The error for an absent required member.
pub fn missing_field_error(key: &[char]) -> (r: String)
    ensures
        r@ == missing_field(key@),
{
    let mut r: Vec<char> = chars_of("missing field `");
    append_chars(&mut r, key);
    append_chars(&mut r, chars_of("`").as_slice());
    string_of(r.as_slice())
}

/// The one field `key` of the struct `name` written as `v`.
pub fn read_struct_field<'a>(v: &'a JsonValue, key: &[char], name: &[char]) -> (r: Result<Option<&'a JsonValue>, String>)
    ensures
        field_view(r) == struct_field(*v, key@, name@),
{
    match v {
        JsonValue::Object(ms) => Ok(find_member(ms, key)),
        JsonValue::Array(items) => {
            if items.len() >= 1 {
                Ok(Some(&items[0]))
            } else {
                let mut r: Vec<char> = chars_of("invalid length 0, expected struct ");
                append_chars(&mut r, name);
                append_chars(&mut r, chars_of(" with 1 element").as_slice());
                Err(string_of(r.as_slice()))
            }
        },
        _ => {
            let mut expected: Vec<char> = chars_of("struct ");
            append_chars(&mut expected, name);
            Err(invalid_type_error(v, expected.as_slice()))
        },
    }
}

/// Whether `v` is an array with more than one element.
pub fn has_extra_elements(v: &JsonValue) -> (b: bool)
    ensures
        b == extra_elements(*v),
{
    match v {
        JsonValue::Array(items) => items.len() > 1,
        _ => false,
    }
}

fn trailing_error() -> (r: String)
    ensures
        r@ == "trailing characters"@,
{
    string_of(chars_of("trailing characters").as_slice())
}

/// The content of a choice's message.
pub fn read_message_content(v: &JsonValue) -> (r: Result<Option<String>, String>)
    ensures
        content_view(r) == message_content(*v),
{
    let key = chars_of("content");
    let name = chars_of("ChatChoiceMessage");
    let r = match read_struct_field(v, key.as_slice(), name.as_slice()) {
        Err(e) => Err(e),
        Ok(None) => Ok(None),
        Ok(Some(c)) => match c {
            JsonValue::Null => Ok(None),
            JsonValue::Text(s) => Ok(Some(string_of(chars_of(s.as_str()).as_slice()))),
            _ => Err(invalid_type_error(c, chars_of("a string").as_slice())),
        },
    };
    if r.is_ok() && has_extra_elements(v) {
        return Err(trailing_error());
    }
    r
}

/// The content of one choice.
pub fn read_choice_content(v: &JsonValue) -> (r: Result<Option<String>, String>)
    ensures
        content_view(r) == choice_content(*v),
{
    let key = chars_of("message");
    let name = chars_of("ChatChoice");
    let r = match read_struct_field(v, key.as_slice(), name.as_slice()) {
        Err(e) => Err(e),
        Ok(None) => Err(missing_field_error(key.as_slice())),
        Ok(Some(m)) => read_message_content(m),
    };
    if r.is_ok() && has_extra_elements(v) {
        return Err(trailing_error());
    }
    r
}

/// Decodes every choice and keeps the first one's content.
pub fn read_first_choice(items: &Vec<JsonValue>) -> (r: Result<Option<Option<String>>, String>)
    ensures
        first_view(r) == first_choice_content(items@),
{
    let n: usize = items.len();
    let mut first: Option<Option<String>> = None;
    let mut i: usize = 0;
    while i < n
        invariant
            i <= n == items@.len(),
            first_view(Ok(first)) == first_choice_content(items@.subrange(0, i as int)),
        decreases n - i,
    {
        let ghost pre = items@.subrange(0, i as int);
        let ghost now = items@.subrange(0, i + 1);
        assert(now.drop_last() == pre);
        assert(now.last() == items@[i as int]);
        match read_choice_content(&items[i]) {
            Err(e) => {
                proof {
                    lemma_first_choice_error_stays(items@, i + 1);
                }
                return Err(e);
            },
            Ok(c) => {
                if i == 0 {
                    first = Some(c);
                }
            },
        }
        i = i + 1;
    }
    assert(items@.subrange(0, n as int) == items@);
    Ok(first)
}

/// Decodes a parsed reply.
pub fn read_reply(v: &JsonValue) -> (r: Result<Option<Option<String>>, String>)
    ensures
        first_view(r) == reply_content(*v),
{
    let key = chars_of("choices");
    let name = chars_of("ChatResponse");
    let r = match read_struct_field(v, key.as_slice(), name.as_slice()) {
        Err(e) => Err(e),
        Ok(None) => Err(missing_field_error(key.as_slice())),
        Ok(Some(c)) => match c {
            JsonValue::Array(items) => read_first_choice(items),
            _ => Err(invalid_type_error(c, chars_of("a sequence").as_slice())),
        },
    };
    if r.is_ok() && has_extra_elements(v) {
        return Err(trailing_error());
    }
    r
}

} // verus!
