//! JSON text of note id lists, through serde_json.

use vstd::prelude::*;

use crate::text::join;

verus! {

/// The character views of a list of strings.
pub open spec fn string_views(v: Seq<String>) -> Seq<Seq<char>> {
    v.map_values(|s: String| s@)
}

/// The hexadecimal digit, in lower case, of a value below 16.
pub open spec fn hex_digit(d: u32) -> char {
    if d < 10 {
        (('0' as u32) + d) as char
    } else {
        (('a' as u32) + d - 10) as char
    }
}

/// How serde_json writes `c` inside a JSON string: `"` and `\` behind a
/// backslash; backspace, tab, line feed, form feed and carriage return as
/// `\b`, `\t`, `\n`, `\f`, `\r`; the other control characters below
/// U+0020 as `\u00` and two lower-case hexadecimal digits; every other
/// character, non-ASCII ones included, as it is.
pub open spec fn json_char_text(c: char) -> Seq<char> {
    if c == '"' {
        seq!['\\', '"']
    } else if c == '\\' {
        seq!['\\', '\\']
    } else if c == '\u{8}' {
        seq!['\\', 'b']
    } else if c == '\t' {
        seq!['\\', 't']
    } else if c == '\n' {
        seq!['\\', 'n']
    } else if c == '\u{c}' {
        seq!['\\', 'f']
    } else if c == '\r' {
        seq!['\\', 'r']
    } else if (c as u32) < 0x20 {
        seq!['\\', 'u', '0', '0', hex_digit((c as u32) / 16), hex_digit((c as u32) % 16)]
    } else {
        seq![c]
    }
}

/// The characters of `s`, each written as [`json_char_text`] says.
pub open spec fn json_escaped(s: Seq<char>) -> Seq<char>
    decreases s.len(),
{
    if s.len() == 0 {
        Seq::empty()
    } else {
        json_escaped(s.drop_last()) + json_char_text(s.last())
    }
}

/// The JSON string literal of `s`: `"`, its escaped characters, `"`.
pub open spec fn json_string_text(s: Seq<char>) -> Seq<char> {
    seq!['"'] + json_escaped(s) + seq!['"']
}

/// What `serde_json::to_string` writes for a list of strings: `[`, the string
/// literals joined by `,` with no whitespace, `]`.
pub open spec fn json_string_list(items: Seq<Seq<char>>) -> Seq<char> {
    seq!['['] + join(items.map_values(|s: Seq<char>| json_string_text(s)), seq![',']) + seq![']']
}

/// What `serde_json::from_str::<Vec<String>>` reads from a text: the list,
/// or `None` where the text is not a JSON array of strings.
pub uninterp spec fn json_string_list_parse(text: Seq<char>) -> Option<Seq<Seq<char>>>;

/// `serde_json::to_string` on a list of strings. serde_json fails only for
/// values whose `Serialize` fails or maps with non-string keys, neither of
/// which a list of strings is, so the text is always produced. It is the
/// compact JSON array of the escaped strings that [`json_string_list`]
/// spells out (serde_json's `ser.rs`: `begin_array`, `begin_array_value`,
/// `format_escaped_str` with its `ESCAPE` table and `write_char_escape`), and
/// `serde_json::from_str::<Vec<String>>` reads it back as the same list.
#[verifier::external_body]
pub(crate) fn to_json_list(items: &Vec<String>) -> (text: String)
    ensures
        text@ == json_string_list(string_views(items@)),
        json_string_list_parse(text@) == Some(string_views(items@)),
{
    serde_json::to_string(items).unwrap_or_default()
}

/// `serde_json::from_str::<Vec<String>>`: the list read from `text`, or
/// `None` where serde_json reports an error. The reading itself is named, not
/// spelled out.
#[verifier::external_body]
pub(crate) fn from_json_list(text: &str) -> (items: Option<Vec<String>>)
    ensures
        items matches Some(v) ==> json_string_list_parse(text@) == Some(string_views(v@)),
        items is None ==> json_string_list_parse(text@) is None,
{
    serde_json::from_str::<Vec<String>>(text).ok()
}

} // verus!
