//! Texts as JSON.

use vstd::prelude::*;

verus! {

/// The error of `serde_json`, of which only its presence is used.
#[verifier::external_type_specification]
#[verifier::external_body]
pub struct ExJsonError(serde_json::Error);

/// A hexadecimal digit.
pub open spec fn hex_digit(d: int) -> char {
    if d < 10 {
        (d + '0' as u32) as char
    } else {
        (d - 10 + 'a' as u32) as char
    }
}

/// A character inside a JSON string.
pub open spec fn escaped_char(c: char) -> Seq<char> {
    let code = c as u32 as int;
    if c == '"' || c == '\\' {
        seq!['\\', c]
    } else if code == 8 {
        seq!['\\', 'b']
    } else if code == 9 {
        seq!['\\', 't']
    } else if code == 10 {
        seq!['\\', 'n']
    } else if code == 12 {
        seq!['\\', 'f']
    } else if code == 13 {
        seq!['\\', 'r']
    } else if code < 32 {
        seq!['\\', 'u', '0', '0', hex_digit(code / 16), hex_digit(code % 16)]
    } else {
        seq![c]
    }
}

/// The inside of a JSON string.
pub open spec fn escaped(text: Seq<char>) -> Seq<char>
    decreases text.len(),
{
    if text.len() == 0 {
        seq![]
    } else {
        escaped(text.drop_last()) + escaped_char(text.last())
    }
}

/// A text as a JSON string.
pub open spec fn json_string(text: Seq<char>) -> Seq<char> {
    seq!['"'] + escaped(text) + seq!['"']
}

/// Calls `serde_json::to_string` on a text. Claimed is that it succeeds, a text
/// being neither a map nor of a type that may refuse to be written, and that
/// what it writes is a JSON string: the text in quotation marks, with these,
/// backslashes and control characters below the blank escaped, the latter by
/// their short forms where JSON has one.
#[verifier::external_body]
fn write_json(text: &str) -> (r: Result<String, serde_json::Error>)
    ensures
        r is Ok,
        r matches Ok(t) ==> t@ == json_string(text@),
{
    serde_json::to_string(text)
}

/// Writes a text as JSON.
pub fn to_json(text: &str) -> (r: Option<String>)
    ensures
        r matches Some(t) && t@ == json_string(text@),
{
    match write_json(text) {
        Ok(t) => Some(t),
        Err(_) => None,
    }
}

} // verus!
