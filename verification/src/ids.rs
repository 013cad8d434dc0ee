//! Identifiers of devices, workspaces and entities.

use uuid::Uuid;
use vstd::prelude::*;

verus! {

/// A hexadecimal digit in either case.
pub open spec fn any_hex_digit(character: char) -> bool {
    ('0' <= character <= '9') || ('a' <= character <= 'f') || ('A' <= character <= 'F')
}

/// Thirty-two hexadecimal digits in five groups: of eight, four, four, four and twelve.
pub open spec fn hyphenated_uuid(text: Seq<char>) -> bool {
    &&& text.len() == 36
    &&& forall|i: int|
        0 <= i < 36 ==> if i == 8 || i == 13 || i == 18 || i == 23 {
            #[trigger] text[i] == '-'
        } else {
            any_hex_digit(text[i])
        }
}

/// The text `urn:uuid:` in either case.
pub open spec fn urn_prefix(text: Seq<char>) -> bool {
    let name = "urn:uuid:"@;
    &&& text.len() == 9
    &&& forall|i: int|
        0 <= i < 9 ==> #[trigger] text[i] == name[i] || (name[i] != ':' && text[i] as int
            == name[i] as int - 32)
}

/// The text forms of a UUID: plain digits, hyphenated, in braces, or as a URN.
pub open spec fn uuid_text(text: Seq<char>) -> bool {
    ||| text.len() == 32 && forall|i: int| 0 <= i < 32 ==> any_hex_digit(#[trigger] text[i])
    ||| hyphenated_uuid(text)
    ||| text.len() == 38 && text[0] == '{' && text[37] == '}' && hyphenated_uuid(
        text.subrange(1, 37),
    )
    ||| text.len() == 45 && urn_prefix(text.take(9)) && hyphenated_uuid(text.skip(9))
}

/// `Uuid::parse_str` accepts exactly the text forms of a UUID.
#[verifier::external_body]
pub(crate) fn is_uuid(text: &str) -> (valid: bool)
    ensures
        valid == uuid_text(text@),
{
    Uuid::parse_str(text).is_ok()
}

/// `Uuid::new_v4` draws a random UUID, which prints in hyphenated form with its version.
#[verifier::external_body]
pub(crate) fn new_uuid() -> (text: String)
    ensures
        hyphenated_uuid(text@),
        text@[14] == '4',
{
    Uuid::new_v4().to_string()
}

} // verus!
