//! The two text conversions of std that turn the raw bytes of a DNS label
//! into the text of a domain name.
use vstd::prelude::*;
use vstd::utf8::*;

verus! {

/// The text that `String::from_utf8_lossy` makes of these bytes.
pub uninterp spec fn utf8_lossy(bytes: Seq<u8>) -> Seq<char>;

/// The text that `str::to_lowercase` makes of these characters.
pub uninterp spec fn lowercase(chars: Seq<char>) -> Seq<char>;

/// ASCII lowercasing: 'A'..='Z' become 'a'..='z', every other character stays.
pub open spec fn ascii_lower(chars: Seq<char>) -> Seq<char> {
    chars.map_values(
        |c: char|
            if 'A' <= c && c <= 'Z' {
                ((c as u32) + 32) as char
            } else {
                c
            },
    )
}

/// Calls `String::from_utf8_lossy` (then takes the owned string).
/// Trusted: the result is the named text of the bytes, and, as std documents,
/// bytes that are valid UTF-8 are decoded unchanged (only invalid sequences
/// are replaced by U+FFFD).
#[verifier::external_body]
pub(crate) fn from_utf8_lossy(bytes: &[u8]) -> (s: String)
    ensures
        s@ == utf8_lossy(bytes@),
        valid_utf8(bytes@) ==> s@ == decode_utf8(bytes@),
{
    String::from_utf8_lossy(bytes).into_owned()
}

/// Calls `str::to_lowercase`.
/// Trusted: the result is the named lowercase text, and on ASCII text it is
/// the ASCII lowercase (the Unicode lowercase mapping that std documents maps
/// 'A'..='Z' to 'a'..='z' and leaves the other ASCII characters alone).
#[verifier::external_body]
pub(crate) fn to_lowercase(s: &str) -> (r: String)
    ensures
        r@ == lowercase(s@),
        is_ascii_chars(s@) ==> r@ == ascii_lower(s@),
{
    s.to_lowercase()
}

} // verus!
