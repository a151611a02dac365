//! Trusted bindings to the legacy-encoding crates.
//!
//! Every lookup and decoding step that the parsers delegate to an outside
//! crate goes through exactly one wrapper in this module.  The tables and
//! algorithms behind the wrappers are pure: the result depends on the
//! arguments alone, so each result is given a name (an uninterpreted spec
//! function) that the parsers' contracts are stated over.

use vstd::prelude::*;

verus! {

/// What `kradical_jis::jis213_to_utf8` returns for a JIS X 0213 code:
/// `None` when the table has no entry, otherwise the Unicode text.
pub uninterp spec fn jis213(code: u32) -> Option<Seq<char>>;

/// What `kradical_jis::jis212_to_utf8` returns for a JIS X 0212 code:
/// `None` when the table has no entry, otherwise the Unicode character.
pub uninterp spec fn jis212(code: u16) -> Option<char>;

/// What the `encoding` crate's EUC-JP decoder returns for a byte run.
/// With `lossy` false the decode is strict and `None` marks a malformed
/// sequence; with `lossy` true malformed sequences degrade to replacement
/// characters inside the text.
pub uninterp spec fn eucjp(bytes: Seq<u8>, lossy: bool) -> Option<Seq<char>>;

/// How `unicode_segmentation` splits text into user-perceived grapheme
/// clusters.
pub uninterp spec fn graphemes(text: Seq<char>) -> Seq<Seq<char>>;

/// Relies on `kradical_jis::jis213_to_utf8`: a pure lookup in the
/// JIS X 0213 to Unicode table.
#[verifier::external_body]
pub fn jis213_lookup(code: u32) -> (r: Option<&'static str>)
    ensures
        (match r {
            Some(s) => jis213(code) == Some(s@),
            None => jis213(code) is None,
        }),
{
    kradical_jis::jis213_to_utf8(code)
}

/// Relies on `kradical_jis::jis212_to_utf8`: a pure lookup in the
/// JIS X 0212 to Unicode table.
#[verifier::external_body]
pub fn jis212_lookup(code: u16) -> (r: Option<char>)
    ensures
        r == jis212(code),
{
    kradical_jis::jis212_to_utf8(code)
}

/// Relies on `encoding::codec::japanese::EUCJPEncoding` with the strict
/// decoder trap: any malformed sequence fails the whole decode.
#[verifier::external_body]
pub fn eucjp_decode_strict(b: &[u8]) -> (r: Option<String>)
    ensures
        (match r {
            Some(s) => eucjp(b@, false) == Some(s@),
            None => eucjp(b@, false) is None,
        }),
{
    encoding::Encoding::decode(&encoding::codec::japanese::EUCJPEncoding, b, encoding::DecoderTrap::Strict).ok()
}

/// Relies on `encoding::codec::japanese::EUCJPEncoding` with the replacing
/// decoder trap: malformed sequences become U+FFFD instead of failing.
#[verifier::external_body]
pub fn eucjp_decode_lossy(b: &[u8]) -> (r: Option<String>)
    ensures
        (match r {
            Some(s) => eucjp(b@, true) == Some(s@),
            None => eucjp(b@, true) is None,
        }),
{
    encoding::Encoding::decode(&encoding::codec::japanese::EUCJPEncoding, b, encoding::DecoderTrap::Replace).ok()
}

/// Relies on `String::from_utf8_lossy`: ASCII bytes are valid UTF-8 and
/// decode to the characters with the same values.
#[verifier::external_body]
pub fn ascii_to_string(b: &[u8]) -> (r: String)
    requires
        forall|i: int| 0 <= i < b@.len() ==> b@[i] < 0x80,
    ensures
        r@ == b@.map_values(|x: u8| x as char),
{
    String::from_utf8_lossy(b).into_owned()
}

/// Relies on `char::to_string`: the string holding exactly that character.
#[verifier::external_body]
pub fn char_to_string(c: char) -> (r: String)
    ensures
        r@ == seq![c],
{
    c.to_string()
}

/// Relies on `unicode_segmentation::UnicodeSegmentation::graphemes` (in
/// extended mode) to split text into grapheme clusters.
#[verifier::external_body]
pub fn split_graphemes(s: &str) -> (r: Vec<String>)
    ensures
        r.deep_view() == graphemes(s@),
{
    unicode_segmentation::UnicodeSegmentation::graphemes(s, true).map(str::to_string).collect()
}

} // verus!
