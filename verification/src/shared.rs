//! The glyph decoder and grammar fragments shared by both file formats.
//!
//! A raw token of 2 bytes is a code in the legacy 94x94 codeset, looked up
//! in the JIS X 0213 table; a token of 3 bytes is a single EUC-JP sequence.
//! Radical tokens additionally consult a fixed override table first, which
//! corrects upstream codes whose literal glyph is a poor depiction of the
//! radical; kanji tokens never do.

use vstd::prelude::*;

use crate::codec::{eucjp, eucjp_decode_strict, jis213, jis213_lookup};

verus! {

/// Decoding a single glyph token failed.
#[derive(Debug, Clone, Copy, PartialEq, Eq, Structural)]
pub enum SharedError {
    /// Invalid JIS X 0213 codepoint
    Jis,
    /// Invalid EUC-JP codepoint
    EucJp,
    /// Incorrect number of bytes for JIS or EUC-JP
    Unknown,
}

/// The bytes that nom's `multispace` class accepts.
pub open spec fn is_space_byte(b: u8) -> bool {
    b == 32 || b == 9 || b == 13 || b == 10
}

/// The bytes of `u8::is_ascii_whitespace`.
pub open spec fn is_ws_byte(b: u8) -> bool {
    b == 32 || b == 9 || b == 10 || b == 12 || b == 13
}

/// The characters of `char::is_ascii_whitespace`.
pub open spec fn is_ws_char(c: char) -> bool {
    c == ' ' || c == '\t' || c == '\n' || c == '\u{0C}' || c == '\r'
}

/// The big-endian integer value of a byte run.
pub open spec fn be_value(b: Seq<u8>) -> int
    decreases b.len(),
{
    if b.len() == 0 {
        0
    } else {
        be_value(b.drop_last()) * 256 + b.last()
    }
}

/// The integer value of a 2- or 3-byte token, as the legacy tables key it.
pub fn bytes_to_u32(b: &[u8]) -> (r: u32)
    requires
        b@.len() <= 4,
    ensures
        r == be_value(b@),
{
    let mut out: u32 = 0;
    let mut i: usize = 0;
    while i < b.len()
        invariant
            i <= b@.len() <= 4,
            out == be_value(b@.subrange(0, i as int)),
            out < 0x100_0000 || i == 4,
        decreases b@.len() - i,
    {
        proof {
            assert(b@.subrange(0, i as int + 1).drop_last() =~= b@.subrange(0, i as int));
            assert(b@.subrange(0, i as int + 1).last() == b@[i as int]);
            lemma_be_value_bound(b@.subrange(0, i as int));
        }
        out = out * 256 + (b[i] as u32);
        i = i + 1;
    }
    proof {
        assert(b@.subrange(0, b@.len() as int) =~= b@);
    }
    out
}

/// The value of a byte run is bounded by 256 to the power of its length;
/// stated here only as far as the 4-byte reads need it.
proof fn lemma_be_value_bound(b: Seq<u8>)
    ensures
        0 <= be_value(b),
        b.len() == 0 ==> be_value(b) == 0,
        b.len() <= 1 ==> be_value(b) < 0x100,
        b.len() <= 2 ==> be_value(b) < 0x1_0000,
        b.len() <= 3 ==> be_value(b) < 0x100_0000,
    decreases b.len(),
{
    if b.len() > 0 {
        lemma_be_value_bound(b.drop_last());
    }
}

/// The override table for radical glyphs: legacy codes whose table glyph is
/// historically wrong or ambiguous for a radical, remapped one code at a
/// time, mostly into the Kangxi-radical and CJK-radical-supplement blocks.
pub open spec fn spec_remap_radical(code: u32) -> Option<Seq<char>> {
    if code == 0xB2BD {
        Some("\u{2E85}"@)
    } else if code == 0xD0A4 {
        Some("\u{201A2}"@)
    } else if code == 0xD6F5 {
        Some("\u{4E37}"@)
    } else if code == 0xB4A2 {
        Some("\u{2E89}"@)
    } else if code == 0xB9FE {
        Some("\u{2ECC}"@)
    } else if code == 0xBEB0 {
        Some("\u{2E8C}"@)
    } else if code == 0xCBBB {
        Some("\u{2E96}"@)
    } else if code == 0xD9A9 {
        Some("\u{624C}"@)
    } else if code == 0xBDC1 {
        Some("\u{2EA1}"@)
    } else if code == 0xC8C8 {
        Some("\u{2EA8}"@)
    } else if code == 0xE7E8 {
        Some("\u{2EBE}"@)
    } else if code == 0xCBAE {
        Some("\u{2ECF}"@)
    } else if code == 0xEFF4 {
        Some("\u{2ED6}"@)
    } else if code == 0xCFB7 {
        Some("\u{2EB9}"@)
    } else if code == 0xDBBF {
        Some("\u{2EA3}"@)
    } else if code == 0xCEE9 {
        Some("\u{2EAD}"@)
    } else if code == 0xE1CB {
        Some("\u{2F67}"@)
    } else if code == 0xE3BB {
        Some("\u{2F71}"@)
    } else if code == 0xBDE9 {
        Some("\u{2EC2}"@)
    } else if code == 0xC7E3 {
        Some("\u{2EB2}"@)
    } else if code == 0xC5A9 {
        Some("\u{5547}"@)
    } else if code == 0xB8F0 {
        Some("\u{20089}"@)
    } else {
        None
    }
}

/// A better radical glyph for the legacy codes whose table entry depicts
/// the radical poorly; `None` for every code the table entry is fine for.
pub fn remap_radical(code: u32) -> (r: Option<&'static str>)
    ensures
        (match r {
            Some(s) => spec_remap_radical(code) == Some(s@),
            None => spec_remap_radical(code) is None,
        }),
{
    match code {
        // left part of a person, as in the radical of \u{5316}
        0xB2BD => Some("\u{2E85}"),
        // roof shape; the replacement used by common dictionary servers
        0xD0A4 => Some("\u{201A2}"),
        // horns at the top; a kwukyel ideograph that depicts them
        0xD6F5 => Some("\u{4E37}"),
        // knife at the right
        0xB4A2 => Some("\u{2E89}"),
        // movement, simplified
        0xB9FE => Some("\u{2ECC}"),
        // small horns at the top
        0xBEB0 => Some("\u{2E8C}"),
        // heart at the left
        0xCBBB => Some("\u{2E96}"),
        // hand at the left, as used by the WWWJDIC server
        0xD9A9 => Some("\u{624C}"),
        // water at the left
        0xBDC1 => Some("\u{2EA1}"),
        // dog at the left
        0xC8C8 => Some("\u{2EA8}"),
        // grass at the top
        0xE7E8 => Some("\u{2EBE}"),
        // town at the right
        0xCBAE => Some("\u{2ECF}"),
        // mound at the left
        0xEFF4 => Some("\u{2ED6}"),
        // old age, top part
        0xCFB7 => Some("\u{2EB9}"),
        // fire at the bottom
        0xDBBF => Some("\u{2EA3}"),
        // spirit at the left
        0xCEE9 => Some("\u{2EAD}"),
        // sickness enclosure
        0xE1CB => Some("\u{2F67}"),
        // footprint, top part
        0xE3BB => Some("\u{2F71}"),
        // clothes at the left
        0xBDE9 => Some("\u{2EC2}"),
        // net at the top
        0xC7E3 => Some("\u{2EB2}"),
        // stem of a drooping flower
        0xC5A9 => Some("\u{5547}"),
        // person over a breath, top part
        0xB8F0 => Some("\u{20089}"),
        _ => None,
    }
}

/// What decoding a radical token yields: the override table, then the
/// JIS X 0213 table for 2-byte tokens; strict EUC-JP for 3-byte tokens.
pub open spec fn spec_decode_radical(b: Seq<u8>) -> Result<Seq<char>, SharedError> {
    if b.len() == 2 {
        let code = be_value(b) as u32;
        match spec_remap_radical(code) {
            Some(s) => Ok(s),
            None => match jis213(code) {
                Some(s) => Ok(s),
                None => Err(SharedError::Jis),
            },
        }
    } else if b.len() == 3 {
        match eucjp(b, false) {
            Some(s) => Ok(s),
            None => Err(SharedError::EucJp),
        }
    } else {
        Err(SharedError::Unknown)
    }
}

/// What decoding a kanji token yields: as for a radical token, but the
/// override table is never consulted.
pub open spec fn spec_decode_kanji(b: Seq<u8>) -> Result<Seq<char>, SharedError> {
    if b.len() == 2 {
        match jis213(be_value(b) as u32) {
            Some(s) => Ok(s),
            None => Err(SharedError::Jis),
        }
    } else if b.len() == 3 {
        match eucjp(b, false) {
            Some(s) => Ok(s),
            None => Err(SharedError::EucJp),
        }
    } else {
        Err(SharedError::Unknown)
    }
}

/// The view of a decode result.
pub open spec fn decoded_view(r: Result<String, SharedError>) -> Result<Seq<char>, SharedError> {
    match r {
        Ok(s) => Ok(s@),
        Err(e) => Err(e),
    }
}

/// Decodes one radical glyph token of 2 (legacy codeset, override table
/// consulted first) or 3 (EUC-JP) bytes.
pub fn decode_jis_radical(b: &[u8]) -> (r: Result<String, SharedError>)
    ensures
        decoded_view(r) == spec_decode_radical(b@),
{
    if b.len() == 2 {
        let code = bytes_to_u32(b);
        match remap_radical(code) {
            Some(s) => Ok(s.to_owned()),
            None => match jis213_lookup(code) {
                Some(s) => Ok(s.to_owned()),
                None => Err(SharedError::Jis),
            },
        }
    } else if b.len() == 3 {
        match eucjp_decode_strict(b) {
            Some(s) => Ok(s),
            None => Err(SharedError::EucJp),
        }
    } else {
        Err(SharedError::Unknown)
    }
}

/// Decodes one kanji glyph token of 2 (legacy codeset) or 3 (EUC-JP) bytes.
pub fn decode_jis_kanji(b: &[u8]) -> (r: Result<String, SharedError>)
    ensures
        decoded_view(r) == spec_decode_kanji(b@),
{
    if b.len() == 2 {
        let code = bytes_to_u32(b);
        match jis213_lookup(code) {
            Some(s) => Ok(s.to_owned()),
            None => Err(SharedError::Jis),
        }
    } else if b.len() == 3 {
        match eucjp_decode_strict(b) {
            Some(s) => Ok(s),
            None => Err(SharedError::EucJp),
        }
    } else {
        Err(SharedError::Unknown)
    }
}

/// Glyph decoding is a pure function of the token bytes: the same token
/// always resolves to the same Unicode text, on either decode path.
pub proof fn lemma_decode_deterministic(a: Seq<u8>, b: Seq<u8>)
    requires
        a == b,
    ensures
        spec_decode_radical(a) == spec_decode_radical(b),
        spec_decode_kanji(a) == spec_decode_kanji(b),
{
}

/// The position of the first occurrence of `target` at or after `pos`.
pub open spec fn find_byte(b: Seq<u8>, pos: int, target: u8) -> Option<int>
    decreases b.len() - pos,
{
    if pos < 0 || pos >= b.len() {
        None
    } else if b[pos] == target {
        Some(pos)
    } else {
        find_byte(b, pos + 1, target)
    }
}

/// The end of the run of `multispace` bytes that starts at `pos`.
pub open spec fn skip_spaces(b: Seq<u8>, pos: int) -> int
    decreases b.len() - pos,
{
    if 0 <= pos < b.len() && is_space_byte(b[pos]) {
        skip_spaces(b, pos + 1)
    } else {
        pos
    }
}

/// One comment: a `#` followed by text reaching up to, but not including,
/// the next newline; fails when no newline follows.
pub open spec fn spec_comment(b: Seq<u8>, pos: int) -> Option<int> {
    if 0 <= pos < b.len() && b[pos] == 35 {
        find_byte(b, pos + 1, 10)
    } else {
        None
    }
}

/// The comment list continued after a comment that ended at `end` (a
/// newline): the newline is taken as a separator only when another comment
/// follows it.
pub open spec fn spec_comment_list_cont(b: Seq<u8>, end: int) -> int
    decreases b.len() - end,
{
    match spec_comment(b, end + 1) {
        Some(e2) => {
            if end < e2 <= b.len() {
                spec_comment_list_cont(b, e2)
            } else {
                end
            }
        },
        None => end,
    }
}

/// Zero or more comments separated by newlines; the result is the position
/// after the list, with the final newline not consumed.
pub open spec fn spec_comment_list(b: Seq<u8>, pos: int) -> int {
    match spec_comment(b, pos) {
        Some(end) => spec_comment_list_cont(b, end),
        None => pos,
    }
}

/// The shared comment-and-whitespace skipper: surrounding whitespace and
/// any run of comment lines between.
pub open spec fn spec_comments(b: Seq<u8>, pos: int) -> int {
    skip_spaces(b, spec_comment_list(b, skip_spaces(b, pos)))
}

/// Recognises one comment starting at `pos`; on success the returned
/// position stands on the newline that ended the comment.
pub fn comment(b: &[u8], pos: usize) -> (r: Option<usize>)
    requires
        pos <= b@.len(),
    ensures
        (match r {
            Some(p) => spec_comment(b@, pos as int) == Some(p as int) && pos < p < b@.len(),
            None => spec_comment(b@, pos as int) is None,
        }),
{
    if pos < b.len() && b[pos] == 35 {
        let mut i: usize = pos + 1;
        while i < b.len() && b[i] != 10
            invariant
                pos + 1 <= i <= b@.len(),
                find_byte(b@, pos as int + 1, 10) == find_byte(b@, i as int, 10),
            decreases b@.len() - i,
        {
            i = i + 1;
        }
        if i < b.len() {
            Some(i)
        } else {
            None
        }
    } else {
        None
    }
}

/// Skips the run of whitespace bytes starting at `pos`.
fn skip_spaces_exec(b: &[u8], pos: usize) -> (r: usize)
    requires
        pos <= b@.len(),
    ensures
        r == skip_spaces(b@, pos as int),
        pos <= r <= b@.len(),
{
    let mut i: usize = pos;
    while i < b.len() && (b[i] == 32 || b[i] == 9 || b[i] == 13 || b[i] == 10)
        invariant
            pos <= i <= b@.len(),
            skip_spaces(b@, pos as int) == skip_spaces(b@, i as int),
        decreases b@.len() - i,
    {
        i = i + 1;
    }
    i
}

/// Skips whitespace and any comment lines: the shared grammar fragment that
/// precedes every record in both file formats.  Always succeeds.
pub fn comments(b: &[u8], pos: usize) -> (r: usize)
    requires
        pos <= b@.len(),
    ensures
        r == spec_comments(b@, pos as int),
        pos <= r <= b@.len(),
{
    let n: usize = b.len();
    let p1 = skip_spaces_exec(b, pos);
    let end_of_list: usize = match comment(b, p1) {
        None => p1,
        Some(end0) => {
            let mut end = end0;
            loop
                invariant
                    pos <= p1 <= end < b@.len() <= usize::MAX,
                    spec_comment_list(b@, p1 as int) == spec_comment_list_cont(b@, end as int),
                ensures
                    spec_comment_list(b@, p1 as int) == end && pos <= end < b@.len(),
                decreases b@.len() - end,
            {
                match comment(b, end + 1) {
                    Some(e2) => {
                        end = e2;
                    },
                    None => {
                        break;
                    },
                }
            }
            end
        },
    };
    skip_spaces_exec(b, end_of_list)
}

} // verus!
