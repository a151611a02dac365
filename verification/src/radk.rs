//! The radical-to-kanji (membership) file grammar.
//!
//! A file is a sequence of entries ending only at the end of input.  Each
//! entry is a run of comment lines, one ident line
//! `"$" radical strokes alternate?`, and a kanji block: a run of
//! whitespace and non-ASCII bytes decoded as lossy EUC-JP, split into
//! grapheme clusters, with single-character whitespace clusters removed.

use vstd::prelude::*;

use crate::codec::{
    ascii_to_string, char_to_string, eucjp, eucjp_decode_lossy, graphemes, jis212, jis212_lookup,
    split_graphemes,
};
use crate::shared::{
    comments, decode_jis_radical, is_ws_char, spec_comments, spec_decode_radical,
};

verus! {

/// A membership-file parse failed.
#[derive(Debug, Clone, Copy, PartialEq, Eq, Structural)]
pub enum RadkError {
    /// Could not parse stroke order as u8
    StrokeOrder,
    /// Could not parse alternate representation as a glyph
    NotGlyph,
    /// Invalid kanji line
    EucJp,
    /// Error while parsing radkfile
    Parse,
    /// Error while reading radkfile; raised only by callers that do the
    /// reading, never by the parser itself
    Io,
}

/// A secondary depiction of a radical, used when the primary glyph is a
/// poor visual match.
#[derive(Debug, Clone, PartialEq, Eq)]
pub enum Alternate {
    /// An external image asset identifier
    Image(String),
    /// A better-depicting Unicode character
    Glyph(String),
    /// No alternate supplied
    Absent,
}

/// The mathematical content of an `Alternate`.
pub enum AlternateV {
    Image(Seq<char>),
    Glyph(Seq<char>),
    Absent,
}

impl View for Alternate {
    type V = AlternateV;

    open spec fn view(&self) -> AlternateV {
        match self {
            Alternate::Image(s) => AlternateV::Image(s@),
            Alternate::Glyph(s) => AlternateV::Glyph(s@),
            Alternate::Absent => AlternateV::Absent,
        }
    }
}

impl DeepView for Alternate {
    type V = AlternateV;

    open spec fn deep_view(&self) -> AlternateV {
        self.view()
    }
}

/// A radical: its glyph, stroke count, and optional alternate depiction.
/// Two radicals are the same entity only if all three fields match.
#[derive(Debug, Clone, PartialEq, Eq)]
pub struct Radical {
    pub glyph: String,
    pub strokes: u8,
    pub alternate: Alternate,
}

/// The mathematical content of a `Radical`.
pub struct RadicalV {
    pub glyph: Seq<char>,
    pub strokes: u8,
    pub alternate: AlternateV,
}

impl View for Radical {
    type V = RadicalV;

    open spec fn view(&self) -> RadicalV {
        RadicalV { glyph: self.glyph@, strokes: self.strokes, alternate: self.alternate@ }
    }
}

impl DeepView for Radical {
    type V = RadicalV;

    open spec fn deep_view(&self) -> RadicalV {
        self.view()
    }
}

/// One radical together with the kanji that contain it.
#[derive(Debug, Clone, PartialEq, Eq)]
pub struct Expansion {
    pub radical: Radical,
    pub kanji: Vec<String>,
}

/// The mathematical content of an `Expansion`.
pub struct ExpansionV {
    pub radical: RadicalV,
    pub kanji: Seq<Seq<char>>,
}

impl View for Expansion {
    type V = ExpansionV;

    open spec fn view(&self) -> ExpansionV {
        ExpansionV { radical: self.radical@, kanji: self.kanji.deep_view() }
    }
}

impl DeepView for Expansion {
    type V = ExpansionV;

    open spec fn deep_view(&self) -> ExpansionV {
        self.view()
    }
}

/// ASCII decimal digits.
pub open spec fn is_digit_byte(b: u8) -> bool {
    48 <= b <= 57
}

/// The hex digits that the ident-line grammar accepts: decimal digits and
/// uppercase `A` to `F` only.
pub open spec fn is_upper_hex_byte(b: u8) -> bool {
    is_digit_byte(b) || (65 <= b <= 70)
}

/// Any ASCII hex digit, as `u16::from_str_radix` with radix 16 accepts.
pub open spec fn is_any_hex_byte(b: u8) -> bool {
    is_digit_byte(b) || (65 <= b <= 70) || (97 <= b <= 102)
}

/// ASCII letters and digits.
pub open spec fn is_alnum_byte(b: u8) -> bool {
    is_digit_byte(b) || (65 <= b <= 90) || (97 <= b <= 122)
}

/// The bytes a kanji block may hold: ASCII whitespace or non-ASCII.
pub open spec fn is_block_byte(b: u8) -> bool {
    crate::shared::is_ws_byte(b) || b >= 0x80
}

/// The value of one hex digit.
pub open spec fn hex_digit_val(b: u8) -> int {
    if is_digit_byte(b) {
        b - 48
    } else if 65 <= b <= 70 {
        b - 55
    } else if 97 <= b <= 102 {
        b - 87
    } else {
        0
    }
}

/// The decimal value of an all-digit byte run.
pub open spec fn dec_value(t: Seq<u8>) -> int
    decreases t.len(),
{
    if t.len() == 0 {
        0
    } else {
        dec_value(t.drop_last()) * 10 + (t.last() - 48)
    }
}

/// The hexadecimal value of an all-hex byte run.
pub open spec fn hex_value(t: Seq<u8>) -> int
    decreases t.len(),
{
    if t.len() == 0 {
        0
    } else {
        hex_value(t.drop_last()) * 16 + hex_digit_val(t.last())
    }
}

/// A numeric token with an optional leading plus sign stripped.
pub open spec fn sign_stripped(t: Seq<u8>) -> Seq<u8> {
    if t.len() > 0 && t[0] == 43 {
        t.drop_first()
    } else {
        t
    }
}

/// What `str::parse::<u8>` yields on a byte run: an optional leading plus
/// sign, then at least one decimal digit, with a value that fits in `u8`.
pub open spec fn spec_parse_number(t: Seq<u8>) -> Option<u8> {
    let digits = sign_stripped(t);
    if digits.len() == 0 {
        None
    } else if exists|i: int| 0 <= i < digits.len() && !is_digit_byte(#[trigger] digits[i]) {
        None
    } else if dec_value(digits) > 255 {
        None
    } else {
        Some(dec_value(digits) as u8)
    }
}

/// What `u16::from_str_radix` with radix 16 yields on a byte run.
pub open spec fn spec_parse_hex_u16(t: Seq<u8>) -> Option<u16> {
    let digits = sign_stripped(t);
    if digits.len() == 0 {
        None
    } else if exists|i: int| 0 <= i < digits.len() && !is_any_hex_byte(#[trigger] digits[i]) {
        None
    } else if hex_value(digits) > 0xFFFF {
        None
    } else {
        Some(hex_value(digits) as u16)
    }
}

/// The end of the run of spaces and tabs at `pos`.
pub open spec fn skip_space0(b: Seq<u8>, pos: int) -> int
    decreases b.len() - pos,
{
    if 0 <= pos < b.len() && (b[pos] == 32 || b[pos] == 9) {
        skip_space0(b, pos + 1)
    } else {
        pos
    }
}

/// The end of the run of decimal digits at `pos`.
pub open spec fn digits_end(b: Seq<u8>, pos: int) -> int
    decreases b.len() - pos,
{
    if 0 <= pos < b.len() && is_digit_byte(b[pos]) {
        digits_end(b, pos + 1)
    } else {
        pos
    }
}

/// The end of the run of alphanumeric bytes at `pos`.
pub open spec fn alnum_end(b: Seq<u8>, pos: int) -> int
    decreases b.len() - pos,
{
    if 0 <= pos < b.len() && is_alnum_byte(b[pos]) {
        alnum_end(b, pos + 1)
    } else {
        pos
    }
}

/// The end of the run of kanji-block bytes at `pos`.
pub open spec fn block_end(b: Seq<u8>, pos: int) -> int
    decreases b.len() - pos,
{
    if 0 <= pos < b.len() && is_block_byte(b[pos]) {
        block_end(b, pos + 1)
    } else {
        pos
    }
}

/// The characters of an ASCII byte run, byte for byte.
pub open spec fn ascii_chars(t: Seq<u8>) -> Seq<char> {
    t.map_values(|x: u8| x as char)
}

/// The `$` that opens an ident line, with trailing spaces skipped.
pub open spec fn spec_ident_token(b: Seq<u8>, pos: int) -> Option<int> {
    if 0 <= pos < b.len() && b[pos] == 36 {
        Some(skip_space0(b, pos + 1))
    } else {
        None
    }
}

/// The radical glyph of an ident line: exactly two bytes resolved through
/// the radical decode path, with trailing spaces skipped.
pub open spec fn spec_radical(b: Seq<u8>, pos: int) -> Option<(int, Seq<char>)> {
    if 0 <= pos && pos + 2 <= b.len() {
        match spec_decode_radical(b.subrange(pos, pos + 2)) {
            Ok(s) => Some((skip_space0(b, pos + 2), s)),
            Err(_) => None,
        }
    } else {
        None
    }
}

/// The stroke count: a digit run parsed as `u8`, trailing spaces skipped.
pub open spec fn spec_strokes(b: Seq<u8>, pos: int) -> Option<(int, u8)> {
    let e = digits_end(b, pos);
    match spec_parse_number(b.subrange(pos, e)) {
        Some(v) => Some((skip_space0(b, e), v)),
        None => None,
    }
}

/// The hex alternate: exactly four uppercase hex digits naming a
/// JIS X 0212 code with a table entry.
pub open spec fn spec_hex_alt(b: Seq<u8>, pos: int) -> Option<(int, AlternateV)> {
    if 0 <= pos && pos + 4 <= b.len() && (forall|i: int|
        pos <= i < pos + 4 ==> is_upper_hex_byte(#[trigger] b[i])) {
        match spec_parse_hex_u16(b.subrange(pos, pos + 4)) {
            Some(code) => match jis212(code) {
                Some(c) => Some((pos + 4, AlternateV::Glyph(seq![c]))),
                None => None,
            },
            None => None,
        }
    } else {
        None
    }
}

/// The image alternate: a non-empty alphanumeric run taken verbatim as an
/// asset name.
pub open spec fn spec_image_alt(b: Seq<u8>, pos: int) -> Option<(int, AlternateV)> {
    let e = alnum_end(b, pos);
    if pos < e {
        Some((e, AlternateV::Image(ascii_chars(b.subrange(pos, e)))))
    } else {
        None
    }
}

/// The alternate of an ident line: hex is tried first, an image name
/// second, and absence yields `None`.  The order is load-bearing: legacy
/// image names four characters long that are not uppercase hex, or whose
/// code has no table entry, must fall through to the image case.
pub open spec fn spec_alternate(b: Seq<u8>, pos: int) -> (int, AlternateV) {
    match spec_hex_alt(b, pos) {
        Some(r) => r,
        None => match spec_image_alt(b, pos) {
            Some(r) => r,
            None => (pos, AlternateV::Absent),
        },
    }
}

/// One ident line up to, but not including, its terminating newline.
pub open spec fn spec_ident_line(b: Seq<u8>, pos: int) -> Option<(int, RadicalV)> {
    match spec_ident_token(b, pos) {
        None => None,
        Some(p1) => match spec_radical(b, p1) {
            None => None,
            Some((p2, glyph)) => match spec_strokes(b, p2) {
                None => None,
                Some((p3, st)) => {
                    let (p4, alt) = spec_alternate(b, p3);
                    Some((p4, RadicalV { glyph, strokes: st, alternate: alt }))
                },
            },
        },
    }
}

/// Whether a grapheme cluster is a single whitespace character; such
/// clusters are dropped from the kanji block.
pub open spec fn is_ws_grapheme(g: Seq<char>) -> bool {
    g.len() == 1 && is_ws_char(g[0])
}

/// The kanji of a block: the lossy EUC-JP decode of the run, split into
/// grapheme clusters, with single-character whitespace clusters removed.
pub open spec fn spec_kanji_lines(b: Seq<u8>, pos: int) -> Option<(int, Seq<Seq<char>>)> {
    let e = block_end(b, pos);
    match eucjp(b.subrange(pos, e), true) {
        Some(text) => Some((e, graphemes(text).filter(|g: Seq<char>| !is_ws_grapheme(g)))),
        None => None,
    }
}

/// One entry: comments, an ident line, its newline, and the kanji block.
pub open spec fn spec_entry(b: Seq<u8>, pos: int) -> Option<(int, ExpansionV)> {
    let p0 = spec_comments(b, pos);
    match spec_ident_line(b, p0) {
        None => None,
        Some((p1, rad)) => {
            if p1 < b.len() && b[p1] == 10 {
                match spec_kanji_lines(b, p1 + 1) {
                    Some((p2, ks)) => Some((p2, ExpansionV { radical: rad, kanji: ks })),
                    None => None,
                }
            } else {
                None
            }
        },
    }
}

/// Entries until the end of input; the whole input must be consumed, and
/// an empty file holds zero entries.
pub open spec fn spec_radk_lines(b: Seq<u8>, pos: int) -> Option<(int, Seq<ExpansionV>)>
    decreases b.len() - pos,
{
    if pos >= b.len() {
        Some((pos, Seq::empty()))
    } else {
        match spec_entry(b, pos) {
            None => None,
            Some((p, e)) => {
                if pos < p <= b.len() {
                    match spec_radk_lines(b, p) {
                        None => None,
                        Some((p2, rest)) => Some((p2, seq![e] + rest)),
                    }
                } else {
                    None
                }
            },
        }
    }
}

/// What parsing a whole membership file yields: its entry list, or a
/// failure at the first grammar violation.
pub open spec fn spec_parse_radk(b: Seq<u8>) -> Result<Seq<ExpansionV>, RadkError> {
    match spec_radk_lines(b, 0) {
        None => Err(RadkError::Parse),
        Some((p, es)) => Ok(es),
    }
}

/// Skips the run of spaces and tabs starting at `pos`.
fn skip_space0_exec(b: &[u8], pos: usize) -> (r: usize)
    requires
        pos <= b@.len(),
    ensures
        r == skip_space0(b@, pos as int),
        pos <= r <= b@.len(),
{
    let mut i: usize = pos;
    while i < b.len() && (b[i] == 32 || b[i] == 9)
        invariant
            pos <= i <= b@.len(),
            skip_space0(b@, pos as int) == skip_space0(b@, i as int),
        decreases b@.len() - i,
    {
        i = i + 1;
    }
    i
}

/// The decimal value of an all-digit run is never negative.
proof fn lemma_dec_value_nonneg(t: Seq<u8>)
    requires
        forall|j: int| 0 <= j < t.len() ==> is_digit_byte(#[trigger] t[j]),
    ensures
        dec_value(t) >= 0,
    decreases t.len(),
{
    if t.len() > 0 {
        assert(forall|j: int|
            0 <= j < t.drop_last().len() ==> is_digit_byte(#[trigger] t.drop_last()[j]));
        lemma_dec_value_nonneg(t.drop_last());
        assert(is_digit_byte(t.last()));
    }
}

/// Appending digits never shrinks the decimal value.
proof fn lemma_dec_value_grows(t: Seq<u8>, i: int)
    requires
        0 <= i <= t.len(),
        forall|j: int| 0 <= j < t.len() ==> is_digit_byte(#[trigger] t[j]),
    ensures
        dec_value(t.subrange(0, i)) <= dec_value(t),
    decreases t.len() - i,
{
    if i < t.len() {
        lemma_dec_value_grows(t, i + 1);
        let a = t.subrange(0, i);
        let c = t.subrange(0, i + 1);
        assert(c.drop_last() =~= a);
        assert(forall|j: int| 0 <= j < a.len() ==> is_digit_byte(#[trigger] a[j]));
        lemma_dec_value_nonneg(a);
        assert(c.last() == t[i]);
        assert(is_digit_byte(t[i]));
        assert(dec_value(c) == dec_value(a) * 10 + (c.last() - 48));
        assert(dec_value(a) <= dec_value(c));
    } else {
        assert(t.subrange(0, i) =~= t);
    }
}

/// The hexadecimal value of a hex run is never negative.
proof fn lemma_hex_value_nonneg(t: Seq<u8>)
    ensures
        hex_value(t) >= 0,
    decreases t.len(),
{
    if t.len() > 0 {
        lemma_hex_value_nonneg(t.drop_last());
        assert(hex_digit_val(t.last()) >= 0);
    }
}

/// As `lemma_dec_value_grows`, for the hexadecimal value.
proof fn lemma_hex_value_grows(t: Seq<u8>, i: int)
    requires
        0 <= i <= t.len(),
    ensures
        hex_value(t.subrange(0, i)) <= hex_value(t),
    decreases t.len() - i,
{
    if i < t.len() {
        lemma_hex_value_grows(t, i + 1);
        let a = t.subrange(0, i);
        let c = t.subrange(0, i + 1);
        assert(c.drop_last() =~= a);
        lemma_hex_value_nonneg(a);
        assert(hex_digit_val(c.last()) >= 0);
        assert(hex_value(c) == hex_value(a) * 16 + hex_digit_val(c.last()));
        assert(hex_value(a) <= hex_value(c));
    } else {
        assert(t.subrange(0, i) =~= t);
    }
}

/// Parses a digit run as a stroke count that must fit in `u8`.
pub fn parse_number(b: &[u8]) -> (r: Result<u8, RadkError>)
    ensures
        (match r {
            Ok(v) => spec_parse_number(b@) == Some(v),
            Err(e) => spec_parse_number(b@) is None && e == RadkError::StrokeOrder,
        }),
{
    let n: usize = b.len();
    let start: usize = if n > 0 && b[0] == 43 {
        1
    } else {
        0
    };
    let ghost digits = sign_stripped(b@);
    proof {
        assert(digits =~= b@.subrange(start as int, n as int));
    }
    if start == n {
        return Err(RadkError::StrokeOrder);
    }
    let mut acc: u32 = 0;
    let mut i: usize = start;
    while i < n
        invariant
            start <= i <= n == b@.len(),
            digits == sign_stripped(b@),
            digits =~= b@.subrange(start as int, n as int),
            forall|j: int| start <= j < i ==> is_digit_byte(#[trigger] b@[j]),
            acc == dec_value(b@.subrange(start as int, i as int)),
            acc <= 255,
        decreases n - i,
    {
        let c = b[i];
        if !(48 <= c && c <= 57) {
            assert(!is_digit_byte(digits[i - start]));
            return Err(RadkError::StrokeOrder);
        }
        proof {
            assert(b@.subrange(start as int, i as int + 1).drop_last() =~= b@.subrange(
                start as int,
                i as int,
            ));
        }
        acc = acc * 10 + ((c - 48) as u32);
        i = i + 1;
        if acc > 255 {
            proof {
                assert(forall|j: int|
                    0 <= j < digits.len() && j < i - start ==> is_digit_byte(#[trigger] digits[j]));
                if forall|j: int| 0 <= j < digits.len() ==> is_digit_byte(#[trigger] digits[j]) {
                    lemma_dec_value_grows(digits, i - start);
                    assert(digits.subrange(0, i - start) =~= b@.subrange(start as int, i as int));
                    assert(dec_value(digits) > 255);
                }
            }
            return Err(RadkError::StrokeOrder);
        }
    }
    proof {
        assert(digits =~= b@.subrange(start as int, i as int));
    }
    Ok(acc as u8)
}

/// Recognises the stroke-count field: a digit run then optional spaces.
pub fn strokes(b: &[u8], pos: usize) -> (r: Option<(usize, u8)>)
    requires
        pos <= b@.len(),
    ensures
        (match r {
            Some((p, v)) => spec_strokes(b@, pos as int) == Some((p as int, v)) && pos <= p
                <= b@.len(),
            None => spec_strokes(b@, pos as int) is None,
        }),
{
    let mut i: usize = pos;
    while i < b.len() && 48 <= b[i] && b[i] <= 57
        invariant
            pos <= i <= b@.len(),
            digits_end(b@, pos as int) == digits_end(b@, i as int),
        decreases b@.len() - i,
    {
        i = i + 1;
    }
    match parse_number(&b[pos..i]) {
        Ok(v) => Some((skip_space0_exec(b, i), v)),
        Err(_) => None,
    }
}

/// Checks for a hex digit as the alternate grammar accepts them:
/// uppercase letters and decimal digits only.
pub fn is_hex_digit(b: u8) -> (r: bool)
    ensures
        r == is_upper_hex_byte(b),
{
    (48 <= b && b <= 57) || (65 <= b && b <= 70)
}

/// Checks whether a byte may stand in a kanji block: ASCII whitespace or
/// any non-ASCII byte.
pub fn is_eucjp_or_space(b: u8) -> (r: bool)
    ensures
        r == is_block_byte(b),
{
    b == 32 || b == 9 || b == 10 || b == 12 || b == 13 || b >= 0x80
}

/// Resolves a hex byte run as a `u16` code and looks it up in the
/// JIS X 0212 table; only a code with a table entry yields a glyph.
pub fn from_hex(b: &[u8]) -> (r: Result<Alternate, RadkError>)
    ensures
        (match r {
            Ok(a) => {
                &&& a@ matches AlternateV::Glyph(g)
                &&& (match spec_parse_hex_u16(b@) {
                    Some(code) => jis212(code) matches Some(c) && g == seq![c],
                    None => false,
                })
            },
            Err(e) => e == RadkError::NotGlyph && (match spec_parse_hex_u16(b@) {
                Some(code) => jis212(code) is None,
                None => true,
            }),
        }),
{
    let n: usize = b.len();
    let start: usize = if n > 0 && b[0] == 43 {
        1
    } else {
        0
    };
    let ghost digits = sign_stripped(b@);
    proof {
        assert(digits =~= b@.subrange(start as int, n as int));
    }
    if start == n {
        return Err(RadkError::NotGlyph);
    }
    let mut acc: u32 = 0;
    let mut i: usize = start;
    while i < n
        invariant
            start <= i <= n == b@.len(),
            digits == sign_stripped(b@),
            digits =~= b@.subrange(start as int, n as int),
            forall|j: int| start <= j < i ==> is_any_hex_byte(#[trigger] b@[j]),
            acc == hex_value(b@.subrange(start as int, i as int)),
            acc <= 0xFFFF,
        decreases n - i,
    {
        let c = b[i];
        let d: u32 = if 48 <= c && c <= 57 {
            (c - 48) as u32
        } else if 65 <= c && c <= 70 {
            (c - 55) as u32
        } else if 97 <= c && c <= 102 {
            (c - 87) as u32
        } else {
            assert(!is_any_hex_byte(digits[i - start]));
            return Err(RadkError::NotGlyph);
        };
        proof {
            assert(b@.subrange(start as int, i as int + 1).drop_last() =~= b@.subrange(
                start as int,
                i as int,
            ));
        }
        acc = acc * 16 + d;
        i = i + 1;
        if acc > 0xFFFF {
            proof {
                if forall|j: int| 0 <= j < digits.len() ==> is_any_hex_byte(#[trigger] digits[j]) {
                    lemma_hex_value_grows(digits, i - start);
                    assert(digits.subrange(0, i - start) =~= b@.subrange(start as int, i as int));
                    assert(hex_value(digits) > 0xFFFF);
                }
            }
            return Err(RadkError::NotGlyph);
        }
    }
    proof {
        assert(digits =~= b@.subrange(start as int, i as int));
    }
    match jis212_lookup(acc as u16) {
        Some(c) => Ok(Alternate::Glyph(char_to_string(c))),
        None => Err(RadkError::NotGlyph),
    }
}

/// Takes a non-empty alphanumeric byte run verbatim as an image asset
/// name.
pub fn from_image(b: &[u8]) -> (r: Result<Alternate, RadkError>)
    requires
        forall|i: int| 0 <= i < b@.len() ==> is_alnum_byte(#[trigger] b@[i]),
    ensures
        (match r {
            Ok(a) => a@ == AlternateV::Image(ascii_chars(b@)),
            Err(_) => false,
        }),
{
    assert(forall|i: int| 0 <= i < b@.len() ==> b@[i] < 0x80);
    Ok(Alternate::Image(ascii_to_string(b)))
}

/// Recognises the hex form of an alternate: exactly four uppercase hex
/// digits whose code the JIS X 0212 table resolves.
pub fn hex(b: &[u8], pos: usize) -> (r: Option<(usize, Alternate)>)
    requires
        pos <= b@.len(),
    ensures
        (match r {
            Some((p, a)) => spec_hex_alt(b@, pos as int) == Some((p as int, a@)) && pos < p
                <= b@.len(),
            None => spec_hex_alt(b@, pos as int) is None,
        }),
{
    let n: usize = b.len();
    if n - pos < 4 {
        return None;
    }
    if !(is_hex_digit(b[pos]) && is_hex_digit(b[pos + 1]) && is_hex_digit(b[pos + 2])
        && is_hex_digit(b[pos + 3])) {
        return None;
    }
    let tok = &b[pos..pos + 4];
    proof {
        assert(forall|i: int|
            pos <= i < pos + 4 ==> is_upper_hex_byte(#[trigger] b@[i]));
    }
    match from_hex(tok) {
        Ok(a) => Some((pos + 4, a)),
        Err(_) => None,
    }
}

/// Recognises the image form of an alternate: a non-empty alphanumeric
/// run.
pub fn image(b: &[u8], pos: usize) -> (r: Option<(usize, Alternate)>)
    requires
        pos <= b@.len(),
    ensures
        (match r {
            Some((p, a)) => spec_image_alt(b@, pos as int) == Some((p as int, a@)) && pos < p
                <= b@.len(),
            None => spec_image_alt(b@, pos as int) is None,
        }),
{
    let mut i: usize = pos;
    while i < b.len() && ((48 <= b[i] && b[i] <= 57) || (65 <= b[i] && b[i] <= 90) || (97 <= b[i]
        && b[i] <= 122))
        invariant
            pos <= i <= b@.len(),
            alnum_end(b@, pos as int) == alnum_end(b@, i as int),
            forall|j: int| pos <= j < i ==> is_alnum_byte(#[trigger] b@[j]),
        decreases b@.len() - i,
    {
        i = i + 1;
    }
    if i == pos {
        return None;
    }
    let tok = &b[pos..i];
    match from_image(tok) {
        Ok(a) => Some((i, a)),
        Err(_) => None,
    }
}

/// Recognises the optional alternate field, hex first, image second,
/// absence third; this never fails.
pub fn alternate(b: &[u8], pos: usize) -> (r: (usize, Alternate))
    requires
        pos <= b@.len(),
    ensures
        spec_alternate(b@, pos as int) == (r.0 as int, r.1@),
        pos <= r.0 <= b@.len(),
{
    match hex(b, pos) {
        Some((p, a)) => (p, a),
        None => match image(b, pos) {
            Some((p, a)) => (p, a),
            None => (pos, Alternate::Absent),
        },
    }
}

/// Recognises the two-byte radical glyph of an ident line, with trailing
/// spaces skipped.
pub fn radical(b: &[u8], pos: usize) -> (r: Option<(usize, String)>)
    requires
        pos <= b@.len(),
    ensures
        (match r {
            Some((p, s)) => spec_radical(b@, pos as int) == Some((p as int, s@)) && pos < p
                <= b@.len(),
            None => spec_radical(b@, pos as int) is None,
        }),
{
    let n: usize = b.len();
    if n - pos < 2 {
        return None;
    }
    match decode_jis_radical(&b[pos..pos + 2]) {
        Ok(s) => Some((skip_space0_exec(b, pos + 2), s)),
        Err(_) => None,
    }
}

/// Recognises the `$` that opens an ident line, with trailing spaces
/// skipped.
fn ident_line_token(b: &[u8], pos: usize) -> (r: Option<usize>)
    requires
        pos <= b@.len(),
    ensures
        (match r {
            Some(p) => spec_ident_token(b@, pos as int) == Some(p as int) && pos < p <= b@.len(),
            None => spec_ident_token(b@, pos as int) is None,
        }),
{
    if pos < b.len() && b[pos] == 36 {
        Some(skip_space0_exec(b, pos + 1))
    } else {
        None
    }
}

/// Recognises one ident line: `$`, the radical glyph, its stroke count,
/// and an optional alternate.
pub fn ident_line(b: &[u8], pos: usize) -> (r: Option<(usize, Radical)>)
    requires
        pos <= b@.len(),
    ensures
        (match r {
            Some((p, rad)) => spec_ident_line(b@, pos as int) == Some((p as int, rad@)) && pos < p
                <= b@.len(),
            None => spec_ident_line(b@, pos as int) is None,
        }),
{
    match ident_line_token(b, pos) {
        None => None,
        Some(p1) => match radical(b, p1) {
            None => None,
            Some((p2, glyph)) => match strokes(b, p2) {
                None => None,
                Some((p3, st)) => {
                    let (p4, alt) = alternate(b, p3);
                    Some((p4, Radical { glyph, strokes: st, alternate: alt }))
                },
            },
        },
    }
}

/// `Seq::filter` distributes over `push`.
proof fn lemma_filter_push<A>(s: Seq<A>, x: A, pred: spec_fn(A) -> bool)
    ensures
        s.push(x).filter(pred) == if pred(x) {
            s.filter(pred).push(x)
        } else {
            s.filter(pred)
        },
{
    reveal(Seq::filter);
    assert(s.push(x).drop_last() =~= s);
    assert(s.push(x).last() == x);
}

/// Decodes a kanji block: lossy EUC-JP, grapheme segmentation, and the
/// removal of single-character whitespace clusters.
pub fn from_kanji_line(b: &[u8]) -> (r: Result<Vec<String>, RadkError>)
    ensures
        (match r {
            Ok(v) => (match eucjp(b@, true) {
                Some(text) => v.deep_view() == graphemes(text).filter(
                    |g: Seq<char>| !is_ws_grapheme(g),
                ),
                None => false,
            }),
            Err(e) => e == RadkError::EucJp && eucjp(b@, true) is None,
        }),
{
    let text = match eucjp_decode_lossy(b) {
        Some(t) => t,
        None => {
            return Err(RadkError::EucJp);
        },
    };
    let gs = split_graphemes(text.as_str());
    let ghost all = gs.deep_view();
    let mut kept: Vec<String> = Vec::new();
    let mut i: usize = 0;
    while i < gs.len()
        invariant
            i <= gs@.len(),
            all == gs.deep_view(),
            kept.deep_view() == all.subrange(0, i as int).filter(|g: Seq<char>| !is_ws_grapheme(g)),
        decreases gs@.len() - i,
    {
        let g = &gs[i];
        proof {
            assert(all.subrange(0, i as int + 1).drop_last() =~= all.subrange(0, i as int));
            assert(all.subrange(0, i as int + 1) =~= all.subrange(0, i as int).push(all[i as int]));
            lemma_filter_push(
                all.subrange(0, i as int),
                all[i as int],
                |g: Seq<char>| !is_ws_grapheme(g),
            );
        }
        let single = g.as_str().unicode_len() == 1;
        let drop_it = if single {
            let c = g.as_str().get_char(0);
            c == ' ' || c == '\t' || c == '\n' || c == '\u{0C}' || c == '\r'
        } else {
            false
        };
        if !drop_it {
            let ghost prev = kept.deep_view();
            kept.push(g.clone());
            proof {
                assert(kept.deep_view() =~= prev.push(g@));
            }
        }
        i = i + 1;
    }
    proof {
        assert(all.subrange(0, gs@.len() as int) =~= all);
    }
    Ok(kept)
}

/// Recognises the kanji block that follows an ident line.
pub fn kanji_lines(b: &[u8], pos: usize) -> (r: Option<(usize, Vec<String>)>)
    requires
        pos <= b@.len(),
    ensures
        (match r {
            Some((p, v)) => spec_kanji_lines(b@, pos as int) == Some((p as int, v.deep_view()))
                && pos <= p <= b@.len(),
            None => spec_kanji_lines(b@, pos as int) is None,
        }),
{
    let mut i: usize = pos;
    while i < b.len() && (b[i] == 32 || b[i] == 9 || b[i] == 10 || b[i] == 12 || b[i] == 13 || b[i]
        >= 0x80)
        invariant
            pos <= i <= b@.len(),
            block_end(b@, pos as int) == block_end(b@, i as int),
        decreases b@.len() - i,
    {
        i = i + 1;
    }
    match from_kanji_line(&b[pos..i]) {
        Ok(v) => Some((i, v)),
        Err(_) => None,
    }
}

/// Recognises one whole entry: comments, the ident line, its newline, and
/// the kanji block.
pub fn kanji(b: &[u8], pos: usize) -> (r: Option<(usize, Expansion)>)
    requires
        pos <= b@.len(),
    ensures
        (match r {
            Some((p, e)) => spec_entry(b@, pos as int) == Some((p as int, e@)) && pos < p
                <= b@.len(),
            None => spec_entry(b@, pos as int) is None,
        }),
{
    let p0 = comments(b, pos);
    match ident_line(b, p0) {
        None => None,
        Some((p1, rad)) => {
            if p1 < b.len() && b[p1] == 10 {
                match kanji_lines(b, p1 + 1) {
                    Some((p2, ks)) => Some((p2, Expansion { radical: rad, kanji: ks })),
                    None => None,
                }
            } else {
                None
            }
        },
    }
}

/// Recognises entries until the end of input; anything the entry grammar
/// does not cover fails the whole run.
pub fn lines(b: &[u8], pos: usize) -> (r: Option<(usize, Vec<Expansion>)>)
    requires
        pos <= b@.len(),
    ensures
        (match r {
            Some((p, v)) => spec_radk_lines(b@, pos as int) == Some((p as int, v.deep_view())) && p
                == b@.len(),
            None => spec_radk_lines(b@, pos as int) is None,
        }),
{
    let n: usize = b.len();
    let mut out: Vec<Expansion> = Vec::new();
    let mut cur: usize = pos;
    proof {
        assert(out.deep_view() =~= Seq::<ExpansionV>::empty());
    }
    while cur < n
        invariant
            n == b@.len(),
            pos <= cur <= n,
            spec_radk_lines(b@, pos as int) == (match spec_radk_lines(b@, cur as int) {
                None => None::<(int, Seq<ExpansionV>)>,
                Some((p2, rest)) => Some((p2, out.deep_view() + rest)),
            }),
        decreases n - cur,
    {
        match kanji(b, cur) {
            None => {
                return None;
            },
            Some((p, e)) => {
                let ghost prev = out.deep_view();
                out.push(e);
                proof {
                    assert(out.deep_view() =~= prev.push(e@));
                    let rest_after = match spec_radk_lines(b@, p as int) {
                        None => Seq::<ExpansionV>::empty(),
                        Some((p2, rest)) => rest,
                    };
                    assert(prev.push(e@) + rest_after =~= prev + (seq![e@] + rest_after));
                }
                cur = p;
            },
        }
    }
    proof {
        assert(out.deep_view() + Seq::<ExpansionV>::empty() =~= out.deep_view());
    }
    Some((cur, out))
}

/// Parses the contents of a radkfile or radkfile2 and returns the list of
/// radical memberships.  The first grammar violation fails the parse, and
/// no partial result is returned.
pub fn parse_bytes(b: &[u8]) -> (r: Result<Vec<Expansion>, RadkError>)
    ensures
        (match r {
            Ok(v) => spec_parse_radk(b@) == Ok::<_, RadkError>(v.deep_view()),
            Err(e) => spec_parse_radk(b@) == Err::<Seq<ExpansionV>, RadkError>(e),
        }),
{
    match lines(b, 0) {
        None => Err(RadkError::Parse),
        Some((_, v)) => Ok(v),
    }
}

} // verus!
