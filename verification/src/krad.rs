//! The kanji-to-radicals (decomposition) file grammar.
//!
//! A file is a sequence of entries separated by newlines; each entry is a
//! run of comment lines followed by one kanji line of the form
//! `kanji " : " radical (" " radical)*`.  Tokens are maximal runs of
//! non-space, non-newline bytes, resolved through the shared glyph decoder.

use vstd::prelude::*;

use crate::shared::{
    comments, decode_jis_kanji, decode_jis_radical, find_byte, is_space_byte, spec_comments,
    spec_decode_kanji, spec_decode_radical,
};

verus! {

/// A decomposition-file parse failed.
#[derive(Debug, Clone, Copy, PartialEq, Eq, Structural)]
pub enum KradError {
    /// Error while parsing kradfile
    Parse,
    /// Error while reading kradfile; raised only by callers that do the
    /// reading, never by the parser itself
    Io,
}

/// A decomposition of a kanji into its constituent radicals.
#[derive(Debug, Clone, PartialEq, Eq)]
pub struct Decomposition {
    /// The kanji character
    pub kanji: String,
    /// A list of characters representing the radicals in the kanji
    pub radicals: Vec<String>,
}

/// The mathematical content of a `Decomposition`.
pub struct DecompositionV {
    pub kanji: Seq<char>,
    pub radicals: Seq<Seq<char>>,
}

impl View for Decomposition {
    type V = DecompositionV;

    open spec fn view(&self) -> DecompositionV {
        DecompositionV { kanji: self.kanji@, radicals: self.radicals.deep_view() }
    }
}

impl DeepView for Decomposition {
    type V = DecompositionV;

    open spec fn deep_view(&self) -> DecompositionV {
        self.view()
    }
}

/// The end of the maximal run of non-space, non-newline bytes at `pos`.
pub open spec fn token_end(b: Seq<u8>, pos: int) -> int
    decreases b.len() - pos,
{
    if 0 <= pos < b.len() && b[pos] != 32 && b[pos] != 10 {
        token_end(b, pos + 1)
    } else {
        pos
    }
}

/// One kanji token: the bytes up to the first space, resolved as a kanji
/// glyph.  Fails when no space follows or the glyph does not decode.
pub open spec fn spec_kanji(b: Seq<u8>, pos: int) -> Option<(int, Seq<char>)> {
    match find_byte(b, pos, 32) {
        None => None,
        Some(i) => match spec_decode_kanji(b.subrange(pos, i)) {
            Ok(s) => Some((i, s)),
            Err(_) => None,
        },
    }
}

/// One radical token: a non-empty run of non-space, non-newline bytes,
/// resolved as a radical glyph.
pub open spec fn spec_radical(b: Seq<u8>, pos: int) -> Option<(int, Seq<char>)> {
    let end = token_end(b, pos);
    if pos < end {
        match spec_decode_radical(b.subrange(pos, end)) {
            Ok(s) => Some((end, s)),
            Err(_) => None,
        }
    } else {
        None
    }
}

/// The radicals that follow the first one, each preceded by a single
/// space; the list ends before the first separator not followed by a
/// further radical.
pub open spec fn spec_radicals_more(b: Seq<u8>, pos: int) -> (int, Seq<Seq<char>>)
    decreases b.len() - pos,
{
    if 0 <= pos < b.len() && b[pos] == 32 {
        match spec_radical(b, pos + 1) {
            Some((p, r)) => {
                if pos + 1 <= p <= b.len() {
                    let (p2, rest) = spec_radicals_more(b, p);
                    (p2, seq![r] + rest)
                } else {
                    (pos, Seq::empty())
                }
            },
            None => (pos, Seq::empty()),
        }
    } else {
        (pos, Seq::empty())
    }
}

/// One or more radical tokens separated by single spaces.
pub open spec fn spec_radicals(b: Seq<u8>, pos: int) -> Option<(int, Seq<Seq<char>>)> {
    match spec_radical(b, pos) {
        None => None,
        Some((p, r)) => {
            let (p2, rest) = spec_radicals_more(b, p);
            Some((p2, seq![r] + rest))
        },
    }
}

/// One kanji line: kanji token, the exact separator space-colon-space, and
/// at least one radical.
pub open spec fn spec_kanji_line(b: Seq<u8>, pos: int) -> Option<(int, DecompositionV)> {
    match spec_kanji(b, pos) {
        None => None,
        Some((p, k)) => {
            if p + 3 <= b.len() && b[p] == 32 && b[p + 1] == 58 && b[p + 2] == 32 {
                match spec_radicals(b, p + 3) {
                    None => None,
                    Some((p2, rs)) => Some((p2, DecompositionV { kanji: k, radicals: rs })),
                }
            } else {
                None
            }
        },
    }
}

/// One entry: leading comments, an optional blank line, then a kanji line.
pub open spec fn spec_next_kanji(b: Seq<u8>, pos: int) -> Option<(int, DecompositionV)> {
    let p1 = spec_comments(b, pos);
    let p2 = if p1 < b.len() && b[p1] == 10 {
        p1 + 1
    } else {
        p1
    };
    spec_kanji_line(b, p2)
}

/// The entries that follow the first one, each preceded by a newline; the
/// list ends before the first newline not followed by a further entry.
pub open spec fn spec_lines_more(b: Seq<u8>, pos: int) -> (int, Seq<DecompositionV>)
    decreases b.len() - pos,
{
    if 0 <= pos < b.len() && b[pos] == 10 {
        match spec_next_kanji(b, pos + 1) {
            Some((p, d)) => {
                if pos + 1 <= p <= b.len() {
                    let (p2, rest) = spec_lines_more(b, p);
                    (p2, seq![d] + rest)
                } else {
                    (pos, Seq::empty())
                }
            },
            None => (pos, Seq::empty()),
        }
    } else {
        (pos, Seq::empty())
    }
}

/// One or more entries separated by newlines.
pub open spec fn spec_lines(b: Seq<u8>, pos: int) -> Option<(int, Seq<DecompositionV>)> {
    match spec_next_kanji(b, pos) {
        None => None,
        Some((p, d)) => {
            let (p2, rest) = spec_lines_more(b, p);
            Some((p2, seq![d] + rest))
        },
    }
}

/// Only whitespace may stand after the last entry of a well-formed file.
pub open spec fn spec_trailing_ws(b: Seq<u8>, pos: int) -> bool {
    forall|i: int| pos <= i < b.len() ==> is_space_byte(#[trigger] b[i])
}

/// What parsing a whole decomposition file yields: the entry list, provided
/// it covers the file up to trailing whitespace; any ill-formed line makes
/// the whole parse fail.
pub open spec fn spec_parse_krad(b: Seq<u8>) -> Result<Seq<DecompositionV>, KradError> {
    match spec_lines(b, 0) {
        None => Err(KradError::Parse),
        Some((p, ds)) => {
            if spec_trailing_ws(b, p) {
                Ok(ds)
            } else {
                Err(KradError::Parse)
            }
        },
    }
}

/// Recognises one kanji token ending at the next space.
pub fn kanji(b: &[u8], pos: usize) -> (r: Option<(usize, String)>)
    requires
        pos <= b@.len(),
    ensures
        (match r {
            Some((p, s)) => spec_kanji(b@, pos as int) == Some((p as int, s@)) && pos <= p
                <= b@.len(),
            None => spec_kanji(b@, pos as int) is None,
        }),
{
    let mut i: usize = pos;
    while i < b.len() && b[i] != 32
        invariant
            pos <= i <= b@.len(),
            find_byte(b@, pos as int, 32) == find_byte(b@, i as int, 32),
        decreases b@.len() - i,
    {
        i = i + 1;
    }
    if i >= b.len() {
        return None;
    }
    match decode_jis_kanji(&b[pos..i]) {
        Ok(s) => Some((i, s)),
        Err(_) => None,
    }
}

/// Recognises one radical token: a maximal non-empty run of bytes other
/// than space and newline.
pub fn radical(b: &[u8], pos: usize) -> (r: Option<(usize, String)>)
    requires
        pos <= b@.len(),
    ensures
        (match r {
            Some((p, s)) => spec_radical(b@, pos as int) == Some((p as int, s@)) && pos < p
                <= b@.len(),
            None => spec_radical(b@, pos as int) is None,
        }),
{
    let mut i: usize = pos;
    while i < b.len() && b[i] != 32 && b[i] != 10
        invariant
            pos <= i <= b@.len(),
            token_end(b@, pos as int) == token_end(b@, i as int),
        decreases b@.len() - i,
    {
        i = i + 1;
    }
    if i == pos {
        return None;
    }
    match decode_jis_radical(&b[pos..i]) {
        Ok(s) => Some((i, s)),
        Err(_) => None,
    }
}

/// Recognises the radical list of a kanji line: one or more radical tokens
/// separated by single spaces.
pub fn radicals(b: &[u8], pos: usize) -> (r: Option<(usize, Vec<String>)>)
    requires
        pos <= b@.len(),
    ensures
        (match r {
            Some((p, v)) => spec_radicals(b@, pos as int) == Some((p as int, v.deep_view()))
                && pos < p <= b@.len() && v@.len() > 0,
            None => spec_radicals(b@, pos as int) is None,
        }),
{
    let n: usize = b.len();
    let mut out: Vec<String> = Vec::new();
    let mut cur: usize;
    match radical(b, pos) {
        None => {
            return None;
        },
        Some((p0, s0)) => {
            out.push(s0);
            cur = p0;
            proof {
                assert(out.deep_view() =~= seq![s0@]);
            }
        },
    }
    loop
        invariant
            n == b@.len(),
            pos < cur <= b@.len() <= usize::MAX,
            out@.len() > 0,
            spec_radicals(b@, pos as int) == {
                let (p2, rest) = spec_radicals_more(b@, cur as int);
                Some((p2, out.deep_view() + rest))
            },
        ensures
            spec_radicals(b@, pos as int) == Some((cur as int, out.deep_view())),
            pos < cur <= b@.len(),
            out@.len() > 0,
        decreases b@.len() - cur,
    {
        if !(cur < n && b[cur] == 32) {
            proof {
                assert(out.deep_view() + Seq::<Seq<char>>::empty() =~= out.deep_view());
            }
            break;
        }
        match radical(b, cur + 1) {
            None => {
                proof {
                    assert(out.deep_view() + Seq::<Seq<char>>::empty() =~= out.deep_view());
                }
                break;
            },
            Some((p, s)) => {
                let ghost prev = out.deep_view();
                out.push(s);
                proof {
                    assert(out.deep_view() =~= prev.push(s@));
                    let rest_after = spec_radicals_more(b@, p as int).1;
                    assert(prev.push(s@) + rest_after =~= prev + (seq![s@] + rest_after));
                }
                cur = p;
            },
        }
    }
    Some((cur, out))
}

/// Recognises one kanji line: kanji, the ` : ` separator, then radicals.
pub fn kanji_line(b: &[u8], pos: usize) -> (r: Option<(usize, Decomposition)>)
    requires
        pos <= b@.len(),
    ensures
        (match r {
            Some((p, d)) => spec_kanji_line(b@, pos as int) == Some((p as int, d@)) && pos < p
                <= b@.len(),
            None => spec_kanji_line(b@, pos as int) is None,
        }),
{
    let n: usize = b.len();
    match kanji(b, pos) {
        None => None,
        Some((p, k)) => {
            if n - p >= 3 && b[p] == 32 && b[p + 1] == 58 && b[p + 2] == 32 {
                match radicals(b, p + 3) {
                    None => None,
                    Some((p2, rs)) => Some((p2, Decomposition { kanji: k, radicals: rs })),
                }
            } else {
                None
            }
        },
    }
}

/// Recognises one entry: comments, an optional blank line, one kanji line.
pub fn next_kanji(b: &[u8], pos: usize) -> (r: Option<(usize, Decomposition)>)
    requires
        pos <= b@.len(),
    ensures
        (match r {
            Some((p, d)) => spec_next_kanji(b@, pos as int) == Some((p as int, d@)) && pos < p
                <= b@.len(),
            None => spec_next_kanji(b@, pos as int) is None,
        }),
{
    let p1 = comments(b, pos);
    let p2: usize = if p1 < b.len() && b[p1] == 10 {
        p1 + 1
    } else {
        p1
    };
    kanji_line(b, p2)
}

/// Recognises the longest run of entries separated by newlines, at least
/// one; the returned position stands on the first byte not consumed.
pub fn lines(b: &[u8], pos: usize) -> (r: Option<(usize, Vec<Decomposition>)>)
    requires
        pos <= b@.len(),
    ensures
        (match r {
            Some((p, v)) => spec_lines(b@, pos as int) == Some((p as int, v.deep_view())) && pos < p
                <= b@.len(),
            None => spec_lines(b@, pos as int) is None,
        }),
{
    let n: usize = b.len();
    let mut out: Vec<Decomposition> = Vec::new();
    let mut cur: usize;
    match next_kanji(b, pos) {
        None => {
            return None;
        },
        Some((p0, d0)) => {
            out.push(d0);
            cur = p0;
            proof {
                assert(out.deep_view() =~= seq![d0@]);
            }
        },
    }
    loop
        invariant
            n == b@.len(),
            pos < cur <= b@.len() <= usize::MAX,
            spec_lines(b@, pos as int) == {
                let (p2, rest) = spec_lines_more(b@, cur as int);
                Some((p2, out.deep_view() + rest))
            },
        ensures
            spec_lines(b@, pos as int) == Some((cur as int, out.deep_view())),
            pos < cur <= b@.len(),
        decreases b@.len() - cur,
    {
        if !(cur < n && b[cur] == 10) {
            proof {
                assert(out.deep_view() + Seq::<DecompositionV>::empty() =~= out.deep_view());
            }
            break;
        }
        match next_kanji(b, cur + 1) {
            None => {
                proof {
                    assert(out.deep_view() + Seq::<DecompositionV>::empty() =~= out.deep_view());
                }
                break;
            },
            Some((p, d)) => {
                let ghost prev = out.deep_view();
                out.push(d);
                proof {
                    assert(out.deep_view() =~= prev.push(d@));
                    let rest_after = spec_lines_more(b@, p as int).1;
                    assert(prev.push(d@) + rest_after =~= prev + (seq![d@] + rest_after));
                }
                cur = p;
            },
        }
    }
    Some((cur, out))
}

/// Every record a successful parse yields names at least one radical: a
/// line with none is a grammar failure, never a silent empty record.
pub proof fn lemma_lines_more_nonempty(b: Seq<u8>, pos: int)
    ensures
        forall|i: int|
            0 <= i < spec_lines_more(b, pos).1.len() ==> (#[trigger] spec_lines_more(
                b,
                pos,
            ).1[i]).radicals.len() > 0,
    decreases b.len() - pos,
{
    if 0 <= pos < b.len() && b[pos] == 10 {
        match spec_next_kanji(b, pos + 1) {
            Some((p, d)) => {
                if pos + 1 <= p <= b.len() {
                    lemma_lines_more_nonempty(b, p);
                    assert(d.radicals.len() > 0);
                    let s = spec_lines_more(b, pos).1;
                    let rest = spec_lines_more(b, p).1;
                    assert(s == seq![d] + rest);
                    assert forall|i: int| 0 <= i < s.len() implies (#[trigger] s[i]).radicals.len()
                        > 0 by {
                        if i == 0 {
                            assert(s[i] == d);
                        } else {
                            assert(s[i] == rest[i - 1]);
                        }
                    }
                }
            },
            None => {},
        }
    }
}

/// As `lemma_lines_more_nonempty`, for the whole entry list.
pub proof fn lemma_lines_nonempty(b: Seq<u8>, pos: int)
    ensures
        (match spec_lines(b, pos) {
            Some((p, ds)) => forall|i: int|
                0 <= i < ds.len() ==> (#[trigger] ds[i]).radicals.len() > 0,
            None => true,
        }),
{
    match spec_lines(b, pos) {
        Some((p, ds)) => {
            match spec_next_kanji(b, pos) {
                Some((p0, d)) => {
                    lemma_lines_more_nonempty(b, p0);
                    assert(d.radicals.len() > 0);
                },
                None => {},
            }
        },
        None => {},
    }
}

/// Parses the contents of a kradfile or kradfile2 and returns the list of
/// kanji radical decompositions.  The whole input must be covered: the
/// first ill-formed line fails the parse, and no partial result is
/// returned.
pub fn parse_bytes(b: &[u8]) -> (r: Result<Vec<Decomposition>, KradError>)
    ensures
        (match r {
            Ok(v) => spec_parse_krad(b@) == Ok::<_, KradError>(v.deep_view()) && forall|i: int|
                0 <= i < v.deep_view().len() ==> (#[trigger] v.deep_view()[i]).radicals.len() > 0,
            Err(e) => spec_parse_krad(b@) == Err::<Seq<DecompositionV>, KradError>(e),
        }),
{
    match lines(b, 0) {
        None => Err(KradError::Parse),
        Some((p, v)) => {
            let mut i: usize = p;
            while i < b.len() && (b[i] == 32 || b[i] == 9 || b[i] == 13 || b[i] == 10)
                invariant
                    p <= i <= b@.len(),
                    forall|j: int| p <= j < i ==> is_space_byte(#[trigger] b@[j]),
                decreases b@.len() - i,
            {
                i = i + 1;
            }
            if i < b.len() {
                assert(!spec_trailing_ws(b@, p as int));
                Err(KradError::Parse)
            } else {
                proof {
                    lemma_lines_nonempty(b@, 0);
                }
                Ok(v)
            }
        },
    }
}

} // verus!
