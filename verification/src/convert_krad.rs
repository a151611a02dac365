//! Rendering decomposition records, and the batch entry point that parses
//! several decomposition files handed in as byte buffers.

use vstd::prelude::*;

use crate::krad::{self, Decomposition, DecompositionV, KradError};
use crate::opts::OutputFormat;
use crate::render::{join_strings, lemma_join_first, spec_join};

verus! {

/// One line of the plain-text form: the kanji, the separator, and the
/// radicals joined by single spaces.
pub open spec fn spec_krad_line(d: DecompositionV) -> Seq<char> {
    d.kanji + " : "@ + spec_join(d.radicals, " "@)
}

/// The plain-text form: one line per record, joined by newlines.
pub open spec fn spec_to_unicode_krad(rs: Seq<DecompositionV>) -> Seq<char> {
    spec_join(Seq::new(rs.len(), |i: int| spec_krad_line(rs[i])), "\n"@)
}

/// One radical line of the JSON form.
pub open spec fn spec_json_radical_line(r: Seq<char>, is_last: bool) -> Seq<char> {
    if is_last {
        "\t\t\t\""@ + r + "\""@
    } else {
        "\t\t\t\""@ + r + "\","@
    }
}

/// The lines of one record of the JSON form.
pub open spec fn spec_json_record_lines(d: DecompositionV, is_last: bool) -> Seq<Seq<char>> {
    seq!["\t{"@, "\t\t\"kanji\": \""@ + d.kanji + "\","@, "\t\t\"radicals\": ["@] + Seq::new(
        d.radicals.len(),
        |i: int| spec_json_radical_line(d.radicals[i], i == d.radicals.len() - 1),
    ) + seq!["\t\t]"@, if is_last { "\t}"@ } else { "\t},"@ }]
}

/// The record lines of the JSON form for records that are not last.
pub open spec fn spec_json_body_nonlast(rs: Seq<DecompositionV>) -> Seq<Seq<char>>
    decreases rs.len(),
{
    if rs.len() == 0 {
        Seq::empty()
    } else {
        spec_json_body_nonlast(rs.drop_last()) + spec_json_record_lines(rs.last(), false)
    }
}

/// The record lines of the JSON form.
pub open spec fn spec_json_body(rs: Seq<DecompositionV>) -> Seq<Seq<char>> {
    if rs.len() == 0 {
        Seq::empty()
    } else {
        spec_json_body_nonlast(rs.drop_last()) + spec_json_record_lines(rs.last(), true)
    }
}

/// The JSON form: brackets around the record lines, joined by newlines.
pub open spec fn spec_to_json_krad(rs: Seq<DecompositionV>) -> Seq<char> {
    spec_join(seq!["["@] + spec_json_body(rs) + seq!["]"@], "\n"@)
}

/// The lines of one record of the embeddable-table form.
pub open spec fn spec_rust_record_lines(d: DecompositionV) -> Seq<Seq<char>> {
    seq!["\t Decomposition {"@, "\t\tkanji: '"@ + d.kanji + "',"@, "\t\tradicals: &["@] + Seq::new(
        d.radicals.len(),
        |i: int| "\t\t\t'"@ + d.radicals[i] + "',"@,
    ) + seq!["\t\t],"@, "\t},"@]
}

/// The record lines of the embeddable-table form.
pub open spec fn spec_rust_body(rs: Seq<DecompositionV>) -> Seq<Seq<char>>
    decreases rs.len(),
{
    if rs.len() == 0 {
        Seq::empty()
    } else {
        spec_rust_body(rs.drop_last()) + spec_rust_record_lines(rs.last())
    }
}

/// The embeddable-table form: a table of record literals under a header.
pub open spec fn spec_to_rust_krad(rs: Seq<DecompositionV>) -> Seq<char> {
    spec_join(
        seq![
            "use super::Decomposition;"@,
            ""@,
            "/// The list of radical decompositions from the `kradfile`"@,
            "pub const DECOMPOSITIONS: &[Decomposition] = &["@,
        ] + spec_rust_body(rs) + seq!["];"@],
        "\n"@,
    )
}

/// What each output format renders a record list to.
pub open spec fn spec_format_krad(format: crate::opts::OutputFormat, rs: Seq<DecompositionV>) -> Seq<
    char,
> {
    match format {
        OutputFormat::Unicode => spec_to_unicode_krad(rs),
        OutputFormat::Rust => spec_to_rust_krad(rs),
    }
}

/// What parsing a list of file buffers yields: the records of every file
/// in order, or the first file's failure.
pub open spec fn spec_parse_all_krad(files: Seq<Seq<u8>>) -> Result<Seq<DecompositionV>, KradError>
    decreases files.len(),
{
    if files.len() == 0 {
        Ok(Seq::empty())
    } else {
        match krad::spec_parse_krad(files[0]) {
            Err(e) => Err(e),
            Ok(ds) => match spec_parse_all_krad(files.drop_first()) {
                Err(e) => Err(e),
                Ok(rest) => Ok(ds + rest),
            },
        }
    }
}

// ---------------------------------------------------------------------
// Re-parsing the plain-text form.
//
// The byte parser reads tokens through the legacy glyph decoder, so its
// own output, which is Unicode text, is re-read by the same grammar with
// the tokens taken verbatim.  The round-trip law at the end of this
// module says that rendering records as plain text and re-reading that
// text gives the records back.
// ---------------------------------------------------------------------

/// The characters that end a token of the plain-text form.
pub open spec fn text_stop(c: char) -> bool {
    c == ' ' || c == '\n'
}

/// A token of the plain-text form: non-empty, with no space or newline.
pub open spec fn token_wf(t: Seq<char>) -> bool {
    t.len() > 0 && forall|i: int| 0 <= i < t.len() ==> !text_stop(#[trigger] t[i])
}

/// A record the plain-text form can carry faithfully: its tokens are
/// non-empty and hold no space or newline, and it names a radical.
pub open spec fn record_wf(d: DecompositionV) -> bool {
    &&& token_wf(d.kanji)
    &&& d.radicals.len() > 0
    &&& forall|i: int| 0 <= i < d.radicals.len() ==> token_wf(#[trigger] d.radicals[i])
}

/// The end of the maximal token run at `pos`.
pub open spec fn text_token_end(s: Seq<char>, pos: int) -> int
    decreases s.len() - pos,
{
    if 0 <= pos < s.len() && !text_stop(s[pos]) {
        text_token_end(s, pos + 1)
    } else {
        pos
    }
}

/// The position of the first space at or after `pos`.
pub open spec fn text_find_space(s: Seq<char>, pos: int) -> Option<int>
    decreases s.len() - pos,
{
    if pos < 0 || pos >= s.len() {
        None
    } else if s[pos] == ' ' {
        Some(pos)
    } else {
        text_find_space(s, pos + 1)
    }
}

/// One kanji token of the text form: the characters up to the first
/// space, taken verbatim.
pub open spec fn text_kanji(s: Seq<char>, pos: int) -> Option<(int, Seq<char>)> {
    match text_find_space(s, pos) {
        None => None,
        Some(i) => if pos < i {
            Some((i, s.subrange(pos, i)))
        } else {
            None
        },
    }
}

/// One radical token of the text form, taken verbatim.
pub open spec fn text_radical(s: Seq<char>, pos: int) -> Option<(int, Seq<char>)> {
    let end = text_token_end(s, pos);
    if pos < end {
        Some((end, s.subrange(pos, end)))
    } else {
        None
    }
}

/// The radicals after the first one, each preceded by a single space.
pub open spec fn text_radicals_more(s: Seq<char>, pos: int) -> (int, Seq<Seq<char>>)
    decreases s.len() - pos,
{
    if 0 <= pos < s.len() && s[pos] == ' ' {
        match text_radical(s, pos + 1) {
            Some((p, r)) => {
                if pos + 1 <= p <= s.len() {
                    let (p2, rest) = text_radicals_more(s, p);
                    (p2, seq![r] + rest)
                } else {
                    (pos, Seq::empty())
                }
            },
            None => (pos, Seq::empty()),
        }
    } else {
        (pos, Seq::empty())
    }
}

/// One or more radical tokens separated by single spaces.
pub open spec fn text_radicals(s: Seq<char>, pos: int) -> Option<(int, Seq<Seq<char>>)> {
    match text_radical(s, pos) {
        None => None,
        Some((p, r)) => {
            let (p2, rest) = text_radicals_more(s, p);
            Some((p2, seq![r] + rest))
        },
    }
}

/// One line of the text form: kanji, the ` : ` separator, radicals.
pub open spec fn text_kanji_line(s: Seq<char>, pos: int) -> Option<(int, DecompositionV)> {
    match text_kanji(s, pos) {
        None => None,
        Some((p, k)) => {
            if p + 3 <= s.len() && s[p] == ' ' && s[p + 1] == ':' && s[p + 2] == ' ' {
                match text_radicals(s, p + 3) {
                    None => None,
                    Some((p2, rs)) => Some((p2, DecompositionV { kanji: k, radicals: rs })),
                }
            } else {
                None
            }
        },
    }
}

/// The lines after the first one, each preceded by a newline.
pub open spec fn text_lines_more(s: Seq<char>, pos: int) -> (int, Seq<DecompositionV>)
    decreases s.len() - pos,
{
    if 0 <= pos < s.len() && s[pos] == '\n' {
        match text_kanji_line(s, pos + 1) {
            Some((p, d)) => {
                if pos + 1 <= p <= s.len() {
                    let (p2, rest) = text_lines_more(s, p);
                    (p2, seq![d] + rest)
                } else {
                    (pos, Seq::empty())
                }
            },
            None => (pos, Seq::empty()),
        }
    } else {
        (pos, Seq::empty())
    }
}

/// One or more lines separated by newlines.
pub open spec fn text_lines(s: Seq<char>, pos: int) -> Option<(int, Seq<DecompositionV>)> {
    match text_kanji_line(s, pos) {
        None => None,
        Some((p, d)) => {
            let (p2, rest) = text_lines_more(s, p);
            Some((p2, seq![d] + rest))
        },
    }
}

/// What re-reading a whole plain-text serialization yields: its records,
/// provided the lines cover the text exactly.
pub open spec fn spec_text_parse(s: Seq<char>) -> Option<Seq<DecompositionV>> {
    match text_lines(s, 0) {
        Some((p, ds)) => if p == s.len() {
            Some(ds)
        } else {
            None
        },
        None => None,
    }
}

/// The serialized lines of a record list.
pub open spec fn text_lines_of(rs: Seq<DecompositionV>) -> Seq<Seq<char>> {
    Seq::new(rs.len(), |i: int| spec_krad_line(rs[i]))
}

proof fn lemma_token_end_exact(s: Seq<char>, pos: int, end: int)
    requires
        0 <= pos <= end <= s.len(),
        forall|i: int| pos <= i < end ==> !text_stop(#[trigger] s[i]),
        end == s.len() || text_stop(s[end]),
    ensures
        text_token_end(s, pos) == end,
    decreases end - pos,
{
    if pos < end {
        lemma_token_end_exact(s, pos + 1, end);
    }
}

proof fn lemma_find_space_exact(s: Seq<char>, pos: int, at: int)
    requires
        0 <= pos <= at < s.len(),
        forall|i: int| pos <= i < at ==> s[i] != ' ',
        s[at] == ' ',
    ensures
        text_find_space(s, pos) == Some(at),
    decreases at - pos,
{
    if pos < at {
        lemma_find_space_exact(s, pos + 1, at);
    }
}

/// When a stretch of `s` starting at `base` holds exactly `content`, the
/// character at offset `i` of the stretch is `content`'s.
proof fn lemma_chars_at(s: Seq<char>, base: int, content: Seq<char>, i: int)
    requires
        0 <= base,
        base + content.len() <= s.len(),
        s.subrange(base, base + content.len() as int) == content,
        0 <= i < content.len(),
    ensures
        s[base + i] == content[i],
{
    assert(s.subrange(base, base + content.len() as int)[i] == s[base + i]);
}

/// When a stretch of `s` starting at `base` holds exactly `content`, any
/// sub-stretch holds the matching part of `content`.
proof fn lemma_sub_sub(s: Seq<char>, base: int, content: Seq<char>, lo: int, hi: int)
    requires
        0 <= base,
        base + content.len() <= s.len(),
        s.subrange(base, base + content.len() as int) == content,
        0 <= lo <= hi <= content.len(),
    ensures
        s.subrange(base + lo, base + hi) == content.subrange(lo, hi),
{
    assert forall|i: int| 0 <= i < hi - lo implies s.subrange(base + lo, base + hi)[i]
        == content.subrange(lo, hi)[i] by {
        lemma_chars_at(s, base, content, lo + i);
    }
    assert(s.subrange(base + lo, base + hi) =~= content.subrange(lo, hi));
}

/// At a separator position, the continued radical list reads back the
/// serialized radicals that follow it.
#[verifier::rlimit(60)]
proof fn lemma_text_radicals_more_at(s: Seq<char>, pos: int, rads: Seq<Seq<char>>)
    requires
        0 <= pos <= s.len(),
        forall|i: int| 0 <= i < rads.len() ==> token_wf(#[trigger] rads[i]),
        rads.len() == 0 ==> (pos == s.len() || s[pos] == '\n'),
        rads.len() > 0 ==> {
            let jlen = spec_join(rads, " "@).len();
            &&& pos + 1 + jlen <= s.len()
            &&& s.subrange(pos, pos + 1 + jlen) == seq![' '] + spec_join(rads, " "@)
            &&& (pos + 1 + jlen == s.len() || s[pos + 1 + jlen] == '\n')
        },
    ensures
        text_radicals_more(s, pos) == {
            let end = if rads.len() == 0 {
                pos
            } else {
                pos + 1 + spec_join(rads, " "@).len()
            };
            (end, rads)
        },
    decreases rads.len(),
{
    reveal_strlit(" ");
    if rads.len() == 0 {
        assert(text_radicals_more(s, pos) == (pos, Seq::<Seq<char>>::empty()));
        assert(rads =~= Seq::<Seq<char>>::empty());
    } else {
        let j = spec_join(rads, " "@);
        let content = seq![' '] + j;
        let jlen = j.len();
        let r0 = rads[0];
        lemma_chars_at(s, pos, content, 0);
        assert(s[pos] == ' ');
        if rads.len() == 1 {
            assert(j == r0);
            assert forall|i: int| pos + 1 <= i < pos + 1 + r0.len() implies !text_stop(
                #[trigger] s[i],
            ) by {
                lemma_chars_at(s, pos, content, i - pos);
                assert(content[i - pos] == r0[i - pos - 1]);
            }
            lemma_token_end_exact(s, pos + 1, pos + 1 + r0.len());
            lemma_sub_sub(s, pos, content, 1, 1 + r0.len() as int);
            assert(content.subrange(1, 1 + r0.len() as int) =~= r0);
            assert(text_radical(s, pos + 1) == Some((pos + 1 + r0.len(), r0)));
            lemma_text_radicals_more_at(s, pos + 1 + r0.len(), rads.drop_first());
            assert(seq![r0] + rads.drop_first() =~= rads);
        } else {
            lemma_join_first(rads, " "@);
            let jrest = spec_join(rads.drop_first(), " "@);
            assert(" "@ =~= seq![' ']);
            assert(j == r0 + seq![' '] + jrest);
            assert(jlen == r0.len() + 1 + jrest.len());
            assert forall|i: int| pos + 1 <= i < pos + 1 + r0.len() implies !text_stop(
                #[trigger] s[i],
            ) by {
                lemma_chars_at(s, pos, content, i - pos);
                assert(content[i - pos] == r0[i - pos - 1]);
            }
            lemma_chars_at(s, pos, content, 1 + r0.len() as int);
            assert(content[1 + r0.len() as int] == ' ');
            lemma_token_end_exact(s, pos + 1, pos + 1 + r0.len());
            lemma_sub_sub(s, pos, content, 1, 1 + r0.len() as int);
            assert(content.subrange(1, 1 + r0.len() as int) =~= r0);
            assert(text_radical(s, pos + 1) == Some((pos + 1 + r0.len(), r0)));
            let p = pos + 1 + r0.len();
            assert forall|i: int|
                0 <= i < rads.drop_first().len() implies token_wf(
                #[trigger] rads.drop_first()[i],
            ) by {
                assert(rads.drop_first()[i] == rads[i + 1]);
            }
            lemma_sub_sub(s, pos, content, 1 + r0.len() as int, content.len() as int);
            assert(content.subrange(1 + r0.len() as int, content.len() as int) =~= seq![' ']
                + jrest);
            assert(s.subrange(p, p + 1 + jrest.len()) == seq![' '] + jrest);
            lemma_text_radicals_more_at(s, p, rads.drop_first());
            assert(text_radicals_more(s, p) == (p + 1 + jrest.len(), rads.drop_first()));
            assert(seq![r0] + rads.drop_first() =~= rads);
            assert(p + 1 + jrest.len() == pos + 1 + jlen);
        }
    }
}

/// At the start of a serialized radical list, the radical-list grammar
/// reads back exactly those radicals.
#[verifier::rlimit(60)]
proof fn lemma_text_radicals_at(s: Seq<char>, pos: int, rads: Seq<Seq<char>>)
    requires
        0 <= pos,
        rads.len() > 0,
        forall|i: int| 0 <= i < rads.len() ==> token_wf(#[trigger] rads[i]),
        pos + spec_join(rads, " "@).len() <= s.len(),
        s.subrange(pos, pos + spec_join(rads, " "@).len()) == spec_join(rads, " "@),
        pos + spec_join(rads, " "@).len() == s.len() || s[pos + spec_join(rads, " "@).len()]
            == '\n',
    ensures
        text_radicals(s, pos) == Some((pos + spec_join(rads, " "@).len(), rads)),
{
    reveal_strlit(" ");
    let j = spec_join(rads, " "@);
    let jlen = j.len();
    let r0 = rads[0];
    if rads.len() == 1 {
        assert(j == r0);
        assert forall|i: int| pos <= i < pos + r0.len() implies !text_stop(#[trigger] s[i]) by {
            lemma_chars_at(s, pos, j, i - pos);
        }
        lemma_token_end_exact(s, pos, pos + r0.len());
        lemma_sub_sub(s, pos, j, 0, r0.len() as int);
        assert(j.subrange(0, r0.len() as int) =~= r0);
        assert(text_radical(s, pos) == Some((pos + r0.len(), r0)));
        lemma_text_radicals_more_at(s, pos + r0.len(), rads.drop_first());
        assert(seq![r0] + rads.drop_first() =~= rads);
    } else {
        lemma_join_first(rads, " "@);
        let jrest = spec_join(rads.drop_first(), " "@);
        assert(" "@ =~= seq![' ']);
        assert(j == r0 + seq![' '] + jrest);
        assert(jlen == r0.len() + 1 + jrest.len());
        assert forall|i: int| pos <= i < pos + r0.len() implies !text_stop(#[trigger] s[i]) by {
            lemma_chars_at(s, pos, j, i - pos);
            assert(j[i - pos] == r0[i - pos]);
        }
        lemma_chars_at(s, pos, j, r0.len() as int);
        assert(j[r0.len() as int] == ' ');
        lemma_token_end_exact(s, pos, pos + r0.len());
        lemma_sub_sub(s, pos, j, 0, r0.len() as int);
        assert(j.subrange(0, r0.len() as int) =~= r0);
        assert(text_radical(s, pos) == Some((pos + r0.len(), r0)));
        let p = pos + r0.len();
        assert forall|i: int|
            0 <= i < rads.drop_first().len() implies token_wf(#[trigger] rads.drop_first()[i]) by {
            assert(rads.drop_first()[i] == rads[i + 1]);
        }
        lemma_sub_sub(s, pos, j, r0.len() as int, jlen as int);
        assert(j.subrange(r0.len() as int, jlen as int) =~= seq![' '] + jrest);
        assert(s.subrange(p, p + 1 + jrest.len()) == seq![' '] + jrest);
        lemma_text_radicals_more_at(s, p, rads.drop_first());
        assert(text_radicals_more(s, p) == (p + 1 + jrest.len(), rads.drop_first()));
        assert(seq![r0] + rads.drop_first() =~= rads);
        assert(p + 1 + jrest.len() == pos + jlen);
    }
}

/// At the start of a serialized line, the line grammar reads back exactly
/// that record.
#[verifier::rlimit(60)]
proof fn lemma_text_line_at(s: Seq<char>, pos: int, d: DecompositionV)
    requires
        0 <= pos,
        record_wf(d),
        pos + spec_krad_line(d).len() <= s.len(),
        s.subrange(pos, pos + spec_krad_line(d).len()) == spec_krad_line(d),
        pos + spec_krad_line(d).len() == s.len() || s[pos + spec_krad_line(d).len()] == '\n',
    ensures
        text_kanji_line(s, pos) == Some((pos + spec_krad_line(d).len(), d)),
{
    reveal_strlit(" : ");
    reveal_strlit(" ");
    let line = spec_krad_line(d);
    let k = d.kanji;
    let j = spec_join(d.radicals, " "@);
    assert(" : "@ =~= seq![' ', ':', ' ']);
    assert(line == k + " : "@ + j);
    assert(line =~= k + seq![' ', ':', ' '] + j);
    assert(line.len() == k.len() + 3 + j.len());
    assert forall|i: int| pos <= i < pos + k.len() implies s[i] != ' ' by {
        lemma_chars_at(s, pos, line, i - pos);
        assert(line[i - pos] == k[i - pos]);
        assert(!text_stop(k[i - pos]));
    }
    lemma_chars_at(s, pos, line, k.len() as int);
    assert(line[k.len() as int] == ' ');
    lemma_find_space_exact(s, pos, pos + k.len());
    lemma_sub_sub(s, pos, line, 0, k.len() as int);
    assert(line.subrange(0, k.len() as int) =~= k);
    assert(text_kanji(s, pos) == Some((pos + k.len(), k)));
    let p = pos + k.len();
    lemma_chars_at(s, pos, line, k.len() as int + 1);
    assert(line[k.len() as int + 1] == ':');
    lemma_chars_at(s, pos, line, k.len() as int + 2);
    assert(line[k.len() as int + 2] == ' ');
    lemma_sub_sub(s, pos, line, k.len() as int + 3, line.len() as int);
    assert(line.subrange(k.len() as int + 3, line.len() as int) =~= j);
    assert(s.subrange(p + 3, p + 3 + j.len()) == j);
    lemma_text_radicals_at(s, p + 3, d.radicals);
    assert(text_radicals(s, p + 3) == Some((p + 3 + j.len(), d.radicals)));
    assert(p + 3 + j.len() == pos + line.len());
    assert(DecompositionV { kanji: k, radicals: d.radicals } == d);
}

/// At a newline position, the continued line list reads back the
/// serialized records that follow it.
#[verifier::rlimit(60)]
proof fn lemma_text_lines_more_at(s: Seq<char>, pos: int, rs: Seq<DecompositionV>)
    requires
        0 <= pos <= s.len(),
        forall|i: int| 0 <= i < rs.len() ==> record_wf(#[trigger] rs[i]),
        rs.len() == 0 ==> pos == s.len(),
        rs.len() > 0 ==> {
            &&& pos + 1 + spec_join(text_lines_of(rs), "\n"@).len() == s.len()
            &&& s.subrange(pos, s.len() as int) == seq!['\n'] + spec_join(
                text_lines_of(rs),
                "\n"@,
            )
        },
    ensures
        text_lines_more(s, pos) == (s.len() as int, rs),
    decreases rs.len(),
{
    reveal_strlit("\n");
    if rs.len() == 0 {
        assert(text_lines_more(s, pos) == (pos, Seq::<DecompositionV>::empty()));
        assert(rs =~= Seq::<DecompositionV>::empty());
    } else {
        let lls = text_lines_of(rs);
        let j = spec_join(lls, "\n"@);
        let content = seq!['\n'] + j;
        let d0 = rs[0];
        let l0 = spec_krad_line(d0);
        assert(lls[0] == l0);
        lemma_chars_at(s, pos, content, 0);
        assert(s[pos] == '\n');
        if rs.len() == 1 {
            assert(j == l0);
            lemma_sub_sub(s, pos, content, 1, 1 + l0.len() as int);
            assert(content.subrange(1, 1 + l0.len() as int) =~= l0);
            lemma_text_line_at(s, pos + 1, d0);
            assert(text_kanji_line(s, pos + 1) == Some((pos + 1 + l0.len(), d0)));
            lemma_text_lines_more_at(s, pos + 1 + l0.len(), rs.drop_first());
            assert(seq![d0] + rs.drop_first() =~= rs);
        } else {
            lemma_join_first(lls, "\n"@);
            let jrest = spec_join(lls.drop_first(), "\n"@);
            assert("\n"@ =~= seq!['\n']);
            assert(j == l0 + seq!['\n'] + jrest);
            assert(j.len() == l0.len() + 1 + jrest.len());
            lemma_sub_sub(s, pos, content, 1, 1 + l0.len() as int);
            assert(content.subrange(1, 1 + l0.len() as int) =~= l0);
            lemma_chars_at(s, pos, content, 1 + l0.len() as int);
            assert(content[1 + l0.len() as int] == '\n');
            lemma_text_line_at(s, pos + 1, d0);
            assert(text_kanji_line(s, pos + 1) == Some((pos + 1 + l0.len(), d0)));
            let p = pos + 1 + l0.len();
            assert forall|i: int|
                0 <= i < rs.drop_first().len() implies record_wf(#[trigger] rs.drop_first()[i]) by {
                assert(rs.drop_first()[i] == rs[i + 1]);
            }
            assert(text_lines_of(rs.drop_first()) =~= lls.drop_first());
            lemma_sub_sub(s, pos, content, 1 + l0.len() as int, content.len() as int);
            assert(content.subrange(1 + l0.len() as int, content.len() as int) =~= seq!['\n']
                + jrest);
            assert(s.subrange(p, s.len() as int) == seq!['\n'] + jrest);
            lemma_text_lines_more_at(s, p, rs.drop_first());
            assert(text_lines_more(s, p) == (s.len() as int, rs.drop_first()));
            assert(seq![d0] + rs.drop_first() =~= rs);
        }
    }
}

/// Rendering records as plain text and re-reading that text with the same
/// grammar gives the records back: the parse/format round trip is the
/// identity on record lists the text form can carry.
#[verifier::rlimit(60)]
pub proof fn lemma_parse_format_round_trip(rs: Seq<DecompositionV>)
    requires
        rs.len() > 0,
        forall|i: int| 0 <= i < rs.len() ==> record_wf(#[trigger] rs[i]),
    ensures
        spec_text_parse(spec_to_unicode_krad(rs)) == Some(rs),
{
    reveal_strlit("\n");
    let s = spec_to_unicode_krad(rs);
    let lls = text_lines_of(rs);
    assert(s == spec_join(lls, "\n"@));
    let d0 = rs[0];
    let l0 = spec_krad_line(d0);
    assert(lls[0] == l0);
    if rs.len() == 1 {
        assert(s == l0);
        assert(s.subrange(0, l0.len() as int) =~= l0);
        lemma_text_line_at(s, 0, d0);
        lemma_text_lines_more_at(s, l0.len() as int, rs.drop_first());
        assert(seq![d0] + rs.drop_first() =~= rs);
    } else {
        lemma_join_first(lls, "\n"@);
        let jrest = spec_join(lls.drop_first(), "\n"@);
        assert("\n"@ =~= seq!['\n']);
        assert(s == l0 + seq!['\n'] + jrest);
        assert(s.subrange(0, l0.len() as int) =~= l0);
        assert(s[l0.len() as int] == '\n');
        lemma_text_line_at(s, 0, d0);
        assert(text_kanji_line(s, 0) == Some((l0.len() as int, d0)));
        assert forall|i: int|
            0 <= i < rs.drop_first().len() implies record_wf(#[trigger] rs.drop_first()[i]) by {
            assert(rs.drop_first()[i] == rs[i + 1]);
        }
        assert(text_lines_of(rs.drop_first()) =~= lls.drop_first());
        assert(s.subrange(l0.len() as int, s.len() as int) =~= seq!['\n'] + jrest);
        lemma_text_lines_more_at(s, l0.len() as int, rs.drop_first());
        assert(text_lines_more(s, l0.len() as int) == (s.len() as int, rs.drop_first()));
        assert(seq![d0] + rs.drop_first() =~= rs);
    }
}

/// Builds one line of the plain-text form.
fn krad_line(d: &Decomposition) -> (r: String)
    ensures
        r@ == spec_krad_line(d@),
{
    let mut out = String::new();
    out.append(d.kanji.as_str());
    out.append(" : ");
    let rads = join_strings(&d.radicals, " ");
    out.append(rads.as_str());
    proof {
        assert(out@ =~= d.kanji@ + " : "@ + spec_join(d.radicals.deep_view(), " "@));
    }
    out
}

/// Moves every record of `src` to the end of `dst`.
fn append_decompositions(dst: &mut Vec<Decomposition>, src: Vec<Decomposition>)
    ensures
        final(dst).deep_view() == old(dst).deep_view() + src.deep_view(),
{
    let mut src = src;
    let ghost total = old(dst).deep_view() + src.deep_view();
    while src.len() > 0
        invariant
            dst.deep_view() + src.deep_view() == total,
        decreases src.len(),
    {
        let ghost pre_dst = dst.deep_view();
        let ghost pre_src = src.deep_view();
        let x = src.remove(0);
        dst.push(x);
        proof {
            assert(src.deep_view() =~= pre_src.drop_first());
            assert(dst.deep_view() =~= pre_dst.push(pre_src[0]));
            assert(pre_dst.push(pre_src[0]) + pre_src.drop_first() =~= pre_dst + pre_src);
        }
    }
    proof {
        assert(dst.deep_view() + src.deep_view() =~= dst.deep_view());
    }
}

/// Moves every line of `src` to the end of `dst`.
fn append_lines(dst: &mut Vec<String>, src: Vec<String>)
    ensures
        final(dst).deep_view() == old(dst).deep_view() + src.deep_view(),
{
    let mut src = src;
    let ghost total = old(dst).deep_view() + src.deep_view();
    while src.len() > 0
        invariant
            dst.deep_view() + src.deep_view() == total,
        decreases src.len(),
    {
        let ghost pre_dst = dst.deep_view();
        let ghost pre_src = src.deep_view();
        let x = src.remove(0);
        dst.push(x);
        proof {
            assert(src.deep_view() =~= pre_src.drop_first());
            assert(dst.deep_view() =~= pre_dst.push(pre_src[0]));
            assert(pre_dst.push(pre_src[0]) + pre_src.drop_first() =~= pre_dst + pre_src);
        }
    }
    proof {
        assert(dst.deep_view() + src.deep_view() =~= dst.deep_view());
    }
}

/// Renders records as plain Unicode text, one `kanji : radicals` line per
/// record.
pub fn to_unicode(decompositions: &Vec<Decomposition>) -> (r: String)
    ensures
        r@ == spec_to_unicode_krad(decompositions.deep_view()),
{
    let ghost rs = decompositions.deep_view();
    let mut lines: Vec<String> = Vec::new();
    let mut i: usize = 0;
    proof {
        assert(lines.deep_view() =~= Seq::new(0 as nat, |k: int| spec_krad_line(rs[k])));
    }
    while i < decompositions.len()
        invariant
            rs == decompositions.deep_view(),
            i <= rs.len(),
            lines.deep_view() == Seq::new(i as nat, |k: int| spec_krad_line(rs[k])),
        decreases rs.len() - i,
    {
        let ghost prev = lines.deep_view();
        lines.push(krad_line(&decompositions[i]));
        proof {
            assert(lines.deep_view() =~= prev.push(spec_krad_line(rs[i as int])));
            assert(prev.push(spec_krad_line(rs[i as int])) =~= Seq::new(
                (i + 1) as nat,
                |k: int| spec_krad_line(rs[k]),
            ));
        }
        i = i + 1;
    }
    proof {
        assert(Seq::new(i as nat, |k: int| spec_krad_line(rs[k])) =~= Seq::new(
            rs.len(),
            |k: int| spec_krad_line(rs[k]),
        ));
    }
    join_strings(&lines, "\n")
}

/// Builds the lines of one record of the JSON form.
fn json_record_lines(d: &Decomposition, is_last: bool) -> (r: Vec<String>)
    ensures
        r.deep_view() == spec_json_record_lines(d@, is_last),
{
    let ghost m = d@.radicals.len();
    let mut out: Vec<String> = Vec::new();
    out.push("\t{".to_owned());
    let mut kanji_line = String::new();
    kanji_line.append("\t\t\"kanji\": \"");
    kanji_line.append(d.kanji.as_str());
    kanji_line.append("\",");
    proof {
        assert(kanji_line@ =~= "\t\t\"kanji\": \""@ + d.kanji@ + "\","@);
    }
    out.push(kanji_line);
    out.push("\t\t\"radicals\": [".to_owned());
    let ghost head = seq!["\t{"@, "\t\t\"kanji\": \""@ + d@.kanji + "\","@, "\t\t\"radicals\": ["@];
    proof {
        assert(out.deep_view() =~= head + Seq::new(
            0 as nat,
            |i: int| spec_json_radical_line(d@.radicals[i], i == m - 1),
        ));
    }
    let n = d.radicals.len();
    let mut j: usize = 0;
    while j < n
        invariant
            n == d.radicals@.len(),
            m == d@.radicals.len(),
            m == n,
            j <= n,
            head == seq![
                "\t{"@,
                "\t\t\"kanji\": \""@ + d@.kanji + "\","@,
                "\t\t\"radicals\": ["@,
            ],
            out.deep_view() == head + Seq::new(
                j as nat,
                |i: int| spec_json_radical_line(d@.radicals[i], i == m - 1),
            ),
        decreases n - j,
    {
        let mut line = String::new();
        line.append("\t\t\t\"");
        line.append(d.radicals[j].as_str());
        if j + 1 == n {
            line.append("\"");
            proof {
                assert(line@ =~= spec_json_radical_line(d@.radicals[j as int], true));
            }
        } else {
            line.append("\",");
            proof {
                assert(line@ =~= spec_json_radical_line(d@.radicals[j as int], false));
            }
        }
        let ghost prev = out.deep_view();
        out.push(line);
        proof {
            assert(out.deep_view() =~= prev.push(
                spec_json_radical_line(d@.radicals[j as int], j == m - 1),
            ));
            assert(prev.push(spec_json_radical_line(d@.radicals[j as int], j == m - 1)) =~= head
                + Seq::new(
                (j + 1) as nat,
                |i: int| spec_json_radical_line(d@.radicals[i], i == m - 1),
            ));
        }
        j = j + 1;
    }
    let ghost mid = out.deep_view();
    out.push("\t\t]".to_owned());
    if is_last {
        out.push("\t}".to_owned());
    } else {
        out.push("\t},".to_owned());
    }
    proof {
        let tail = seq!["\t\t]"@, if is_last { "\t}"@ } else { "\t},"@ }];
        assert(out.deep_view() =~= mid + tail);
        assert(Seq::new(j as nat, |i: int| spec_json_radical_line(d@.radicals[i], i == m - 1)) =~= Seq::new(
            m,
            |i: int| spec_json_radical_line(d@.radicals[i], i == m - 1),
        ));
        assert(out.deep_view() =~= spec_json_record_lines(d@, is_last));
    }
    out
}

/// Renders records as a JSON array of objects.
pub fn to_json(decompositions: &Vec<Decomposition>) -> (r: String)
    ensures
        r@ == spec_to_json_krad(decompositions.deep_view()),
{
    let ghost rs = decompositions.deep_view();
    let n = decompositions.len();
    let mut lines: Vec<String> = Vec::new();
    lines.push("[".to_owned());
    proof {
        if n == 0 {
            assert(lines.deep_view() =~= seq!["["@] + spec_json_body(rs));
        } else {
            assert(lines.deep_view() =~= seq!["["@] + spec_json_body_nonlast(rs.subrange(0, 0)));
        }
    }
    let mut i: usize = 0;
    while i < n
        invariant
            rs == decompositions.deep_view(),
            n == rs.len(),
            i <= n,
            lines.deep_view() == seq!["["@] + (if i < n {
                spec_json_body_nonlast(rs.subrange(0, i as int))
            } else {
                spec_json_body(rs)
            }),
        decreases n - i,
    {
        let is_last = i + 1 == n;
        let rec_lines = json_record_lines(&decompositions[i], is_last);
        let ghost prev = lines.deep_view();
        append_lines(&mut lines, rec_lines);
        proof {
            if is_last {
                assert(rs.subrange(0, i as int) =~= rs.drop_last());
                assert(rs.last() == rs[i as int]);
                assert(prev + spec_json_record_lines(rs[i as int], true) =~= seq!["["@] + (
                spec_json_body_nonlast(rs.drop_last()) + spec_json_record_lines(rs.last(), true)));
            } else {
                let sub1 = rs.subrange(0, i as int + 1);
                assert(sub1.drop_last() =~= rs.subrange(0, i as int));
                assert(sub1.last() == rs[i as int]);
                assert(prev + spec_json_record_lines(rs[i as int], false) =~= seq!["["@] + (
                spec_json_body_nonlast(rs.subrange(0, i as int)) + spec_json_record_lines(
                    rs[i as int],
                    false,
                )));
            }
        }
        i = i + 1;
    }
    let ghost mid = lines.deep_view();
    lines.push("]".to_owned());
    proof {
        assert(lines.deep_view() =~= mid.push("]"@));
        assert(mid.push("]"@) =~= (seq!["["@] + spec_json_body(rs)) + seq!["]"@]);
        assert((seq!["["@] + spec_json_body(rs)) + seq!["]"@] =~= seq!["["@] + spec_json_body(rs)
            + seq!["]"@]);
    }
    join_strings(&lines, "\n")
}

/// Builds the lines of one record of the embeddable-table form.
fn rust_record_lines(d: &Decomposition) -> (r: Vec<String>)
    ensures
        r.deep_view() == spec_rust_record_lines(d@),
{
    let ghost m = d@.radicals.len();
    let mut out: Vec<String> = Vec::new();
    out.push("\t Decomposition {".to_owned());
    let mut kanji_line = String::new();
    kanji_line.append("\t\tkanji: '");
    kanji_line.append(d.kanji.as_str());
    kanji_line.append("',");
    proof {
        assert(kanji_line@ =~= "\t\tkanji: '"@ + d.kanji@ + "',"@);
    }
    out.push(kanji_line);
    out.push("\t\tradicals: &[".to_owned());
    let ghost head = seq!["\t Decomposition {"@, "\t\tkanji: '"@ + d@.kanji + "',"@, "\t\tradicals: &["@];
    proof {
        assert(out.deep_view() =~= head + Seq::new(0 as nat, |i: int| "\t\t\t'"@ + d@.radicals[i] + "',"@));
    }
    let n = d.radicals.len();
    let mut j: usize = 0;
    while j < n
        invariant
            n == d.radicals@.len(),
            m == d@.radicals.len(),
            m == n,
            j <= n,
            head == seq![
                "\t Decomposition {"@,
                "\t\tkanji: '"@ + d@.kanji + "',"@,
                "\t\tradicals: &["@,
            ],
            out.deep_view() == head + Seq::new(j as nat, |i: int| "\t\t\t'"@ + d@.radicals[i] + "',"@),
        decreases n - j,
    {
        let mut line = String::new();
        line.append("\t\t\t'");
        line.append(d.radicals[j].as_str());
        line.append("',");
        proof {
            assert(line@ =~= "\t\t\t'"@ + d@.radicals[j as int] + "',"@);
        }
        let ghost prev = out.deep_view();
        out.push(line);
        proof {
            assert(out.deep_view() =~= prev.push("\t\t\t'"@ + d@.radicals[j as int] + "',"@));
            assert(prev.push("\t\t\t'"@ + d@.radicals[j as int] + "',"@) =~= head + Seq::new(
                (j + 1) as nat,
                |i: int| "\t\t\t'"@ + d@.radicals[i] + "',"@,
            ));
        }
        j = j + 1;
    }
    let ghost mid = out.deep_view();
    out.push("\t\t],".to_owned());
    out.push("\t},".to_owned());
    proof {
        assert(out.deep_view() =~= mid + seq!["\t\t],"@, "\t},"@]);
        assert(Seq::new(j as nat, |i: int| "\t\t\t'"@ + d@.radicals[i] + "',"@) =~= Seq::new(
            m,
            |i: int| "\t\t\t'"@ + d@.radicals[i] + "',"@,
        ));
        assert(out.deep_view() =~= spec_rust_record_lines(d@));
    }
    out
}

/// Renders records as an embeddable table of record literals.
pub fn to_rust(decompositions: &Vec<Decomposition>) -> (r: String)
    ensures
        r@ == spec_to_rust_krad(decompositions.deep_view()),
{
    let ghost rs = decompositions.deep_view();
    let n = decompositions.len();
    let mut lines: Vec<String> = Vec::new();
    lines.push("use super::Decomposition;".to_owned());
    lines.push("".to_owned());
    lines.push("/// The list of radical decompositions from the `kradfile`".to_owned());
    lines.push("pub const DECOMPOSITIONS: &[Decomposition] = &[".to_owned());
    let ghost head = seq![
        "use super::Decomposition;"@,
        ""@,
        "/// The list of radical decompositions from the `kradfile`"@,
        "pub const DECOMPOSITIONS: &[Decomposition] = &["@,
    ];
    proof {
        assert(lines.deep_view() =~= head + spec_rust_body(rs.subrange(0, 0)));
    }
    let mut i: usize = 0;
    while i < n
        invariant
            rs == decompositions.deep_view(),
            n == rs.len(),
            i <= n,
            head == seq![
                "use super::Decomposition;"@,
                ""@,
                "/// The list of radical decompositions from the `kradfile`"@,
                "pub const DECOMPOSITIONS: &[Decomposition] = &["@,
            ],
            lines.deep_view() == head + spec_rust_body(rs.subrange(0, i as int)),
        decreases n - i,
    {
        let rec_lines = rust_record_lines(&decompositions[i]);
        let ghost prev = lines.deep_view();
        append_lines(&mut lines, rec_lines);
        proof {
            let sub1 = rs.subrange(0, i as int + 1);
            assert(sub1.drop_last() =~= rs.subrange(0, i as int));
            assert(sub1.last() == rs[i as int]);
            assert(prev + spec_rust_record_lines(rs[i as int]) =~= head + (spec_rust_body(
                rs.subrange(0, i as int),
            ) + spec_rust_record_lines(rs[i as int])));
        }
        i = i + 1;
    }
    let ghost mid = lines.deep_view();
    lines.push("];".to_owned());
    proof {
        assert(rs.subrange(0, i as int) =~= rs);
        assert(lines.deep_view() =~= mid.push("];"@));
        assert(mid.push("];"@) =~= head + spec_rust_body(rs) + seq!["];"@]);
    }
    join_strings(&lines, "\n")
}

/// Renders records in the chosen output format.
pub fn formatter(format: OutputFormat, decompositions: &Vec<Decomposition>) -> (r: String)
    ensures
        r@ == spec_format_krad(format, decompositions.deep_view()),
{
    match format {
        OutputFormat::Unicode => to_unicode(decompositions),
        OutputFormat::Rust => to_rust(decompositions),
    }
}

/// Parses every buffer as a decomposition file, gathers the records in
/// order, and renders them in the chosen format; the first file that does
/// not parse fails the whole run.
#[verifier::rlimit(50)]
pub fn parse(inputs: &Vec<Vec<u8>>, format: OutputFormat) -> (r: Result<String, KradError>)
    ensures
        (match r {
            Ok(s) => (match spec_parse_all_krad(inputs.deep_view()) {
                Ok(ds) => s@ == spec_format_krad(format, ds),
                Err(_) => false,
            }),
            Err(e) => spec_parse_all_krad(inputs.deep_view()) == Err::<
                Seq<DecompositionV>,
                KradError,
            >(e),
        }),
{
    let ghost files = inputs.deep_view();
    let n = inputs.len();
    let mut all: Vec<Decomposition> = Vec::new();
    let mut i: usize = 0;
    proof {
        assert(files.skip(0) =~= files);
        assert(all.deep_view() =~= Seq::<DecompositionV>::empty());
    }
    while i < n
        invariant
            files == inputs.deep_view(),
            n == files.len(),
            i <= n,
            spec_parse_all_krad(files) == (match spec_parse_all_krad(files.skip(i as int)) {
                Err(e) => Err::<Seq<DecompositionV>, KradError>(e),
                Ok(rest) => Ok(all.deep_view() + rest),
            }),
        decreases n - i,
    {
        proof {
            assert(files[i as int] =~= inputs@[i as int]@);
            assert(files.skip(i as int)[0] == files[i as int]);
            assert(files.skip(i as int).drop_first() =~= files.skip(i as int + 1));
        }
        match krad::parse_bytes(inputs[i].as_slice()) {
            Err(e) => {
                proof {
                    assert(krad::spec_parse_krad(files.skip(i as int)[0]) == Err::<
                        Seq<DecompositionV>,
                        KradError,
                    >(e));
                    assert(spec_parse_all_krad(files.skip(i as int)) == Err::<
                        Seq<DecompositionV>,
                        KradError,
                    >(e));
                }
                return Err(e);
            },
            Ok(v) => {
                let ghost prev = all.deep_view();
                let ghost got = v.deep_view();
                append_decompositions(&mut all, v);
                proof {
                    let after = spec_parse_all_krad(files.skip(i as int + 1));
                    match after {
                        Err(_) => {},
                        Ok(rest) => {
                            assert((prev + got) + rest =~= prev + (got + rest));
                        },
                    }
                }
            },
        }
        i = i + 1;
    }
    proof {
        assert(files.skip(i as int) =~= Seq::<Seq<u8>>::empty());
        assert(all.deep_view() + Seq::<DecompositionV>::empty() =~= all.deep_view());
    }
    Ok(formatter(format, &all))
}

} // verus!
