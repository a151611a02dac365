//! Rendering membership records, and the batch entry point that parses
//! several membership files handed in as byte buffers and consolidates
//! their records.

use vstd::prelude::*;

use crate::consolidate::{consolidate, is_consolidation_of};
use crate::opts::OutputFormat;
use crate::radk::{self, Expansion, ExpansionV, RadkError};
use crate::render::{dec_str, join_strings, spec_join, u8_to_string};

verus! {

/// One line of the plain-text form: the radical glyph, its stroke count,
/// and the kanji joined by single spaces.
pub open spec fn spec_radk_line(e: ExpansionV) -> Seq<char> {
    e.radical.glyph + " "@ + dec_str(e.radical.strokes as int) + " : "@ + spec_join(
        e.kanji,
        " "@,
    )
}

/// The plain-text form: one line per record, joined by newlines.
pub open spec fn spec_to_unicode_radk(rs: Seq<ExpansionV>) -> Seq<char> {
    spec_join(Seq::new(rs.len(), |i: int| spec_radk_line(rs[i])), "\n"@)
}

/// The lines of one record of the embeddable-table form.
pub open spec fn spec_rust_record_lines_radk(e: ExpansionV) -> Seq<Seq<char>> {
    seq![
        "\tMembership {"@,
        "\t\tradical: \""@ + e.radical.glyph + "\","@,
        "\t\tstrokes: "@ + dec_str(e.radical.strokes as int) + ","@,
        "\t\tkanji: &["@,
    ] + Seq::new(e.kanji.len(), |i: int| "\t\t\t\""@ + e.kanji[i] + "\","@) + seq![
        "\t\t],"@,
        "\t},"@,
    ]
}

/// The record lines of the embeddable-table form.
pub open spec fn spec_rust_body_radk(rs: Seq<ExpansionV>) -> Seq<Seq<char>>
    decreases rs.len(),
{
    if rs.len() == 0 {
        Seq::empty()
    } else {
        spec_rust_body_radk(rs.drop_last()) + spec_rust_record_lines_radk(rs.last())
    }
}

/// The embeddable-table form: a table of record literals under a header.
pub open spec fn spec_to_rust_radk(rs: Seq<ExpansionV>) -> Seq<char> {
    spec_join(
        seq![
            "use super::Membership;"@,
            ""@,
            "/// For each radical, a list of which kanji contain it from the `radkfile`"@,
            "pub const MEMBERSHIPS: &[Membership] = &["@,
        ] + spec_rust_body_radk(rs) + seq!["];"@],
        "\n"@,
    )
}

/// What each output format renders a record list to.
pub open spec fn spec_format_radk(format: OutputFormat, rs: Seq<ExpansionV>) -> Seq<char> {
    match format {
        OutputFormat::Unicode => spec_to_unicode_radk(rs),
        OutputFormat::Rust => spec_to_rust_radk(rs),
    }
}

/// What parsing a list of file buffers yields: the records of every file
/// in order, or the first file's failure.
pub open spec fn spec_parse_all_radk(files: Seq<Seq<u8>>) -> Result<Seq<ExpansionV>, RadkError>
    decreases files.len(),
{
    if files.len() == 0 {
        Ok(Seq::empty())
    } else {
        match radk::spec_parse_radk(files[0]) {
            Err(e) => Err(e),
            Ok(es) => match spec_parse_all_radk(files.drop_first()) {
                Err(e) => Err(e),
                Ok(rest) => Ok(es + rest),
            },
        }
    }
}

/// Builds one line of the plain-text form.
fn radk_line(e: &Expansion) -> (r: String)
    ensures
        r@ == spec_radk_line(e@),
{
    let mut out = String::new();
    out.append(e.radical.glyph.as_str());
    out.append(" ");
    let strokes = u8_to_string(e.radical.strokes);
    out.append(strokes.as_str());
    out.append(" : ");
    let kanji = join_strings(&e.kanji, " ");
    out.append(kanji.as_str());
    proof {
        assert(out@ =~= e@.radical.glyph + " "@ + dec_str(e@.radical.strokes as int) + " : "@
            + spec_join(e.kanji.deep_view(), " "@));
    }
    out
}

/// Moves every record of `src` to the end of `dst`.
fn append_expansions(dst: &mut Vec<Expansion>, src: Vec<Expansion>)
    ensures
        final(dst).deep_view() == old(dst).deep_view() + src.deep_view(),
{
    let mut src = src;
    let ghost total = old(dst).deep_view() + src.deep_view();
    while src.len() > 0
        invariant
            dst.deep_view() + src.deep_view() == total,
        decreases src.len(),
    {
        let ghost pre_dst = dst.deep_view();
        let ghost pre_src = src.deep_view();
        let x = src.remove(0);
        dst.push(x);
        proof {
            assert(src.deep_view() =~= pre_src.drop_first());
            assert(dst.deep_view() =~= pre_dst.push(pre_src[0]));
            assert(pre_dst.push(pre_src[0]) + pre_src.drop_first() =~= pre_dst + pre_src);
        }
    }
    proof {
        assert(dst.deep_view() + src.deep_view() =~= dst.deep_view());
    }
}

/// Moves every line of `src` to the end of `dst`.
fn append_lines(dst: &mut Vec<String>, src: Vec<String>)
    ensures
        final(dst).deep_view() == old(dst).deep_view() + src.deep_view(),
{
    let mut src = src;
    let ghost total = old(dst).deep_view() + src.deep_view();
    while src.len() > 0
        invariant
            dst.deep_view() + src.deep_view() == total,
        decreases src.len(),
    {
        let ghost pre_dst = dst.deep_view();
        let ghost pre_src = src.deep_view();
        let x = src.remove(0);
        dst.push(x);
        proof {
            assert(src.deep_view() =~= pre_src.drop_first());
            assert(dst.deep_view() =~= pre_dst.push(pre_src[0]));
            assert(pre_dst.push(pre_src[0]) + pre_src.drop_first() =~= pre_dst + pre_src);
        }
    }
    proof {
        assert(dst.deep_view() + src.deep_view() =~= dst.deep_view());
    }
}

/// Renders records as plain Unicode text, one `glyph strokes : kanji`
/// line per record.
pub fn to_unicode(expansions: &Vec<Expansion>) -> (r: String)
    ensures
        r@ == spec_to_unicode_radk(expansions.deep_view()),
{
    let ghost rs = expansions.deep_view();
    let mut lines: Vec<String> = Vec::new();
    let mut i: usize = 0;
    proof {
        assert(lines.deep_view() =~= Seq::new(0 as nat, |k: int| spec_radk_line(rs[k])));
    }
    while i < expansions.len()
        invariant
            rs == expansions.deep_view(),
            i <= rs.len(),
            lines.deep_view() == Seq::new(i as nat, |k: int| spec_radk_line(rs[k])),
        decreases rs.len() - i,
    {
        let ghost prev = lines.deep_view();
        lines.push(radk_line(&expansions[i]));
        proof {
            assert(lines.deep_view() =~= prev.push(spec_radk_line(rs[i as int])));
            assert(prev.push(spec_radk_line(rs[i as int])) =~= Seq::new(
                (i + 1) as nat,
                |k: int| spec_radk_line(rs[k]),
            ));
        }
        i = i + 1;
    }
    proof {
        assert(Seq::new(i as nat, |k: int| spec_radk_line(rs[k])) =~= Seq::new(
            rs.len(),
            |k: int| spec_radk_line(rs[k]),
        ));
    }
    join_strings(&lines, "\n")
}

/// Builds the lines of one record of the embeddable-table form.
fn rust_record_lines(e: &Expansion) -> (r: Vec<String>)
    ensures
        r.deep_view() == spec_rust_record_lines_radk(e@),
{
    let ghost m = e@.kanji.len();
    let mut out: Vec<String> = Vec::new();
    out.push("\tMembership {".to_owned());
    let mut rad_line = String::new();
    rad_line.append("\t\tradical: \"");
    rad_line.append(e.radical.glyph.as_str());
    rad_line.append("\",");
    proof {
        assert(rad_line@ =~= "\t\tradical: \""@ + e@.radical.glyph + "\","@);
    }
    out.push(rad_line);
    let mut strokes_line = String::new();
    strokes_line.append("\t\tstrokes: ");
    let strokes = u8_to_string(e.radical.strokes);
    strokes_line.append(strokes.as_str());
    strokes_line.append(",");
    proof {
        assert(strokes_line@ =~= "\t\tstrokes: "@ + dec_str(e@.radical.strokes as int) + ","@);
    }
    out.push(strokes_line);
    out.push("\t\tkanji: &[".to_owned());
    let ghost head = seq![
        "\tMembership {"@,
        "\t\tradical: \""@ + e@.radical.glyph + "\","@,
        "\t\tstrokes: "@ + dec_str(e@.radical.strokes as int) + ","@,
        "\t\tkanji: &["@,
    ];
    proof {
        assert(out.deep_view() =~= head + Seq::new(
            0 as nat,
            |i: int| "\t\t\t\""@ + e@.kanji[i] + "\","@,
        ));
    }
    let n = e.kanji.len();
    let mut j: usize = 0;
    while j < n
        invariant
            n == e.kanji@.len(),
            m == e@.kanji.len(),
            m == n,
            j <= n,
            head == seq![
                "\tMembership {"@,
                "\t\tradical: \""@ + e@.radical.glyph + "\","@,
                "\t\tstrokes: "@ + dec_str(e@.radical.strokes as int) + ","@,
                "\t\tkanji: &["@,
            ],
            out.deep_view() == head + Seq::new(j as nat, |i: int| "\t\t\t\""@ + e@.kanji[i] + "\","@),
        decreases n - j,
    {
        let mut line = String::new();
        line.append("\t\t\t\"");
        line.append(e.kanji[j].as_str());
        line.append("\",");
        proof {
            assert(line@ =~= "\t\t\t\""@ + e@.kanji[j as int] + "\","@);
        }
        let ghost prev = out.deep_view();
        out.push(line);
        proof {
            assert(out.deep_view() =~= prev.push("\t\t\t\""@ + e@.kanji[j as int] + "\","@));
            assert(prev.push("\t\t\t\""@ + e@.kanji[j as int] + "\","@) =~= head + Seq::new(
                (j + 1) as nat,
                |i: int| "\t\t\t\""@ + e@.kanji[i] + "\","@,
            ));
        }
        j = j + 1;
    }
    let ghost mid = out.deep_view();
    out.push("\t\t],".to_owned());
    out.push("\t},".to_owned());
    proof {
        assert(out.deep_view() =~= mid + seq!["\t\t],"@, "\t},"@]);
        assert(Seq::new(j as nat, |i: int| "\t\t\t\""@ + e@.kanji[i] + "\","@) =~= Seq::new(
            m,
            |i: int| "\t\t\t\""@ + e@.kanji[i] + "\","@,
        ));
        assert(out.deep_view() =~= spec_rust_record_lines_radk(e@));
    }
    out
}

/// Renders records as an embeddable table of record literals.
pub fn to_rust(expansions: &Vec<Expansion>) -> (r: String)
    ensures
        r@ == spec_to_rust_radk(expansions.deep_view()),
{
    let ghost rs = expansions.deep_view();
    let n = expansions.len();
    let mut lines: Vec<String> = Vec::new();
    lines.push("use super::Membership;".to_owned());
    lines.push("".to_owned());
    lines.push("/// For each radical, a list of which kanji contain it from the `radkfile`".to_owned());
    lines.push("pub const MEMBERSHIPS: &[Membership] = &[".to_owned());
    let ghost head = seq![
        "use super::Membership;"@,
        ""@,
        "/// For each radical, a list of which kanji contain it from the `radkfile`"@,
        "pub const MEMBERSHIPS: &[Membership] = &["@,
    ];
    proof {
        assert(lines.deep_view() =~= head + spec_rust_body_radk(rs.subrange(0, 0)));
    }
    let mut i: usize = 0;
    while i < n
        invariant
            rs == expansions.deep_view(),
            n == rs.len(),
            i <= n,
            head == seq![
                "use super::Membership;"@,
                ""@,
                "/// For each radical, a list of which kanji contain it from the `radkfile`"@,
                "pub const MEMBERSHIPS: &[Membership] = &["@,
            ],
            lines.deep_view() == head + spec_rust_body_radk(rs.subrange(0, i as int)),
        decreases n - i,
    {
        let rec_lines = rust_record_lines(&expansions[i]);
        let ghost prev = lines.deep_view();
        append_lines(&mut lines, rec_lines);
        proof {
            let sub1 = rs.subrange(0, i as int + 1);
            assert(sub1.drop_last() =~= rs.subrange(0, i as int));
            assert(sub1.last() == rs[i as int]);
            assert(prev + spec_rust_record_lines_radk(rs[i as int]) =~= head + (
            spec_rust_body_radk(rs.subrange(0, i as int)) + spec_rust_record_lines_radk(
                rs[i as int],
            )));
        }
        i = i + 1;
    }
    let ghost mid = lines.deep_view();
    lines.push("];".to_owned());
    proof {
        assert(rs.subrange(0, i as int) =~= rs);
        assert(lines.deep_view() =~= mid.push("];"@));
        assert(mid.push("];"@) =~= head + spec_rust_body_radk(rs) + seq!["];"@]);
    }
    join_strings(&lines, "\n")
}

/// Renders records in the chosen output format.
pub fn formatter(format: OutputFormat, expansions: &Vec<Expansion>) -> (r: String)
    ensures
        r@ == spec_format_radk(format, expansions.deep_view()),
{
    match format {
        OutputFormat::Unicode => to_unicode(expansions),
        OutputFormat::Rust => to_rust(expansions),
    }
}

/// Parses every buffer as a membership file, consolidates the records of
/// all files, and renders them in the chosen format; the first file that
/// does not parse fails the whole run.
#[verifier::rlimit(50)]
pub fn parse(inputs: &Vec<Vec<u8>>, format: OutputFormat) -> (r: Result<String, RadkError>)
    ensures
        (match r {
            Ok(s) => (match spec_parse_all_radk(inputs.deep_view()) {
                Ok(es) => exists|cs: Seq<ExpansionV>|
                    #[trigger] is_consolidation_of(es, cs) && s@ == spec_format_radk(format, cs),
                Err(_) => false,
            }),
            Err(e) => spec_parse_all_radk(inputs.deep_view()) == Err::<Seq<ExpansionV>, RadkError>(
                e,
            ),
        }),
{
    let ghost files = inputs.deep_view();
    let n = inputs.len();
    let mut all: Vec<Expansion> = Vec::new();
    let mut i: usize = 0;
    proof {
        assert(files.skip(0) =~= files);
        assert(all.deep_view() =~= Seq::<ExpansionV>::empty());
    }
    while i < n
        invariant
            files == inputs.deep_view(),
            n == files.len(),
            i <= n,
            spec_parse_all_radk(files) == (match spec_parse_all_radk(files.skip(i as int)) {
                Err(e) => Err::<Seq<ExpansionV>, RadkError>(e),
                Ok(rest) => Ok(all.deep_view() + rest),
            }),
        decreases n - i,
    {
        proof {
            assert(files[i as int] =~= inputs@[i as int]@);
            assert(files.skip(i as int)[0] == files[i as int]);
            assert(files.skip(i as int).drop_first() =~= files.skip(i as int + 1));
        }
        match radk::parse_bytes(inputs[i].as_slice()) {
            Err(e) => {
                proof {
                    assert(radk::spec_parse_radk(files.skip(i as int)[0]) == Err::<
                        Seq<ExpansionV>,
                        RadkError,
                    >(e));
                    assert(spec_parse_all_radk(files.skip(i as int)) == Err::<
                        Seq<ExpansionV>,
                        RadkError,
                    >(e));
                }
                return Err(e);
            },
            Ok(v) => {
                let ghost prev = all.deep_view();
                let ghost got = v.deep_view();
                append_expansions(&mut all, v);
                proof {
                    let after = spec_parse_all_radk(files.skip(i as int + 1));
                    match after {
                        Err(_) => {},
                        Ok(rest) => {
                            assert((prev + got) + rest =~= prev + (got + rest));
                        },
                    }
                }
            },
        }
        i = i + 1;
    }
    proof {
        assert(files.skip(i as int) =~= Seq::<Seq<u8>>::empty());
        assert(all.deep_view() + Seq::<ExpansionV>::empty() =~= all.deep_view());
    }
    let ghost parsed = all.deep_view();
    let merged = consolidate(all);
    let out = formatter(format, &merged);
    proof {
        assert(is_consolidation_of(parsed, merged.deep_view()) && out@ == spec_format_radk(
            format,
            merged.deep_view(),
        ));
    }
    Ok(out)
}

} // verus!
