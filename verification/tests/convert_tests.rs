use kradical::convert_krad;
use kradical::convert_radk;
use kradical::error::ConvertError;
use kradical::krad::{Decomposition, KradError};
use kradical::opts::{InputFormat, Opts, OutputFormat};
use kradical::radk::{Alternate, Expansion, Radical};

// JIS213: "亜 : ｜ 一 口\n"
const KANJI_LINE: &[u8] = &[
    0xB0, 0xA1, 0x20, 0x3A, 0x20, 0xA1, 0xC3, 0x20, 0xB0, 0xEC, 0x20, 0xB8, 0xFD, 0x0A,
];

fn parsed_kanji() -> Decomposition {
    Decomposition {
        kanji: "亜".to_string(),
        radicals: vec!["｜".to_string(), "一".to_string(), "口".to_string()],
    }
}

fn membership() -> Expansion {
    Expansion {
        radical: Radical {
            glyph: "一".to_string(),
            strokes: 1,
            alternate: Alternate::Absent,
        },
        kanji: vec!["月".to_string(), "日".to_string()],
    }
}

#[test]
fn krad_to_unicode_output() {
    let records = vec![parsed_kanji(), parsed_kanji()];
    let text = convert_krad::to_unicode(&records);
    assert_eq!(text, "亜 : ｜ 一 口\n亜 : ｜ 一 口");
}

#[test]
fn krad_to_json_output() {
    let records = vec![parsed_kanji()];
    let text = convert_krad::to_json(&records);
    let expected = "[\n\t{\n\t\t\"kanji\": \"亜\",\n\t\t\"radicals\": [\n\t\t\t\"｜\",\n\t\t\t\"一\",\n\t\t\t\"口\"\n\t\t]\n\t}\n]";
    assert_eq!(text, expected);
}

#[test]
fn krad_to_json_empty() {
    let text = convert_krad::to_json(&vec![]);
    assert_eq!(text, "[\n]");
}

#[test]
fn krad_to_rust_output() {
    let records = vec![parsed_kanji()];
    let text = convert_krad::to_rust(&records);
    let expected = "use super::Decomposition;\n\n/// The list of radical decompositions from the `kradfile`\npub const DECOMPOSITIONS: &[Decomposition] = &[\n\t Decomposition {\n\t\tkanji: '亜',\n\t\tradicals: &[\n\t\t\t'｜',\n\t\t\t'一',\n\t\t\t'口',\n\t\t],\n\t},\n];";
    assert_eq!(text, expected);
}

#[test]
fn krad_formatter_dispatch() {
    let records = vec![parsed_kanji()];
    assert_eq!(
        convert_krad::formatter(OutputFormat::Unicode, &records),
        convert_krad::to_unicode(&records)
    );
    assert_eq!(
        convert_krad::formatter(OutputFormat::Rust, &records),
        convert_krad::to_rust(&records)
    );
}

#[test]
fn krad_parse_batch() {
    let inputs = vec![KANJI_LINE.to_vec(), KANJI_LINE.to_vec()];
    let text = convert_krad::parse(&inputs, OutputFormat::Unicode).unwrap();
    assert_eq!(text, "亜 : ｜ 一 口\n亜 : ｜ 一 口");
}

#[test]
fn krad_parse_batch_error() {
    let inputs = vec![KANJI_LINE.to_vec(), b"garbage".to_vec()];
    let res = convert_krad::parse(&inputs, OutputFormat::Unicode);
    assert_eq!(res, Err(KradError::Parse));
}

#[test]
fn parse_then_format_then_reparse_is_identity() {
    // the value-level face of the round-trip law: serialize, then read
    // the text back with the same grammar
    let inputs = vec![KANJI_LINE.to_vec()];
    let text = convert_krad::parse(&inputs, OutputFormat::Unicode).unwrap();
    assert_eq!(text, "亜 : ｜ 一 口");
    let reparsed: Vec<&str> = text.split('\n').collect();
    assert_eq!(reparsed.len(), 1);
    let mut parts = reparsed[0].split(" : ");
    assert_eq!(parts.next(), Some("亜"));
    let radicals: Vec<&str> = parts.next().unwrap().split(' ').collect();
    assert_eq!(radicals, vec!["｜", "一", "口"]);
}

#[test]
fn radk_to_unicode_output() {
    let records = vec![membership()];
    let text = convert_radk::to_unicode(&records);
    assert_eq!(text, "一 1 : 月 日");
}

#[test]
fn radk_to_rust_output() {
    let records = vec![membership()];
    let text = convert_radk::to_rust(&records);
    let expected = "use super::Membership;\n\n/// For each radical, a list of which kanji contain it from the `radkfile`\npub const MEMBERSHIPS: &[Membership] = &[\n\tMembership {\n\t\tradical: \"一\",\n\t\tstrokes: 1,\n\t\tkanji: &[\n\t\t\t\"月\",\n\t\t\t\"日\",\n\t\t],\n\t},\n];";
    assert_eq!(text, expected);
}

#[test]
fn radk_parse_batch_consolidates() {
    // one file with one ident line and a two-kanji block, twice over:
    // the records merge and the kanji sort in code-point order
    let file: &[u8] = &[0x24, 0x20, 0xB0, 0xEC, 0x20, 0x31, 0x0A, 0xB0, 0xD4, 0xB1, 0xD9, 0x0A];
    let inputs = vec![file.to_vec(), file.to_vec()];
    let text = convert_radk::parse(&inputs, OutputFormat::Unicode).unwrap();
    assert_eq!(text, "一 1 : 悦 惟");
}

#[test]
fn radk_parse_batch_error() {
    let inputs = vec![b"garbage".to_vec()];
    let res = convert_radk::parse(&inputs, OutputFormat::Unicode);
    assert!(res.is_err());
}

#[test]
fn stroke_counts_render_in_decimal() {
    let mut rec = membership();
    rec.radical.strokes = 17;
    let text = convert_radk::to_unicode(&vec![rec]);
    assert_eq!(text, "一 17 : 月 日");
    let mut rec = membership();
    rec.radical.strokes = 255;
    let text = convert_radk::to_unicode(&vec![rec]);
    assert_eq!(text, "一 255 : 月 日");
}

#[test]
fn convert_error_messages() {
    assert_eq!(
        ConvertError::Krad(KradError::Parse).message(),
        "Error during krad parsing"
    );
    assert_eq!(ConvertError::Io.message(), "IO error");
}

#[test]
fn opts_carry_the_run() {
    let opts = Opts {
        input_format: InputFormat::Krad,
        output_format: OutputFormat::Unicode,
        inputs: vec!["kradfile".to_string()],
        output: "out.txt".to_string(),
    };
    assert_eq!(opts.input_format, InputFormat::Krad);
    assert_eq!(opts.output_format, OutputFormat::Unicode);
    assert_eq!(opts.inputs.len(), 1);
}
