use kradical::krad::{
    kanji_line, lines, next_kanji, parse_bytes, radical, radicals, Decomposition, KradError,
};

// JIS213
// "亜 : ｜ 一 口\n"
const KANJI_LINE: &[u8] = &[
    0xB0, 0xA1, 0x20, 0x3A, 0x20, 0xA1, 0xC3, 0x20, 0xB0, 0xEC, 0x20, 0xB8, 0xFD, 0x0A,
];

// First kanji EUC-JP, radicals JIS213
// "丂 : 一 勹\n"
const KANJI_LINE2: &[u8] = &[
    0x8F, 0xB0, 0xA1, 0x20, 0x3A, 0x20, 0xB0, 0xEC, 0x20, 0xD2, 0xB1, 0x0A,
];

// JIS213
// "｜ 一 口\n"
const RADICALS: &[u8] = &[0xA1, 0xC3, 0x20, 0xB0, 0xEC, 0x20, 0xB8, 0xFD, 0x0A];

const COMMENT_LINE: &[u8] = "# September 2007\n".as_bytes();

fn parsed_kanji() -> Decomposition {
    Decomposition {
        kanji: "亜".to_string(),
        radicals: vec!["｜".to_string(), "一".to_string(), "口".to_string()],
    }
}

fn parsed_kanji_2() -> Decomposition {
    Decomposition {
        kanji: "丂".to_string(),
        radicals: vec!["一".to_string(), "勹".to_string()],
    }
}

#[test]
fn parses_radical() {
    let res = radical(RADICALS, 0);
    // the radical token ends before the space at index 2
    assert_eq!(res, Some((2, "｜".to_string())));
}

#[test]
fn parses_radicals() {
    let res = radicals(RADICALS, 0);
    // the list ends before the final newline
    assert_eq!(res, Some((RADICALS.len() - 1, parsed_kanji().radicals)));
}

#[test]
fn parses_kanji() {
    let res = kanji_line(KANJI_LINE, 0);
    assert_eq!(res, Some((KANJI_LINE.len() - 1, parsed_kanji())));
}

#[test]
fn parses_kanji_2() {
    let res = kanji_line(KANJI_LINE2, 0);
    assert_eq!(res, Some((KANJI_LINE2.len() - 1, parsed_kanji_2())));
}

#[test]
fn parses_line_as_kanji() {
    let res = next_kanji(KANJI_LINE, 0);
    assert_eq!(res, Some((KANJI_LINE.len() - 1, parsed_kanji())));
}

#[test]
fn ignores_comment() {
    let line = vec![COMMENT_LINE, KANJI_LINE].join("".as_bytes());
    let res = next_kanji(&line, 0);
    assert_eq!(res, Some((line.len() - 1, parsed_kanji())));
}

#[test]
fn parses_lines() {
    let line = vec![KANJI_LINE, COMMENT_LINE, KANJI_LINE].join("".as_bytes());
    let res = lines(&line, 0);
    assert_eq!(res, Some((line.len() - 1, vec![parsed_kanji(), parsed_kanji()])));
}

#[test]
fn krad_parses_radical() {
    let res = radical(RADICALS, 0);
    assert_eq!(res, Some((2, "｜".to_string())));
}

#[test]
fn krad_parses_radicals() {
    let res = radicals(RADICALS, 0);
    assert_eq!(res, Some((RADICALS.len() - 1, parsed_kanji().radicals)));
}

#[test]
fn krad_parses_kanji() {
    let res = kanji_line(KANJI_LINE, 0);
    assert_eq!(res, Some((KANJI_LINE.len() - 1, parsed_kanji())));
}

#[test]
fn krad_parses_kanji_2() {
    let res = kanji_line(KANJI_LINE2, 0);
    assert_eq!(res, Some((KANJI_LINE2.len() - 1, parsed_kanji_2())));
}

#[test]
fn krad_parses_line_as_kanji() {
    let res = next_kanji(KANJI_LINE, 0);
    assert_eq!(res, Some((KANJI_LINE.len() - 1, parsed_kanji())));
}

#[test]
fn krad_ignores_comment() {
    let line = vec![COMMENT_LINE, KANJI_LINE].join("".as_bytes());
    let res = next_kanji(&line, 0);
    assert_eq!(res, Some((line.len() - 1, parsed_kanji())));
}

#[test]
fn krad_parses_lines() {
    let line = vec![KANJI_LINE, COMMENT_LINE, KANJI_LINE].join("".as_bytes());
    let res = lines(&line, 0);
    assert_eq!(res, Some((line.len() - 1, vec![parsed_kanji(), parsed_kanji()])));
}

#[test]
fn whole_file_parse() {
    // end to end: the bytes of one decomposition line yield one record
    let res = parse_bytes(KANJI_LINE);
    assert_eq!(res, Ok(vec![parsed_kanji()]));
}

#[test]
fn whole_file_parse_two_lines() {
    let line = vec![KANJI_LINE, KANJI_LINE].join("".as_bytes());
    let res = parse_bytes(&line);
    assert_eq!(res, Ok(vec![parsed_kanji(), parsed_kanji()]));
}

#[test]
fn unterminated_radical_list_fails() {
    // "亜 : \n": a separator with no radicals after it is a grammar
    // error, not a silent empty record
    let bad: &[u8] = &[0xB0, 0xA1, 0x20, 0x3A, 0x20, 0x0A];
    assert_eq!(parse_bytes(bad), Err(KradError::Parse));
}

#[test]
fn unterminated_radical_list_at_eof_fails() {
    // "亜 : " with nothing after the separator
    let bad: &[u8] = &[0xB0, 0xA1, 0x20, 0x3A, 0x20];
    assert_eq!(parse_bytes(bad), Err(KradError::Parse));
}

#[test]
fn unknown_codepoint_fails_parse() {
    // a radical token whose 2-byte code has no table entry
    let bad: &[u8] = &[0xB0, 0xA1, 0x20, 0x3A, 0x20, 0xA0, 0xA0, 0x0A];
    assert_eq!(parse_bytes(bad), Err(KradError::Parse));
}

#[test]
fn ill_formed_line_aborts_whole_parse() {
    // a good line followed by garbage: no partial result comes back
    let mut bad = KANJI_LINE.to_vec();
    bad.extend_from_slice("not a kanji line".as_bytes());
    assert_eq!(parse_bytes(&bad), Err(KradError::Parse));
}

#[test]
fn records_name_at_least_one_radical() {
    let line = vec![KANJI_LINE, KANJI_LINE2].join("".as_bytes());
    let res = parse_bytes(&line).unwrap();
    assert_eq!(res.len(), 2);
    for record in &res {
        assert!(!record.radicals.is_empty());
    }
}
