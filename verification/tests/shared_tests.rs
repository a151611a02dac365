use kradical::shared::{
    bytes_to_u32, comment, comments, decode_jis_kanji, decode_jis_radical, remap_radical,
    SharedError,
};

const COMMENT_LINE: &[u8] = "# September 2007\n".as_bytes();

#[test]
fn shared_is_comment() {
    let res = comment(COMMENT_LINE, 0);
    // the returned position stands on the newline that ended the comment
    assert_eq!(res, Some(COMMENT_LINE.len() - 1));
}

#[test]
fn shared_is_comment_short() {
    let res = comment("#\n".as_bytes(), 0);
    assert_eq!(res, Some(1));
}

#[test]
fn shared_multiple_comment_lines() {
    let line = vec![COMMENT_LINE, COMMENT_LINE].join("".as_bytes());
    let res = comments(&line, 0);
    // both comments and the trailing newline are consumed
    assert_eq!(res, line.len());
}

#[test]
fn krad_is_comment() {
    let res = comment(COMMENT_LINE, 0);
    assert_eq!(res, Some(COMMENT_LINE.len() - 1));
}

#[test]
fn krad_is_comment_short() {
    let res = comment("#\n".as_bytes(), 0);
    assert_eq!(res, Some(1));
}

#[test]
fn big_endian_token_value() {
    assert_eq!(bytes_to_u32(&[0xB0, 0xA1]), 0xB0A1);
    assert_eq!(bytes_to_u32(&[0x8F, 0xB0, 0xA1]), 0x8FB0A1);
    assert_eq!(bytes_to_u32(&[]), 0);
}

#[test]
fn decodes_two_byte_kanji() {
    let res = decode_jis_kanji(&[0xB0, 0xA1]);
    assert_eq!(res, Ok("\u{4E9C}".to_string()));
}

#[test]
fn decodes_three_byte_kanji() {
    // EUC-JP: 0x8F leads a three-byte sequence
    let res = decode_jis_kanji(&[0x8F, 0xB0, 0xA1]);
    assert_eq!(res, Ok("\u{4E02}".to_string()));
}

#[test]
fn unknown_codepoint_is_error() {
    // no entry in the JIS X 0213 table for this code
    let res = decode_jis_kanji(&[0xA0, 0xA0]);
    assert_eq!(res, Err(SharedError::Jis));
    let res = decode_jis_radical(&[0xA0, 0xA0]);
    assert_eq!(res, Err(SharedError::Jis));
}

#[test]
fn malformed_eucjp_is_error() {
    let res = decode_jis_kanji(&[0x8F, 0x20, 0x20]);
    assert_eq!(res, Err(SharedError::EucJp));
}

#[test]
fn wrong_length_is_error() {
    assert_eq!(decode_jis_kanji(&[]), Err(SharedError::Unknown));
    assert_eq!(decode_jis_kanji(&[0xB0]), Err(SharedError::Unknown));
    assert_eq!(decode_jis_kanji(&[0xB0, 0xA1, 0xB0, 0xA1]), Err(SharedError::Unknown));
}

#[test]
fn override_applies_to_radicals_only() {
    // 0xCBBB: the table glyph depicts the standalone character, the
    // override the radical form
    let as_radical = decode_jis_radical(&[0xCB, 0xBB]).unwrap();
    let as_kanji = decode_jis_kanji(&[0xCB, 0xBB]).unwrap();
    assert_eq!(as_radical, "\u{2E96}".to_string());
    assert_eq!(as_kanji, "\u{5FD9}".to_string());
}

#[test]
fn override_table_entries() {
    assert_eq!(remap_radical(0xB2BD), Some("\u{2E85}"));
    assert_eq!(remap_radical(0xD0A4), Some("\u{201A2}"));
    assert_eq!(remap_radical(0x0000), None);
    assert_eq!(remap_radical(0xB0A1), None);
}

#[test]
fn decoding_is_deterministic() {
    // the same 2-byte token always resolves to the same string
    let first = decode_jis_kanji(&[0xB0, 0xA1]);
    let second = decode_jis_kanji(&[0xB0, 0xA1]);
    assert_eq!(first, second);
    let first = decode_jis_radical(&[0xCB, 0xBB]);
    let second = decode_jis_radical(&[0xCB, 0xBB]);
    assert_eq!(first, second);
}
