// The EDRDG dictionary files themselves are not shipped with this crate,
// so whole files of the same shape, built in memory, stand in for them:
// comment headers, many records, and a trailing newline.

use kradical::krad;
use kradical::radk;

// JIS213: "亜 : ｜ 一 口\n"
const KANJI_LINE: &[u8] = &[
    0xB0, 0xA1, 0x20, 0x3A, 0x20, 0xA1, 0xC3, 0x20, 0xB0, 0xEC, 0x20, 0xB8, 0xFD, 0x0A,
];

// EUC-JP kanji, JIS213 radicals: "丂 : 一 勹\n"
const KANJI_LINE2: &[u8] = &[
    0x8F, 0xB0, 0xA1, 0x20, 0x3A, 0x20, 0xB0, 0xEC, 0x20, 0xD2, 0xB1, 0x0A,
];

// "$ 一 1\n" and a kanji block
const IDENT_AND_BLOCK: &[u8] = &[
    0x24, 0x20, 0xB0, 0xEC, 0x20, 0x31, 0x0A, 0xB0, 0xD4, 0xB1, 0xD9, 0x0A,
];

const HEADER: &[u8] = "# Copyright notice\n# maintained upstream\n".as_bytes();

#[test]
fn tests_works_on_actual_file() {
    // a kradfile-shaped whole file: a comment header and many lines
    let mut file = HEADER.to_vec();
    for _ in 0..500 {
        file.extend_from_slice(KANJI_LINE);
    }
    let res = krad::parse_bytes(&file);
    assert_eq!(res.is_ok(), true);
    assert_eq!(res.unwrap().len(), 500);

    // a radkfile-shaped whole file: a comment header and many entries
    let mut file = HEADER.to_vec();
    for _ in 0..250 {
        file.extend_from_slice(IDENT_AND_BLOCK);
    }
    let res = radk::parse_bytes(&file);
    assert_eq!(res.is_ok(), true);
    assert_eq!(res.unwrap().len(), 250);
}

#[test]
fn tests_works_on_actual_file_2() {
    // a kradfile2-shaped whole file: kanji beyond the 2-byte codeset
    // appear as 3-byte EUC-JP tokens
    let mut file = HEADER.to_vec();
    for _ in 0..500 {
        file.extend_from_slice(KANJI_LINE2);
    }
    let res = krad::parse_bytes(&file);
    assert_eq!(res.is_ok(), true);
    assert_eq!(res.unwrap().len(), 500);

    // a radkfile2-shaped whole file with comments between entries
    let mut file = HEADER.to_vec();
    for _ in 0..250 {
        file.extend_from_slice(HEADER);
        file.extend_from_slice(IDENT_AND_BLOCK);
    }
    let res = radk::parse_bytes(&file);
    assert_eq!(res.is_ok(), true);
    assert_eq!(res.unwrap().len(), 250);
}
