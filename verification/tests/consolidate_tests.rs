use kradical::consolidate::{consolidate, expansion_le, radical_eq, str_le};
use kradical::radk::{Alternate, Expansion, Radical};

fn radical(glyph: &str, strokes: u8) -> Radical {
    Radical {
        glyph: glyph.to_string(),
        strokes,
        alternate: Alternate::Absent,
    }
}

fn record(glyph: &str, strokes: u8, kanji: &[&str]) -> Expansion {
    Expansion {
        radical: radical(glyph, strokes),
        kanji: kanji.iter().map(|&s| s.to_string()).collect(),
    }
}

#[test]
fn merges_identical_radicals() {
    // two records with the same radical union their kanji, drop the
    // duplicate, and sort in strict code-point order
    let records = vec![
        record("一", 1, &["日", "月"]),
        record("一", 1, &["月", "星"]),
    ];
    let merged = consolidate(records);
    assert_eq!(merged.len(), 1);
    assert_eq!(
        merged[0].kanji,
        // code points: 65E5 (日) < 661F (星) < 6708 (月)
        vec!["日".to_string(), "星".to_string(), "月".to_string()]
    );
}

#[test]
fn different_alternates_stay_apart() {
    // a radical with a different alternate annotation is a different
    // entity and is not merged
    let records = vec![
        record("一", 1, &["日"]),
        Expansion {
            radical: Radical {
                glyph: "一".to_string(),
                strokes: 1,
                alternate: Alternate::Image("js02".to_string()),
            },
            kanji: vec!["月".to_string()],
        },
    ];
    let merged = consolidate(records);
    assert_eq!(merged.len(), 2);
}

#[test]
fn larger_kanji_sets_sort_first_on_stroke_ties() {
    let five = record("口", 1, &["a", "b", "c", "d", "e"]);
    let nine = record("一", 1, &["f", "g", "h", "i", "j", "k", "l", "m", "n"]);
    let merged = consolidate(vec![five.clone(), nine.clone()]);
    assert_eq!(merged, vec![nine, five]);
}

#[test]
fn glyph_order_breaks_full_ties() {
    let a = record("口", 2, &["a", "b"]);
    let b = record("一", 2, &["c", "d"]);
    // 一 (4E00) sorts before 口 (53E3)
    let merged = consolidate(vec![a.clone(), b.clone()]);
    assert_eq!(merged, vec![b, a]);
}

#[test]
fn strokes_dominate_the_order() {
    let one = record("口", 1, &["a"]);
    let two = record("一", 2, &["b", "c", "d"]);
    let merged = consolidate(vec![two.clone(), one.clone()]);
    assert_eq!(merged, vec![one, two]);
}

#[test]
fn consolidation_of_empty_is_empty() {
    assert_eq!(consolidate(vec![]), vec![]);
}

#[test]
fn dedups_within_one_record() {
    let merged = consolidate(vec![record("一", 1, &["日", "日", "月"])]);
    assert_eq!(merged.len(), 1);
    assert_eq!(merged[0].kanji, vec!["日".to_string(), "月".to_string()]);
}

#[test]
fn comparators_match_code_point_order() {
    assert!(str_le("一", "口"));
    assert!(!str_le("口", "一"));
    assert!(str_le("", "一"));
    assert!(str_le("abc", "abc"));
    assert!(str_le("ab", "abc"));
    let a = record("一", 1, &["x"]);
    let b = record("口", 1, &["x"]);
    assert!(expansion_le(&a, &b));
    assert!(!expansion_le(&b, &a));
    assert!(radical_eq(&radical("一", 1), &radical("一", 1)));
    assert!(!radical_eq(&radical("一", 1), &radical("一", 2)));
    assert!(!radical_eq(&radical("一", 1), &radical("口", 1)));
}
