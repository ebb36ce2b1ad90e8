use pycd::translit::{to_pinyin, PinyinStyle};

#[test]
fn test_to_pinyin() {
    let mut p = to_pinyin("", &PinyinStyle::Plain);
    p.sort();
    let expected: Vec<String> = vec![];
    assert_eq!(p, expected);

    let mut p = to_pinyin("shell", &PinyinStyle::Plain);
    p.sort();
    let mut expected: Vec<String> = vec!["shell".to_string()];
    expected.sort();
    assert_eq!(p, expected);

    let mut p = to_pinyin("sh中心ll", &PinyinStyle::Plain);
    p.sort();
    let mut expected: Vec<String> = vec!["shzhongxinll".to_string()];
    expected.sort();
    assert_eq!(p, expected);

    let mut p = to_pinyin("sh折扣ll", &PinyinStyle::Plain);
    p.sort();
    let mut expected: Vec<String> = vec![
        "shzhekoull".to_string(),
        "shshekoull".to_string(),
        "shtikoull".to_string(),
    ];
    expected.sort();
    assert_eq!(p, expected);

    let mut p = to_pinyin("shell", &PinyinStyle::FirstLetter);
    p.sort();
    let mut expected: Vec<String> = vec!["shell".to_string()];
    expected.sort();
    assert_eq!(p, expected);

    let mut p = to_pinyin("sh中心ll", &PinyinStyle::FirstLetter);
    p.sort();
    let mut expected: Vec<String> = vec!["shzxll".to_string()];
    expected.sort();
    assert_eq!(p, expected);

    let mut p = to_pinyin("sh折扣ll", &PinyinStyle::FirstLetter);
    p.sort();
    let mut expected: Vec<String> = vec![
        "shzkll".to_string(),
        "shskll".to_string(),
        "shtkll".to_string(),
    ];
    expected.sort();
    assert_eq!(p, expected);
}

#[test]
fn empty_name_has_no_candidates() {
    assert!(to_pinyin("", &PinyinStyle::Plain).is_empty());
    assert!(to_pinyin("", &PinyinStyle::FirstLetter).is_empty());
}

#[test]
fn ascii_name_is_its_own_candidate() {
    assert_eq!(to_pinyin("music", &PinyinStyle::Plain), vec!["music".to_string()]);
    assert_eq!(
        to_pinyin("music", &PinyinStyle::FirstLetter),
        vec!["music".to_string()]
    );
}

#[test]
fn rounded_vowel_becomes_v() {
    // 略 reads "lüe"; the rounded vowel is rewritten to the letter v.
    assert_eq!(to_pinyin("略", &PinyinStyle::Plain), vec!["lve".to_string()]);
}

#[test]
fn heteronym_count_is_combinatorial() {
    // One single-reading and one triple-reading character: three candidates.
    let p = to_pinyin("折扣", &PinyinStyle::Plain);
    assert_eq!(p.len(), 3);
    let p = to_pinyin("折扣", &PinyinStyle::FirstLetter);
    assert_eq!(p.len(), 3);
}
