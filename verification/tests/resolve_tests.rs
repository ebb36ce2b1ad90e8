use pycd::parse::render_path;
use pycd::search::{resolve_start, DirEntry, EntryKind, MatchMode, SearchState, Searcher, Start, Step};
use pycd::translit::PinyinStyle;

fn dir(name: &str) -> DirEntry {
    DirEntry { name: Some(name.to_string()), kind: EntryKind::Dir }
}

fn file(name: &str) -> DirEntry {
    DirEntry { name: Some(name.to_string()), kind: EntryKind::NotDir }
}

/// The directory tree the resolution tests run against, by rendered path.
fn fixture(path: &str) -> Option<Vec<DirEntry>> {
    match path {
        "." => Some(vec![dir("test"), dir("src"), file("Cargo.toml")]),
        "./test" => Some(vec![dir("中心"), dir("威妥玛拼音")]),
        "./test/中心" => Some(vec![dir("折扣sh"), dir("蛇")]),
        "./test/中心/折扣sh" => Some(vec![]),
        "./test/中心/蛇" => Some(vec![]),
        "./test/威妥玛拼音" => Some(vec![dir("战略")]),
        "./test/威妥玛拼音/战略" => Some(vec![]),
        ".." => Some(vec![dir("pinyincd_rust_backend")]),
        "../pinyincd_rust_backend" => Some(vec![dir("test"), dir("src")]),
        "../pinyincd_rust_backend/test" => Some(vec![dir("中心"), dir("威妥玛拼音")]),
        "../pinyincd_rust_backend/test/威妥玛拼音" => Some(vec![dir("战略")]),
        _ => None,
    }
}

fn resolve(pattern: &str, firstletter: bool, prefix: bool) -> Vec<String> {
    let style = if firstletter { PinyinStyle::FirstLetter } else { PinyinStyle::Plain };
    let mode = if prefix { MatchMode::Prefix } else { MatchMode::Exact };
    let mut s = match resolve_start(pattern, style, mode) {
        Start::Search(s) => s,
        Start::UseHome => panic!("pattern was empty"),
    };
    loop {
        match s.step() {
            Step::Done => break,
            Step::Matched => {}
            Step::List(d) => {
                let listing = fixture(&d);
                s.feed(listing);
            }
        }
    }
    s.results.iter().map(render_path).collect()
}

#[test]
fn test_resolve() {
    let result = resolve("test", false, false);
    assert_eq!(result, vec!["./test".to_string()]);

    let result = resolve("te", false, false);
    assert!(result.is_empty());

    let result = resolve("te", false, true);
    assert_eq!(result, vec!["./test".to_string()]);

    let result = resolve("test/zhongxin/zhekoush", false, false);
    assert_eq!(result, vec!["./test/中心/折扣sh".to_string()]);

    let result = resolve("test/zhongxin/shekoush", false, false);
    assert_eq!(result, vec!["./test/中心/折扣sh".to_string()]);

    let result = resolve("test/zx/zksh", true, false);
    assert_eq!(result, vec!["./test/中心/折扣sh".to_string()]);

    let result = resolve("te/zho/zhek", false, true);
    assert_eq!(result, vec!["./test/中心/折扣sh".to_string()]);

    let result = resolve("te/z/zk", true, true);
    assert_eq!(result, vec!["./test/中心/折扣sh".to_string()]);

    let mut result = resolve("te/z/s", false, true);
    result.sort();
    let mut expected = vec!["./test/中心/蛇".to_string(), "./test/中心/折扣sh".to_string()];
    expected.sort();
    assert_eq!(result, expected);

    let mut result = resolve("te/z/s", true, true);
    result.sort();
    let mut expected = vec!["./test/中心/蛇".to_string(), "./test/中心/折扣sh".to_string()];
    expected.sort();
    assert_eq!(result, expected);

    let result = resolve("../pinyincd_rust_backend/test/weituomapinyin", false, false);
    assert_eq!(result, vec!["../pinyincd_rust_backend/test/威妥玛拼音".to_string()]);

    let result = resolve("test/weituomapinyin/zhanlve", false, false);
    assert_eq!(result, vec!["./test/威妥玛拼音/战略".to_string()]);
}

#[test]
fn listing_failure_aborts_with_empty_results() {
    // The fixture has no listing for "./src", so a pattern that needs it
    // aborts the search; nothing had been harvested yet.
    let result = resolve("src/anything", false, false);
    assert!(result.is_empty());
}

#[test]
fn listing_failure_keeps_partial_results() {
    // One state is already finished, the next needs a listing that fails:
    // the finished one survives the abort.
    let mut s = Searcher {
        queue: vec![
            SearchState { dir: pycd::parse::parse_path("./done"), pattern: vec![] },
            SearchState {
                dir: pycd::parse::parse_path("./broken"),
                pattern: vec!["x".to_string()],
            },
        ],
        results: vec![],
        style: PinyinStyle::Plain,
        mode: MatchMode::Exact,
    };
    assert!(matches!(s.step(), Step::Matched));
    match s.step() {
        Step::List(d) => {
            assert_eq!(d, "./broken");
            s.feed(None);
        }
        _ => panic!("expected a listing request"),
    }
    assert!(matches!(s.step(), Step::Done));
    let results: Vec<String> = s.results.iter().map(render_path).collect();
    assert_eq!(results, vec!["./done".to_string()]);
}

#[test]
fn unreadable_entry_name_is_skipped() {
    let mut s = match resolve_start("x", PinyinStyle::Plain, MatchMode::Exact) {
        Start::Search(s) => s,
        Start::UseHome => panic!("pattern was empty"),
    };
    // The listing holds one entry without a readable name and one named x.
    loop {
        match s.step() {
            Step::Done => break,
            Step::Matched => {}
            Step::List(d) => {
                assert_eq!(d, ".");
                s.feed(Some(vec![
                    DirEntry { name: None, kind: EntryKind::Dir },
                    dir("x"),
                ]));
            }
        }
    }
    let results: Vec<String> = s.results.iter().map(render_path).collect();
    assert_eq!(results, vec!["./x".to_string()]);
}

#[test]
fn unknown_entry_kind_is_treated_as_directory() {
    let mut s = match resolve_start("x", PinyinStyle::Plain, MatchMode::Exact) {
        Start::Search(s) => s,
        Start::UseHome => panic!("pattern was empty"),
    };
    loop {
        match s.step() {
            Step::Done => break,
            Step::Matched => {}
            Step::List(d) => {
                assert_eq!(d, ".");
                s.feed(Some(vec![DirEntry {
                    name: Some("x".to_string()),
                    kind: EntryKind::Unknown,
                }]));
            }
        }
    }
    let results: Vec<String> = s.results.iter().map(render_path).collect();
    assert_eq!(results, vec!["./x".to_string()]);
}

#[test]
fn empty_pattern_asks_for_home() {
    assert!(matches!(
        resolve_start("", PinyinStyle::Plain, MatchMode::Exact),
        Start::UseHome
    ));
}

#[test]
fn nonmatching_pattern_is_empty_without_error() {
    let result = resolve("test/nothere", false, false);
    assert!(result.is_empty());
    let result = resolve("test/nothere", false, true);
    assert!(result.is_empty());
}
