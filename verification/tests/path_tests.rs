use pycd::parse::{parse_path, render_path};
use pycd::path::{normalize, PathComp};

#[test]
fn test_normalize() {
    let p = parse_path("../../home/thatsgobbles/././music/../code/..");
    let np = normalize(&p);
    assert_eq!(np, parse_path("../../home/thatsgobbles"));

    let p = parse_path("/home//thatsgobbles/music/");
    let np = normalize(&p);
    assert_eq!(np, parse_path("/home/thatsgobbles/music"));

    let p = parse_path("/../../home/thatsgobbles/././code/../music/..");
    let np = normalize(&p);
    assert_eq!(np, parse_path("/home/thatsgobbles"));

    let p = parse_path("..");
    let np = normalize(&p);
    assert_eq!(np, parse_path(".."));

    let p = parse_path("/..");
    let np = normalize(&p);
    assert_eq!(np, parse_path("/"));

    let p = parse_path("../");
    let np = normalize(&p);
    assert_eq!(np, parse_path(".."));

    let p = parse_path("/");
    let np = normalize(&p);
    assert_eq!(np, parse_path("/"));

    let p = parse_path("");
    let np = normalize(&p);
    assert_eq!(np, parse_path("."));
}

#[test]
fn test_get_first_split_pattern() {
    let path = parse_path("../../hello/world");
    let (basedir, pattern) = pycd::search::get_first_split_pattern(&path);
    assert_eq!(basedir, parse_path("../.."));
    assert_eq!(
        pattern,
        vec![
            PathComp::Normal("hello".to_string()),
            PathComp::Normal("world".to_string()),
        ]
    );

    let path = parse_path("hello/world/again");
    let (basedir, pattern) = pycd::search::get_first_split_pattern(&path);
    assert_eq!(basedir, parse_path("."));
    assert_eq!(
        pattern,
        vec![
            PathComp::Normal("hello".to_string()),
            PathComp::Normal("world".to_string()),
            PathComp::Normal("again".to_string()),
        ]
    );

    let path = parse_path("../hello");
    let (basedir, pattern) = pycd::search::get_first_split_pattern(&path);
    assert_eq!(basedir, parse_path(".."));
    assert_eq!(pattern, vec![PathComp::Normal("hello".to_string())]);

    let path = parse_path("../..");
    let (basedir, pattern) = pycd::search::get_first_split_pattern(&path);
    assert_eq!(basedir, parse_path("../.."));
    assert!(pattern.is_empty());

    let path = parse_path("hello");
    let (basedir, pattern) = pycd::search::get_first_split_pattern(&path);
    assert_eq!(basedir, parse_path("."));
    assert_eq!(pattern, vec![PathComp::Normal("hello".to_string())]);

    let path = parse_path("/");
    let (basedir, pattern) = pycd::search::get_first_split_pattern(&path);
    assert_eq!(basedir, parse_path("/"));
    assert!(pattern.is_empty());

    let path = parse_path("/hello");
    let (basedir, pattern) = pycd::search::get_first_split_pattern(&path);
    assert_eq!(basedir, parse_path("/"));
    assert_eq!(pattern, vec![PathComp::Normal("hello".to_string())]);

    let path = parse_path(".");
    let (basedir, pattern) = pycd::search::get_first_split_pattern(&path);
    assert_eq!(basedir, parse_path("."));
    assert!(pattern.is_empty());
}

#[test]
fn parse_components() {
    assert_eq!(parse_path(""), Vec::<pycd::path::Comp>::new());
    assert_eq!(
        parse_path("./a"),
        vec![PathComp::CurDir, PathComp::Normal("a".to_string())]
    );
    assert_eq!(
        parse_path("/a//b/"),
        vec![
            PathComp::RootDir,
            PathComp::Normal("a".to_string()),
            PathComp::Normal("b".to_string()),
        ]
    );
    assert_eq!(
        parse_path("a/./../b"),
        vec![
            PathComp::Normal("a".to_string()),
            PathComp::ParentDir,
            PathComp::Normal("b".to_string()),
        ]
    );
}

#[test]
fn render_round_trip() {
    for s in ["../../home/x", "/home/x/music", ".", "..", "/", "a/b/c"] {
        assert_eq!(render_path(&parse_path(s)), s);
    }
    assert_eq!(render_path(&parse_path("/a//b/")), "/a/b");
    assert_eq!(render_path(&parse_path("")), "");
}
