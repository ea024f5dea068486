use poem::path::split_path;
use poem::pattern::{is_static, Pattern, PatternError, Segment};

fn owned(parts: &[&str]) -> Vec<String> {
    parts.iter().map(|p| p.to_string()).collect()
}

fn pair(name: &str, value: &str) -> (String, String) {
    (name.to_string(), value.to_string())
}

#[test]
fn a_path_is_cut_at_every_slash() {
    assert_eq!(split_path("/items/42"), owned(&["items", "42"]));
    assert_eq!(split_path("/a/b/c"), owned(&["a", "b", "c"]));
    assert_eq!(split_path("/hello"), owned(&["hello"]));
}

#[test]
fn the_root_has_no_segments() {
    assert_eq!(split_path("/"), Vec::<String>::new());
    assert_eq!(split_path(""), Vec::<String>::new());
}

#[test]
fn only_one_leading_slash_is_dropped() {
    assert_eq!(split_path("//"), owned(&["", ""]));
    assert_eq!(split_path("//a"), owned(&["", "a"]));
    assert_eq!(split_path("items/42"), owned(&["items", "42"]));
}

#[test]
fn empty_segments_are_kept() {
    assert_eq!(split_path("/items/"), owned(&["items", ""]));
    assert_eq!(split_path("/a//b"), owned(&["a", "", "b"]));
}

#[test]
fn segments_keep_characters_of_any_width() {
    assert_eq!(split_path("/caf\u{e9}/\u{4e2d}\u{6587}"), owned(&["caf\u{e9}", "\u{4e2d}\u{6587}"]));
}

#[test]
fn joining_the_segments_gives_the_path_back() {
    for path in ["/items/42", "/a//b/", "/x", "//"] {
        let joined = format!("/{}", split_path(path).join("/"));
        assert_eq!(joined, path);
    }
}

#[test]
fn well_formed_patterns_are_read() {
    assert!(Pattern::parse("/").is_ok());
    assert!(Pattern::parse("/items").is_ok());
    assert!(Pattern::parse("/items/:id").is_ok());
    assert!(Pattern::parse("/files/*").is_ok());
    assert!(Pattern::parse("/:a/:b/*").is_ok());
    assert!(Pattern::parse("/*").is_ok());
}

#[test]
fn a_wildcard_before_the_end_is_refused() {
    assert_eq!(Pattern::parse("/files/*/x").err(), Some(PatternError::MisplacedWildcard));
    assert_eq!(Pattern::parse("/*/*").err(), Some(PatternError::MisplacedWildcard));
}

#[test]
fn a_dynamic_segment_without_a_name_is_refused() {
    assert_eq!(Pattern::parse("/items/:").err(), Some(PatternError::UnnamedParam));
    assert_eq!(Pattern::parse("/:/x").err(), Some(PatternError::UnnamedParam));
}

#[test]
fn the_first_faulty_segment_decides_the_error() {
    assert_eq!(Pattern::parse("/:/*/x").err(), Some(PatternError::UnnamedParam));
    assert_eq!(Pattern::parse("/*/:").err(), Some(PatternError::MisplacedWildcard));
}

#[test]
fn a_star_inside_a_longer_segment_is_static() {
    let pattern = Pattern::parse("/a*/b").unwrap();
    assert_eq!(pattern.captures("/a*/b"), Some(vec![]));
    assert_eq!(pattern.captures("/ax/b"), None);
}

#[test]
fn static_segments_match_literally() {
    let pattern = Pattern::parse("/items/all").unwrap();
    assert_eq!(pattern.captures("/items/all"), Some(vec![]));
    assert_eq!(pattern.captures("/items/All"), None);
    assert_eq!(pattern.captures("/items"), None);
    assert_eq!(pattern.captures("/items/all/x"), None);
    assert_eq!(pattern.captures("/items/all/"), None);
}

#[test]
fn the_root_pattern_matches_the_root_only() {
    let pattern = Pattern::parse("/").unwrap();
    assert_eq!(pattern.captures("/"), Some(vec![]));
    assert_eq!(pattern.captures(""), Some(vec![]));
    assert_eq!(pattern.captures("/x"), None);
}

#[test]
fn a_dynamic_segment_captures_what_it_matches() {
    let pattern = Pattern::parse("/items/:id").unwrap();
    assert_eq!(pattern.captures("/items/42"), Some(vec![pair("id", "42")]));
    assert_eq!(pattern.captures("/items/abc"), Some(vec![pair("id", "abc")]));
}

#[test]
fn a_dynamic_segment_does_not_match_an_empty_segment() {
    let pattern = Pattern::parse("/items/:id").unwrap();
    assert_eq!(pattern.captures("/items/"), None);
    assert_eq!(pattern.captures("/items"), None);
    assert_eq!(pattern.captures("/items/42/x"), None);
}

#[test]
fn captures_come_in_the_order_of_the_segments() {
    let pattern = Pattern::parse("/:kind/by/:key/:value").unwrap();
    assert_eq!(
        pattern.captures("/books/by/author/eco"),
        Some(vec![pair("kind", "books"), pair("key", "author"), pair("value", "eco")])
    );
}

#[test]
fn a_trailing_wildcard_takes_what_is_left() {
    let pattern = Pattern::parse("/files/*").unwrap();
    assert_eq!(pattern.captures("/files/a"), Some(vec![]));
    assert_eq!(pattern.captures("/files/a/b/c"), Some(vec![]));
    assert_eq!(pattern.captures("/files/"), Some(vec![]));
    assert_eq!(pattern.captures("/files"), Some(vec![]));
    assert_eq!(pattern.captures("/other/a"), None);
    assert_eq!(pattern.captures("/"), None);
}

#[test]
fn a_wildcard_alone_matches_every_path() {
    let pattern = Pattern::parse("/*").unwrap();
    assert_eq!(pattern.captures("/"), Some(vec![]));
    assert_eq!(pattern.captures("/a/b"), Some(vec![]));
}

#[test]
fn a_wildcard_keeps_the_captures_before_it() {
    let pattern = Pattern::parse("/users/:name/*").unwrap();
    assert_eq!(
        pattern.captures("/users/ann/files/x"),
        Some(vec![pair("name", "ann")])
    );
    assert_eq!(pattern.captures("/users//files"), None);
}

#[test]
fn segments_of_a_pattern_are_told_apart() {
    assert!(is_static("items"));
    assert!(is_static(""));
    assert!(is_static("a*"));
    assert!(is_static("a:b"));
    assert!(!is_static(":id"));
    assert!(!is_static(":"));
    assert!(!is_static("*"));
}

#[test]
fn a_pattern_tells_its_segments() {
    let pattern = Pattern::parse("/users/:name/*").unwrap();
    let segs = pattern.segments();
    assert_eq!(segs.len(), 3);
    assert!(matches!(&segs[0], Segment::Static(text) if text == "users"));
    assert!(matches!(&segs[1], Segment::Param(name) if name == "name"));
    assert!(matches!(&segs[2], Segment::Wildcard));
    assert!(Pattern::parse("/").unwrap().segments().is_empty());
    let pattern = Pattern::parse("/a/").unwrap();
    assert_eq!(pattern.segments().len(), 2);
    assert!(matches!(&pattern.segments()[1], Segment::Static(text) if text.is_empty()));
}
