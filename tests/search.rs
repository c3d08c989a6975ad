use minigrep::{line_contains, search};

#[test]
fn one_result() {
    let query = "duct";
    let contents = "\
Rust:
Safe, fast, productive.
Pick three.";

    assert_eq!(vec!["Safe, fast, productive."], search(query, contents));
}

#[test]
fn repeated_matches_keep_order() {
    let contents = "alpha\nbeta\nalpha again";
    assert_eq!(vec!["alpha", "alpha again"], search("alpha", contents));
}

#[test]
fn duplicate_lines_are_all_kept() {
    assert_eq!(vec!["x", "x"], search("x", "x\ny\nx"));
}

#[test]
fn empty_query_returns_every_line() {
    let contents = "one\n\ntwo\nthree";
    assert_eq!(vec!["one", "", "two", "three"], search("", contents));
}

#[test]
fn empty_contents_give_nothing() {
    assert!(search("a", "").is_empty());
    assert!(search("", "").is_empty());
}

#[test]
fn no_match_gives_nothing() {
    assert!(search("zebra", "alpha\nbeta").is_empty());
}

#[test]
fn match_is_case_sensitive() {
    assert_eq!(vec!["Rust"], search("Rust", "rust\nRust\nRUST"));
}

#[test]
fn line_terminators_are_not_part_of_lines() {
    assert_eq!(vec!["ab", "ac"], search("a", "ab\r\nac\n"));
    assert_eq!(vec!["", "x"], search("", "\nx\n"));
}

#[test]
fn lone_carriage_return_at_end_is_kept() {
    assert_eq!(vec!["a\r"], search("a", "a\r"));
}

#[test]
fn terminator_is_not_matched() {
    assert!(search("\n", "a\nb").is_empty());
    assert!(search("b\r", "ab\r\n").is_empty());
}

#[test]
fn multibyte_text() {
    assert_eq!(vec!["größe", "ß"], search("ß", "größe\nsize\nß"));
}

#[test]
fn search_twice_gives_same_lines() {
    let contents = "alpha\nbeta\nalpha again";
    assert_eq!(search("a", contents), search("a", contents));
}

#[test]
fn contains_finds_substring() {
    assert!(line_contains("productive", "duct"));
    assert!(line_contains("duct", "duct"));
    assert!(line_contains("anything", ""));
    assert!(!line_contains("duc", "duct"));
    assert!(!line_contains("", "a"));
    assert!(!line_contains("abab", "bb"));
}
