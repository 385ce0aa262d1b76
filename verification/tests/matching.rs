use dirgrep::text::{chars_contain, chars_of, line_contains, SearchTerm};

#[test]
fn a_term_inside_a_line_is_found() {
    assert!(line_contains("bar foo baz", "foo"));
    assert!(line_contains("foo", "foo"));
    assert!(line_contains("xfoo", "foo"));
    assert!(line_contains("foox", "foo"));
}

#[test]
fn a_line_without_the_term_is_not_a_match() {
    assert!(!line_contains("nothing", "foo"));
    assert!(!line_contains("fo", "foo"));
    assert!(!line_contains("f o o", "foo"));
    assert!(!line_contains("", "foo"));
}

#[test]
fn matching_is_case_sensitive() {
    assert!(!line_contains("Foo bar", "foo"));
    assert!(!line_contains("FOO", "foo"));
    assert!(line_contains("Foo bar", "Foo"));
}

#[test]
fn the_empty_term_is_in_every_line() {
    assert!(line_contains("anything", ""));
    assert!(line_contains("", ""));
}

#[test]
fn a_partial_occurrence_before_a_full_one_does_not_hide_it() {
    assert!(line_contains("aaab", "aab"));
    assert!(line_contains("ababac", "abac"));
    assert!(!line_contains("ababab", "abac"));
}

#[test]
fn characters_outside_ascii_are_compared_whole() {
    assert!(line_contains("na\u{ef}ve caf\u{e9}", "caf\u{e9}"));
    assert!(!line_contains("cafe", "caf\u{e9}"));
    assert!(line_contains("\u{65e5}\u{672c}\u{8a9e}", "\u{672c}"));
    assert!(!line_contains("\u{65e5}\u{8a9e}", "\u{672c}"));
}

#[test]
fn line_contains_agrees_with_the_standard_library() {
    let lines = ["", "a", "ab", "abc", "bca", "cab cab", "\u{e9}t\u{e9}", "aaa", "b a b"];
    let terms = ["", "a", "ab", "b ", "ca", "abc", "\u{e9}", "t\u{e9}", "aa", "aaaa"];
    for line in lines {
        for term in terms {
            assert_eq!(line_contains(line, term), line.contains(term), "{:?} in {:?}", term, line);
        }
    }
}

#[test]
fn chars_of_gives_the_characters_in_order() {
    assert_eq!(chars_of("a\u{e9}z"), vec!['a', '\u{e9}', 'z']);
    assert_eq!(chars_of(""), Vec::<char>::new());
}

#[test]
fn chars_contain_looks_at_every_offset() {
    let line = vec!['x', 'y', 'z'];
    assert!(chars_contain(&line, &vec!['x']));
    assert!(chars_contain(&line, &vec!['y', 'z']));
    assert!(chars_contain(&line, &vec!['x', 'y', 'z']));
    assert!(!chars_contain(&line, &vec!['x', 'z']));
    assert!(!chars_contain(&line, &vec!['x', 'y', 'z', 'x']));
}

#[test]
fn a_search_term_matches_what_line_contains_matches() {
    let term = SearchTerm::new("foo");
    assert!(term.matches("bar foo baz"));
    assert!(term.matches("foofoo"));
    assert!(!term.matches("nothing"));
}
