use dirgrep::pipeline::{search, search_in_turns, Report};
use dirgrep::report::Diagnostic;
use dirgrep::searcher::{MatchResult, ReadOutcome};
use dirgrep::text::SearchTerm;
use dirgrep::tree::{Directory, Entry, File, Node};

fn lines(texts: &[&str]) -> Vec<ReadOutcome> {
    texts.iter().map(|text| ReadOutcome::Line(text.to_string())).collect()
}

fn file(name: &str, location: &str, reads: Vec<ReadOutcome>) -> Entry {
    Entry {
        name: Some(name.to_string()),
        node: Node::File(File { location: location.to_string(), unopenable: None, reads }),
    }
}

fn locked_file(name: &str, location: &str, cause: &str) -> Entry {
    Entry {
        name: Some(name.to_string()),
        node: Node::File(File {
            location: location.to_string(),
            unopenable: Some(cause.to_string()),
            reads: lines(&["foo behind the lock"]),
        }),
    }
}

fn dir(location: &str, entries: Vec<Entry>) -> Directory {
    Directory { location: location.to_string(), entries, failure: None }
}

fn subdir(name: &str, location: &str, entries: Vec<Entry>) -> Entry {
    Entry { name: Some(name.to_string()), node: Node::Directory(dir(location, entries)) }
}

fn locked_dir(name: &str, location: &str, cause: &str) -> Entry {
    Entry {
        name: Some(name.to_string()),
        node: Node::Directory(Directory {
            location: location.to_string(),
            entries: Vec::new(),
            failure: Some(cause.to_string()),
        }),
    }
}

fn found(location: &str, text: &str) -> MatchResult {
    MatchResult { location: location.to_string(), line: text.to_string() }
}

fn pairs(report: &Report) -> Vec<(String, String)> {
    let mut all: Vec<(String, String)> =
        report.matches.iter().map(|m| (m.location.clone(), m.line.clone())).collect();
    all.sort();
    all
}

fn of_file(report: &Report, location: &str) -> Vec<String> {
    report.matches.iter().filter(|m| m.location == location).map(|m| m.line.clone()).collect()
}

fn run(root: &Directory, term: &str, capacity: usize) -> Report {
    if capacity == 100 {
        search(root, &SearchTerm::new(term))
    } else {
        search_in_turns(root, &SearchTerm::new(term), capacity, &Vec::new())
    }
}

fn sample(extra: Vec<Entry>) -> Directory {
    let mut entries = vec![
        file("a.txt", "a.txt", lines(&["foo", "none", "bar foo baz"])),
        subdir(
            "src",
            "src",
            vec![
                file("main.rs", "src/main.rs", lines(&["fn foo() {}", "fn bar() {}"])),
                subdir(
                    "deep",
                    "src/deep",
                    vec![file("x", "src/deep/x", lines(&["x", "foofoo", "foo"]))],
                ),
            ],
        ),
        file("b.txt", "b.txt", lines(&["nothing"])),
    ];
    entries.extend(extra);
    dir(".", entries)
}

fn sample_pairs() -> Vec<(String, String)> {
    let mut all = vec![
        ("a.txt".to_string(), "foo".to_string()),
        ("a.txt".to_string(), "bar foo baz".to_string()),
        ("src/main.rs".to_string(), "fn foo() {}".to_string()),
        ("src/deep/x".to_string(), "foofoo".to_string()),
        ("src/deep/x".to_string(), "foo".to_string()),
    ];
    all.sort();
    all
}

#[test]
fn finds_the_matching_lines_of_a_small_tree() {
    let root = dir(
        ".",
        vec![
            file("a.txt", "a.txt", lines(&["foo", "bar foo baz"])),
            file("b.txt", "b.txt", lines(&["nothing"])),
            subdir(".git", ".git", vec![file("secret.txt", ".git/secret.txt", lines(&["foo"]))]),
        ],
    );
    let report = run(&root, "foo", 100);
    assert_eq!(report.matches, vec![found("a.txt", "foo"), found("a.txt", "bar foo baz")]);
    assert!(report.diagnostics.is_empty());
}

#[test]
fn every_matching_line_at_every_depth_is_reported_once() {
    let report = run(&sample(Vec::new()), "foo", 100);
    assert_eq!(pairs(&report), sample_pairs());
    assert!(report.diagnostics.is_empty());
}

#[test]
fn a_long_file_is_searched_to_its_end() {
    let mut texts = Vec::new();
    let mut expected = Vec::new();
    for i in 0..1000 {
        if i % 7 == 0 {
            texts.push(format!("line {} has foo", i));
            expected.push(found("big", &format!("line {} has foo", i)));
        } else {
            texts.push(format!("line {}", i));
        }
    }
    let reads = texts.into_iter().map(ReadOutcome::Line).collect();
    let root = dir(".", vec![file("big", "big", reads)]);
    let report = run(&root, "foo", 100);
    assert_eq!(report.matches, expected);
}

#[test]
fn no_reported_line_lacks_the_term() {
    let report = run(&sample(Vec::new()), "o", 100);
    assert!(!report.matches.is_empty());
    for m in &report.matches {
        assert!(m.line.contains("o"), "{:?}", m);
    }
}

#[test]
fn the_matches_of_one_file_keep_the_order_of_its_lines() {
    let report = run(&sample(Vec::new()), "foo", 1);
    assert_eq!(of_file(&report, "a.txt"), vec!["foo", "bar foo baz"]);
    assert_eq!(of_file(&report, "src/deep/x"), vec!["foofoo", "foo"]);
}

#[test]
fn the_capacity_of_the_conduit_does_not_change_what_is_found() {
    let root = sample(Vec::new());
    let wide = run(&root, "foo", 100);
    for capacity in [1, 2, 3, 5] {
        let narrow = run(&root, "foo", capacity);
        assert_eq!(pairs(&narrow), pairs(&wide));
        assert_eq!(of_file(&narrow, "a.txt"), of_file(&wide, "a.txt"));
        assert_eq!(of_file(&narrow, "src/deep/x"), of_file(&wide, "src/deep/x"));
        assert_eq!(narrow.diagnostics, wide.diagnostics);
    }
}

#[test]
fn a_file_that_cannot_be_opened_costs_no_match_and_adds_one_diagnostic() {
    let report = run(
        &sample(vec![locked_file("locked.txt", "locked.txt", "Permission denied")]),
        "foo",
        100,
    );
    assert_eq!(pairs(&report), sample_pairs());
    assert_eq!(
        report.diagnostics,
        vec![Diagnostic::FileOpen {
            path: "locked.txt".to_string(),
            cause: "Permission denied".to_string(),
        }]
    );
}

#[test]
fn a_directory_that_cannot_be_listed_costs_no_match_and_adds_one_diagnostic() {
    let report =
        run(&sample(vec![locked_dir("private", "private", "Permission denied")]), "foo", 100);
    assert_eq!(pairs(&report), sample_pairs());
    assert_eq!(
        report.diagnostics,
        vec![Diagnostic::DirectoryRead {
            path: "private".to_string(),
            cause: "Permission denied".to_string(),
        }]
    );
}

#[test]
fn a_failure_deep_in_the_tree_stays_where_it_arose() {
    let root = dir(
        ".",
        vec![
            subdir(
                "one",
                "one",
                vec![
                    locked_dir("two", "one/two", "Permission denied"),
                    file("after", "one/after", lines(&["foo after"])),
                ],
            ),
            file("sibling", "sibling", lines(&["foo sibling"])),
        ],
    );
    let report = run(&root, "foo", 100);
    assert_eq!(
        pairs(&report),
        vec![
            ("one/after".to_string(), "foo after".to_string()),
            ("sibling".to_string(), "foo sibling".to_string()),
        ]
    );
    assert_eq!(report.diagnostics.len(), 1);
}

#[test]
fn a_listing_that_fails_half_way_keeps_what_it_gave() {
    let root = dir(
        ".",
        vec![Entry {
            name: Some("flaky".to_string()),
            node: Node::Directory(Directory {
                location: "flaky".to_string(),
                entries: vec![file("seen", "flaky/seen", lines(&["foo seen"]))],
                failure: Some("Input/output error".to_string()),
            }),
        }],
    );
    let report = run(&root, "foo", 100);
    assert_eq!(report.matches, vec![found("flaky/seen", "foo seen")]);
    assert_eq!(
        report.diagnostics,
        vec![Diagnostic::DirectoryRead {
            path: "flaky".to_string(),
            cause: "Input/output error".to_string(),
        }]
    );
}

#[test]
fn a_root_that_cannot_be_read_gives_one_diagnostic_and_nothing_else() {
    let root = Directory {
        location: "/nowhere".to_string(),
        entries: Vec::new(),
        failure: Some("No such file or directory".to_string()),
    };
    let report = run(&root, "foo", 100);
    assert!(report.matches.is_empty());
    assert_eq!(
        report.diagnostics,
        vec![Diagnostic::DirectoryRead {
            path: "/nowhere".to_string(),
            cause: "No such file or directory".to_string(),
        }]
    );
}

#[test]
fn files_in_a_hidden_directory_are_never_reported() {
    let hidden = subdir(
        ".cache",
        ".cache",
        vec![
            file("foo.txt", ".cache/foo.txt", lines(&["foo"])),
            subdir("inner", ".cache/inner", vec![file("y", ".cache/inner/y", lines(&["foo"]))]),
            locked_file("locked", ".cache/locked", "Permission denied"),
        ],
    );
    let report = run(&sample(vec![hidden]), "foo", 100);
    assert_eq!(pairs(&report), sample_pairs());
    assert!(report.diagnostics.is_empty());
}

#[test]
fn a_hidden_directory_below_the_root_is_not_entered_either() {
    let root = dir(
        ".",
        vec![subdir(
            "src",
            "src",
            vec![
                subdir(".git", "src/.git", vec![file("c", "src/.git/c", lines(&["foo"]))]),
                file("m", "src/m", lines(&["foo m"])),
            ],
        )],
    );
    let report = run(&root, "foo", 100);
    assert_eq!(report.matches, vec![found("src/m", "foo m")]);
}

#[test]
fn a_hidden_file_is_searched() {
    let root = dir(".", vec![file(".env", ".env", lines(&["foo=1"]))]);
    let report = run(&root, "foo", 100);
    assert_eq!(report.matches, vec![found(".env", "foo=1")]);
}

#[test]
fn entries_without_a_readable_name_are_passed_over() {
    let nameless_file = Entry {
        name: None,
        node: Node::File(File {
            location: "?".to_string(),
            unopenable: None,
            reads: lines(&["foo"]),
        }),
    };
    let nameless_dir = Entry {
        name: None,
        node: Node::Directory(dir("??", vec![file("z", "??/z", lines(&["foo"]))])),
    };
    let other = Entry { name: Some("pipe".to_string()), node: Node::Other };
    let report = run(&sample(vec![nameless_file, nameless_dir, other]), "foo", 100);
    assert_eq!(pairs(&report), sample_pairs());
    assert!(report.diagnostics.is_empty());
}

#[test]
fn a_file_that_is_not_text_gives_no_match_and_no_diagnostic() {
    let binary = file(
        "image.png",
        "image.png",
        vec![ReadOutcome::InvalidData, ReadOutcome::Line("foo".to_string())],
    );
    let report = run(&sample(vec![binary]), "foo", 100);
    assert_eq!(pairs(&report), sample_pairs());
    assert!(report.diagnostics.is_empty());
}

#[test]
fn text_before_data_that_is_not_text_is_still_searched() {
    let mixed = file(
        "mixed",
        "mixed",
        vec![
            ReadOutcome::Line("foo header".to_string()),
            ReadOutcome::InvalidData,
            ReadOutcome::Line("foo trailer".to_string()),
        ],
    );
    let report = run(&dir(".", vec![mixed]), "foo", 100);
    assert_eq!(report.matches, vec![found("mixed", "foo header")]);
    assert!(report.diagnostics.is_empty());
}

#[test]
fn a_read_that_fails_half_way_is_reported_once() {
    let broken = file(
        "broken",
        "broken",
        vec![
            ReadOutcome::Line("foo first".to_string()),
            ReadOutcome::Failed("Input/output error".to_string()),
        ],
    );
    let report = run(&sample(vec![broken]), "foo", 100);
    let mut expected = sample_pairs();
    expected.push(("broken".to_string(), "foo first".to_string()));
    expected.sort();
    assert_eq!(pairs(&report), expected);
    assert_eq!(
        report.diagnostics,
        vec![Diagnostic::FileRead {
            path: "broken".to_string(),
            cause: "Input/output error".to_string(),
        }]
    );
}

#[test]
fn an_empty_tree_gives_an_empty_report() {
    let report = run(&dir(".", Vec::new()), "foo", 100);
    assert!(report.matches.is_empty());
    assert!(report.diagnostics.is_empty());
}

#[test]
fn more_matches_than_the_conduit_holds_all_arrive() {
    let texts: Vec<String> = (0..250).map(|i| format!("foo {}", i)).collect();
    let expected: Vec<MatchResult> = texts.iter().map(|text| found("many", text)).collect();
    let reads = texts.into_iter().map(ReadOutcome::Line).collect();
    let root = dir(".", vec![file("many", "many", reads)]);
    let report = run(&root, "foo", 100);
    assert_eq!(report.matches, expected);
}
