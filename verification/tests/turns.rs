use dirgrep::pipeline::{search, search_in_turns, Turn, Report};
use dirgrep::report::Diagnostic;
use dirgrep::searcher::ReadOutcome;
use dirgrep::text::SearchTerm;
use dirgrep::tree::{Directory, Entry, File, Node};

fn text(name: &str, location: &str, texts: &[&str]) -> Entry {
    let reads = texts.iter().map(|line| ReadOutcome::Line(line.to_string())).collect();
    Entry {
        name: Some(name.to_string()),
        node: Node::File(File { location: location.to_string(), unopenable: None, reads }),
    }
}

fn folder(name: &str, location: &str, entries: Vec<Entry>, failure: Option<&str>) -> Entry {
    Entry {
        name: Some(name.to_string()),
        node: Node::Directory(Directory {
            location: location.to_string(),
            entries,
            failure: failure.map(|cause| cause.to_string()),
        }),
    }
}

fn tree() -> Directory {
    let locked = Entry {
        name: Some("locked".to_string()),
        node: Node::File(File {
            location: "locked".to_string(),
            unopenable: Some("Permission denied".to_string()),
            reads: Vec::new(),
        }),
    };
    let broken = Entry {
        name: Some("broken".to_string()),
        node: Node::File(File {
            location: "b/broken".to_string(),
            unopenable: None,
            reads: vec![
                ReadOutcome::Line("foo before".to_string()),
                ReadOutcome::Failed("Input/output error".to_string()),
                ReadOutcome::Line("foo after".to_string()),
            ],
        }),
    };
    Directory {
        location: ".".to_string(),
        entries: vec![
            text("one", "one", &["foo 1", "x", "foo 2", "foo 3", "y", "foo 4"]),
            folder(
                "a",
                "a",
                vec![
                    text("two", "a/two", &["foo a", "foo b", "foo c"]),
                    folder(
                        "deep",
                        "a/deep",
                        vec![text("three", "a/deep/three", &["z", "foo"])],
                        None,
                    ),
                    folder(".hidden", "a/.hidden", vec![text("h", "a/.hidden/h", &["foo"])], None),
                ],
                None,
            ),
            locked,
            folder("b", "b", vec![broken], Some("Input/output error")),
            text("four", "four", &["foo", "foo", "foo"]),
        ],
        failure: None,
    }
}

fn sorted_matches(report: &Report) -> Vec<(String, String)> {
    let mut all: Vec<(String, String)> =
        report.matches.iter().map(|m| (m.location.clone(), m.line.clone())).collect();
    all.sort();
    all
}

fn sorted_diagnostics(report: &Report) -> Vec<String> {
    let mut all: Vec<String> = report.diagnostics.iter().map(Diagnostic::message).collect();
    all.sort();
    all
}

fn lines_of(report: &Report, location: &str) -> Vec<String> {
    report.matches.iter().filter(|m| m.location == location).map(|m| m.line.clone()).collect()
}

fn same_outcome(report: &Report, reference: &Report) {
    assert_eq!(sorted_matches(report), sorted_matches(reference));
    assert_eq!(sorted_diagnostics(report), sorted_diagnostics(reference));
    for location in ["one", "a/two", "a/deep/three", "b/broken", "four"] {
        assert_eq!(lines_of(report, location), lines_of(reference, location), "{}", location);
    }
}

fn scrambled(seed: u64, length: usize) -> Vec<Turn> {
    let mut state = seed;
    let mut turns = Vec::new();
    for _ in 0..length {
        state = state.wrapping_mul(6364136223846793005).wrapping_add(1442695040888963407);
        let pick = (state >> 33) % 8;
        turns.push(match pick {
            0 | 1 => Turn::Traverse,
            2 => Turn::Consume,
            other => Turn::Search((other - 3) as usize),
        });
    }
    turns
}

#[test]
fn the_reference_outcome_is_what_the_tree_holds() {
    let report = search(&tree(), &SearchTerm::new("foo"));
    let mut expected = vec![
        ("one", "foo 1"),
        ("one", "foo 2"),
        ("one", "foo 3"),
        ("one", "foo 4"),
        ("a/two", "foo a"),
        ("a/two", "foo b"),
        ("a/two", "foo c"),
        ("a/deep/three", "foo"),
        ("b/broken", "foo before"),
        ("four", "foo"),
        ("four", "foo"),
        ("four", "foo"),
    ]
    .into_iter()
    .map(|(location, line)| (location.to_string(), line.to_string()))
    .collect::<Vec<_>>();
    expected.sort();
    assert_eq!(sorted_matches(&report), expected);
    assert_eq!(
        sorted_diagnostics(&report),
        vec![
            "Error reading line from file 'b/broken': Input/output error",
            "Failed to open file 'locked': Permission denied",
            "Failed to read directory 'b': Input/output error",
        ]
    );
    assert_eq!(lines_of(&report, "one"), vec!["foo 1", "foo 2", "foo 3", "foo 4"]);
}

#[test]
fn no_turns_given_is_the_same_as_search() {
    let term = SearchTerm::new("foo");
    let root = tree();
    assert_eq!(search_in_turns(&root, &term, 100, &Vec::new()), search(&root, &term));
}

#[test]
fn the_order_of_the_turns_does_not_change_what_is_found() {
    let term = SearchTerm::new("foo");
    let root = tree();
    let reference = search(&root, &term);
    for seed in 0..40 {
        for capacity in [1, 2, 100] {
            let turns = scrambled(seed, 30 + 7 * seed as usize);
            let report = search_in_turns(&root, &term, capacity, &turns);
            same_outcome(&report, &reference);
        }
    }
}

#[test]
fn matches_of_different_files_can_arrive_mixed() {
    let term = SearchTerm::new("foo");
    let root = Directory {
        location: ".".to_string(),
        entries: vec![text("p", "p", &["foo p1", "foo p2"]), text("q", "q", &["foo q1", "foo q2"])],
        failure: None,
    };
    let turns = vec![
        Turn::Traverse,
        Turn::Traverse,
        Turn::Traverse,
        Turn::Search(0),
        Turn::Search(1),
        Turn::Search(0),
        Turn::Search(1),
        Turn::Search(0),
        Turn::Search(1),
    ];
    let report = search_in_turns(&root, &term, 100, &turns);
    let seen: Vec<(String, String)> =
        report.matches.iter().map(|m| (m.location.clone(), m.line.clone())).collect();
    let expected: Vec<(String, String)> =
        [("p", "foo p1"), ("q", "foo q1"), ("p", "foo p2"), ("q", "foo q2")]
            .into_iter()
            .map(|(location, line)| (location.to_string(), line.to_string()))
            .collect();
    assert_eq!(seen, expected);
}

#[test]
fn traversal_does_not_wait_for_the_searches() {
    let term = SearchTerm::new("foo");
    let root = tree();
    let mut turns = vec![Turn::Traverse; 200];
    turns.extend(vec![Turn::Consume; 3]);
    let report = search_in_turns(&root, &term, 100, &turns);
    same_outcome(&report, &search(&root, &term));
}

#[test]
fn searches_that_find_the_conduit_full_lose_nothing() {
    let term = SearchTerm::new("foo");
    let root = tree();
    let mut turns = vec![Turn::Traverse; 60];
    for round in 0..200 {
        turns.push(Turn::Search(round % 5));
    }
    let report = search_in_turns(&root, &term, 1, &turns);
    same_outcome(&report, &search(&root, &term));
}

#[test]
fn a_consumer_that_asks_early_and_often_gets_everything_once() {
    let term = SearchTerm::new("foo");
    let root = tree();
    let mut turns = vec![Turn::Consume; 50];
    for _ in 0..100 {
        turns.push(Turn::Traverse);
        turns.push(Turn::Consume);
        turns.push(Turn::Search(0));
        turns.push(Turn::Consume);
    }
    let report = search_in_turns(&root, &term, 2, &turns);
    same_outcome(&report, &search(&root, &term));
}

#[test]
fn turns_for_searches_that_do_not_exist_are_wasted() {
    let term = SearchTerm::new("foo");
    let root = tree();
    let turns = vec![Turn::Search(7), Turn::Search(usize::MAX), Turn::Search(0)];
    let report = search_in_turns(&root, &term, 100, &turns);
    same_outcome(&report, &search(&root, &term));
}
