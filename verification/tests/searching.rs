use dirgrep::report::Diagnostic;
use dirgrep::searcher::{scan, FileSearcher, MatchResult, ReadOutcome, Step};
use dirgrep::text::SearchTerm;

fn line(text: &str) -> ReadOutcome {
    ReadOutcome::Line(text.to_string())
}

fn found(location: &str, text: &str) -> MatchResult {
    MatchResult { location: location.to_string(), line: text.to_string() }
}

#[test]
fn a_file_that_cannot_be_opened_gives_one_diagnostic_and_no_searcher() {
    let term = SearchTerm::new("foo");
    let started =
        FileSearcher::start("locked.txt".to_string(), &term, Err("Permission denied".to_string()));
    match started {
        Ok(_) => panic!("a searcher was started"),
        Err(diagnostic) => {
            assert_eq!(
                diagnostic,
                Diagnostic::FileOpen {
                    path: "locked.txt".to_string(),
                    cause: "Permission denied".to_string(),
                }
            );
        }
    }
}

#[test]
fn an_opened_file_gives_an_active_searcher() {
    let term = SearchTerm::new("foo");
    let searcher = FileSearcher::start("a.txt".to_string(), &term, Ok(())).unwrap();
    assert!(searcher.is_active());
    assert_eq!(searcher.path(), "a.txt");
}

#[test]
fn a_matching_line_is_delivered_with_its_location() {
    let term = SearchTerm::new("foo");
    let mut searcher = FileSearcher::start("a.txt".to_string(), &term, Ok(())).unwrap();
    let step = searcher.on_read(&line("bar foo baz"));
    assert_eq!(step, Step::Deliver(found("a.txt", "bar foo baz")));
    assert!(searcher.is_active());
}

#[test]
fn a_line_with_several_occurrences_is_delivered_once() {
    let term = SearchTerm::new("foo");
    let searcher = FileSearcher::start("a.txt".to_string(), &term, Ok(())).unwrap();
    let result = scan(searcher, &vec![line("foo foo foo")]);
    assert_eq!(result.matches, vec![found("a.txt", "foo foo foo")]);
    assert_eq!(result.failure, None);
}

#[test]
fn a_line_without_the_term_is_read_over() {
    let term = SearchTerm::new("foo");
    let mut searcher = FileSearcher::start("a.txt".to_string(), &term, Ok(())).unwrap();
    assert_eq!(searcher.on_read(&line("nothing")), Step::Continue);
    assert!(searcher.is_active());
}

#[test]
fn the_end_of_the_file_stops_the_searcher() {
    let term = SearchTerm::new("foo");
    let mut searcher = FileSearcher::start("a.txt".to_string(), &term, Ok(())).unwrap();
    assert_eq!(searcher.on_read(&ReadOutcome::EndOfFile), Step::Stop);
    assert!(!searcher.is_active());
}

#[test]
fn data_that_is_not_text_stops_the_searcher_without_a_diagnostic() {
    let term = SearchTerm::new("foo");
    let mut searcher = FileSearcher::start("a.bin".to_string(), &term, Ok(())).unwrap();
    assert_eq!(searcher.on_read(&ReadOutcome::InvalidData), Step::Stop);
    assert!(!searcher.is_active());
}

#[test]
fn a_failed_read_is_reported_and_stops_the_searcher() {
    let term = SearchTerm::new("foo");
    let mut searcher = FileSearcher::start("a.txt".to_string(), &term, Ok(())).unwrap();
    let step = searcher.on_read(&ReadOutcome::Failed("Input/output error".to_string()));
    assert_eq!(
        step,
        Step::Report(Diagnostic::FileRead {
            path: "a.txt".to_string(),
            cause: "Input/output error".to_string(),
        })
    );
    assert!(!searcher.is_active());
}

#[test]
fn a_stopped_searcher_answers_stop_to_everything() {
    let term = SearchTerm::new("foo");
    let mut searcher = FileSearcher::start("a.txt".to_string(), &term, Ok(())).unwrap();
    searcher.on_read(&ReadOutcome::EndOfFile);
    assert_eq!(searcher.on_read(&line("foo")), Step::Stop);
    assert_eq!(searcher.on_read(&ReadOutcome::Failed("late".to_string())), Step::Stop);
    assert_eq!(searcher.on_delivery(false), None);
    assert!(!searcher.is_active());
}

#[test]
fn a_delivery_that_worked_lets_the_searcher_go_on() {
    let term = SearchTerm::new("foo");
    let mut searcher = FileSearcher::start("a.txt".to_string(), &term, Ok(())).unwrap();
    searcher.on_read(&line("foo"));
    assert_eq!(searcher.on_delivery(true), None);
    assert!(searcher.is_active());
    assert_eq!(searcher.on_read(&line("more foo")), Step::Deliver(found("a.txt", "more foo")));
}

#[test]
fn a_delivery_that_failed_ends_the_searcher_with_a_diagnostic() {
    let term = SearchTerm::new("foo");
    let mut searcher = FileSearcher::start("a.txt".to_string(), &term, Ok(())).unwrap();
    searcher.on_read(&line("foo"));
    assert_eq!(
        searcher.on_delivery(false),
        Some(Diagnostic::Delivery { path: "a.txt".to_string() })
    );
    assert!(!searcher.is_active());
    assert_eq!(searcher.on_read(&line("foo")), Step::Stop);
}

#[test]
fn scan_keeps_the_order_of_the_lines() {
    let term = SearchTerm::new("o");
    let searcher = FileSearcher::start("f".to_string(), &term, Ok(())).unwrap();
    let reads = vec![line("one"), line("x"), line("two"), line("zero"), line("y")];
    let result = scan(searcher, &reads);
    assert_eq!(result.matches, vec![found("f", "one"), found("f", "two"), found("f", "zero")]);
    assert_eq!(result.failure, None);
}

#[test]
fn scan_reports_equal_lines_as_often_as_they_occur() {
    let term = SearchTerm::new("foo");
    let searcher = FileSearcher::start("f".to_string(), &term, Ok(())).unwrap();
    let result = scan(searcher, &vec![line("foo"), line("foo")]);
    assert_eq!(result.matches, vec![found("f", "foo"), found("f", "foo")]);
}

#[test]
fn scan_stops_silently_at_data_that_is_not_text() {
    let term = SearchTerm::new("foo");
    let searcher = FileSearcher::start("f".to_string(), &term, Ok(())).unwrap();
    let reads = vec![line("foo 1"), ReadOutcome::InvalidData, line("foo 2")];
    let result = scan(searcher, &reads);
    assert_eq!(result.matches, vec![found("f", "foo 1")]);
    assert_eq!(result.failure, None);
}

#[test]
fn scan_of_a_file_that_starts_with_invalid_data_finds_nothing() {
    let term = SearchTerm::new("foo");
    let searcher = FileSearcher::start("f".to_string(), &term, Ok(())).unwrap();
    let result = scan(searcher, &vec![ReadOutcome::InvalidData, line("foo")]);
    assert!(result.matches.is_empty());
    assert_eq!(result.failure, None);
}

#[test]
fn scan_reports_a_failed_read_and_keeps_what_was_found_before() {
    let term = SearchTerm::new("foo");
    let searcher = FileSearcher::start("f".to_string(), &term, Ok(())).unwrap();
    let reads = vec![line("foo 1"), ReadOutcome::Failed("broken".to_string()), line("foo 2")];
    let result = scan(searcher, &reads);
    assert_eq!(result.matches, vec![found("f", "foo 1")]);
    assert_eq!(
        result.failure,
        Some(Diagnostic::FileRead { path: "f".to_string(), cause: "broken".to_string() })
    );
}

#[test]
fn scan_stops_at_an_end_of_file_in_the_middle() {
    let term = SearchTerm::new("foo");
    let searcher = FileSearcher::start("f".to_string(), &term, Ok(())).unwrap();
    let result = scan(searcher, &vec![line("foo"), ReadOutcome::EndOfFile, line("foo")]);
    assert_eq!(result.matches, vec![found("f", "foo")]);
    assert_eq!(result.failure, None);
}

#[test]
fn scan_of_a_stopped_searcher_finds_nothing() {
    let term = SearchTerm::new("foo");
    let mut searcher = FileSearcher::start("f".to_string(), &term, Ok(())).unwrap();
    searcher.on_read(&ReadOutcome::EndOfFile);
    let result = scan(searcher, &vec![line("foo")]);
    assert!(result.matches.is_empty());
    assert_eq!(result.failure, None);
}

#[test]
fn scan_of_an_empty_file_finds_nothing() {
    let term = SearchTerm::new("foo");
    let searcher = FileSearcher::start("f".to_string(), &term, Ok(())).unwrap();
    let result = scan(searcher, &Vec::new());
    assert!(result.matches.is_empty());
    assert_eq!(result.failure, None);
}
