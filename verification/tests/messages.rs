use dirgrep::invocation::{search_term, InputError};
use dirgrep::render::{render, show};
use dirgrep::report::Diagnostic;
use dirgrep::searcher::MatchResult;

#[test]
fn a_directory_that_cannot_be_read_is_named_with_its_cause() {
    let diagnostic = Diagnostic::DirectoryRead {
        path: "/tmp/locked".to_string(),
        cause: "Permission denied (os error 13)".to_string(),
    };
    assert_eq!(
        diagnostic.message(),
        "Failed to read directory '/tmp/locked': Permission denied (os error 13)"
    );
    assert_eq!(diagnostic.path(), "/tmp/locked");
}

#[test]
fn a_file_that_cannot_be_opened_is_named_with_its_cause() {
    let diagnostic = Diagnostic::FileOpen {
        path: "a.txt".to_string(),
        cause: "No such file or directory (os error 2)".to_string(),
    };
    assert_eq!(
        diagnostic.message(),
        "Failed to open file 'a.txt': No such file or directory (os error 2)"
    );
    assert_eq!(diagnostic.path(), "a.txt");
}

#[test]
fn a_failed_read_is_named_with_its_cause() {
    let diagnostic =
        Diagnostic::FileRead { path: "a.txt".to_string(), cause: "Input/output error".to_string() };
    assert_eq!(diagnostic.message(), "Error reading line from file 'a.txt': Input/output error");
    assert_eq!(diagnostic.path(), "a.txt");
}

#[test]
fn a_failed_delivery_has_a_fixed_message() {
    let diagnostic = Diagnostic::Delivery { path: "a.txt".to_string() };
    assert_eq!(diagnostic.message(), "Failed to send result");
    assert_eq!(diagnostic.path(), "a.txt");
}

#[test]
fn a_match_is_laid_out_as_location_colon_line() {
    assert_eq!(render("a.txt", "bar foo baz"), "a.txt: bar foo baz");
    assert_eq!(render("", ""), ": ");
}

#[test]
fn a_shown_match_begins_with_its_location_and_holds_its_line() {
    let found = MatchResult { location: "dir/a.txt".to_string(), line: "bar foo baz".to_string() };
    let text = show(&found);
    assert!(text.starts_with("dir/a.txt: "));
    assert!(text.contains("bar foo baz"));
}

#[test]
fn an_invocation_without_a_term_is_rejected() {
    let arguments = vec!["dirgrep".to_string()];
    match search_term(&arguments) {
        Ok(_) => panic!("a term was found"),
        Err(error) => {
            assert_eq!(error, InputError::MissingTerm);
            assert_eq!(error.message(), "Please enter a search term.");
        }
    }
}

#[test]
fn an_invocation_without_any_argument_is_rejected() {
    assert!(search_term(&Vec::new()).is_err());
}

#[test]
fn the_term_is_the_second_argument() {
    let arguments = vec!["dirgrep".to_string(), "foo".to_string(), "extra".to_string()];
    let term = search_term(&arguments).ok().unwrap();
    assert!(term.matches("a foo b"));
    assert!(!term.matches("an extra b"));
    assert!(!term.matches("dirgrep"));
}
