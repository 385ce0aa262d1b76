//! The line of text that shows one match to the reader.

use vstd::prelude::*;
use vstd::string::StringExecFns;
use colored::Colorize;
use crate::searcher::MatchResult;

verus! {

/// The line of text that shows one match: where it was found, a colon and a
/// space, and the line as it is to be shown.
pub open spec fn result_line(location: Seq<char>, shown: Seq<char>) -> Seq<char> {
    location + ": "@ + shown
}

/// Lays out one match for the reader. `shown` is the matching line, which
/// the caller may have set off from the rest, by colour for one.
pub fn render(location: &str, shown: &str) -> (text: String)
    ensures
        text@ == result_line(location@, shown@),
{
    let mut text = String::from_str(location);
    text.append(": ");
    text.append(shown);
    text
}

/// `colored::Colorize::green` applied to `line`, and the text that the
/// coloured string formats to. Whether that text carries colour codes is
/// decided by the terminal and the environment of the process, so nothing is
/// claimed of it.
#[verifier::external_body]
fn in_green(line: &str) -> (shown: String) {
    line.green().to_string()
}

/// Lays out one match for a terminal: the location as it is, and the
/// matching line in green where the terminal takes colours.
pub fn show(found: &MatchResult) -> (text: String)
    ensures
        exists|shown: Seq<char>| text@ == #[trigger] result_line(found@.location, shown),
{
    let shown = in_green(found.line.as_str());
    let text = render(found.location.as_str(), shown.as_str());
    assert(text@ == result_line(found@.location, shown@));
    text
}

} // verus!
