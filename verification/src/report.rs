//! Diagnostics: what is said about a failure that does not stop the search.

use vstd::prelude::*;
use vstd::string::StringExecFns;

verus! {

/// A failure met during a search. Each one is confined to the directory, the
/// file or the delivery it names; the search goes on with everything else.
#[derive(Debug, PartialEq, Eq)]
pub enum Diagnostic {
    /// A directory could not be listed; what lies under it is left out.
    DirectoryRead { path: String, cause: String },
    /// A file could not be opened; it yields no match.
    FileOpen { path: String, cause: String },
    /// Reading a file failed after it was opened; the matches found before
    /// that stand.
    FileRead { path: String, cause: String },
    /// A match of the named file could not be handed over, because the
    /// consumer of the results is gone.
    Delivery { path: String },
}

/// The mathematical content of a [`Diagnostic`].
pub enum DiagnosticView {
    DirectoryRead { path: Seq<char>, cause: Seq<char> },
    FileOpen { path: Seq<char>, cause: Seq<char> },
    FileRead { path: Seq<char>, cause: Seq<char> },
    Delivery { path: Seq<char> },
}

impl View for Diagnostic {
    type V = DiagnosticView;

    open spec fn view(&self) -> DiagnosticView {
        match self {
            Diagnostic::DirectoryRead { path, cause } => DiagnosticView::DirectoryRead {
                path: path@,
                cause: cause@,
            },
            Diagnostic::FileOpen { path, cause } => DiagnosticView::FileOpen {
                path: path@,
                cause: cause@,
            },
            Diagnostic::FileRead { path, cause } => DiagnosticView::FileRead {
                path: path@,
                cause: cause@,
            },
            Diagnostic::Delivery { path } => DiagnosticView::Delivery { path: path@ },
        }
    }
}

impl DiagnosticView {
    /// The path that the diagnostic is about.
    pub open spec fn path(self) -> Seq<char> {
        match self {
            DiagnosticView::DirectoryRead { path, .. } => path,
            DiagnosticView::FileOpen { path, .. } => path,
            DiagnosticView::FileRead { path, .. } => path,
            DiagnosticView::Delivery { path } => path,
        }
    }

    /// The line of text that reports the diagnostic. For a directory or a
    /// file it names the path and the underlying cause.
    pub open spec fn message(self) -> Seq<char> {
        match self {
            DiagnosticView::DirectoryRead { path, cause } => "Failed to read directory '"@ + path
                + "': "@ + cause,
            DiagnosticView::FileOpen { path, cause } => "Failed to open file '"@ + path + "': "@
                + cause,
            DiagnosticView::FileRead { path, cause } => "Error reading line from file '"@ + path
                + "': "@ + cause,
            DiagnosticView::Delivery { .. } => "Failed to send result"@,
        }
    }
}

/// `head`, then `path`, then `tail`, then `cause`.
fn compose(head: &str, path: &str, tail: &str, cause: &str) -> (text: String)
    ensures
        text@ == head@ + path@ + tail@ + cause@,
{
    let mut text = String::from_str(head);
    text.append(path);
    text.append(tail);
    text.append(cause);
    text
}

impl Diagnostic {
    /// The path that the diagnostic is about.
    pub fn path(&self) -> (path: &str)
        ensures
            path@ == self@.path(),
    {
        match self {
            Diagnostic::DirectoryRead { path, .. } => path.as_str(),
            Diagnostic::FileOpen { path, .. } => path.as_str(),
            Diagnostic::FileRead { path, .. } => path.as_str(),
            Diagnostic::Delivery { path } => path.as_str(),
        }
    }

    /// The line of text to write to the diagnostic stream.
    pub fn message(&self) -> (text: String)
        ensures
            text@ == self@.message(),
    {
        match self {
            Diagnostic::DirectoryRead { path, cause } => compose(
                "Failed to read directory '",
                path.as_str(),
                "': ",
                cause.as_str(),
            ),
            Diagnostic::FileOpen { path, cause } => compose(
                "Failed to open file '",
                path.as_str(),
                "': ",
                cause.as_str(),
            ),
            Diagnostic::FileRead { path, cause } => compose(
                "Error reading line from file '",
                path.as_str(),
                "': ",
                cause.as_str(),
            ),
            Diagnostic::Delivery { .. } => String::from_str("Failed to send result"),
        }
    }
}

} // verus!
