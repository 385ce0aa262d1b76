//! A directory tree held in memory, and what a search of it must find.
//!
//! The tree says what reading each directory and each file would come to,
//! failures included. The functions here define, for such a tree and a term,
//! the matches and the diagnostics of a complete search; [`crate::pipeline`]
//! runs the search and is held to them.

use vstd::prelude::*;
use vstd::multiset::Multiset;
use crate::report::DiagnosticView;
use crate::searcher::{file_matches, read_failure, MatchView, ReadOutcome};
use crate::traverser::{disposition_of, Disposition, EntryKind};
use crate::weave::woven;

verus! {

/// A regular file.
#[derive(Debug, PartialEq, Eq)]
pub struct File {
    /// The display form of the file's path.
    pub location: String,
    /// Why the file cannot be opened, if it cannot.
    pub unopenable: Option<String>,
    /// What successive reads of the open file return. After the last of
    /// them the file is at its end.
    pub reads: Vec<ReadOutcome>,
}

/// A directory.
#[derive(Debug, PartialEq, Eq)]
pub struct Directory {
    /// The display form of the directory's path.
    pub location: String,
    /// The entries that listing the directory yields, in that order.
    pub entries: Vec<Entry>,
    /// The failure that ends the listing after those entries, if there is
    /// one. A directory that cannot be read at all has a failure and no
    /// entries.
    pub failure: Option<String>,
}

/// What a directory entry leads to.
#[derive(Debug, PartialEq, Eq)]
pub enum Node {
    File(File),
    Directory(Directory),
    /// Neither a regular file nor a directory.
    Other,
}

/// One entry of a directory.
#[derive(Debug, PartialEq, Eq)]
pub struct Entry {
    /// The entry's name, or `None` if it has none that is valid text.
    pub name: Option<String>,
    pub node: Node,
}

/// The multiset with the one element of `item`, if there is one.
pub open spec fn optional<T>(item: Option<T>) -> Multiset<T> {
    match item {
        Some(item) => Multiset::singleton(item),
        None => Multiset::empty(),
    }
}

impl File {
    /// The matches of the file for `term`, in the order of its lines. A file
    /// that cannot be opened has none.
    pub open spec fn matches(self, term: Seq<char>) -> Seq<MatchView> {
        if self.unopenable is Some {
            Seq::empty()
        } else {
            file_matches(self.location@, self.reads@, term)
        }
    }

    /// The diagnostic that searching the file gives rise to, if any: that it
    /// cannot be opened, or that reading it failed. Data that is not text
    /// gives rise to none.
    pub open spec fn diagnostic(self) -> Option<DiagnosticView> {
        match self.unopenable {
            Some(cause) => Some(DiagnosticView::FileOpen { path: self.location@, cause: cause@ }),
            None => read_failure(self.location@, self.reads@),
        }
    }
}

impl Directory {
    /// The diagnostic that listing the directory gives rise to, if any.
    pub open spec fn diagnostic(self) -> Option<DiagnosticView> {
        match self.failure {
            Some(cause) => Some(
                DiagnosticView::DirectoryRead { path: self.location@, cause: cause@ },
            ),
            None => None,
        }
    }

    /// Every match that a search of the tree under this directory gives, each
    /// as often as it is given.
    pub open spec fn matches(self, term: Seq<char>) -> Multiset<MatchView>
        decreases self, 0nat, 0nat,
    {
        entries_matches(self.entries@, self.entries@.len(), term)
    }

    /// Every diagnostic that a search of the tree under this directory gives
    /// rise to.
    pub open spec fn diagnostics(self) -> Multiset<DiagnosticView>
        decreases self, 0nat, 0nat,
    {
        entries_diagnostics(self.entries@, self.entries@.len()).add(optional(self.diagnostic()))
    }

    /// Every file that a search of the tree under this directory searches.
    pub open spec fn searched_files(self) -> Multiset<File>
        decreases self, 0nat, 0nat,
    {
        entries_files(self.entries@, self.entries@.len())
    }
}

impl Entry {
    /// What kind of thing the entry is.
    pub open spec fn kind(self) -> EntryKind {
        match self.node {
            Node::File(_) => EntryKind::File,
            Node::Directory(_) => EntryKind::Directory,
            Node::Other => EntryKind::Other,
        }
    }

    /// The characters of the entry's name, where it has one.
    pub open spec fn name_text(self) -> Option<Seq<char>> {
        match self.name {
            Some(name) => Some(name@),
            None => None,
        }
    }

    /// What a traversal does with the entry.
    pub open spec fn disposition(self) -> Disposition {
        disposition_of(self.kind(), self.name_text())
    }

    /// The matches that the entry adds to those of its directory: those of a
    /// file that is searched, those under a directory that is entered, and
    /// none for anything passed over.
    pub open spec fn matches(self, term: Seq<char>) -> Multiset<MatchView>
        decreases self, 0nat, 0nat,
    {
        match self.node {
            Node::File(file) => if self.disposition() == Disposition::Search {
                file.matches(term).to_multiset()
            } else {
                Multiset::empty()
            },
            Node::Directory(directory) => if self.disposition() == Disposition::Descend {
                directory.matches(term)
            } else {
                Multiset::empty()
            },
            Node::Other => Multiset::empty(),
        }
    }

    /// The diagnostics that the entry adds to those of its directory.
    pub open spec fn diagnostics(self) -> Multiset<DiagnosticView>
        decreases self, 0nat, 0nat,
    {
        match self.node {
            Node::File(file) => if self.disposition() == Disposition::Search {
                optional(file.diagnostic())
            } else {
                Multiset::empty()
            },
            Node::Directory(directory) => if self.disposition() == Disposition::Descend {
                directory.diagnostics()
            } else {
                Multiset::empty()
            },
            Node::Other => Multiset::empty(),
        }
    }

    /// The files that are searched on account of the entry.
    pub open spec fn searched_files(self) -> Multiset<File>
        decreases self, 0nat, 0nat,
    {
        match self.node {
            Node::File(file) => if self.disposition() == Disposition::Search {
                Multiset::singleton(file)
            } else {
                Multiset::empty()
            },
            Node::Directory(directory) => if self.disposition() == Disposition::Descend {
                directory.searched_files()
            } else {
                Multiset::empty()
            },
            Node::Other => Multiset::empty(),
        }
    }
}

/// The matches that the first `count` of `entries` add up to.
pub open spec fn entries_matches(entries: Seq<Entry>, count: nat, term: Seq<char>) -> Multiset<
    MatchView,
>
    decreases entries, 1nat, count,
{
    if count == 0 || count > entries.len() {
        Multiset::empty()
    } else {
        entries_matches(entries, (count - 1) as nat, term).add(entries[count - 1].matches(term))
    }
}

/// The diagnostics that the first `count` of `entries` add up to.
pub open spec fn entries_diagnostics(entries: Seq<Entry>, count: nat) -> Multiset<DiagnosticView>
    decreases entries, 1nat, count,
{
    if count == 0 || count > entries.len() {
        Multiset::empty()
    } else {
        entries_diagnostics(entries, (count - 1) as nat).add(entries[count - 1].diagnostics())
    }
}

/// The files that are searched on account of the first `count` of `entries`.
pub open spec fn entries_files(entries: Seq<Entry>, count: nat) -> Multiset<File>
    decreases entries, 1nat, count,
{
    if count == 0 || count > entries.len() {
        Multiset::empty()
    } else {
        entries_files(entries, (count - 1) as nat).add(entries[count - 1].searched_files())
    }
}

/// The matches of each of `files` for `term`.
pub open spec fn matches_of_each(files: Seq<File>, term: Seq<char>) -> Seq<Seq<MatchView>> {
    Seq::new(files.len(), |i: int| files[i].matches(term))
}

/// `matches` holds the matches of the files that a search of the tree under
/// `root` searches and nothing else, and those of each file stand in the
/// order of its lines. How the matches of different files are mixed is open.
pub open spec fn in_line_order(matches: Seq<MatchView>, root: Directory, term: Seq<char>) -> bool {
    exists|order: Seq<File>|
        order.to_multiset() == root.searched_files() && #[trigger] woven(
            matches,
            matches_of_each(order, term),
        )
}

} // verus!
