//! The traverser: which directories are walked and which files are searched.
//!
//! A [`Traverser`] keeps the list of directories that are still to be read.
//! Its caller takes one directory at a time from it, lists that directory, and
//! shows every entry to the traverser, which either keeps it for later (a
//! directory to walk), hands it back (a file to search) or passes it over.
//! A directory that cannot be listed is reported by the caller and adds
//! nothing to the list; the walk goes on with the directories that remain.

use vstd::prelude::*;
use vstd::string::StrSliceExecFns;

verus! {

/// What kind of thing a directory entry is.
#[derive(Clone, Copy, Debug, PartialEq, Eq, Structural)]
pub enum EntryKind {
    Directory,
    File,
    /// Neither a directory nor a regular file.
    Other,
}

/// What becomes of a directory entry.
#[derive(Clone, Copy, Debug, PartialEq, Eq, Structural)]
pub enum Disposition {
    /// A directory whose entries will be visited in turn.
    Descend,
    /// A file that is searched.
    Search,
    /// Left alone.
    Skip,
}

/// A name is hidden if it begins with a dot.
pub open spec fn is_hidden(name: Seq<char>) -> bool {
    name.len() > 0 && name[0] == '.'
}

/// What becomes of an entry of the given kind and name, where the name is
/// `None` if the entry has none that is valid text.
///
/// An entry without a readable name is passed over, whatever it is. A hidden
/// directory is not entered; a hidden file is searched like any other file.
pub open spec fn disposition_of(kind: EntryKind, name: Option<Seq<char>>) -> Disposition {
    match name {
        None => Disposition::Skip,
        Some(name) => match kind {
            EntryKind::Directory => if is_hidden(name) {
                Disposition::Skip
            } else {
                Disposition::Descend
            },
            EntryKind::File => Disposition::Search,
            EntryKind::Other => Disposition::Skip,
        },
    }
}

/// The characters of a name, where there is one.
pub open spec fn name_view(name: Option<&str>) -> Option<Seq<char>> {
    match name {
        Some(name) => Some(name@),
        None => None,
    }
}

/// Whether `name` begins with a dot.
pub fn hidden(name: &str) -> (hidden: bool)
    ensures
        hidden == is_hidden(name@),
{
    !name.is_empty() && name.get_char(0) == '.'
}

/// Decides what becomes of a directory entry.
pub fn classify(kind: EntryKind, name: Option<&str>) -> (disposition: Disposition)
    ensures
        disposition == disposition_of(kind, name_view(name)),
{
    match name {
        None => Disposition::Skip,
        Some(name) => match kind {
            EntryKind::Directory => if hidden(name) {
                Disposition::Skip
            } else {
                Disposition::Descend
            },
            EntryKind::File => Disposition::Search,
            EntryKind::Other => Disposition::Skip,
        },
    }
}

/// The walk of one directory tree. `P` is whatever the caller uses to name a
/// directory or a file; the traverser only stores and returns such values.
#[derive(Debug)]
pub struct Traverser<P> {
    pending: Vec<P>,
}

impl<P> Traverser<P> {
    /// The directories still to be read. The last one is read next.
    pub closed spec fn pending(&self) -> Seq<P> {
        self.pending@
    }

    /// A walk that starts at `root`. The root is read whatever its name.
    pub fn new(root: P) -> (walk: Traverser<P>)
        ensures
            walk.pending() == seq![root],
    {
        let mut pending: Vec<P> = Vec::new();
        pending.push(root);
        Traverser { pending }
    }

    /// Whether every directory has been read.
    pub fn is_finished(&self) -> (finished: bool)
        ensures
            finished == (self.pending().len() == 0),
    {
        self.pending.len() == 0
    }

    /// Takes the directory to read next, or `None` when the walk is over.
    pub fn next_directory(&mut self) -> (next: Option<P>)
        ensures
            old(self).pending().len() == 0 ==> next is None && final(self).pending() == old(
                self,
            ).pending(),
            old(self).pending().len() > 0 ==> next == Some(old(self).pending().last())
                && final(self).pending() == old(self).pending().drop_last(),
    {
        self.pending.pop()
    }

    /// Shows the walk one entry of the directory being read. A directory to
    /// descend into joins the pending ones. A file to search is handed back;
    /// the walk does not wait for that search.
    pub fn visit(&mut self, path: P, kind: EntryKind, name: Option<&str>) -> (file: Option<P>)
        ensures
            final(self).pending() == if disposition_of(kind, name_view(name))
                == Disposition::Descend {
                old(self).pending().push(path)
            } else {
                old(self).pending()
            },
            file == if disposition_of(kind, name_view(name)) == Disposition::Search {
                Some(path)
            } else {
                None
            },
    {
        match classify(kind, name) {
            Disposition::Descend => {
                self.pending.push(path);
                None
            },
            Disposition::Search => Some(path),
            Disposition::Skip => None,
        }
    }
}

} // verus!
