//! What holds of the matches and diagnostics of every tree.
//!
//! [`crate::pipeline::search`] reports exactly what [`Directory::matches`]
//! and [`Directory::diagnostics`] say. The lemmas here spell out what that
//! means: every matching line that the walk reaches is reported, nothing is
//! reported that does not match, a failure stays where it arose, and what lies
//! in a hidden directory does not count.

use vstd::prelude::*;
use vstd::multiset::Multiset;
use crate::report::DiagnosticView;
use crate::searcher::{
    lemma_file_matches_hold_line, lemma_file_matches_hold_term, lemma_invalid_data_is_silent,
    readable_len, MatchView,
};
use crate::sums::{
    lemma_total_holds_part, lemma_total_with_growth, lemma_total_with_insertion, total,
};
use crate::text::contains_term;
use crate::traverser::{is_hidden, Disposition};
use crate::tree::{
    entries_diagnostics, entries_files, entries_matches, Directory, Entry, File, Node,
};

verus! {

/// The directory that a walk from `root` comes to by entering, in turn, the
/// entries at the indices in `route`, or `None` if one of those is not a
/// directory that the walk enters.
pub open spec fn reached(root: Directory, route: Seq<int>) -> Option<Directory>
    decreases route.len(),
{
    if route.len() == 0 {
        Some(root)
    } else if 0 <= route[0] < root.entries@.len() {
        let entry = root.entries@[route[0]];
        match entry.node {
            Node::Directory(inner) => if entry.disposition() == Disposition::Descend {
                reached(inner, route.drop_first())
            } else {
                None
            },
            _ => None,
        }
    } else {
        None
    }
}

/// `after` is `before` with one more entry: `extra` stands at `position`
/// among the entries of the directory that the walk reaches by `route`, and
/// nothing else is changed.
pub open spec fn injected(
    before: Directory,
    after: Directory,
    route: Seq<int>,
    position: int,
    extra: Entry,
) -> bool
    decreases route.len(),
{
    &&& after.diagnostic() == before.diagnostic()
    &&& if route.len() == 0 {
        &&& 0 <= position <= before.entries@.len()
        &&& after.entries@ == before.entries@.insert(position, extra)
    } else {
        let at = route[0];
        &&& 0 <= at < before.entries@.len()
        &&& after.entries@.len() == before.entries@.len()
        &&& forall|i: int|
            0 <= i < before.entries@.len() && i != at ==> after.entries@[i] == before.entries@[i]
        &&& before.entries@[at].disposition() == Disposition::Descend
        &&& after.entries@[at].disposition() == Disposition::Descend
        &&& before.entries@[at].node is Directory
        &&& after.entries@[at].node is Directory
        &&& injected(
            before.entries@[at].node->Directory_0,
            after.entries@[at].node->Directory_0,
            route.drop_first(),
            position,
            extra,
        )
    }
}

/// A file with a readable name that cannot be opened.
pub open spec fn is_unopenable_file(entry: Entry) -> bool {
    &&& entry.name is Some
    &&& entry.node matches Node::File(file)
    &&& file.unopenable is Some
}

/// A directory with a readable name that is not hidden, of which nothing
/// can be listed.
pub open spec fn is_unreadable_directory(entry: Entry) -> bool {
    &&& entry.name matches Some(name)
    &&& !is_hidden(name@)
    &&& entry.node matches Node::Directory(directory)
    &&& directory.failure is Some
    &&& directory.entries@.len() == 0
}

/// A file with a readable name that can be opened and is not text from its
/// first read on.
pub open spec fn is_not_text(entry: Entry) -> bool {
    &&& entry.name is Some
    &&& entry.node matches Node::File(file)
    &&& file.unopenable is None
    &&& file.reads@.len() > 0
    &&& file.reads@[0] is InvalidData
}

/// A directory whose name begins with a dot, whatever it holds.
pub open spec fn is_hidden_directory(entry: Entry) -> bool {
    &&& entry.name matches Some(name)
    &&& is_hidden(name@)
    &&& entry.node is Directory
}

/// For each entry, the matches on its account.
spec fn match_parts(entries: Seq<Entry>, term: Seq<char>) -> Seq<Multiset<MatchView>> {
    Seq::new(entries.len(), |i: int| entries[i].matches(term))
}

/// For each entry, the diagnostics on its account.
spec fn diagnostic_parts(entries: Seq<Entry>) -> Seq<Multiset<DiagnosticView>> {
    Seq::new(entries.len(), |i: int| entries[i].diagnostics())
}

/// For each entry, the files searched on its account.
spec fn file_parts(entries: Seq<Entry>) -> Seq<Multiset<File>> {
    Seq::new(entries.len(), |i: int| entries[i].searched_files())
}

/// What the first `count` entries add up to is the sum of their parts.
proof fn lemma_parts(entries: Seq<Entry>, count: nat, term: Seq<char>)
    requires
        count <= entries.len(),
    ensures
        entries_matches(entries, count, term) == total(match_parts(entries, term), count),
        entries_diagnostics(entries, count) == total(diagnostic_parts(entries), count),
        entries_files(entries, count) == total(file_parts(entries), count),
    decreases count,
{
    if count > 0 {
        lemma_parts(entries, (count - 1) as nat, term);
    }
}

/// What an entry of a reached directory gives is part of what the whole tree
/// gives: its matches, its diagnostics and the files searched on its account.
pub proof fn lemma_reached_entry_counts(
    root: Directory,
    route: Seq<int>,
    index: int,
    term: Seq<char>,
)
    requires
        reached(root, route) is Some,
        0 <= index < reached(root, route)->0.entries@.len(),
    ensures
        reached(root, route)->0.entries@[index].matches(term).subset_of(root.matches(term)),
        reached(root, route)->0.entries@[index].diagnostics().subset_of(root.diagnostics()),
        reached(root, route)->0.entries@[index].searched_files().subset_of(root.searched_files()),
    decreases route.len(),
{
    let entries = root.entries@;
    lemma_parts(entries, entries.len(), term);
    if route.len() == 0 {
        lemma_total_holds_part(match_parts(entries, term), index, entries.len());
        lemma_total_holds_part(diagnostic_parts(entries), index, entries.len());
        lemma_total_holds_part(file_parts(entries), index, entries.len());
    } else {
        let at = route[0];
        let inner = entries[at].node->Directory_0;
        lemma_reached_entry_counts(inner, route.drop_first(), index, term);
        lemma_total_holds_part(match_parts(entries, term), at, entries.len());
        lemma_total_holds_part(diagnostic_parts(entries), at, entries.len());
        lemma_total_holds_part(file_parts(entries), at, entries.len());
    }
}

/// Completeness: every readable line that contains the term, in every file
/// that the walk reaches and that can be opened, is among the matches of the
/// tree, with the location of its file.
pub proof fn lemma_every_matching_line_is_reported(
    root: Directory,
    route: Seq<int>,
    index: int,
    file: File,
    line: int,
    term: Seq<char>,
)
    requires
        reached(root, route) is Some,
        0 <= index < reached(root, route)->0.entries@.len(),
        reached(root, route)->0.entries@[index].name is Some,
        reached(root, route)->0.entries@[index].node == Node::File(file),
        file.unopenable is None,
        0 <= line < readable_len(file.reads@),
        contains_term(file.reads@[line]->Line_0@, term),
    ensures
        root.matches(term).contains(
            MatchView { location: file.location@, line: file.reads@[line]->Line_0@ },
        ),
{
    broadcast use vstd::seq_lib::group_to_multiset_ensures;

    let found = MatchView { location: file.location@, line: file.reads@[line]->Line_0@ };
    lemma_reached_entry_counts(root, route, index, term);
    lemma_file_matches_hold_line(file.location@, file.reads@, term, line);
    assert(file.matches(term).to_multiset().count(found) > 0);
}

/// No false positive among the first `count` of `entries`.
proof fn lemma_entries_matches_hold_term(
    entries: Seq<Entry>,
    count: nat,
    term: Seq<char>,
    found: MatchView,
)
    requires
        entries_matches(entries, count, term).contains(found),
    ensures
        contains_term(found.line, term),
    decreases entries, 1nat, count,
{
    broadcast use vstd::seq_lib::group_to_multiset_ensures;

    if count == 0 || count > entries.len() {
    } else if entries_matches(entries, (count - 1) as nat, term).contains(found) {
        lemma_entries_matches_hold_term(entries, (count - 1) as nat, term, found);
    } else {
        let entry = entries[count - 1];
        assert(entry.matches(term).contains(found));
        match entry.node {
            Node::File(file) => {
                let matches = file.matches(term);
                assert(matches.contains(found));
                let at = choose|at: int| 0 <= at < matches.len() && matches[at] == found;
                lemma_file_matches_hold_term(file.location@, file.reads@, term, at);
            },
            Node::Directory(directory) => {
                lemma_matches_hold_term(directory, term, found);
            },
            Node::Other => {},
        }
    }
}

/// No false positive: the line of every match of the tree contains the term.
pub proof fn lemma_matches_hold_term(root: Directory, term: Seq<char>, found: MatchView)
    requires
        root.matches(term).contains(found),
    ensures
        contains_term(found.line, term),
    decreases root, 0nat, 0nat,
{
    lemma_entries_matches_hold_term(root.entries@, root.entries@.len(), term, found);
}

/// Isolation: one more entry, wherever the walk comes to it, adds what it
/// gives by itself, and what the rest of the tree gives stays as it was.
pub proof fn lemma_injection_adds_its_own(
    before: Directory,
    after: Directory,
    route: Seq<int>,
    position: int,
    extra: Entry,
    term: Seq<char>,
)
    requires
        injected(before, after, route, position, extra),
    ensures
        after.matches(term) == before.matches(term).add(extra.matches(term)),
        after.diagnostics() == before.diagnostics().add(extra.diagnostics()),
        after.searched_files() == before.searched_files().add(extra.searched_files()),
    decreases route.len(),
{
    let old_entries = before.entries@;
    let new_entries = after.entries@;
    lemma_parts(old_entries, old_entries.len(), term);
    lemma_parts(new_entries, new_entries.len(), term);
    if route.len() == 0 {
        assert(match_parts(new_entries, term) =~= match_parts(old_entries, term).insert(
            position,
            extra.matches(term),
        ));
        assert(diagnostic_parts(new_entries) =~= diagnostic_parts(old_entries).insert(
            position,
            extra.diagnostics(),
        ));
        assert(file_parts(new_entries) =~= file_parts(old_entries).insert(
            position,
            extra.searched_files(),
        ));
        lemma_total_with_insertion(
            match_parts(old_entries, term),
            position,
            extra.matches(term),
            new_entries.len(),
        );
        lemma_total_with_insertion(
            diagnostic_parts(old_entries),
            position,
            extra.diagnostics(),
            new_entries.len(),
        );
        lemma_total_with_insertion(
            file_parts(old_entries),
            position,
            extra.searched_files(),
            new_entries.len(),
        );
    } else {
        let at = route[0];
        lemma_injection_adds_its_own(
            old_entries[at].node->Directory_0,
            new_entries[at].node->Directory_0,
            route.drop_first(),
            position,
            extra,
            term,
        );
        lemma_total_with_growth(
            match_parts(old_entries, term),
            match_parts(new_entries, term),
            at,
            extra.matches(term),
            old_entries.len(),
        );
        lemma_total_with_growth(
            diagnostic_parts(old_entries),
            diagnostic_parts(new_entries),
            at,
            extra.diagnostics(),
            old_entries.len(),
        );
        lemma_total_with_growth(
            file_parts(old_entries),
            file_parts(new_entries),
            at,
            extra.searched_files(),
            old_entries.len(),
        );
    }
    assert(after.diagnostics() =~= before.diagnostics().add(extra.diagnostics()));
}

/// Partial failure: a file that cannot be opened, put anywhere the walk
/// comes to, takes no match away and adds exactly one diagnostic, its own.
pub proof fn lemma_unopenable_file_is_isolated(
    before: Directory,
    after: Directory,
    route: Seq<int>,
    position: int,
    extra: Entry,
    term: Seq<char>,
)
    requires
        injected(before, after, route, position, extra),
        is_unopenable_file(extra),
    ensures
        after.matches(term) == before.matches(term),
        after.diagnostics() == before.diagnostics().insert(
            DiagnosticView::FileOpen {
                path: extra.node->File_0.location@,
                cause: extra.node->File_0.unopenable->0@,
            },
        ),
{
    lemma_injection_adds_its_own(before, after, route, position, extra, term);
    assert(extra.matches(term) =~= Multiset::empty()) by {
        broadcast use vstd::seq_lib::group_to_multiset_ensures;

        assert(extra.node->File_0.matches(term).to_multiset().len() == 0);
    }
    assert(after.matches(term) =~= before.matches(term));
}

/// Partial failure: a directory that cannot be listed, put anywhere the walk
/// comes to, takes no match away and adds exactly one diagnostic, its own.
pub proof fn lemma_unreadable_directory_is_isolated(
    before: Directory,
    after: Directory,
    route: Seq<int>,
    position: int,
    extra: Entry,
    term: Seq<char>,
)
    requires
        injected(before, after, route, position, extra),
        is_unreadable_directory(extra),
    ensures
        after.matches(term) == before.matches(term),
        after.diagnostics() == before.diagnostics().insert(
            DiagnosticView::DirectoryRead {
                path: extra.node->Directory_0.location@,
                cause: extra.node->Directory_0.failure->0@,
            },
        ),
{
    lemma_injection_adds_its_own(before, after, route, position, extra, term);
    let directory = extra.node->Directory_0;
    assert(entries_matches(directory.entries@, 0, term) == Multiset::<MatchView>::empty());
    assert(entries_diagnostics(directory.entries@, 0) == Multiset::<DiagnosticView>::empty());
    assert(after.matches(term) =~= before.matches(term));
    assert(extra.diagnostics() =~= Multiset::singleton(directory.diagnostic()->0));
}

/// Files that are not text: such a file, put anywhere the walk comes to,
/// gives no match and no diagnostic, and takes nothing from what the other
/// files give.
pub proof fn lemma_file_that_is_not_text_is_tolerated(
    before: Directory,
    after: Directory,
    route: Seq<int>,
    position: int,
    extra: Entry,
    term: Seq<char>,
)
    requires
        injected(before, after, route, position, extra),
        is_not_text(extra),
    ensures
        after.matches(term) == before.matches(term),
        after.diagnostics() == before.diagnostics(),
{
    let file = extra.node->File_0;
    lemma_injection_adds_its_own(before, after, route, position, extra, term);
    lemma_invalid_data_is_silent(file.location@, file.reads@, term, 0);
    assert(extra.matches(term) =~= Multiset::empty()) by {
        broadcast use vstd::seq_lib::group_to_multiset_ensures;

        assert(file.matches(term).to_multiset().len() == 0);
    }
    assert(after.matches(term) =~= before.matches(term));
    assert(after.diagnostics() =~= before.diagnostics());
}

/// Hidden directories: a directory whose name begins with a dot, put
/// anywhere the walk comes to, changes nothing, whatever it holds. No file is
/// searched on its account, so none of its lines is ever reported.
pub proof fn lemma_hidden_directory_is_excluded(
    before: Directory,
    after: Directory,
    route: Seq<int>,
    position: int,
    extra: Entry,
    term: Seq<char>,
)
    requires
        injected(before, after, route, position, extra),
        is_hidden_directory(extra),
    ensures
        after.matches(term) == before.matches(term),
        after.diagnostics() == before.diagnostics(),
        after.searched_files() == before.searched_files(),
{
    lemma_injection_adds_its_own(before, after, route, position, extra, term);
    assert(after.matches(term) =~= before.matches(term));
    assert(after.diagnostics() =~= before.diagnostics());
    assert(after.searched_files() =~= before.searched_files());
}

} // verus!
