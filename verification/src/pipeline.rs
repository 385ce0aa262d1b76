//! The whole search, run on a tree held in memory.
//!
//! The pieces are put together as a search of real files puts them together:
//! a traverser walks the tree and dispatches a search for every file that it
//! is handed back; every search is a producer of one bounded conduit; the
//! consumer takes matches out of the conduit until it is told that the stream
//! is closed. The traverser, each search and the consumer take turns, and a
//! turn is one small thing: one directory entry, one line, one match. In what
//! order the turns are taken is up to the caller of [`search_in_turns`]. A
//! search that finds the conduit full keeps its match and offers it again at
//! its next turn, so the conduit never holds more than its capacity.
//!
//! Whatever the order of the turns, nothing is lost and nothing comes twice:
//! the proof keeps account, at every turn, of what has come out, what is on
//! its way and what is still to come.

use vstd::prelude::*;
use vstd::multiset::Multiset;
use vstd::seq_lib::lemma_multiset_commutative;
use crate::conduit::{Conduit, Offer, Taken, DEFAULT_CAPACITY};
use crate::laws::lemma_matches_hold_term;
use crate::report::{Diagnostic, DiagnosticView};
use crate::searcher::{
    file_matches, lemma_reads_from, match_views, read_failure, FileSearcher, MatchResult,
    MatchView, ReadOutcome, Step,
};
use crate::sums::{
    lemma_total_of_equal_parts, lemma_total_with_insertion, lemma_total_with_removal,
    lemma_weigh_of_equal_parts, lemma_weigh_with_insertion, lemma_weigh_with_removal, total,
    weigh,
};
use crate::text::{contains_term, SearchTerm};
use crate::traverser::{Disposition, EntryKind, Traverser};
use crate::tree::{
    entries_diagnostics, entries_files, entries_matches, in_line_order, matches_of_each, optional,
    Directory, Entry, File, Node,
};
use crate::weave::{lemma_picked_nothing, lemma_picked_push, picked, weaves, woven};

verus! {

/// What a search came to.
#[derive(Debug, PartialEq, Eq)]
pub struct Report {
    /// The matches, in the order in which the consumer received them.
    pub matches: Vec<MatchResult>,
    /// The diagnostics, in the order in which they arose.
    pub diagnostics: Vec<Diagnostic>,
}

/// The contents of a sequence of diagnostics.
pub open spec fn diagnostic_views(diagnostics: Seq<Diagnostic>) -> Seq<DiagnosticView> {
    diagnostics.map_values(|diagnostic: Diagnostic| diagnostic@)
}

/// Whose turn it is.
#[derive(Clone, Copy, Debug, PartialEq, Eq)]
pub enum Turn {
    /// The traverser looks at one more entry, or goes on to the next
    /// directory.
    Traverse,
    /// One of the searches in flight, by its place among them, opens its
    /// file, reads one more line, or offers a match that it holds.
    Search(usize),
    /// The consumer asks the conduit for a match.
    Consume,
}

/// What the traverser of a tree in memory is given to name an entry by.
enum Handle<'a> {
    File(&'a File),
    Directory(&'a Directory),
    Other,
}

/// The directory that the traverser is listing, and how many of its entries
/// it has seen.
struct Listing<'a> {
    directory: &'a Directory,
    next: usize,
}

/// A search that was dispatched and has not ended.
struct Running<'a> {
    file: &'a File,
    /// The searcher, once the file is open.
    searcher: Option<FileSearcher<'a>>,
    /// How many reads of the file have been taken.
    next: usize,
    /// A match that found the conduit full and waits for room.
    held: Option<MatchResult>,
    /// The place of the file among those dispatched so far.
    id: Ghost<int>,
}

impl<'a> Running<'a> {
    /// The searcher, if there is one, is at work on this file for the term,
    /// and no more reads have been taken than the file has.
    spec fn sound(self, term: Seq<char>) -> bool {
        &&& self.next <= self.file.reads@.len()
        &&& match self.searcher {
            Some(searcher) => {
                &&& searcher.active()
                &&& searcher.location() == self.file.location@
                &&& searcher.term() == term
                &&& self.file.unopenable is None
            },
            None => self.next == 0 && self.held is None,
        }
    }

    /// The match that waits for room, if one does.
    spec fn held_matches(self) -> Seq<MatchView> {
        match self.held {
            Some(found) => seq![found@],
            None => Seq::empty(),
        }
    }

    /// The matches that are still to come from this search, in their order.
    spec fn coming(self, term: Seq<char>) -> Seq<MatchView> {
        match self.searcher {
            None => self.file.matches(term),
            Some(_) => self.held_matches() + file_matches(
                self.file.location@,
                self.file.reads@.skip(self.next as int),
                term,
            ),
        }
    }

    /// The diagnostic that is still to come from this search, if any.
    spec fn coming_diagnostic(self) -> Option<DiagnosticView> {
        match self.searcher {
            None => self.file.diagnostic(),
            Some(_) => read_failure(self.file.location@, self.file.reads@.skip(self.next as int)),
        }
    }

    /// A bound on the number of turns that this search still takes, counting
    /// one for each match that it puts into the conduit.
    spec fn weight(self) -> nat {
        match self.searcher {
            None => 3 + 3 * self.file.reads@.len(),
            Some(_) => (1 + (if self.held is Some {
                2int
            } else {
                0int
            }) + 3 * (self.file.reads@.len() - self.next)) as nat,
        }
    }
}

/// The weight of a search of `file` that has just been dispatched.
spec fn fresh_weight(file: File) -> nat {
    3 + 3 * file.reads@.len()
}

/// For each search in flight, the matches still to come from it.
spec fn match_parts(running: Seq<Running<'_>>, term: Seq<char>) -> Seq<Multiset<MatchView>> {
    Seq::new(running.len(), |i: int| running[i].coming(term).to_multiset())
}

/// For each search in flight, the diagnostic still to come from it.
spec fn diagnostic_parts(running: Seq<Running<'_>>) -> Seq<Multiset<DiagnosticView>> {
    Seq::new(running.len(), |i: int| optional(running[i].coming_diagnostic()))
}

/// For each search in flight, its weight.
spec fn weight_parts(running: Seq<Running<'_>>) -> Seq<nat> {
    Seq::new(running.len(), |i: int| running[i].weight())
}

/// The matches still to come from the searches in flight.
spec fn running_matches(running: Seq<Running<'_>>, term: Seq<char>) -> Multiset<MatchView> {
    total(match_parts(running, term), running.len())
}

/// The diagnostics still to come from the searches in flight.
spec fn running_diagnostics(running: Seq<Running<'_>>) -> Multiset<DiagnosticView> {
    total(diagnostic_parts(running), running.len())
}

/// A bound on the number of turns that the searches in flight still take.
spec fn running_weight(running: Seq<Running<'_>>) -> nat {
    weigh(weight_parts(running), running.len())
}

/// One more search in flight adds what is still to come from it.
proof fn lemma_running_push(running: Seq<Running<'_>>, added: Running<'_>, term: Seq<char>)
    ensures
        running_matches(running.push(added), term) == running_matches(running, term).add(
            added.coming(term).to_multiset(),
        ),
        running_diagnostics(running.push(added)) == running_diagnostics(running).add(
            optional(added.coming_diagnostic()),
        ),
        running_weight(running.push(added)) == running_weight(running) + added.weight(),
{
    let longer = running.push(added);
    lemma_total_of_equal_parts(
        match_parts(longer, term),
        match_parts(running, term),
        running.len(),
    );
    lemma_total_of_equal_parts(diagnostic_parts(longer), diagnostic_parts(running), running.len());
    lemma_weigh_of_equal_parts(weight_parts(longer), weight_parts(running), running.len());
}

/// One more search in flight, at whatever place, adds what is still to
/// come from it.
proof fn lemma_running_insert(
    running: Seq<Running<'_>>,
    at: int,
    added: Running<'_>,
    term: Seq<char>,
)
    requires
        0 <= at <= running.len(),
    ensures
        running_matches(running.insert(at, added), term) == running_matches(running, term).add(
            added.coming(term).to_multiset(),
        ),
        running_diagnostics(running.insert(at, added)) == running_diagnostics(running).add(
            optional(added.coming_diagnostic()),
        ),
        running_weight(running.insert(at, added)) == running_weight(running) + added.weight(),
{
    let longer = running.insert(at, added);
    assert(match_parts(longer, term) =~= match_parts(running, term).insert(
        at,
        added.coming(term).to_multiset(),
    ));
    assert(diagnostic_parts(longer) =~= diagnostic_parts(running).insert(
        at,
        optional(added.coming_diagnostic()),
    ));
    assert(weight_parts(longer) =~= weight_parts(running).insert(at, added.weight()));
    lemma_total_with_insertion(
        match_parts(running, term),
        at,
        added.coming(term).to_multiset(),
        longer.len(),
    );
    lemma_total_with_insertion(
        diagnostic_parts(running),
        at,
        optional(added.coming_diagnostic()),
        longer.len(),
    );
    lemma_weigh_with_insertion(weight_parts(running), at, added.weight(), longer.len());
}

/// A search that leaves, from whatever place, takes with it what was still
/// to come from it.
proof fn lemma_running_remove(running: Seq<Running<'_>>, at: int, term: Seq<char>)
    requires
        0 <= at < running.len(),
    ensures
        running_matches(running, term) == running_matches(running.remove(at), term).add(
            running[at].coming(term).to_multiset(),
        ),
        running_diagnostics(running) == running_diagnostics(running.remove(at)).add(
            optional(running[at].coming_diagnostic()),
        ),
        running_weight(running) == running_weight(running.remove(at)) + running[at].weight(),
{
    let shorter = running.remove(at);
    assert(match_parts(shorter, term) =~= match_parts(running, term).remove(at));
    assert(diagnostic_parts(shorter) =~= diagnostic_parts(running).remove(at));
    assert(weight_parts(shorter) =~= weight_parts(running).remove(at));
    lemma_total_with_removal(match_parts(running, term), at);
    lemma_total_with_removal(diagnostic_parts(running), at);
    lemma_weigh_with_removal(weight_parts(running), at);
}

/// A bound on the number of turns that the traverser takes for `directory`
/// and all below it, and that the searches dispatched from there take.
spec fn directory_weight(directory: Directory) -> nat
    decreases directory, 0nat, 0nat,
{
    2 + entries_weight(directory.entries@, directory.entries@.len())
}

/// A bound on the number of turns taken on account of `entry`, not counting
/// the one in which the traverser looks at it.
spec fn entry_weight(entry: Entry) -> nat
    decreases entry, 0nat, 0nat,
{
    match entry.node {
        Node::File(file) => if entry.disposition() == Disposition::Search {
            fresh_weight(file)
        } else {
            0
        },
        Node::Directory(directory) => if entry.disposition() == Disposition::Descend {
            directory_weight(directory)
        } else {
            0
        },
        Node::Other => 0,
    }
}

/// A bound on the number of turns taken on account of the first `count` of
/// `entries`.
spec fn entries_weight(entries: Seq<Entry>, count: nat) -> nat
    decreases entries, 1nat, count,
{
    if count == 0 || count > entries.len() {
        0
    } else {
        entries_weight(entries, (count - 1) as nat) + 1 + entry_weight(entries[count - 1])
    }
}

/// More entries do not weigh less.
proof fn lemma_entries_weight_grows(entries: Seq<Entry>, count: nat, limit: nat)
    requires
        count <= limit <= entries.len(),
    ensures
        entries_weight(entries, count) <= entries_weight(entries, limit),
    decreases limit,
{
    if count < limit {
        lemma_entries_weight_grows(entries, count, (limit - 1) as nat);
    }
}

/// The matches still to come from what `handle` names.
spec fn handle_matches(handle: Handle<'_>, term: Seq<char>) -> Multiset<MatchView> {
    match handle {
        Handle::Directory(directory) => directory.matches(term),
        _ => Multiset::empty(),
    }
}

/// The diagnostics still to come from what `handle` names.
spec fn handle_diagnostics(handle: Handle<'_>) -> Multiset<DiagnosticView> {
    match handle {
        Handle::Directory(directory) => directory.diagnostics(),
        _ => Multiset::empty(),
    }
}

/// The files still to be dispatched from what `handle` names.
spec fn handle_files(handle: Handle<'_>) -> Multiset<File> {
    match handle {
        Handle::Directory(directory) => directory.searched_files(),
        _ => Multiset::empty(),
    }
}

/// A bound on the number of turns still taken on account of what `handle`
/// names.
spec fn handle_weight(handle: Handle<'_>) -> nat {
    match handle {
        Handle::Directory(directory) => directory_weight(*directory),
        _ => 1,
    }
}

/// The matches still to come from the directories in `pending`.
spec fn pending_matches(pending: Seq<Handle<'_>>, term: Seq<char>) -> Multiset<MatchView>
    decreases pending.len(),
{
    if pending.len() == 0 {
        Multiset::empty()
    } else {
        pending_matches(pending.drop_last(), term).add(handle_matches(pending.last(), term))
    }
}

/// The diagnostics still to come from the directories in `pending`.
spec fn pending_diagnostics(pending: Seq<Handle<'_>>) -> Multiset<DiagnosticView>
    decreases pending.len(),
{
    if pending.len() == 0 {
        Multiset::empty()
    } else {
        pending_diagnostics(pending.drop_last()).add(handle_diagnostics(pending.last()))
    }
}

/// The files still to be dispatched from the directories in `pending`.
spec fn pending_files(pending: Seq<Handle<'_>>) -> Multiset<File>
    decreases pending.len(),
{
    if pending.len() == 0 {
        Multiset::empty()
    } else {
        pending_files(pending.drop_last()).add(handle_files(pending.last()))
    }
}

/// A bound on the number of turns still taken on account of the directories
/// in `pending`.
spec fn pending_weight(pending: Seq<Handle<'_>>) -> nat
    decreases pending.len(),
{
    if pending.len() == 0 {
        0
    } else {
        pending_weight(pending.drop_last()) + handle_weight(pending.last())
    }
}

/// One more pending directory adds what is under it.
proof fn lemma_pending_push(pending: Seq<Handle<'_>>, handle: Handle<'_>, term: Seq<char>)
    ensures
        pending_matches(pending.push(handle), term) == pending_matches(pending, term).add(
            handle_matches(handle, term),
        ),
        pending_diagnostics(pending.push(handle)) == pending_diagnostics(pending).add(
            handle_diagnostics(handle),
        ),
        pending_files(pending.push(handle)) == pending_files(pending).add(handle_files(handle)),
        pending_weight(pending.push(handle)) == pending_weight(pending) + handle_weight(handle),
{
    assert(pending.push(handle).drop_last() =~= pending);
}

/// Who sent what: for every file dispatched so far, the matches that its
/// search has put into the conduit, and for every match in the stream, the
/// file it is from.
struct Weave {
    /// The files dispatched so far, in the order of their dispatch.
    order: Seq<File>,
    /// For each of them, what its search has put into the conduit.
    sent: Seq<Seq<MatchView>>,
    /// For each of them, whether its search has ended.
    done: Seq<bool>,
    /// For each match in the stream, the place in `order` of its file.
    origin: Seq<int>,
}

impl Weave {
    /// The weave after the search of `file` was dispatched.
    spec fn dispatched(self, file: File) -> Weave {
        Weave {
            order: self.order.push(file),
            sent: self.sent.push(Seq::empty()),
            done: self.done.push(false),
            origin: self.origin,
        }
    }

    /// The weave after the search at `id` put `found` into the conduit.
    spec fn sent_from(self, id: int, found: MatchView) -> Weave {
        Weave {
            order: self.order,
            sent: self.sent.update(id, self.sent[id].push(found)),
            done: self.done,
            origin: self.origin.push(id),
        }
    }

    /// The weave after the search at `id` ended.
    spec fn finished(self, id: int) -> Weave {
        Weave {
            order: self.order,
            sent: self.sent,
            done: self.done.update(id, true),
            origin: self.origin,
        }
    }
}

/// How many searches have not ended.
spec fn undone(done: Seq<bool>) -> nat
    decreases done.len(),
{
    if done.len() == 0 {
        0
    } else {
        undone(done.drop_last()) + if done.last() {
            0nat
        } else {
            1nat
        }
    }
}

/// A search that ends is one fewer that has not.
proof fn lemma_undone_update(done: Seq<bool>, id: int)
    requires
        0 <= id < done.len(),
        !done[id],
    ensures
        undone(done.update(id, true)) + 1 == undone(done),
    decreases done.len(),
{
    let after = done.update(id, true);
    if id == done.len() - 1 {
        assert(after.drop_last() =~= done.drop_last());
    } else {
        lemma_undone_update(done.drop_last(), id);
        assert(after.drop_last() =~= done.drop_last().update(id, true));
    }
}

/// When no search is left that has not ended, all have.
proof fn lemma_undone_none(done: Seq<bool>)
    requires
        undone(done) == 0,
    ensures
        forall|id: int| 0 <= id < done.len() ==> done[id],
    decreases done.len(),
{
    if done.len() > 0 {
        lemma_undone_none(done.drop_last());
        assert forall|id: int| 0 <= id < done.len() implies done[id] by {
            if id < done.len() - 1 {
                assert(done.drop_last()[id] == done[id]);
            }
        }
    }
}

impl<'a> Running<'a> {
    /// The search is that of the file at its place in the weave, it has not
    /// ended, and what it has sent and what is still to come from it make up
    /// the matches of its file.
    spec fn bound(self, weave: Weave, term: Seq<char>) -> bool {
        &&& 0 <= self.id@ < weave.order.len()
        &&& !weave.done[self.id@]
        &&& weave.order[self.id@] == *self.file
        &&& weave.sent[self.id@] + self.coming(term) == self.file.matches(term)
    }
}

/// The stream is woven from what the searches have sent, and every search
/// in flight has its place in that.
spec fn tied(
    weave: Weave,
    stream: Seq<MatchView>,
    running: Seq<Running<'_>>,
    term: Seq<char>,
) -> bool {
    &&& weave.sent.len() == weave.order.len()
    &&& weave.done.len() == weave.order.len()
    &&& weave.origin.len() == stream.len()
    &&& forall|i: int|
        0 <= i < weave.origin.len() ==> 0 <= #[trigger] weave.origin[i] < weave.order.len()
    &&& forall|id: int|
        0 <= id < weave.order.len() ==> #[trigger] picked(stream, weave.origin, id)
            == weave.sent[id]
    &&& forall|id: int|
        0 <= id < weave.order.len() && #[trigger] weave.done[id] ==> weave.sent[id]
            == weave.order[id].matches(term)
    &&& forall|k: int| 0 <= k < running.len() ==> (#[trigger] running[k]).bound(weave, term)
    &&& forall|j: int, k: int|
        0 <= j < k < running.len() ==> (#[trigger] running[j]).id@ != (#[trigger] running[k]).id@
    &&& undone(weave.done) == running.len()
}

/// A search that is dispatched has sent nothing yet.
proof fn lemma_tie_dispatch(
    weave: Weave,
    stream: Seq<MatchView>,
    running: Seq<Running<'_>>,
    term: Seq<char>,
    fresh: Running<'_>,
)
    requires
        tied(weave, stream, running, term),
        fresh.searcher is None,
        fresh.id@ == weave.order.len(),
    ensures
        tied(weave.dispatched(*fresh.file), stream, running.push(fresh), term),
{
    let after = weave.dispatched(*fresh.file);
    let more = running.push(fresh);
    assert(after.done.drop_last() =~= weave.done);
    assert forall|id: int| 0 <= id < after.order.len() implies #[trigger] picked(
        stream,
        after.origin,
        id,
    ) == after.sent[id] by {
        if id == weave.order.len() {
            lemma_picked_nothing(stream, weave.origin, id);
        }
    }
    assert forall|k: int| 0 <= k < more.len() implies (#[trigger] more[k]).bound(after, term) by {
        if k < running.len() {
            assert(more[k] == running[k]);
            assert(running[k].bound(weave, term));
        } else {
            assert(after.sent[fresh.id@] + fresh.coming(term) =~= fresh.file.matches(term));
        }
    }
    assert forall|j: int, k: int| 0 <= j < k < more.len() implies (#[trigger] more[j]).id@ != (
    #[trigger] more[k]).id@ by {
        assert(running[j].bound(weave, term));
        if k < running.len() {
            assert(more[j] == running[j] && more[k] == running[k]);
        }
    }
}

/// A turn of a search that puts nothing into the conduit and leaves what is
/// to come from it as it was changes nothing in the weave.
proof fn lemma_tie_replace(
    weave: Weave,
    stream: Seq<MatchView>,
    running: Seq<Running<'_>>,
    term: Seq<char>,
    place: int,
    next: Running<'_>,
)
    requires
        tied(weave, stream, running, term),
        0 <= place < running.len(),
        next.id@ == running[place].id@,
        next.file == running[place].file,
        next.coming(term) == running[place].coming(term),
    ensures
        tied(weave, stream, running.update(place, next), term),
{
    let after = running.update(place, next);
    assert forall|k: int| 0 <= k < after.len() implies (#[trigger] after[k]).bound(weave, term) by {
        assert(running[k].bound(weave, term));
    }
    assert forall|j: int, k: int| 0 <= j < k < after.len() implies (#[trigger] after[j]).id@ != (
    #[trigger] after[k]).id@ by {
        assert(running[j].id@ != running[k].id@);
    }
}

/// A match that a search puts into the conduit goes to the end of the
/// stream and to the end of what that search has sent.
proof fn lemma_tie_send(
    weave: Weave,
    stream: Seq<MatchView>,
    running: Seq<Running<'_>>,
    term: Seq<char>,
    place: int,
    next: Running<'_>,
    found: MatchView,
)
    requires
        tied(weave, stream, running, term),
        0 <= place < running.len(),
        next.id@ == running[place].id@,
        next.file == running[place].file,
        seq![found] + next.coming(term) == running[place].coming(term),
    ensures
        tied(
            weave.sent_from(next.id@, found),
            stream.push(found),
            running.update(place, next),
            term,
        ),
{
    let id = next.id@;
    let after = weave.sent_from(id, found);
    let longer = stream.push(found);
    let now = running.update(place, next);
    assert(running[place].bound(weave, term));
    assert forall|other: int| 0 <= other < after.order.len() implies #[trigger] picked(
        longer,
        after.origin,
        other,
    ) == after.sent[other] by {
        lemma_picked_push(stream, weave.origin, found, id, other);
        assert(picked(stream, weave.origin, other) == weave.sent[other]);
    }
    assert forall|k: int| 0 <= k < now.len() implies (#[trigger] now[k]).bound(after, term) by {
        assert(running[k].bound(weave, term));
        if k == place {
            assert(weave.sent[id].push(found) + next.coming(term) =~= weave.sent[id] + (seq![
                found,
            ] + next.coming(term)));
        } else {
            if k < place {
                assert(running[k].id@ != running[place].id@);
            } else {
                assert(running[place].id@ != running[k].id@);
            }
        }
    }
    assert forall|j: int, k: int| 0 <= j < k < now.len() implies (#[trigger] now[j]).id@ != (
    #[trigger] now[k]).id@ by {
        assert(running[j].id@ != running[k].id@);
    }
}

/// A search from which nothing is to come any more has sent all the matches
/// of its file when it ends.
proof fn lemma_tie_finish(
    weave: Weave,
    stream: Seq<MatchView>,
    running: Seq<Running<'_>>,
    term: Seq<char>,
    place: int,
)
    requires
        tied(weave, stream, running, term),
        0 <= place < running.len(),
        running[place].coming(term) == Seq::<MatchView>::empty(),
    ensures
        tied(weave.finished(running[place].id@), stream, running.remove(place), term),
{
    let id = running[place].id@;
    let after = weave.finished(id);
    let fewer = running.remove(place);
    assert(running[place].bound(weave, term));
    lemma_undone_update(weave.done, id);
    assert(weave.sent[id] + Seq::<MatchView>::empty() =~= weave.sent[id]);
    assert forall|other: int|
        0 <= other < after.order.len() && #[trigger] after.done[other] implies after.sent[other]
        == after.order[other].matches(term) by {
        if other != id {
            assert(weave.done[other]);
        }
    }
    assert forall|k: int| 0 <= k < fewer.len() implies (#[trigger] fewer[k]).bound(after, term) by {
        if k < place {
            assert(fewer[k] == running[k]);
            assert(running[k].bound(weave, term));
            assert(running[k].id@ != running[place].id@);
        } else {
            assert(fewer[k] == running[k + 1]);
            assert(running[k + 1].bound(weave, term));
            assert(running[place].id@ != running[k + 1].id@);
        }
    }
    assert forall|j: int, k: int| 0 <= j < k < fewer.len() implies (#[trigger] fewer[j]).id@ != (
    #[trigger] fewer[k]).id@ by {
        let from_j = if j < place { j } else { j + 1 };
        let from_k = if k < place { k } else { k + 1 };
        assert(fewer[j] == running[from_j]);
        assert(fewer[k] == running[from_k]);
        assert(running[from_j].id@ != running[from_k].id@);
    }
}

/// When no search is in flight, the stream is woven from the matches of the
/// files dispatched.
proof fn lemma_tie_closed(weave: Weave, stream: Seq<MatchView>, term: Seq<char>)
    requires
        tied(weave, stream, Seq::empty(), term),
    ensures
        weaves(stream, weave.origin, matches_of_each(weave.order, term)),
{
    lemma_undone_none(weave.done);
    let parts = matches_of_each(weave.order, term);
    assert forall|part: int| 0 <= part < parts.len() implies #[trigger] picked(
        stream,
        weave.origin,
        part,
    ) == parts[part] by {
        assert(weave.done[part]);
    }
}

/// The search as it stands: the traverser, the searches in flight, the
/// conduit, and what has come out so far.
struct Pipeline<'a> {
    root: &'a Directory,
    term: &'a SearchTerm,
    walk: Traverser<Handle<'a>>,
    listing: Option<Listing<'a>>,
    traversing: bool,
    running: Vec<Running<'a>>,
    conduit: Conduit,
    delivered: Vec<MatchResult>,
    diagnostics: Vec<Diagnostic>,
    weave: Ghost<Weave>,
}

impl<'a> Pipeline<'a> {
    /// Every match that has left a searcher, oldest first: those that the
    /// consumer has received, then those still in the conduit.
    spec fn stream(self) -> Seq<MatchView> {
        match_views(self.delivered@) + self.conduit@.queued
    }

    /// The matches under the directory that is being listed.
    spec fn listed_matches(self) -> Multiset<MatchView> {
        match self.listing {
            Some(listing) => listing.directory.matches(self.term@),
            None => Multiset::empty(),
        }
    }

    /// The matches on account of the entries of that directory that the
    /// traverser has looked at.
    spec fn seen_matches(self) -> Multiset<MatchView> {
        match self.listing {
            Some(listing) => entries_matches(
                listing.directory.entries@,
                listing.next as nat,
                self.term@,
            ),
            None => Multiset::empty(),
        }
    }

    /// The diagnostics under the directory that is being listed.
    spec fn listed_diagnostics(self) -> Multiset<DiagnosticView> {
        match self.listing {
            Some(listing) => listing.directory.diagnostics(),
            None => Multiset::empty(),
        }
    }

    /// The diagnostics on account of the entries of that directory that the
    /// traverser has looked at.
    spec fn seen_diagnostics(self) -> Multiset<DiagnosticView> {
        match self.listing {
            Some(listing) => entries_diagnostics(listing.directory.entries@, listing.next as nat),
            None => Multiset::empty(),
        }
    }

    /// The files searched under the directory that is being listed.
    spec fn listed_files(self) -> Multiset<File> {
        match self.listing {
            Some(listing) => listing.directory.searched_files(),
            None => Multiset::empty(),
        }
    }

    /// The files searched on account of the entries of that directory that
    /// the traverser has looked at.
    spec fn seen_files(self) -> Multiset<File> {
        match self.listing {
            Some(listing) => entries_files(listing.directory.entries@, listing.next as nat),
            None => Multiset::empty(),
        }
    }

    /// The files dispatched, those still to be dispatched from pending
    /// directories, and those under the directory that is being listed.
    spec fn files_so_far(self) -> Multiset<File> {
        self.weave@.order.to_multiset().add(pending_files(self.walk.pending())).add(
            self.listed_files(),
        )
    }

    /// A bound on the number of turns that the traverser still takes for the
    /// directory that is being listed, and that are taken on account of the
    /// entries it has not looked at.
    spec fn listing_weight(self) -> int {
        match self.listing {
            Some(listing) => 1 + entries_weight(
                listing.directory.entries@,
                listing.directory.entries@.len(),
            ) - entries_weight(listing.directory.entries@, listing.next as nat),
            None => 0,
        }
    }

    /// A bound on the number of turns that are still taken until the stream
    /// is closed, not counting those in which nothing can be done.
    spec fn measure(self) -> int {
        self.conduit@.queued.len() + running_weight(self.running@) + pending_weight(
            self.walk.pending(),
        ) + self.listing_weight() + if self.traversing {
            1int
        } else {
            0int
        }
    }

    /// Nothing is lost and nothing comes twice: what has come out, what is on
    /// its way and what is still to come add up to what the tree holds.
    spec fn inv(self) -> bool {
        &&& self.conduit@.attended
        &&& self.conduit@.bounded()
        &&& self.conduit@.producers == self.running@.len() + if self.traversing {
            1int
        } else {
            0int
        }
        &&& !self.traversing ==> self.listing is None && self.walk.pending().len() == 0
        &&& self.listing matches Some(listing) ==> listing.next <= listing.directory.entries@.len()
        &&& forall|k: int|
            0 <= k < self.running@.len() ==> (#[trigger] self.running@[k]).sound(self.term@)
        &&& self.stream().to_multiset().add(running_matches(self.running@, self.term@)).add(
            pending_matches(self.walk.pending(), self.term@),
        ).add(self.listed_matches()) == self.root.matches(self.term@).add(self.seen_matches())
        &&& diagnostic_views(self.diagnostics@).to_multiset().add(
            running_diagnostics(self.running@),
        ).add(pending_diagnostics(self.walk.pending())).add(self.listed_diagnostics())
            == self.root.diagnostics().add(self.seen_diagnostics())
        &&& self.files_so_far() == self.root.searched_files().add(self.seen_files())
        &&& tied(self.weave@, self.stream(), self.running@, self.term@)
    }

    /// The stream is closed: the traversal and all searches have ended and
    /// the consumer has taken everything.
    spec fn closed(self) -> bool {
        !self.traversing && self.running@.len() == 0 && self.conduit@.queued.len() == 0
    }

    /// The traverser is about to dispatch a search and the conduit cannot
    /// count another producer.
    spec fn crowded(self) -> bool {
        &&& self.listing matches Some(listing)
        &&& listing.next < listing.directory.entries@.len()
        &&& listing.directory.entries@[listing.next as int].disposition() == Disposition::Search
        &&& self.conduit@.producers >= usize::MAX
    }

    /// Whoever `turn` names can do something with the turn. The traverser can
    /// as long as the traversal has not ended, unless it is to dispatch a
    /// search that the conduit cannot count. A search can if it is in flight,
    /// unless it holds a match and the conduit is full. The consumer can if a
    /// match is on its way.
    spec fn able(self, turn: Turn) -> bool {
        match turn {
            Turn::Traverse => self.traversing && !self.crowded(),
            Turn::Search(place) => place < self.running@.len() && !(self.running@[place as int].held
                is Some && self.conduit@.full()),
            Turn::Consume => self.conduit@.queued.len() > 0,
        }
    }

    /// Nothing that the search consists of differs between the two.
    spec fn same_as(self, other: Pipeline<'a>) -> bool {
        &&& self.walk.pending() == other.walk.pending()
        &&& self.listing == other.listing
        &&& self.traversing == other.traversing
        &&& self.running@ == other.running@
        &&& self.conduit@ == other.conduit@
        &&& self.delivered@ == other.delivered@
        &&& self.diagnostics@ == other.diagnostics@
        &&& self.weave@ == other.weave@
    }

    /// What the consumer has received after `turn`: one more match, the
    /// oldest on its way, if the turn is the consumer's and there is one; else
    /// what it had.
    spec fn received_after(self, turn: Turn) -> Seq<MatchView> {
        if turn is Consume && self.conduit@.queued.len() > 0 {
            match_views(self.delivered@).push(self.conduit@.queued.first())
        } else {
            match_views(self.delivered@)
        }
    }

    /// `later` holds the diagnostics of `self` and at most one more behind
    /// them.
    spec fn reported_on(self, later: Pipeline<'a>) -> bool {
        ||| later.diagnostics@ == self.diagnostics@
        ||| later.diagnostics@.len() == self.diagnostics@.len() + 1
            && later.diagnostics@.drop_last() == self.diagnostics@
    }
}

/// Nothing has nothing in it.
proof fn lemma_nothing<T>()
    ensures
        Seq::<T>::empty().to_multiset() == Multiset::<T>::empty(),
{
    broadcast use vstd::seq_lib::group_to_multiset_ensures;
    broadcast use vstd::multiset::group_multiset_axioms;

    assert(Seq::<T>::empty().to_multiset().len() == 0);
}

impl<'a> Pipeline<'a> {
    /// The search of the tree under `root` before anything has been done: the
    /// root is all that is pending.
    fn new(root: &'a Directory, term: &'a SearchTerm, capacity: usize) -> (pipeline: Pipeline<'a>)
        requires
            capacity >= 1,
        ensures
            pipeline.inv(),
            pipeline.root == root,
            pipeline.term == term,
    {
        let pipeline = Pipeline {
            root,
            term,
            walk: Traverser::new(Handle::Directory(root)),
            listing: None,
            traversing: true,
            running: Vec::new(),
            conduit: Conduit::new(capacity),
            delivered: Vec::new(),
            diagnostics: Vec::new(),
            weave: Ghost(
                Weave {
                    order: Seq::empty(),
                    sent: Seq::empty(),
                    done: Seq::empty(),
                    origin: Seq::empty(),
                },
            ),
        };
        proof {
            let pending = pipeline.walk.pending();
            lemma_nothing::<MatchView>();
            lemma_nothing::<DiagnosticView>();
            lemma_nothing::<File>();
            assert(pending_files(Seq::empty()) == Multiset::<File>::empty());
            lemma_pending_push(Seq::empty(), Handle::Directory(root), term@);
            assert(pending =~= Seq::<Handle<'_>>::empty().push(Handle::Directory(root)));
            assert(pending_matches(Seq::empty(), term@) == Multiset::<MatchView>::empty());
            assert(pending_diagnostics(Seq::empty()) == Multiset::<DiagnosticView>::empty());
            assert(pipeline.stream() =~= Seq::empty());
            assert(diagnostic_views(pipeline.diagnostics@) =~= Seq::empty());
            assert(pipeline.stream().to_multiset().add(
                running_matches(pipeline.running@, term@),
            ).add(pending_matches(pending, term@)).add(pipeline.listed_matches())
                =~= root.matches(term@).add(pipeline.seen_matches()));
            assert(diagnostic_views(pipeline.diagnostics@).to_multiset().add(
                running_diagnostics(pipeline.running@),
            ).add(pending_diagnostics(pending)).add(pipeline.listed_diagnostics())
                =~= root.diagnostics().add(pipeline.seen_diagnostics()));
            assert(pipeline.files_so_far() =~= root.searched_files().add(pipeline.seen_files()));
        }
        pipeline
    }

    /// The consumer asks for a match. Returns whether it got one.
    fn consume(&mut self) -> (progress: bool)
        requires
            old(self).inv(),
        ensures
            final(self).inv(),
            final(self).root == old(self).root,
            final(self).term == old(self).term,
            progress == old(self).able(Turn::Consume),
            progress ==> final(self).measure() < old(self).measure(),
            !progress ==> final(self).same_as(*old(self)),
            match_views(final(self).delivered@) == old(self).received_after(Turn::Consume),
            final(self).diagnostics@ == old(self).diagnostics@,
    {
        let ghost before = self.stream();
        let ghost received = self.delivered@;
        match self.conduit.take() {
            Taken::Item(oldest) => {
                self.delivered.push(oldest);
                assert(match_views(self.delivered@) =~= match_views(received).push(oldest@));
                assert(self.stream() =~= before);
                true
            },
            Taken::Pending => false,
            Taken::Closed => false,
        }
    }
}

/// One match by itself.
proof fn lemma_single<T>(item: T)
    ensures
        seq![item].to_multiset() == Multiset::singleton(item),
{
    broadcast use vstd::seq_lib::group_to_multiset_ensures;

    lemma_nothing::<T>();
    assert(seq![item] =~= Seq::<T>::empty().push(item));
    assert(seq![item].to_multiset() =~= Multiset::singleton(item));
}

/// What is added to both sides of an equation can be taken away again.
proof fn lemma_cancel<T>(left: Multiset<T>, right: Multiset<T>, both: Multiset<T>)
    requires
        left.add(both) == right.add(both),
    ensures
        left == right,
{
    assert forall|item: T| left.count(item) == right.count(item) by {
        vstd::multiset::axiom_multiset_add(left, both, item);
        vstd::multiset::axiom_multiset_add(right, both, item);
    }
    assert(left =~= right);
}

/// The searches in flight are sound if one of them is replaced by a sound
/// one.
proof fn lemma_sound_replaced(
    running: Seq<Running<'_>>,
    place: int,
    next: Running<'_>,
    term: Seq<char>,
)
    requires
        0 <= place < running.len(),
        forall|k: int| 0 <= k < running.len() ==> (#[trigger] running[k]).sound(term),
        next.sound(term),
    ensures
        running.remove(place).insert(place, next) == running.update(place, next),
        forall|k: int|
            0 <= k < running.len() ==> (#[trigger] running.update(place, next)[k]).sound(term),
{
    assert(running.remove(place).insert(place, next) =~= running.update(place, next));
    assert forall|k: int| 0 <= k < running.len() implies (#[trigger] running.update(
        place,
        next,
    )[k]).sound(term) by {
        if k != place {
            assert(running[k].sound(term));
        }
    }
}

/// The searches in flight are sound if one of them leaves.
proof fn lemma_sound_removed(running: Seq<Running<'_>>, place: int, term: Seq<char>)
    requires
        0 <= place < running.len(),
        forall|k: int| 0 <= k < running.len() ==> (#[trigger] running[k]).sound(term),
    ensures
        forall|k: int|
            0 <= k < running.len() - 1 ==> (#[trigger] running.remove(place)[k]).sound(term),
{
    assert forall|k: int| 0 <= k < running.len() - 1 implies (#[trigger] running.remove(
        place,
    )[k]).sound(term) by {
        if k < place {
            assert(running[k].sound(term));
        } else {
            assert(running[k + 1].sound(term));
        }
    }
}

impl<'a> Pipeline<'a> {
    /// The matches that have come out or are on their way, and those still to
    /// come from the searches in flight, from pending directories and from
    /// the directory that is being listed.
    spec fn matches_so_far(self) -> Multiset<MatchView> {
        self.stream().to_multiset().add(running_matches(self.running@, self.term@)).add(
            pending_matches(self.walk.pending(), self.term@),
        ).add(self.listed_matches())
    }

    /// The diagnostics that have arisen, and those still to come from the
    /// searches in flight, from pending directories and from the directory
    /// that is being listed.
    spec fn diagnostics_so_far(self) -> Multiset<DiagnosticView> {
        diagnostic_views(self.diagnostics@).to_multiset().add(
            running_diagnostics(self.running@),
        ).add(pending_diagnostics(self.walk.pending())).add(self.listed_diagnostics())
    }

    /// The search at `place` among those in flight takes its turn: it opens
    /// its file, or offers the match it holds, or reads one more line and
    /// offers it if it matches. A search that has come to the end of its file
    /// leaves. Returns whether anything was done: nothing is if there is no
    /// such search, or if it holds a match and the conduit is full.
    fn advance(&mut self, place: usize) -> (progress: bool)
        requires
            old(self).inv(),
        ensures
            final(self).inv(),
            final(self).root == old(self).root,
            final(self).term == old(self).term,
            progress == old(self).able(Turn::Search(place)),
            progress ==> final(self).measure() < old(self).measure(),
            !progress ==> final(self).same_as(*old(self)),
            final(self).delivered@ == old(self).delivered@,
            old(self).reported_on(*final(self)),
    {
        if place >= self.running.len() {
            return false;
        }
        broadcast use vstd::seq_lib::group_to_multiset_ensures;

        let ghost term = self.term@;
        let ghost all = self.running@;
        let ghost others = all.remove(place as int);
        let ghost sent = self.stream();
        let ghost reported = diagnostic_views(self.diagnostics@);
        let ghost noted = self.diagnostics@;
        let ghost this = all[place as int];
        let ghost weave = self.weave@;
        let ghost matches_before = self.matches_so_far();
        let ghost diagnostics_before = self.diagnostics_so_far();
        let Running { file, searcher, next, held, id } = self.running.remove(place);
        let ghost location = file.location@;
        let ghost rest = file_matches(location, file.reads@.skip(next as int), term);
        let ghost later = file_matches(location, file.reads@.skip(next + 1), term);
        proof {
            lemma_running_remove(all, place as int, term);
            lemma_reads_from(location, file.reads@, next as int, term);
            assert(this.sound(term));
        }
        match searcher {
            None => {
                let opened: Result<(), String> = match &file.unopenable {
                    Some(cause) => Err(cause.clone()),
                    None => Ok(()),
                };
                match FileSearcher::start(file.location.clone(), self.term, opened) {
                    Ok(started) => {
                        let opened = Running {
                            file,
                            searcher: Some(started),
                            next: 0,
                            held: None,
                            id,
                        };
                        proof {
                            assert(file.reads@.skip(0) =~= file.reads@);
                            assert(opened.coming(term) =~= this.coming(term));
                            lemma_running_insert(others, place as int, opened, term);
                            lemma_sound_replaced(all, place as int, opened, term);
                            lemma_tie_replace(weave, sent, all, term, place as int, opened);
                        }
                        self.running.insert(place, opened);
                    },
                    Err(diagnostic) => {
                        proof {
                            lemma_nothing::<MatchView>();
                            assert(this.coming(term) =~= Seq::empty());
                            lemma_sound_removed(all, place as int, term);
                            lemma_tie_finish(weave, sent, all, term, place as int);
                        }
                        self.diagnostics.push(diagnostic);
                        assert(self.diagnostics@.drop_last() =~= noted);
                        self.conduit.detach();
                        self.weave = Ghost(weave.finished(id@));
                        assert(diagnostic_views(self.diagnostics@) =~= reported.push(diagnostic@));
                    },
                }
                proof {
                    assert(self.matches_so_far() =~= matches_before);
                    assert(self.diagnostics_so_far() =~= diagnostics_before);
                }
                true
            },
            Some(current) => {
                let mut current = current;
                match held {
                    Some(found) => {
                        proof {
                            lemma_single(found@);
                            lemma_multiset_commutative(seq![found@], rest);
                        }
                        match self.conduit.offer(found) {
                            Offer::Accepted => {
                                current.on_delivery(true);
                                let freed = Running {
                                    file,
                                    searcher: Some(current),
                                    next,
                                    held: None,
                                    id,
                                };
                                proof {
                                    assert(freed.coming(term) =~= rest);
                                    lemma_running_insert(others, place as int, freed, term);
                                    lemma_sound_replaced(all, place as int, freed, term);
                                    lemma_tie_send(
                                        weave,
                                        sent,
                                        all,
                                        term,
                                        place as int,
                                        freed,
                                        found@,
                                    );
                                    assert(self.stream() =~= sent.push(found@));
                                }
                                self.running.insert(place, freed);
                                self.weave = Ghost(weave.sent_from(id@, found@));
                                proof {
                                    assert(self.matches_so_far() =~= matches_before);
                                }
                                true
                            },
                            // The consumer of this search never leaves, so
                            // a match that comes back found the conduit full.
                            Offer::Full(back) | Offer::Severed(back) => {
                                self.running.insert(
                                    place,
                                    Running {
                                        file,
                                        searcher: Some(current),
                                        next,
                                        held: Some(back),
                                        id,
                                    },
                                );
                                assert(self.running@ =~= all);
                                false
                            },
                        }
                    },
                    None => {
                        assert(this.coming(term) =~= rest);
                        let step = if next < file.reads.len() {
                            current.on_read(&file.reads[next])
                        } else {
                            current.on_read(&ReadOutcome::EndOfFile)
                        };
                        match step {
                            Step::Continue => {
                                let read = Running {
                                    file,
                                    searcher: Some(current),
                                    next: next + 1,
                                    held: None,
                                    id,
                                };
                                proof {
                                    assert(read.coming(term) =~= later);
                                    lemma_running_insert(others, place as int, read, term);
                                    lemma_sound_replaced(all, place as int, read, term);
                                    lemma_tie_replace(weave, sent, all, term, place as int, read);
                                }
                                self.running.insert(place, read);
                            },
                            Step::Deliver(found) => {
                                proof {
                                    lemma_single(found@);
                                    lemma_multiset_commutative(seq![found@], later);
                                }
                                match self.conduit.offer(found) {
                                    Offer::Accepted => {
                                        current.on_delivery(true);
                                        let read = Running {
                                            file,
                                            searcher: Some(current),
                                            next: next + 1,
                                            held: None,
                                            id,
                                        };
                                        proof {
                                            assert(read.coming(term) =~= later);
                                            lemma_running_insert(others, place as int, read, term);
                                            lemma_sound_replaced(all, place as int, read, term);
                                            lemma_tie_send(
                                                weave,
                                                sent,
                                                all,
                                                term,
                                                place as int,
                                                read,
                                                found@,
                                            );
                                            assert(self.stream() =~= sent.push(found@));
                                        }
                                        self.running.insert(place, read);
                                        self.weave = Ghost(weave.sent_from(id@, found@));
                                    },
                                    Offer::Full(back) | Offer::Severed(back) => {
                                        let waiting = Running {
                                            file,
                                            searcher: Some(current),
                                            next: next + 1,
                                            held: Some(back),
                                            id,
                                        };
                                        proof {
                                            assert(waiting.coming(term) =~= seq![found@] + later);
                                            lemma_running_insert(
                                                others,
                                                place as int,
                                                waiting,
                                                term,
                                            );
                                            lemma_sound_replaced(all, place as int, waiting, term);
                                            lemma_tie_replace(
                                                weave,
                                                sent,
                                                all,
                                                term,
                                                place as int,
                                                waiting,
                                            );
                                        }
                                        self.running.insert(place, waiting);
                                    },
                                }
                            },
                            Step::Report(diagnostic) => {
                                proof {
                                    lemma_nothing::<MatchView>();
                                    lemma_sound_removed(all, place as int, term);
                                    lemma_tie_finish(weave, sent, all, term, place as int);
                                }
                                self.diagnostics.push(diagnostic);
                                assert(self.diagnostics@.drop_last() =~= noted);
                                self.conduit.detach();
                                self.weave = Ghost(weave.finished(id@));
                                assert(diagnostic_views(self.diagnostics@) =~= reported.push(
                                    diagnostic@,
                                ));
                            },
                            Step::Stop => {
                                proof {
                                    lemma_nothing::<MatchView>();
                                    lemma_sound_removed(all, place as int, term);
                                    lemma_tie_finish(weave, sent, all, term, place as int);
                                }
                                self.conduit.detach();
                                self.weave = Ghost(weave.finished(id@));
                            },
                        }
                        proof {
                            assert(self.matches_so_far() =~= matches_before);
                            assert(self.diagnostics_so_far() =~= diagnostics_before);
                        }
                        true
                    },
                }
            },
        }
    }

    /// The traverser takes its turn: it shows the next entry of the directory
    /// it is listing to the walk, and dispatches a search if a file comes
    /// back; or it ends that listing, with a diagnostic if the listing
    /// failed; or it starts on the next pending directory; or, with nothing
    /// pending, it ends. Returns whether anything was done: nothing is if the
    /// traversal has ended, or if no further search can be dispatched.
    fn traverse(&mut self) -> (progress: bool)
        requires
            old(self).inv(),
        ensures
            final(self).inv(),
            final(self).root == old(self).root,
            final(self).term == old(self).term,
            progress == old(self).able(Turn::Traverse),
            progress ==> final(self).measure() < old(self).measure(),
            !progress ==> final(self).same_as(*old(self)),
            final(self).delivered@ == old(self).delivered@,
            old(self).reported_on(*final(self)),
    {
        if !self.traversing {
            return false;
        }
        broadcast use vstd::seq_lib::group_to_multiset_ensures;

        let ghost term = self.term@;
        let ghost waiting = self.walk.pending();
        let ghost flying = self.running@;
        let ghost reported = diagnostic_views(self.diagnostics@);
        let ghost noted = self.diagnostics@;
        let ghost weave = self.weave@;
        let ghost matches_before = self.matches_so_far();
        let ghost diagnostics_before = self.diagnostics_so_far();
        let ghost files_before = self.files_so_far();
        let ghost matches_seen = self.seen_matches();
        let ghost diagnostics_seen = self.seen_diagnostics();
        let ghost files_seen = self.seen_files();
        let ghost all = self.root.matches(term);
        let ghost all_diagnostics = self.root.diagnostics();
        let ghost all_files = self.root.searched_files();
        assert(matches_before == all.add(matches_seen));
        assert(diagnostics_before == all_diagnostics.add(diagnostics_seen));
        assert(files_before == all_files.add(files_seen));
        match self.listing.take() {
            Some(listing) => {
                let Listing { directory, next } = listing;
                let ghost entries = directory.entries@;
                if next < directory.entries.len() {
                    let entry = &directory.entries[next];
                    let name: Option<&str> = match &entry.name {
                        Some(name) => Some(name.as_str()),
                        None => None,
                    };
                    let found = match &entry.node {
                        Node::File(file) => self.walk.visit(
                            Handle::File(file),
                            EntryKind::File,
                            name,
                        ),
                        Node::Directory(inner) => self.walk.visit(
                            Handle::Directory(inner),
                            EntryKind::Directory,
                            name,
                        ),
                        Node::Other => self.walk.visit(Handle::Other, EntryKind::Other, name),
                    };
                    let ghost own = entry.matches(term);
                    let ghost own_diagnostics = entry.diagnostics();
                    let ghost own_files = entry.searched_files();
                    proof {
                        if entry.disposition() == Disposition::Descend {
                            lemma_pending_push(
                                waiting,
                                Handle::Directory(&entry.node->Directory_0),
                                term,
                            );
                        }
                        assert(entries_matches(entries, (next + 1) as nat, term)
                            == matches_seen.add(own));
                        assert(entries_diagnostics(entries, (next + 1) as nat)
                            == diagnostics_seen.add(own_diagnostics));
                        assert(entries_files(entries, (next + 1) as nat) == files_seen.add(
                            own_files,
                        ));
                        assert(entries_weight(entries, (next + 1) as nat) == entries_weight(
                            entries,
                            next as nat,
                        ) + 1 + entry_weight(*entry));
                        assert(all.add(matches_seen).add(own) =~= all.add(matches_seen.add(own)));
                        assert(all_diagnostics.add(diagnostics_seen).add(own_diagnostics)
                            =~= all_diagnostics.add(diagnostics_seen.add(own_diagnostics)));
                        assert(all_files.add(files_seen).add(own_files) =~= all_files.add(
                            files_seen.add(own_files),
                        ));
                    }
                    match found {
                        Some(Handle::File(file)) => {
                            if self.conduit.attach() {
                                let fresh = Running {
                                    file,
                                    searcher: None,
                                    next: 0,
                                    held: None,
                                    id: Ghost(weave.order.len() as int),
                                };
                                proof {
                                    lemma_running_push(flying, fresh, term);
                                    lemma_tie_dispatch(weave, self.stream(), flying, term, fresh);
                                }
                                self.running.push(fresh);
                                self.listing = Some(Listing { directory, next: next + 1 });
                                self.weave = Ghost(weave.dispatched(*file));
                                proof {
                                    assert(self.matches_so_far() =~= matches_before.add(own));
                                    assert(self.diagnostics_so_far() =~= diagnostics_before.add(
                                        own_diagnostics,
                                    ));
                                    assert(self.files_so_far() =~= files_before.add(own_files));
                                }
                                true
                            } else {
                                self.listing = Some(Listing { directory, next });
                                false
                            }
                        },
                        _ => {
                            self.listing = Some(Listing { directory, next: next + 1 });
                            proof {
                                assert(self.matches_so_far() =~= matches_before.add(own));
                                assert(self.diagnostics_so_far() =~= diagnostics_before.add(
                                    own_diagnostics,
                                ));
                                assert(self.files_so_far() =~= files_before.add(own_files));
                            }
                            true
                        },
                    }
                } else {
                    let ghost own = optional(directory.diagnostic());
                    match &directory.failure {
                        Some(cause) => {
                            let diagnostic = Diagnostic::DirectoryRead {
                                path: directory.location.clone(),
                                cause: cause.clone(),
                            };
                            let ghost content = diagnostic@;
                            self.diagnostics.push(diagnostic);
                            assert(self.diagnostics@.drop_last() =~= noted);
                            proof {
                                assert(diagnostic_views(self.diagnostics@) =~= reported.push(
                                    content,
                                ));
                                assert(directory.diagnostic() == Some(content));
                            }
                        },
                        None => {},
                    }
                    proof {
                        assert(directory.matches(term) == matches_seen);
                        assert(directory.diagnostics() == diagnostics_seen.add(own));
                        assert(directory.searched_files() == files_seen);
                        assert(diagnostic_views(self.diagnostics@).to_multiset()
                            =~= reported.to_multiset().add(own));
                        assert(self.matches_so_far().add(matches_seen) =~= matches_before);
                        lemma_cancel(self.matches_so_far(), all, matches_seen);
                        assert(self.diagnostics_so_far().add(diagnostics_seen)
                            =~= diagnostics_before);
                        lemma_cancel(self.diagnostics_so_far(), all_diagnostics, diagnostics_seen);
                        assert(self.files_so_far().add(files_seen) =~= files_before);
                        lemma_cancel(self.files_so_far(), all_files, files_seen);
                        assert(all.add(self.seen_matches()) =~= all);
                        assert(all_diagnostics.add(self.seen_diagnostics()) =~= all_diagnostics);
                        assert(all_files.add(self.seen_files()) =~= all_files);
                    }
                    true
                }
            },
            None => {
                match self.walk.next_directory() {
                    Some(Handle::Directory(directory)) => {
                        self.listing = Some(Listing { directory, next: 0 });
                        proof {
                            assert(entries_matches(directory.entries@, 0, term)
                                == Multiset::<MatchView>::empty());
                            assert(entries_diagnostics(directory.entries@, 0)
                                == Multiset::<DiagnosticView>::empty());
                            assert(entries_files(directory.entries@, 0) == Multiset::<
                                File,
                            >::empty());
                            assert(entries_weight(directory.entries@, 0) == 0);
                            assert(self.matches_so_far() =~= matches_before);
                            assert(self.diagnostics_so_far() =~= diagnostics_before);
                            assert(self.files_so_far() =~= files_before);
                        }
                        true
                    },
                    Some(_) => {
                        proof {
                            assert(self.matches_so_far() =~= matches_before);
                            assert(self.diagnostics_so_far() =~= diagnostics_before);
                            assert(self.files_so_far() =~= files_before);
                        }
                        true
                    },
                    None => {
                        self.traversing = false;
                        self.conduit.detach();
                        true
                    },
                }
            },
        }
    }

    /// The measure is never negative.
    proof fn lemma_measure_bounded(self)
        requires
            self.inv(),
        ensures
            self.measure() >= 0,
    {
        if let Some(listing) = self.listing {
            lemma_entries_weight_grows(
                listing.directory.entries@,
                listing.next as nat,
                listing.directory.entries@.len(),
            );
        }
    }

    /// Once the stream is closed, what has come out is all that the tree
    /// holds, and the matches of each file stand in the order of its lines.
    proof fn lemma_closed_is_complete(self)
        requires
            self.inv(),
            self.closed(),
        ensures
            match_views(self.delivered@).to_multiset() == self.root.matches(self.term@),
            in_line_order(match_views(self.delivered@), *self.root, self.term@),
            diagnostic_views(self.diagnostics@).to_multiset() == self.root.diagnostics(),
    {
        let term = self.term@;
        let weave = self.weave@;
        assert(self.stream() =~= match_views(self.delivered@));
        assert(self.matches_so_far() =~= match_views(self.delivered@).to_multiset());
        assert(self.diagnostics_so_far() =~= diagnostic_views(self.diagnostics@).to_multiset());
        assert(self.files_so_far() =~= weave.order.to_multiset());
        assert(self.root.matches(term).add(self.seen_matches()) =~= self.root.matches(term));
        assert(self.root.diagnostics().add(self.seen_diagnostics()) =~= self.root.diagnostics());
        assert(self.root.searched_files().add(self.seen_files()) =~= self.root.searched_files());
        assert(self.running@ =~= Seq::empty());
        lemma_tie_closed(weave, self.stream(), term);
        assert(weaves(
            match_views(self.delivered@),
            weave.origin,
            matches_of_each(weave.order, term),
        ));
        assert(woven(match_views(self.delivered@), matches_of_each(weave.order, term)));
    }

    /// Gives the turn to whom `turn` names, and returns whether anything was
    /// done with it. A turn with which something can be done brings the end
    /// of the search nearer; one with which nothing can be done leaves
    /// everything as it was. Only a turn of the consumer lets a match come
    /// out, and each turn gives rise to at most one diagnostic.
    fn take_turn(&mut self, turn: Turn) -> (progress: bool)
        requires
            old(self).inv(),
        ensures
            final(self).inv(),
            final(self).root == old(self).root,
            final(self).term == old(self).term,
            progress == old(self).able(turn),
            progress ==> final(self).measure() < old(self).measure(),
            !progress ==> final(self).same_as(*old(self)),
            match_views(final(self).delivered@) == old(self).received_after(turn),
            old(self).reported_on(*final(self)),
    {
        match turn {
            Turn::Traverse => self.traverse(),
            Turn::Search(place) => self.advance(place),
            Turn::Consume => self.consume(),
        }
    }

    /// Gives turns until the stream is closed: to the consumer while the
    /// conduit holds a match, else to a search in flight, else to the
    /// traverser. Each of these turns gets something done.
    fn settle(&mut self)
        requires
            old(self).inv(),
        ensures
            final(self).inv(),
            final(self).closed(),
            final(self).root == old(self).root,
            final(self).term == old(self).term,
    {
        loop
            invariant_except_break
                self.inv(),
                self.root == old(self).root,
                self.term == old(self).term,
            ensures
                self.inv(),
                self.closed(),
                self.root == old(self).root,
                self.term == old(self).term,
            decreases self.measure(),
        {
            proof {
                self.lemma_measure_bounded();
            }
            if self.conduit.len() > 0 {
                self.take_turn(Turn::Consume);
            } else if self.running.len() > 0 {
                self.take_turn(Turn::Search(0));
            } else if self.traversing {
                self.take_turn(Turn::Traverse);
            } else {
                break ;
            }
            proof {
                self.lemma_measure_bounded();
            }
        }
    }
}

/// Searches the tree under `root` for `term`, with a conduit that holds at
/// most `capacity` matches, giving the traverser, the searches in flight and
/// the consumer their turns in the order of `turns`, and, when `turns` is
/// used up, in an order that ends the search.
///
/// Whatever the turns and the capacity, the report holds exactly the matches
/// and the diagnostics that the tree has for the term, and the matches of
/// each file arrive in the order of its lines.
pub fn search_in_turns(
    root: &Directory,
    term: &SearchTerm,
    capacity: usize,
    turns: &Vec<Turn>,
) -> (report: Report)
    requires
        capacity >= 1,
    ensures
        match_views(report.matches@).to_multiset() == root.matches(term@),
        in_line_order(match_views(report.matches@), *root, term@),
        forall|i: int|
            0 <= i < report.matches@.len() ==> contains_term(
                (#[trigger] report.matches@[i]).line@,
                term@,
            ),
        diagnostic_views(report.diagnostics@).to_multiset() == root.diagnostics(),
{
    let mut pipeline = Pipeline::new(root, term, capacity);
    let mut next: usize = 0;
    while next < turns.len()
        invariant
            pipeline.inv(),
            pipeline.root == root,
            pipeline.term == term,
        decreases turns.len() - next,
    {
        pipeline.take_turn(turns[next]);
        next += 1;
    }
    pipeline.settle();
    proof {
        broadcast use vstd::seq_lib::group_to_multiset_ensures;

        pipeline.lemma_closed_is_complete();
        let received = match_views(pipeline.delivered@);
        assert forall|i: int| 0 <= i < pipeline.delivered@.len() implies contains_term(
            (#[trigger] pipeline.delivered@[i]).line@,
            term@,
        ) by {
            assert(received[i] == pipeline.delivered@[i]@);
            assert(received.contains(received[i]));
            lemma_matches_hold_term(*root, term@, received[i]);
        }
    }
    Report { matches: pipeline.delivered, diagnostics: pipeline.diagnostics }
}

/// Searches the tree under `root` for `term`, with a conduit of the default
/// capacity.
///
/// The report holds exactly the matches and the diagnostics that the tree
/// has for the term: every readable line that contains the term, in every
/// file that the walk reaches, is reported once, nothing else is, and the
/// matches of each file arrive in the order of its lines.
pub fn search(root: &Directory, term: &SearchTerm) -> (report: Report)
    ensures
        match_views(report.matches@).to_multiset() == root.matches(term@),
        in_line_order(match_views(report.matches@), *root, term@),
        forall|i: int|
            0 <= i < report.matches@.len() ==> contains_term(
                (#[trigger] report.matches@[i]).line@,
                term@,
            ),
        diagnostic_views(report.diagnostics@).to_multiset() == root.diagnostics(),
{
    let turns: Vec<Turn> = Vec::new();
    search_in_turns(root, term, DEFAULT_CAPACITY, &turns)
}

} // verus!
