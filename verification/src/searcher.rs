//! The file searcher: what is done with each thing read from one file.
//!
//! A [`FileSearcher`] does no reading itself. Its caller opens the file, reads
//! it line by line, and tells the searcher what came of each attempt; the
//! searcher answers with the next thing to do. [`scan`] runs a searcher over
//! reads that are already at hand.

use vstd::prelude::*;
use crate::report::{Diagnostic, DiagnosticView};
use crate::text::{contains_term, SearchTerm};

verus! {

/// One reported match: where it was found, and the whole matching line.
#[derive(Debug, PartialEq, Eq)]
pub struct MatchResult {
    pub location: String,
    pub line: String,
}

/// The mathematical content of a [`MatchResult`].
pub struct MatchView {
    pub location: Seq<char>,
    pub line: Seq<char>,
}

impl View for MatchResult {
    type V = MatchView;

    open spec fn view(&self) -> MatchView {
        MatchView { location: self.location@, line: self.line@ }
    }
}

/// What one attempt to read the next line of a file came to.
#[derive(Debug, PartialEq, Eq)]
pub enum ReadOutcome {
    /// A line of text, without its line ending.
    Line(String),
    /// The file has no more lines.
    EndOfFile,
    /// What was read is not text.
    InvalidData,
    /// Reading failed for the given cause.
    Failed(String),
}

/// What the caller of a [`FileSearcher`] does next.
#[derive(Debug, PartialEq, Eq)]
pub enum Step {
    /// Read the next line.
    Continue,
    /// Hand the match to the consumer of the results, tell the searcher
    /// whether that worked, and, if it did, read the next line.
    Deliver(MatchResult),
    /// Write the diagnostic and stop reading this file.
    Report(Diagnostic),
    /// Stop reading this file.
    Stop,
}

/// The mathematical content of a [`Step`].
pub enum StepView {
    Continue,
    Deliver(MatchView),
    Report(DiagnosticView),
    Stop,
}

impl View for Step {
    type V = StepView;

    open spec fn view(&self) -> StepView {
        match self {
            Step::Continue => StepView::Continue,
            Step::Deliver(found) => StepView::Deliver(found@),
            Step::Report(diagnostic) => StepView::Report(diagnostic@),
            Step::Stop => StepView::Stop,
        }
    }
}

/// The answer to `outcome` of a searcher for `term` in the file at
/// `location`, and whether the searcher goes on afterwards.
///
/// A line that contains the term is delivered, once, however often the term
/// occurs in it. Data that is not text ends the file without a word: such
/// files are expected. Any other failure ends the file with a diagnostic. A
/// searcher that has stopped answers `Stop` to everything.
pub open spec fn step_of(
    location: Seq<char>,
    term: Seq<char>,
    active: bool,
    outcome: ReadOutcome,
) -> (StepView, bool) {
    if !active {
        (StepView::Stop, false)
    } else {
        match outcome {
            ReadOutcome::Line(line) => if contains_term(line@, term) {
                (StepView::Deliver(MatchView { location, line: line@ }), true)
            } else {
                (StepView::Continue, true)
            },
            ReadOutcome::EndOfFile => (StepView::Stop, false),
            ReadOutcome::InvalidData => (StepView::Stop, false),
            ReadOutcome::Failed(cause) => (
                StepView::Report(DiagnosticView::FileRead { path: location, cause: cause@ }),
                false,
            ),
        }
    }
}

/// The number of reads before the first one that is not a line of text.
pub open spec fn readable_len(reads: Seq<ReadOutcome>) -> nat
    decreases reads.len(),
{
    if reads.len() > 0 && reads[0] is Line {
        1 + readable_len(reads.drop_first())
    } else {
        0
    }
}

/// The text of the first `count` reads.
pub open spec fn leading_lines(reads: Seq<ReadOutcome>, count: nat) -> Seq<Seq<char>> {
    Seq::new(count, |i: int| reads[i]->Line_0@)
}

/// The lines that a searcher gets to see: those before the end of the file,
/// or before the read that fails or is not text.
pub open spec fn readable_lines(reads: Seq<ReadOutcome>) -> Seq<Seq<char>> {
    leading_lines(reads, readable_len(reads))
}

/// The lines among `lines` that contain `term`, in their order.
pub open spec fn matching_lines(lines: Seq<Seq<char>>, term: Seq<char>) -> Seq<Seq<char>> {
    lines.filter(|line: Seq<char>| contains_term(line, term))
}

/// Each of `lines` as a match found at `location`.
pub open spec fn located(location: Seq<char>, lines: Seq<Seq<char>>) -> Seq<MatchView> {
    lines.map_values(|line: Seq<char>| MatchView { location, line })
}

/// The matches of a file whose successive reads are `reads`: one for each
/// readable line that contains the term, in the order of the lines.
pub open spec fn file_matches(location: Seq<char>, reads: Seq<ReadOutcome>, term: Seq<char>) -> Seq<
    MatchView,
> {
    located(location, matching_lines(readable_lines(reads), term))
}

/// The diagnostic that reading such a file ends with, if any: there is one
/// exactly if the first read that is not a line is a failure.
pub open spec fn read_failure(location: Seq<char>, reads: Seq<ReadOutcome>) -> Option<
    DiagnosticView,
> {
    let stopped = readable_len(reads) as int;
    if stopped < reads.len() && reads[stopped] is Failed {
        Some(DiagnosticView::FileRead { path: location, cause: reads[stopped]->Failed_0@ })
    } else {
        None
    }
}

/// The contents of a sequence of matches.
pub open spec fn match_views(matches: Seq<MatchResult>) -> Seq<MatchView> {
    matches.map_values(|found: MatchResult| found@)
}

/// `count` is the readable length of `reads` if the reads before it are all
/// lines and the one at it, if there is one, is not.
pub proof fn lemma_readable_len(reads: Seq<ReadOutcome>, count: nat)
    requires
        count <= reads.len(),
        forall|i: int| 0 <= i < count ==> reads[i] is Line,
        count < reads.len() ==> !(reads[count as int] is Line),
    ensures
        readable_len(reads) == count,
    decreases count,
{
    if count > 0 {
        let rest = reads.drop_first();
        assert forall|i: int| 0 <= i < count - 1 implies rest[i] is Line by {
            assert(rest[i] == reads[i + 1]);
        }
        lemma_readable_len(rest, (count - 1) as nat);
    }
}

/// The reads before the readable length are lines, and the read at it, if
/// there is one, is not.
pub proof fn lemma_readable_len_bounds(reads: Seq<ReadOutcome>)
    ensures
        readable_len(reads) <= reads.len(),
        forall|i: int| 0 <= i < readable_len(reads) ==> reads[i] is Line,
        readable_len(reads) < reads.len() ==> !(reads[readable_len(reads) as int] is Line),
    decreases reads.len(),
{
    if reads.len() > 0 && reads[0] is Line {
        let rest = reads.drop_first();
        lemma_readable_len_bounds(rest);
        assert forall|i: int| 0 <= i < readable_len(reads) implies reads[i] is Line by {
            if i > 0 {
                assert(rest[i - 1] == reads[i]);
            }
        }
        if readable_len(reads) < reads.len() {
            assert(rest[readable_len(rest) as int] == reads[readable_len(reads) as int]);
        }
    }
}

/// One more line at the end adds one match at the end if it contains the
/// term, and nothing otherwise.
pub proof fn lemma_matching_lines_push(lines: Seq<Seq<char>>, line: Seq<char>, term: Seq<char>)
    ensures
        matching_lines(lines.push(line), term) == if contains_term(line, term) {
            matching_lines(lines, term).push(line)
        } else {
            matching_lines(lines, term)
        },
{
    reveal(Seq::filter);
    assert(lines.push(line).drop_last() =~= lines);
}

/// Every match of a file carries the file's location and a line that
/// contains the term: nothing is reported that does not match.
pub proof fn lemma_file_matches_hold_term(
    location: Seq<char>,
    reads: Seq<ReadOutcome>,
    term: Seq<char>,
    index: int,
)
    requires
        0 <= index < file_matches(location, reads, term).len(),
    ensures
        file_matches(location, reads, term)[index].location == location,
        contains_term(file_matches(location, reads, term)[index].line, term),
{
    let lines = readable_lines(reads);
    let holds = |line: Seq<char>| contains_term(line, term);
    lines.lemma_filter_pred(holds, index);
}

/// Every readable line that contains the term is among the matches of the
/// file, with the file's location.
pub proof fn lemma_file_matches_hold_line(
    location: Seq<char>,
    reads: Seq<ReadOutcome>,
    term: Seq<char>,
    index: int,
)
    requires
        0 <= index < readable_len(reads),
        contains_term(reads[index]->Line_0@, term),
    ensures
        file_matches(location, reads, term).contains(
            MatchView { location, line: reads[index]->Line_0@ },
        ),
{
    let lines = readable_lines(reads);
    let holds = |line: Seq<char>| contains_term(line, term);
    let kept = matching_lines(lines, term);
    assert(lines[index] == reads[index]->Line_0@);
    lines.lemma_filter_contains(holds, index);
    let at = choose|at: int| 0 <= at < kept.len() && kept[at] == lines[index];
    assert(file_matches(location, reads, term)[at] == MatchView { location, line: lines[index] });
}

/// A file of which some part is not text is searched up to that part, and
/// no diagnostic arises from it. If its very first read is not text, it has
/// no match.
pub proof fn lemma_invalid_data_is_silent(
    location: Seq<char>,
    reads: Seq<ReadOutcome>,
    term: Seq<char>,
    stopped: nat,
)
    requires
        stopped < reads.len(),
        forall|i: int| 0 <= i < stopped ==> reads[i] is Line,
        reads[stopped as int] is InvalidData,
    ensures
        read_failure(location, reads) is None,
        file_matches(location, reads, term) == located(
            location,
            matching_lines(leading_lines(reads, stopped), term),
        ),
        stopped == 0 ==> file_matches(location, reads, term).len() == 0,
{
    lemma_readable_len(reads, stopped);
    if stopped == 0 {
        assert(leading_lines(reads, 0) =~= Seq::<Seq<char>>::empty());
        reveal(Seq::filter);
    }
}

/// What a file has from its read `from` on, given what that read is: a line
/// adds itself, if it contains the term, to what comes after it; anything
/// else ends the file, with a diagnostic if it is a failure.
pub proof fn lemma_reads_from(
    location: Seq<char>,
    reads: Seq<ReadOutcome>,
    from: int,
    term: Seq<char>,
)
    requires
        0 <= from <= reads.len(),
    ensures
        from < reads.len() && reads[from] is Line ==> {
            &&& file_matches(location, reads.skip(from), term) == if contains_term(
                reads[from]->Line_0@,
                term,
            ) {
                seq![MatchView { location, line: reads[from]->Line_0@ }] + file_matches(
                    location,
                    reads.skip(from + 1),
                    term,
                )
            } else {
                file_matches(location, reads.skip(from + 1), term)
            }
            &&& read_failure(location, reads.skip(from)) == read_failure(
                location,
                reads.skip(from + 1),
            )
        },
        from == reads.len() || !(reads[from] is Line) ==> file_matches(
            location,
            reads.skip(from),
            term,
        ) == Seq::<MatchView>::empty(),
        from == reads.len() || !(reads[from] is Line || reads[from] is Failed) ==> read_failure(
            location,
            reads.skip(from),
        ) is None,
        from < reads.len() && reads[from] is Failed ==> read_failure(location, reads.skip(from))
            == Some(DiagnosticView::FileRead { path: location, cause: reads[from]->Failed_0@ }),
{
    let rest = reads.skip(from);
    let holds = |line: Seq<char>| contains_term(line, term);
    if from < reads.len() && reads[from] is Line {
        let line = reads[from]->Line_0@;
        let after = reads.skip(from + 1);
        assert(rest.drop_first() =~= after);
        assert(rest[0] == reads[from]);
        assert(readable_len(rest) == 1 + readable_len(after));
        lemma_readable_len_bounds(rest);
        lemma_readable_len_bounds(after);
        assert(readable_lines(rest) =~= seq![line] + readable_lines(after));
        Seq::filter_distributes_over_add(seq![line], readable_lines(after), holds);
        assert(seq![line].filter(holds) =~= if contains_term(line, term) {
            seq![line]
        } else {
            Seq::empty()
        }) by {
            reveal_with_fuel(Seq::filter, 2);
            assert(seq![line].drop_last() =~= Seq::<Seq<char>>::empty());
        }
        if contains_term(line, term) {
            assert(file_matches(location, rest, term) =~= seq![MatchView { location, line }]
                + file_matches(location, after, term));
        } else {
            assert(seq![line].filter(holds) + readable_lines(after).filter(holds)
                =~= readable_lines(after).filter(holds));
        }
        if readable_len(after) < after.len() {
            assert(after[readable_len(after) as int] == rest[readable_len(rest) as int]);
        }
    } else {
        assert(readable_len(rest) == 0);
        assert(readable_lines(rest) =~= Seq::<Seq<char>>::empty());
        reveal(Seq::filter);
        assert(file_matches(location, rest, term) =~= Seq::<MatchView>::empty());
        if from < reads.len() {
            assert(rest[0] == reads[from]);
        }
    }
}

/// The search of one file for one term.
#[derive(Debug)]
pub struct FileSearcher<'a> {
    location: String,
    term: &'a SearchTerm,
    active: bool,
}

impl<'a> FileSearcher<'a> {
    /// The display form of the file's path, which every match carries.
    pub closed spec fn location(&self) -> Seq<char> {
        self.location@
    }

    /// The term that is looked for.
    pub closed spec fn term(&self) -> Seq<char> {
        self.term@
    }

    /// Whether the searcher still takes lines.
    pub closed spec fn active(&self) -> bool {
        self.active
    }

    /// Starts the search of the file at `location`, given what opening it
    /// came to: `Ok` if it is open, else the cause. A file that cannot be
    /// opened gives no searcher, only the diagnostic to write.
    pub fn start(location: String, term: &'a SearchTerm, opened: Result<(), String>) -> (started:
        Result<FileSearcher<'a>, Diagnostic>)
        ensures
            opened is Ok ==> started is Ok,
            started matches Ok(searcher) ==> {
                &&& opened is Ok
                &&& searcher.location() == location@
                &&& searcher.term() == term@
                &&& searcher.active()
            },
            started matches Err(diagnostic) ==> {
                &&& opened matches Err(cause)
                &&& diagnostic@ == (DiagnosticView::FileOpen { path: location@, cause: cause@ })
            },
    {
        match opened {
            Ok(_) => Ok(FileSearcher { location, term, active: true }),
            Err(cause) => Err(Diagnostic::FileOpen { path: location, cause }),
        }
    }

    /// Whether the searcher still takes lines.
    pub fn is_active(&self) -> (active: bool)
        ensures
            active == self.active(),
    {
        self.active
    }

    /// The display form of the file's path.
    pub fn path(&self) -> (location: &str)
        ensures
            location@ == self.location(),
    {
        self.location.as_str()
    }

    /// Takes what the last read came to and says what to do next.
    pub fn on_read(&mut self, outcome: &ReadOutcome) -> (step: Step)
        ensures
            final(self).location() == old(self).location(),
            final(self).term() == old(self).term(),
            (step@, final(self).active()) == step_of(
                old(self).location(),
                old(self).term(),
                old(self).active(),
                *outcome,
            ),
    {
        if !self.active {
            return Step::Stop;
        }
        match outcome {
            ReadOutcome::Line(line) => {
                if self.term.matches(line.as_str()) {
                    Step::Deliver(
                        MatchResult { location: self.location.clone(), line: line.clone() },
                    )
                } else {
                    Step::Continue
                }
            },
            ReadOutcome::EndOfFile => {
                self.active = false;
                Step::Stop
            },
            ReadOutcome::InvalidData => {
                self.active = false;
                Step::Stop
            },
            ReadOutcome::Failed(cause) => {
                self.active = false;
                Step::Report(
                    Diagnostic::FileRead { path: self.location.clone(), cause: cause.clone() },
                )
            },
        }
    }

    /// Takes whether the last match was handed over. If it was not, the
    /// consumer is gone: the searcher stops and gives the diagnostic to write.
    /// A searcher that had already stopped has nothing to report.
    pub fn on_delivery(&mut self, delivered: bool) -> (failure: Option<Diagnostic>)
        ensures
            final(self).location() == old(self).location(),
            final(self).term() == old(self).term(),
            final(self).active() == (old(self).active() && delivered),
            failure is Some <==> old(self).active() && !delivered,
            failure matches Some(diagnostic) ==> diagnostic@ == (DiagnosticView::Delivery {
                path: old(self).location(),
            }),
    {
        if self.active && !delivered {
            self.active = false;
            Some(Diagnostic::Delivery { path: self.location.clone() })
        } else {
            None
        }
    }
}

/// What a whole file came to: its matches, in the order of its lines, and
/// the diagnostic that reading it ended with, if any.
#[derive(Debug, PartialEq, Eq)]
pub struct Scan {
    pub matches: Vec<MatchResult>,
    pub failure: Option<Diagnostic>,
}

/// The diagnostic's content, if there is one.
pub open spec fn failure_view(failure: Option<Diagnostic>) -> Option<DiagnosticView> {
    match failure {
        Some(diagnostic) => Some(diagnostic@),
        None => None,
    }
}

/// Runs `searcher` over a file whose successive reads are `reads`, with a
/// consumer that takes every match. After the last of `reads` the file is at
/// its end.
pub fn scan(searcher: FileSearcher<'_>, reads: &Vec<ReadOutcome>) -> (found: Scan)
    ensures
        searcher.active() ==> {
            &&& match_views(found.matches@) == file_matches(
                searcher.location(),
                reads@,
                searcher.term(),
            )
            &&& failure_view(found.failure) == read_failure(searcher.location(), reads@)
        },
        !searcher.active() ==> found.matches@.len() == 0 && found.failure is None,
{
    let mut current = searcher;
    let mut matches: Vec<MatchResult> = Vec::new();
    let mut failure: Option<Diagnostic> = None;
    let ghost location = searcher.location();
    let ghost term = searcher.term();
    if !current.is_active() {
        return Scan { matches, failure };
    }
    let mut next: usize = 0;
    proof {
        assert(leading_lines(reads@, 0) =~= Seq::<Seq<char>>::empty());
        reveal(Seq::filter);
        assert(match_views(matches@) =~= located(
            location,
            matching_lines(leading_lines(reads@, 0), term),
        ));
    }
    while next < reads.len()
        invariant_except_break
            current.active(),
            failure is None,
            forall|i: int| 0 <= i < next ==> reads@[i] is Line,
        invariant
            next <= reads.len(),
            current.location() == location,
            current.term() == term,
            match_views(matches@) == located(
                location,
                matching_lines(leading_lines(reads@, next as nat), term),
            ),
        ensures
            forall|i: int| 0 <= i < next ==> reads@[i] is Line,
            next < reads.len() ==> !(reads@[next as int] is Line),
            failure_view(failure) == if next < reads.len() && reads@[next as int] is Failed {
                Some(
                    DiagnosticView::FileRead {
                        path: location,
                        cause: reads@[next as int]->Failed_0@,
                    },
                )
            } else {
                None
            },
        decreases reads.len() - next,
    {
        let ghost before = matches@;
        let step = current.on_read(&reads[next]);
        match step {
            Step::Continue => {},
            Step::Deliver(found) => {
                matches.push(found);
                let refused = current.on_delivery(true);
                assert(refused is None);
            },
            Step::Report(diagnostic) => {
                failure = Some(diagnostic);
                break ;
            },
            Step::Stop => {
                break ;
            },
        }
        proof {
            let line = reads@[next as int]->Line_0@;
            let seen = leading_lines(reads@, next as nat);
            assert(leading_lines(reads@, (next + 1) as nat) =~= seen.push(line));
            lemma_matching_lines_push(seen, line, term);
            if contains_term(line, term) {
                assert(match_views(matches@) =~= match_views(before).push(
                    MatchView { location, line },
                ));
                assert(located(location, matching_lines(seen, term).push(line)) =~= located(
                    location,
                    matching_lines(seen, term),
                ).push(MatchView { location, line }));
            }
        }
        next += 1;
    }
    proof {
        lemma_readable_len(reads@, next as nat);
    }
    Scan { matches, failure }
}

} // verus!
