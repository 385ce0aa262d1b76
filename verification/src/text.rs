//! Literal substring matching on lines of text.

use vstd::prelude::*;

verus! {

/// `term` stands in `line` at offset `at`, character for character.
pub open spec fn occurs_at(line: Seq<char>, term: Seq<char>, at: int) -> bool {
    &&& 0 <= at
    &&& at + term.len() <= line.len()
    &&& line.subrange(at, at + term.len()) == term
}

/// `line` holds `term` as a contiguous run of characters. The comparison is
/// exact: case matters and nothing is normalised. The empty term occurs in
/// every line.
pub open spec fn contains_term(line: Seq<char>, term: Seq<char>) -> bool {
    exists|at: int| occurs_at(line, term, at)
}

/// The characters of `text`, in order.
pub fn chars_of(text: &str) -> (chars: Vec<char>)
    ensures
        chars@ == text@,
{
    let mut chars: Vec<char> = Vec::new();
    for c in it: text.chars()
        invariant
            chars@ == it.seq().take(it.index() as int),
            it.seq() == text@,
    {
        chars.push(c);
    }
    chars
}

/// Whether `term` stands in `line` at offset `at`.
fn matches_at(line: &Vec<char>, term: &Vec<char>, at: usize) -> (found: bool)
    requires
        at + term.len() <= line.len(),
    ensures
        found == occurs_at(line@, term@, at as int),
{
    let width: usize = term.len();
    let mut k: usize = 0;
    while k < width
        invariant
            width == term.len(),
            at + width <= line.len(),
            k <= width,
            forall|j: int| 0 <= j < k ==> line@[at + j] == term@[j],
        decreases width - k,
    {
        if line[at + k] != term[k] {
            proof {
                let window = line@.subrange(at as int, at + width);
                assert(window[k as int] == line@[at + k]);
            }
            return false;
        }
        k += 1;
    }
    assert(line@.subrange(at as int, at + width) =~= term@);
    true
}

/// Whether `term` occurs anywhere in `line`.
pub fn chars_contain(line: &Vec<char>, term: &Vec<char>) -> (found: bool)
    ensures
        found == contains_term(line@, term@),
{
    let width: usize = term.len();
    if width > line.len() {
        return false;
    }
    let last: usize = line.len() - width;
    let mut at: usize = 0;
    while at < last
        invariant
            width == term.len(),
            last + width == line.len(),
            at <= last,
            forall|k: int| 0 <= k < at ==> !occurs_at(line@, term@, k),
        decreases last - at,
    {
        if matches_at(line, term, at) {
            return true;
        }
        at += 1;
    }
    matches_at(line, term, last)
}

/// Whether `line` contains `term` as a literal substring.
pub fn line_contains(line: &str, term: &str) -> (found: bool)
    ensures
        found == contains_term(line@, term@),
{
    let line_chars = chars_of(line);
    let term_chars = chars_of(term);
    chars_contain(&line_chars, &term_chars)
}

/// The literal that a search looks for. It is fixed when the search starts
/// and only ever read afterwards, so any number of searchers may share it.
#[derive(Debug)]
pub struct SearchTerm {
    chars: Vec<char>,
}

impl View for SearchTerm {
    type V = Seq<char>;

    closed spec fn view(&self) -> Seq<char> {
        self.chars@
    }
}

impl SearchTerm {
    /// The term with the characters of `text`.
    pub fn new(text: &str) -> (term: SearchTerm)
        ensures
            term@ == text@,
    {
        SearchTerm { chars: chars_of(text) }
    }

    /// Whether `line` contains the term as a literal substring.
    pub fn matches(&self, line: &str) -> (found: bool)
        ensures
            found == contains_term(line@, self@),
    {
        let line_chars = chars_of(line);
        chars_contain(&line_chars, &self.chars)
    }
}

} // verus!
