//! The input of one search: the term, taken from the arguments of the
//! invocation.

use vstd::prelude::*;
use vstd::string::StringExecFns;
use crate::text::SearchTerm;

verus! {

/// Why no search was started.
#[derive(Clone, Copy, Debug, PartialEq, Eq, Structural)]
pub enum InputError {
    /// The invocation names no search term.
    MissingTerm,
}

/// What the user is told about an input error.
pub open spec fn input_error_message(error: InputError) -> Seq<char> {
    match error {
        InputError::MissingTerm => "Please enter a search term."@,
    }
}

impl InputError {
    /// The message for the user.
    pub fn message(&self) -> (text: String)
        ensures
            text@ == input_error_message(*self),
    {
        match self {
            InputError::MissingTerm => String::from_str("Please enter a search term."),
        }
    }
}

/// The search term of an invocation with the given arguments, of which the
/// first is the name of the program and the second the term. Without a
/// second argument there is no search; further arguments are ignored.
pub fn search_term(arguments: &Vec<String>) -> (term: Result<SearchTerm, InputError>)
    ensures
        arguments@.len() <= 1 <==> term is Err,
        term matches Ok(term) ==> term@ == arguments@[1]@,
        term matches Err(error) ==> error == InputError::MissingTerm,
{
    if arguments.len() <= 1 {
        Err(InputError::MissingTerm)
    } else {
        Ok(SearchTerm::new(arguments[1].as_str()))
    }
}

} // verus!
