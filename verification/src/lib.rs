//! Literal line search over a directory tree.
//!
//! The crate holds the decisions of a recursive search: which lines of a file
//! match a term, which directory entries are walked, searched or passed over,
//! how results travel through a bounded conduit, and when the stream of
//! results is over. Reading directories and files is left to the caller, who
//! feeds what was read to the state machines of [`traverser`] and
//! [`searcher`].
//!
//! [`pipeline`] runs a whole search on a directory tree held in memory, with
//! the traverser, the searches and the consumer taking turns in any order.
//! Its result is held to what [`tree`] says the tree contains; [`laws`] spells
//! out what follows from that.

pub mod conduit;
pub mod invocation;
pub mod laws;
pub mod pipeline;
pub mod render;
pub mod report;
pub mod searcher;
pub mod sums;
pub mod text;
pub mod traverser;
pub mod tree;
pub mod weave;
