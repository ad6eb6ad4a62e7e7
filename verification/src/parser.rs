//! The interface shared by the stack-based parsers.

use vstd::prelude::*;
use crate::symbols::ParseSnapshot;

verus! {

/// A parser that reads a sequence of tokens and reports each step it takes.
pub trait Parser {
    /// The parser's tables are in the shape its construction leaves them.
    spec fn ready(&self) -> bool;

    /// Parses the tokens, returning one snapshot per step, or the error met.
    fn parse(&self, input: Vec<String>) -> (r: Result<Vec<ParseSnapshot>, String>)
        requires
            self.ready(),
    ;
}

} // verus!
