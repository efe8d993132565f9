use vstd::prelude::*;

verus! {

/// Why an extraction pass stopped.
#[derive(Debug, Clone, Copy, PartialEq, Eq, Structural)]
pub enum ScrapeError {
    /// A regular expression did not compile.
    InvalidPattern,
    /// A match lacked the index group or the body group.
    MissingGroup,
    /// A part of a dotted index is not an integer.
    MalformedIndex,
}

} // verus!
