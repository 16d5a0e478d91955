use vstd::prelude::*;

verus! {

/// Why the store refused an operation or a log.
#[derive(Debug, Clone, Copy, PartialEq, Eq, Structural)]
pub enum Error {
    /// A record that is not the last one in the log does not parse.
    Corrupt,
    /// The key handed to `put` or `delete` is empty.
    InvalidKey,
}

} // verus!
