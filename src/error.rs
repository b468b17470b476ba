use vstd::prelude::*;

verus! {

/// Why a leaderboard operation did not go through.
#[derive(Debug, Clone, Copy, PartialEq, Eq, Structural)]
pub enum StoreError {
    /// An empty key or member name was given.
    InvalidArgument,
    /// The new score of a member would not fit in an `i64`.
    ScoreOutOfRange,
    /// The backing store could not be reached, timed out, or dropped the connection.
    ConnectionError,
}

} // verus!
