//! What can be wrong with a configuration or a sample size.

use vstd::prelude::*;

verus! {

/// Why a configuration or a candidate sample size was rejected.
#[derive(Debug, Clone, Copy, PartialEq, Eq, Structural)]
pub enum ConfigError {
    /// There is no level between the two boundaries.
    NoMiddleLevels,
    /// The far boundary, one past the middle levels, does not fit in `usize`.
    TooManyLevels,
    /// The probability is above one, that is above `DRAW_SCALE`.
    ProbabilityOutOfRange,
    /// The action list is empty.
    NoActions,
    /// A sample has fewer than two games, so each half is empty.
    SampleTooSmall,
}

} // verus!
