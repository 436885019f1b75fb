//! Win rates as exact fractions, and their rounding to whole percents.

use vstd::prelude::*;

verus! {

/// A win rate: `wins` out of `games`, kept as an exact fraction.
#[derive(Debug, Clone, Copy, PartialEq, Eq, Structural)]
pub struct Rate {
    pub wins: usize,
    pub games: usize,
}

/// `100 * wins / games` rounded to the nearest whole number, a half rounded up.
pub open spec fn rounded_percent(wins: nat, games: nat) -> nat {
    (200 * wins + games) / (2 * games)
}

impl Rate {
    /// Whether the rate is measured against at least one game.
    pub open spec fn well_formed(&self) -> bool {
        self.games > 0
    }

    /// Whether the rate lies between zero and one.
    pub open spec fn in_unit_interval(&self) -> bool {
        self.games > 0 && self.wins <= self.games
    }

    /// The rate in percent, rounded to the nearest whole number.
    pub open spec fn percent_of(&self) -> nat {
        rounded_percent(self.wins as nat, self.games as nat)
    }

    /// The rate in percent, rounded to the nearest whole number, a half
    /// rounded away from zero.
    pub fn percent(&self) -> (percent: u64)
        requires
            self.well_formed(),
            self.percent_of() <= u64::MAX,
        ensures
            percent == self.percent_of(),
    {
        let doubled: u128 = 200 * (self.wins as u128) + self.games as u128;
        let divisor: u128 = 2 * (self.games as u128);
        (doubled / divisor) as u64
    }
}

/// The rounded percent is the whole number nearest to the exact percent, and
/// the upper one of two that are equally near.
pub proof fn lemma_percent_is_nearest(wins: nat, games: nat)
    requires
        games > 0,
    ensures
        2 * (rounded_percent(wins, games) * games - 100 * wins) <= games,
        2 * (100 * wins - rounded_percent(wins, games) * games) < games,
{
    let numerator = (200 * wins + games) as int;
    let divisor = (2 * games) as int;
    let percent = numerator / divisor;
    assert(percent * divisor <= numerator < percent * divisor + divisor) by (nonlinear_arith)
        requires
            percent == numerator / divisor,
            divisor > 0,
            numerator >= 0,
    ;
    assert(percent * divisor == 2 * (percent * games)) by (nonlinear_arith)
        requires
            divisor == 2 * games,
    ;
}

/// A rate of at most `bound` games won per game rounds to at most
/// `100 * bound` percent.
pub proof fn lemma_percent_bounded(wins: nat, games: nat, bound: nat)
    requires
        games > 0,
        wins <= bound * games,
    ensures
        rounded_percent(wins, games) <= 100 * bound,
{
    let numerator = (200 * wins + games) as int;
    let divisor = (2 * games) as int;
    assert(numerator / divisor <= 100 * bound) by (nonlinear_arith)
        requires
            numerator == 200 * wins + games,
            divisor == 2 * games,
            games > 0,
            0 <= wins <= bound * games,
    ;
}

} // verus!
