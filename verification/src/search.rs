//! The search for a sample size at which the Leader's win rate over the first
//! half of a sample, over its second half and over the whole of it agree to
//! the nearest percent.

use crate::draws::DrawSource;
use crate::error::ConfigError;
use crate::game::{draw_at, Game};
use crate::outcome::Winner;
use crate::rates::{lemma_percent_bounded, rounded_percent, Rate};
use crate::laws::at_most;
use crate::walk::{agree_below, lemma_outcome_determined};
use vstd::prelude::*;

verus! {

/// The Leader's wins in one sample, counted by halves. The first half holds
/// the games before position `sample_size / 2`, the second half all others.
#[derive(Debug, Clone, Copy, PartialEq, Eq, Structural)]
pub struct Tally {
    pub sample_size: usize,
    pub first_half_wins: usize,
    pub second_half_wins: usize,
}

/// What a search reports when the three rates agree.
#[derive(Debug, Clone, Copy, PartialEq, Eq, Structural)]
pub struct Report {
    /// The Leader's wins, in percent of the games.
    pub leader_percent: u64,
    /// The Follower's wins, in percent of the games.
    pub follower_percent: u64,
    /// The sample size at which the rates agreed.
    pub sample_size: usize,
}

/// The report on a sample of `size` games with these Leader wins, where the
/// three rounded rates agree, and `None` where they do not. Both halves are
/// measured against `size / 2` games, the whole against `size`.
pub open spec fn verdict_of(size: nat, first_half_wins: nat, second_half_wins: nat) -> Option<
    Report,
> {
    let first = rounded_percent(first_half_wins, size / 2);
    let second = rounded_percent(second_half_wins, size / 2);
    let whole = rounded_percent(first_half_wins + second_half_wins, size);
    if first == second && second == whole {
        Some(
            Report {
                leader_percent: first as u64,
                follower_percent: (100 - first) as u64,
                sample_size: size as usize,
            },
        )
    } else {
        None
    }
}

impl Tally {
    /// The invariant of a tally: each half of the sample holds a game, and
    /// no half has more wins than games.
    pub open spec fn well_formed(&self) -> bool {
        &&& self.sample_size >= 2
        &&& self.first_half_wins <= self.sample_size / 2
        &&& self.second_half_wins <= self.sample_size - self.sample_size / 2
    }

    /// The Leader's win rate over the first half.
    pub fn first_half_rate(&self) -> (rate: Rate)
        requires
            self.well_formed(),
        ensures
            rate == (Rate { wins: self.first_half_wins, games: (self.sample_size / 2) as usize }),
            rate.in_unit_interval(),
            rate.percent_of() <= 100,
    {
        proof {
            lemma_percent_bounded(self.first_half_wins as nat, (self.sample_size / 2) as nat, 1);
        }
        Rate { wins: self.first_half_wins, games: self.sample_size / 2 }
    }

    /// The Leader's win rate over the second half. It is measured against
    /// `sample_size / 2` games, so in a sample of odd size, where the second
    /// half holds one game more, it can exceed one.
    pub fn second_half_rate(&self) -> (rate: Rate)
        requires
            self.well_formed(),
        ensures
            rate == (Rate { wins: self.second_half_wins, games: (self.sample_size / 2) as usize }),
            rate.well_formed(),
            rate.in_unit_interval() <==> self.second_half_wins <= self.sample_size / 2,
            self.sample_size % 2 == 0 ==> rate.in_unit_interval(),
            rate.wins <= 2 * rate.games,
            rate.percent_of() <= 200,
    {
        proof {
            lemma_percent_bounded(self.second_half_wins as nat, (self.sample_size / 2) as nat, 2);
        }
        Rate { wins: self.second_half_wins, games: self.sample_size / 2 }
    }

    /// The Leader's win rate over the whole sample.
    pub fn whole_rate(&self) -> (rate: Rate)
        requires
            self.well_formed(),
        ensures
            rate == (Rate {
                wins: (self.first_half_wins + self.second_half_wins) as usize,
                games: self.sample_size,
            }),
            rate.in_unit_interval(),
            rate.percent_of() <= 100,
    {
        proof {
            lemma_percent_bounded(
                (self.first_half_wins + self.second_half_wins) as nat,
                self.sample_size as nat,
                1,
            );
        }
        Rate { wins: self.first_half_wins + self.second_half_wins, games: self.sample_size }
    }

    /// Rounds the three rates to whole percents and reports on the sample
    /// where all three are equal.
    pub fn verdict(&self) -> (found: Option<Report>)
        requires
            self.well_formed(),
        ensures
            found == verdict_of(
                self.sample_size as nat,
                self.first_half_wins as nat,
                self.second_half_wins as nat,
            ),
            found matches Some(report) ==> report.leader_percent + report.follower_percent == 100,
    {
        let first_rate = self.first_half_rate();
        let second_rate = self.second_half_rate();
        let whole_rate = self.whole_rate();
        let first = first_rate.percent();
        let second = second_rate.percent();
        let whole = whole_rate.percent();
        if first == second && second == whole {
            Some(
                Report {
                    leader_percent: first,
                    follower_percent: 100 - first,
                    sample_size: self.sample_size,
                },
            )
        } else {
            None
        }
    }
}

/// The Leader's wins so far in a sample, and the draws its games consumed.
pub struct Progress {
    pub first_half_wins: nat,
    pub second_half_wins: nat,
    pub draws_used: nat,
}

/// What a search has found so far, and the draws its games consumed.
pub struct Found {
    pub report: Option<Report>,
    pub draws_used: nat,
}

/// What is left of `draws` once the first `used` of them are consumed.
pub open spec fn draws_after(draws: Seq<u64>, used: nat) -> Seq<u64> {
    if used <= draws.len() {
        draws.skip(used as int)
    } else {
        Seq::empty()
    }
}

/// The first `played` games of a sample of `size` games, each game reading
/// its draws where the one before it stopped.
pub open spec fn trial(game: Game, draws: Seq<u64>, size: nat, played: nat) -> Progress
    decreases played,
{
    if played == 0 {
        Progress { first_half_wins: 0, second_half_wins: 0, draws_used: 0 }
    } else {
        let before = trial(game, draws, size, (played - 1) as nat);
        let rest = draws_after(draws, before.draws_used);
        let won: nat = if game.outcome(rest) == Winner::Leader {
            1
        } else {
            0
        };
        if played - 1 < size / 2 {
            Progress {
                first_half_wins: before.first_half_wins + won,
                second_half_wins: before.second_half_wins,
                draws_used: before.draws_used + game.draws_used(rest),
            }
        } else {
            Progress {
                first_half_wins: before.first_half_wins,
                second_half_wins: before.second_half_wins + won,
                draws_used: before.draws_used + game.draws_used(rest),
            }
        }
    }
}

/// The search over the first `count` candidate sizes, in the order given:
/// it stops at the first sample whose three rates agree, and each sample
/// reads its draws where the one before it stopped.
pub open spec fn tried(game: Game, draws: Seq<u64>, sizes: Seq<usize>, count: nat) -> Found
    decreases count,
{
    if count == 0 {
        Found { report: None, draws_used: 0 }
    } else {
        let before = tried(game, draws, sizes, (count - 1) as nat);
        if before.report is Some {
            before
        } else {
            let size = sizes[count - 1] as nat;
            let sample = trial(game, draws_after(draws, before.draws_used), size, size);
            Found {
                report: verdict_of(size, sample.first_half_wins, sample.second_half_wins),
                draws_used: before.draws_used + sample.draws_used,
            }
        }
    }
}

/// Whether some candidate size is too small for its halves to hold a game.
pub open spec fn has_small_sample(sizes: Seq<usize>) -> bool {
    exists|i: int| 0 <= i < sizes.len() && #[trigger] sizes[i] < 2
}

/// No half of a sample has more wins than games: the first half holds
/// `size / 2` games, the second the others.
pub proof fn lemma_trial_counts(game: Game, draws: Seq<u64>, size: nat, played: nat)
    requires
        played <= size,
    ensures
        trial(game, draws, size, played).first_half_wins <= at_most(played, size / 2),
        trial(game, draws, size, played).second_half_wins <= played - at_most(played, size / 2),
    decreases played,
{
    if played > 0 {
        lemma_trial_counts(game, draws, size, (played - 1) as nat);
    }
}

/// The three rates of a sample lie between zero and one, but for the second
/// half of a sample of odd size: it holds one game more than the `size / 2`
/// it is measured against, so its rate exceeds one when the Leader wins them
/// all. A report's two percentages add up to one hundred.
pub proof fn lemma_rates_and_report(game: Game, draws: Seq<u64>, size: nat)
    requires
        size >= 2,
    ensures
        ({
            let sample = trial(game, draws, size, size);
            &&& sample.first_half_wins <= size / 2
            &&& sample.first_half_wins + sample.second_half_wins <= size
            &&& sample.second_half_wins <= size / 2 + 1
            &&& size % 2 == 0 ==> sample.second_half_wins <= size / 2
            &&& verdict_of(size, sample.first_half_wins, sample.second_half_wins) matches Some(
                report,
            ) ==> report.leader_percent <= 100 && report.leader_percent + report.follower_percent
                == 100
        }),
{
    lemma_trial_counts(game, draws, size, size);
    lemma_percent_bounded(trial(game, draws, size, size).first_half_wins, size / 2, 1);
}

/// A sample reads no draw but those its games consume.
pub proof fn lemma_trial_determined(
    game: Game,
    first: Seq<u64>,
    second: Seq<u64>,
    size: nat,
    played: nat,
)
    requires
        agree_below(first, second, trial(game, first, size, played).draws_used),
    ensures
        trial(game, second, size, played) == trial(game, first, size, played),
    decreases played,
{
    if played > 0 {
        let before = trial(game, first, size, (played - 1) as nat);
        lemma_trial_determined(game, first, second, size, (played - 1) as nat);
        let rest_first = draws_after(first, before.draws_used);
        let rest_second = draws_after(second, before.draws_used);
        assert forall|i: nat| i < game.draws_used(rest_first) implies #[trigger] draw_at(
            rest_first,
            i,
        ) == draw_at(rest_second, i) by {
            assert(draw_at(first, before.draws_used + i) == draw_at(
                second,
                before.draws_used + i,
            ));
        }
        lemma_outcome_determined(game, rest_first, rest_second);
    }
}

/// A search reads no draw but those its games consume.
pub proof fn lemma_tried_determined(
    game: Game,
    first: Seq<u64>,
    second: Seq<u64>,
    sizes: Seq<usize>,
    count: nat,
)
    requires
        agree_below(first, second, tried(game, first, sizes, count).draws_used),
    ensures
        tried(game, second, sizes, count) == tried(game, first, sizes, count),
    decreases count,
{
    if count > 0 {
        let before = tried(game, first, sizes, (count - 1) as nat);
        lemma_tried_determined(game, first, second, sizes, (count - 1) as nat);
        if before.report is None {
            let size = sizes[count - 1] as nat;
            let rest_first = draws_after(first, before.draws_used);
            let rest_second = draws_after(second, before.draws_used);
            assert forall|i: nat|
                i < trial(game, rest_first, size, size).draws_used implies #[trigger] draw_at(
                rest_first,
                i,
            ) == draw_at(rest_second, i) by {
                assert(draw_at(first, before.draws_used + i) == draw_at(
                    second,
                    before.draws_used + i,
                ));
            }
            lemma_trial_determined(game, rest_first, rest_second, size, size);
        }
    }
}

/// Once a search has found a sample whose rates agree, further candidates
/// change nothing.
pub proof fn lemma_tried_settled(
    game: Game,
    draws: Seq<u64>,
    sizes: Seq<usize>,
    count: nat,
    later: nat,
)
    requires
        count <= later,
        tried(game, draws, sizes, count).report is Some,
    ensures
        tried(game, draws, sizes, later) == tried(game, draws, sizes, count),
    decreases later,
{
    if count < later {
        lemma_tried_settled(game, draws, sizes, count, (later - 1) as nat);
    }
}

/// Plays one sample of `size` games and counts the Leader's wins by halves:
/// a win in a game before position `size / 2` counts for the first half, any
/// other for the second.
pub fn play_sample(game: &Game, size: usize, source: &mut DrawSource) -> (tally: Tally)
    requires
        game.well_formed(),
        size >= 2,
        old(source).well_formed(),
    ensures
        final(source).well_formed(),
        tally.well_formed(),
        tally.sample_size == size,
        ({
            let used = final(source).drawn_since(*old(source));
            &&& final(source).follows(*old(source), used)
            &&& trial(*game, used, size as nat, size as nat) == (Progress {
                first_half_wins: tally.first_half_wins as nat,
                second_half_wins: tally.second_half_wins as nat,
                draws_used: used.len(),
            })
        }),
{
    let half = size / 2;
    let ghost mut seen: Seq<u64> = Seq::empty();
    let mut first_half_wins: usize = 0;
    let mut second_half_wins: usize = 0;
    let mut played: usize = 0;
    assert(source.drawn() =~= old(source).drawn() + seen);
    while played < size
        invariant
            game.well_formed(),
            half == size / 2,
            played <= size,
            source.well_formed(),
            source.follows(*old(source), seen),
            first_half_wins <= played,
            first_half_wins <= half,
            played <= half ==> second_half_wins == 0,
            played > half ==> second_half_wins <= played - half,
            trial(*game, seen, size as nat, played as nat) == (Progress {
                first_half_wins: first_half_wins as nat,
                second_half_wins: second_half_wins as nat,
                draws_used: seen.len(),
            }),
        decreases size - played,
    {
        let ghost earlier = *source;
        let ghost known = seen;
        let winner = game.play(source);
        proof {
            let used = source.drawn_since(earlier);
            seen = known + used;
            assert(source.drawn() =~= old(source).drawn() + seen);
            assert(agree_below(known, seen, known.len()));
            lemma_trial_determined(*game, known, seen, size as nat, played as nat);
            assert(draws_after(seen, known.len()) =~= used);
        }
        if winner.did_leader_win() {
            if played < half {
                first_half_wins += 1;
            } else {
                second_half_wins += 1;
            }
        }
        played += 1;
    }
    assert(source.drawn_since(*old(source)) =~= seen);
    Tally { sample_size: size, first_half_wins, second_half_wins }
}

/// Plays one sample of `size` games as `play_sample` does, unless the sample
/// is too small: with fewer than two games its halves hold no game to
/// measure a rate against, and then no game is played.
pub fn run_trial(game: &Game, size: usize, source: &mut DrawSource) -> (counted: Result<
    Tally,
    ConfigError,
>)
    requires
        game.well_formed(),
        old(source).well_formed(),
    ensures
        final(source).well_formed(),
        final(source).follows(*old(source), final(source).drawn_since(*old(source))),
        counted is Err <==> size < 2,
        counted matches Err(fault) ==> {
            &&& fault == ConfigError::SampleTooSmall
            &&& final(source).drawn() == old(source).drawn()
        },
        counted matches Ok(tally) ==> {
            let used = final(source).drawn_since(*old(source));
            &&& tally.well_formed()
            &&& tally.sample_size == size
            &&& trial(*game, used, size as nat, size as nat) == (Progress {
                first_half_wins: tally.first_half_wins as nat,
                second_half_wins: tally.second_half_wins as nat,
                draws_used: used.len(),
            })
        },
{
    if size / 2 == 0 {
        assert(source.drawn_since(*old(source)) =~= Seq::<u64>::empty());
        assert(source.drawn() =~= old(source).drawn() + Seq::<u64>::empty());
        Err(ConfigError::SampleTooSmall)
    } else {
        Ok(play_sample(game, size, source))
    }
}

/// Searches the candidate sample sizes, in the order given, for one at which
/// the three rounded rates agree, and reports on the first such sample.
///
/// A malformed configuration and a candidate below two are refused before
/// any game is played. Otherwise the result is that of the model on exactly
/// the draws that `source` handed out: `None` where no candidate converges.
pub fn run(game: &Game, candidate_sizes: &Vec<usize>, source: &mut DrawSource) -> (found: Result<
    Option<Report>,
    ConfigError,
>)
    requires
        old(source).well_formed(),
    ensures
        final(source).well_formed(),
        final(source).follows(*old(source), final(source).drawn_since(*old(source))),
        found is Err <==> !game.well_formed() || has_small_sample(candidate_sizes@),
        found matches Err(fault) ==> {
            &&& game.fault() == Some(fault) || (game.well_formed() && fault
                == ConfigError::SampleTooSmall)
            &&& final(source).drawn() == old(source).drawn()
        },
        found matches Ok(report) ==> {
            let used = final(source).drawn_since(*old(source));
            &&& tried(*game, used, candidate_sizes@, candidate_sizes@.len()) == (Found {
                report,
                draws_used: used.len(),
            })
            &&& report matches Some(agreed) ==> agreed.leader_percent + agreed.follower_percent
                == 100
        },
{
    assert(source.drawn_since(*old(source)) =~= Seq::<u64>::empty());
    assert(source.drawn() =~= old(source).drawn() + Seq::<u64>::empty());
    match game.validate() {
        Err(fault) => {
            return Err(fault);
        },
        Ok(()) => {},
    }
    let mut checked: usize = 0;
    while checked < candidate_sizes.len()
        invariant
            game.well_formed(),
            *source == *old(source),
            source.well_formed(),
            checked <= candidate_sizes@.len(),
            forall|i: int| 0 <= i < checked ==> #[trigger] candidate_sizes@[i] >= 2,
        decreases candidate_sizes@.len() - checked,
    {
        if candidate_sizes[checked] < 2 {
            return Err(ConfigError::SampleTooSmall);
        }
        checked += 1;
    }
    let ghost mut seen: Seq<u64> = Seq::empty();
    let mut index: usize = 0;
    assert(source.drawn() =~= old(source).drawn() + seen);
    while index < candidate_sizes.len()
        invariant
            game.well_formed(),
            index <= candidate_sizes@.len(),
            forall|i: int| 0 <= i < candidate_sizes@.len() ==> #[trigger] candidate_sizes@[i] >= 2,
            source.well_formed(),
            source.follows(*old(source), seen),
            tried(*game, seen, candidate_sizes@, index as nat) == (Found {
                report: None,
                draws_used: seen.len(),
            }),
        decreases candidate_sizes@.len() - index,
    {
        let ghost earlier = *source;
        let ghost known = seen;
        let size = candidate_sizes[index];
        let tally = play_sample(game, size, source);
        proof {
            let used = source.drawn_since(earlier);
            seen = known + used;
            assert(source.drawn() =~= old(source).drawn() + seen);
            assert(agree_below(known, seen, known.len()));
            lemma_tried_determined(*game, known, seen, candidate_sizes@, index as nat);
            assert(draws_after(seen, known.len()) =~= used);
        }
        match tally.verdict() {
            Some(report) => {
                proof {
                    lemma_tried_settled(
                        *game,
                        seen,
                        candidate_sizes@,
                        (index + 1) as nat,
                        candidate_sizes@.len(),
                    );
                    assert(source.drawn_since(*old(source)) =~= seen);
                }
                return Ok(Some(report));
            },
            None => {},
        }
        index += 1;
    }
    assert(source.drawn_since(*old(source)) =~= seen);
    Ok(None)
}

} // verus!
