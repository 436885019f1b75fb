//! The game, its mathematical model, and one play-through.

use crate::draws::{DrawSource, DRAW_SCALE};
use crate::error::ConfigError;
use crate::outcome::Winner;
use crate::walk::{
    agree_below, lemma_repeat_absorbed, lemma_repeat_determined, lemma_repeat_grows,
    lemma_walk_absorbed, lemma_walk_determined,
};
use vstd::prelude::*;

verus! {

/// The configuration of a game.
#[derive(Debug, Clone)]
pub struct Game {
    /// How many levels lie strictly between the start and the far boundary.
    pub middle_levels_count: usize,
    /// The moves: each entry stands for as many single steps as its absolute
    /// value, all of them agreeing if it is positive and disagreeing if not.
    pub actions: Vec<isize>,
    /// The bias of a contested step, in units of `1 / DRAW_SCALE`: a draw goes
    /// from the center when it is at most this value.
    pub probability_of_go_from_center: u64,
}

/// Where a walk stands: its level, and how many draws it has consumed.
pub struct Walk {
    pub level: nat,
    pub draws_used: nat,
}

/// How many single steps an action stands for.
pub open spec fn steps_of(action: isize) -> nat {
    if action >= 0 {
        action as nat
    } else {
        (-action) as nat
    }
}

/// Whether the steps of an action agree.
pub open spec fn agrees(action: isize) -> bool {
    action > 0
}

/// The draw at position `at`, and zero past the end of `draws`.
pub open spec fn draw_at(draws: Seq<u64>, at: nat) -> u64 {
    if at < draws.len() {
        draws[at as int]
    } else {
        0
    }
}

impl Game {
    /// The invariant of a configuration: at least one middle level, a far
    /// boundary that fits in `usize`, a probability of at most one, and at
    /// least one action.
    pub open spec fn well_formed(&self) -> bool {
        &&& 1 <= self.middle_levels_count < usize::MAX
        &&& self.probability_of_go_from_center <= DRAW_SCALE
        &&& self.actions@.len() > 0
    }

    /// What is wrong with the configuration, first fault first; `None` where
    /// it is well formed.
    pub open spec fn fault(&self) -> Option<ConfigError> {
        if self.middle_levels_count == 0 {
            Some(ConfigError::NoMiddleLevels)
        } else if self.middle_levels_count == usize::MAX {
            Some(ConfigError::TooManyLevels)
        } else if self.probability_of_go_from_center > DRAW_SCALE {
            Some(ConfigError::ProbabilityOutOfRange)
        } else if self.actions@.len() == 0 {
            Some(ConfigError::NoActions)
        } else {
            None
        }
    }

    /// The level at which the Follower wins.
    pub open spec fn far_boundary(&self) -> nat {
        (self.middle_levels_count + 1) as nat
    }

    /// Whether a step above level 0 advances on this draw: a draw of at most
    /// the probability goes from the center, and a player who disagrees turns
    /// that round.
    pub open spec fn goes(&self, agree: bool, draw: u64) -> bool {
        (draw <= self.probability_of_go_from_center) == agree
    }

    /// The level after one step from `level`; `draw` is read only above level 0.
    pub open spec fn moved(&self, level: nat, agree: bool, draw: u64) -> nat {
        if level == 0 {
            1
        } else if self.goes(agree, draw) {
            level + 1
        } else if level > 1 {
            (level - 1) as nat
        } else {
            level
        }
    }

    /// One step of a walk over `draws`. A walk at the far boundary stays
    /// there, the step from level 0 consumes no draw, any other consumes one.
    pub open spec fn step(&self, draws: Seq<u64>, from: Walk, agree: bool) -> Walk {
        if from.level == self.far_boundary() {
            from
        } else if from.level == 0 {
            Walk { level: 1, draws_used: from.draws_used }
        } else {
            Walk {
                level: self.moved(from.level, agree, draw_at(draws, from.draws_used)),
                draws_used: from.draws_used + 1,
            }
        }
    }

    /// The walk after `times` equal steps.
    pub open spec fn repeat(&self, draws: Seq<u64>, from: Walk, agree: bool, times: nat) -> Walk
        decreases times,
    {
        if times == 0 {
            from
        } else {
            self.step(draws, self.repeat(draws, from, agree, (times - 1) as nat), agree)
        }
    }

    /// The walk after the first `count` actions, started at level 0.
    pub open spec fn walk(&self, draws: Seq<u64>, count: nat) -> Walk
        decreases count,
    {
        if count == 0 {
            Walk { level: 0, draws_used: 0 }
        } else {
            let action = self.actions@[count - 1];
            self.repeat(
                draws,
                self.walk(draws, (count - 1) as nat),
                agrees(action),
                steps_of(action),
            )
        }
    }

    /// Who wins the play-through that reads its draws from `draws`.
    pub open spec fn outcome(&self, draws: Seq<u64>) -> Winner {
        if self.walk(draws, self.actions@.len()).level == self.far_boundary() {
            Winner::Follower
        } else {
            Winner::Leader
        }
    }

    /// How many draws the play-through over `draws` consumes.
    pub open spec fn draws_used(&self, draws: Seq<u64>) -> nat {
        self.walk(draws, self.actions@.len()).draws_used
    }

    /// Checks the configuration: `Ok` exactly where it is well formed, and
    /// otherwise its first fault.
    pub fn validate(&self) -> (checked: Result<(), ConfigError>)
        ensures
            checked is Ok <==> self.well_formed(),
            checked is Ok <==> self.fault() is None,
            checked matches Err(fault) ==> self.fault() == Some(fault),
    {
        if self.middle_levels_count == 0 {
            Err(ConfigError::NoMiddleLevels)
        } else if self.middle_levels_count == usize::MAX {
            Err(ConfigError::TooManyLevels)
        } else if self.probability_of_go_from_center > DRAW_SCALE {
            Err(ConfigError::ProbabilityOutOfRange)
        } else if self.actions.len() == 0 {
            Err(ConfigError::NoActions)
        } else {
            Ok(())
        }
    }

    /// Whether this draw goes from the center: whether it is at most the
    /// probability. A player who disagrees turns the decision round.
    pub fn decide(&self, draw: u64) -> (go: bool)
        ensures
            go == self.goes(true, draw),
    {
        draw <= self.probability_of_go_from_center
    }

    /// Takes one draw from `source` and decides on it as `decide` does.
    pub fn go_from_center(&self, source: &mut DrawSource) -> (go: bool)
        requires
            old(source).well_formed(),
        ensures
            final(source).well_formed(),
            ({
                let used = final(source).drawn_since(*old(source));
                &&& final(source).follows(*old(source), used)
                &&& used.len() == 1
                &&& go == self.goes(true, used[0])
            }),
    {
        let draw = source.next_draw();
        assert(source.drawn_since(*old(source)) =~= seq![draw]);
        self.decide(draw)
    }

    /// Makes one step from `current_level`. From level 0 the walk goes to
    /// level 1 and no draw is taken; from any other level one draw decides,
    /// turned round if the player disagrees: up one level, or down one level
    /// but never below level 1.
    pub fn handle_action(&self, current_level: &mut usize, agree: bool, source: &mut DrawSource)
        requires
            *old(current_level) < usize::MAX,
            old(source).well_formed(),
        ensures
            final(source).well_formed(),
            ({
                let used = final(source).drawn_since(*old(source));
                &&& final(source).follows(*old(source), used)
                &&& used.len() == if *old(current_level) == 0 { 0nat } else { 1nat }
                &&& *final(current_level) == self.moved(
                    *old(current_level) as nat,
                    agree,
                    draw_at(used, 0),
                )
            }),
    {
        if *current_level == 0 {
            *current_level += 1;
            assert(source.drawn_since(*old(source)) =~= Seq::<u64>::empty());
            assert(source.drawn() =~= old(source).drawn() + Seq::<u64>::empty());
            return ;
        }
        let go_from_center = self.go_from_center(source);
        let go_from_center = if agree {
            go_from_center
        } else {
            !go_from_center
        };
        if go_from_center {
            *current_level += 1;
        } else if *current_level > 1 {
            *current_level -= 1;
        }
    }

    /// Plays the game once, taking draws from `source`.
    ///
    /// The walk starts at level 0 and makes the steps of each action in turn.
    /// The Follower wins as soon as a step reaches the far boundary; the
    /// Leader wins when the actions run out first. The result is the outcome
    /// of the model on exactly the draws that `source` handed out.
    pub fn play(&self, source: &mut DrawSource) -> (winner: Winner)
        requires
            self.well_formed(),
            old(source).well_formed(),
        ensures
            final(source).well_formed(),
            ({
                let used = final(source).drawn_since(*old(source));
                &&& final(source).follows(*old(source), used)
                &&& used.len() == self.draws_used(used)
                &&& winner == self.outcome(used)
            }),
    {
        let ghost mut seen: Seq<u64> = Seq::empty();
        let mut current_level: usize = 0;
        let mut index: usize = 0;
        assert(source.drawn() =~= old(source).drawn() + seen);
        while index < self.actions.len()
            invariant
                self.well_formed(),
                index <= self.actions@.len(),
                source.well_formed(),
                source.follows(*old(source), seen),
                current_level <= self.middle_levels_count,
                self.walk(seen, index as nat) == (Walk {
                    level: current_level as nat,
                    draws_used: seen.len(),
                }),
            decreases self.actions@.len() - index,
        {
            let action = self.actions[index];
            let agree = action > 0;
            let steps = steps_in(action);
            let ghost start = self.walk(seen, index as nat);
            let mut done: usize = 0;
            while done < steps
                invariant
                    self.well_formed(),
                    index < self.actions@.len(),
                    action == self.actions@[index as int],
                    agree == agrees(action),
                    steps == steps_of(action),
                    done <= steps,
                    source.well_formed(),
                    source.follows(*old(source), seen),
                    current_level <= self.middle_levels_count,
                    start == self.walk(seen, index as nat),
                    self.repeat(seen, start, agree, done as nat) == (Walk {
                        level: current_level as nat,
                        draws_used: seen.len(),
                    }),
                decreases steps - done,
            {
                let ghost earlier = *source;
                let ghost known = seen;
                self.handle_action(&mut current_level, agree, source);
                proof {
                    let used = source.drawn_since(earlier);
                    seen = known + used;
                    assert(source.drawn() =~= old(source).drawn() + seen);
                    assert(agree_below(known, seen, known.len()));
                    lemma_repeat_grows(*self, known, start, agree, done as nat);
                    lemma_walk_determined(*self, known, seen, index as nat);
                    lemma_repeat_determined(*self, known, seen, start, agree, done as nat);
                }
                done += 1;
                if current_level == self.middle_levels_count + 1 {
                    proof {
                        lemma_repeat_absorbed(*self, seen, start, agree, done as nat, steps as nat);
                        lemma_walk_absorbed(
                            *self,
                            seen,
                            (index + 1) as nat,
                            self.actions@.len(),
                        );
                        assert(source.drawn_since(*old(source)) =~= seen);
                    }
                    return Winner::Follower;
                }
            }
            index += 1;
        }
        assert(source.drawn_since(*old(source)) =~= seen);
        Winner::Leader
    }
}

/// How many single steps an action stands for.
fn steps_in(action: isize) -> (steps: usize)
    ensures
        steps == steps_of(action),
{
    if action >= 0 {
        action as usize
    } else {
        (-(action + 1)) as usize + 1
    }
}

} // verus!
