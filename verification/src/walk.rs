//! Facts about walks: they depend only on the draws they consume, and a walk
//! that has reached the far boundary stays there.

use crate::game::{agrees, draw_at, steps_of, Game, Walk};
use vstd::prelude::*;

verus! {

/// Whether `first` and `second` hold the same draw at every position below `count`.
pub open spec fn agree_below(first: Seq<u64>, second: Seq<u64>, count: nat) -> bool {
    forall|i: nat| i < count ==> #[trigger] draw_at(first, i) == draw_at(second, i)
}

/// Repeated steps never give a draw back.
pub proof fn lemma_repeat_grows(game: Game, draws: Seq<u64>, from: Walk, agree: bool, times: nat)
    ensures
        from.draws_used <= game.repeat(draws, from, agree, times).draws_used,
    decreases times,
{
    if times > 0 {
        lemma_repeat_grows(game, draws, from, agree, (times - 1) as nat);
    }
}

/// Repeated steps read no draw but those they consume.
pub proof fn lemma_repeat_determined(
    game: Game,
    first: Seq<u64>,
    second: Seq<u64>,
    from: Walk,
    agree: bool,
    times: nat,
)
    requires
        agree_below(first, second, game.repeat(first, from, agree, times).draws_used),
    ensures
        game.repeat(second, from, agree, times) == game.repeat(first, from, agree, times),
    decreases times,
{
    if times > 0 {
        let before = game.repeat(first, from, agree, (times - 1) as nat);
        assert(before.draws_used <= game.step(first, before, agree).draws_used);
        lemma_repeat_determined(game, first, second, from, agree, (times - 1) as nat);
        if before.level != game.far_boundary() && before.level != 0 {
            assert(draw_at(first, before.draws_used) == draw_at(second, before.draws_used));
        }
    }
}

/// A walk reads no draw but those it consumes.
pub proof fn lemma_walk_determined(game: Game, first: Seq<u64>, second: Seq<u64>, count: nat)
    requires
        agree_below(first, second, game.walk(first, count).draws_used),
    ensures
        game.walk(second, count) == game.walk(first, count),
    decreases count,
{
    if count > 0 {
        let action = game.actions@[count - 1];
        let before = game.walk(first, (count - 1) as nat);
        lemma_repeat_grows(game, first, before, agrees(action), steps_of(action));
        lemma_walk_determined(game, first, second, (count - 1) as nat);
        lemma_repeat_determined(game, first, second, before, agrees(action), steps_of(action));
    }
}

/// Once repeated steps have reached the far boundary, more of them change nothing.
pub proof fn lemma_repeat_absorbed(
    game: Game,
    draws: Seq<u64>,
    from: Walk,
    agree: bool,
    times: nat,
    later: nat,
)
    requires
        times <= later,
        game.repeat(draws, from, agree, times).level == game.far_boundary(),
    ensures
        game.repeat(draws, from, agree, later) == game.repeat(draws, from, agree, times),
    decreases later,
{
    if times < later {
        lemma_repeat_absorbed(game, draws, from, agree, times, (later - 1) as nat);
    }
}

/// Once a walk has reached the far boundary, further actions change nothing.
pub proof fn lemma_walk_absorbed(game: Game, draws: Seq<u64>, count: nat, later: nat)
    requires
        count <= later,
        game.walk(draws, count).level == game.far_boundary(),
    ensures
        game.walk(draws, later) == game.walk(draws, count),
    decreases later,
{
    if count < later {
        let action = game.actions@[later - 1];
        lemma_walk_absorbed(game, draws, count, (later - 1) as nat);
        lemma_repeat_absorbed(
            game,
            draws,
            game.walk(draws, count),
            agrees(action),
            0,
            steps_of(action),
        );
    }
}

/// Same configuration and same draws consumed, same play-through: the
/// outcome and the number of draws consumed depend on nothing else.
pub proof fn lemma_outcome_determined(game: Game, first: Seq<u64>, second: Seq<u64>)
    requires
        agree_below(first, second, game.draws_used(first)),
    ensures
        game.outcome(second) == game.outcome(first),
        game.draws_used(second) == game.draws_used(first),
{
    lemma_walk_determined(game, first, second, game.actions@.len());
}

} // verus!
