//! Laws of the game: what holds of every play-through, and what holds of
//! the walks of a sure coin and of an impossible one.

use crate::draws::{all_in_range, lemma_script_followed, DrawSource, DRAW_SCALE};
use crate::game::{agrees, draw_at, steps_of, Game, Walk};
use crate::outcome::Winner;
use crate::walk::{agree_below, lemma_outcome_determined};
use vstd::arithmetic::div_mod::lemma_add_mod_noop;
use vstd::prelude::*;

verus! {

/// How many single steps the first `count` actions stand for.
pub open spec fn steps_within(actions: Seq<isize>, count: nat) -> nat
    decreases count,
{
    if count == 0 {
        0
    } else {
        steps_within(actions, (count - 1) as nat) + steps_of(actions[count - 1])
    }
}

/// How many single steps all the actions stand for.
pub open spec fn total_steps(actions: Seq<isize>) -> nat {
    steps_within(actions, actions.len())
}

/// Whether every action is positive.
pub open spec fn all_agree(actions: Seq<isize>) -> bool {
    forall|i: int| 0 <= i < actions.len() ==> #[trigger] actions[i] > 0
}

/// Whether every action is negative.
pub open spec fn all_disagree(actions: Seq<isize>) -> bool {
    forall|i: int| 0 <= i < actions.len() ==> #[trigger] actions[i] < 0
}

/// The smaller of two numbers.
pub open spec fn at_most(value: nat, bound: nat) -> nat {
    if value <= bound {
        value
    } else {
        bound
    }
}

/// Whether a play-through can stand `times` steps into the action at
/// position `count`.
pub open spec fn is_midway(game: Game, count: nat, times: nat) -> bool {
    count < game.actions@.len() && times <= steps_of(game.actions@[count as int])
}

/// The walk `times` steps into the action at position `count`. A play-through
/// passes through these walks and no others, until it ends.
pub open spec fn midway(game: Game, draws: Seq<u64>, count: nat, times: nat) -> Walk {
    game.repeat(draws, game.walk(draws, count), agrees(game.actions@[count as int]), times)
}

/// Later actions only add steps.
pub proof fn lemma_steps_within_grows(actions: Seq<isize>, count: nat, later: nat)
    requires
        count <= later,
    ensures
        steps_within(actions, count) <= steps_within(actions, later),
    decreases later,
{
    if count < later {
        lemma_steps_within_grows(actions, count, (later - 1) as nat);
    }
}

/// What holds of a walk that has made `steps` steps: it has left level 0
/// exactly if it has made a step, it stands no higher than its steps and the
/// far boundary allow, and it has consumed no draw for its first step and at
/// most one for each other.
pub open spec fn bounded_after(game: Game, at: Walk, steps: nat) -> bool {
    &&& at.level <= game.far_boundary()
    &&& at.level <= steps
    &&& at.level == 0 <==> steps == 0
    &&& at.draws_used <= steps
    &&& steps > 0 ==> at.draws_used < steps
}

/// Repeated steps keep a walk within its bounds.
proof fn lemma_repeat_bounded(
    game: Game,
    draws: Seq<u64>,
    from: Walk,
    agree: bool,
    steps: nat,
    times: nat,
)
    requires
        bounded_after(game, from, steps),
    ensures
        bounded_after(game, game.repeat(draws, from, agree, times), steps + times),
    decreases times,
{
    if times > 0 {
        lemma_repeat_bounded(game, draws, from, agree, steps, (times - 1) as nat);
    }
}

/// The walk after whole actions stays within its bounds.
proof fn lemma_walk_bounded(game: Game, draws: Seq<u64>, count: nat)
    ensures
        bounded_after(game, game.walk(draws, count), steps_within(game.actions@, count)),
    decreases count,
{
    if count > 0 {
        let action = game.actions@[count - 1];
        lemma_walk_bounded(game, draws, (count - 1) as nat);
        lemma_repeat_bounded(
            game,
            draws,
            game.walk(draws, (count - 1) as nat),
            agrees(action),
            steps_within(game.actions@, (count - 1) as nat),
            steps_of(action),
        );
    }
}

/// A play-through is finite and stays on the board: whatever the draws, the
/// walk never leaves the levels from 0 to the far boundary, never comes back
/// to level 0, and consumes fewer draws than its actions have steps.
pub proof fn lemma_play_bounded(game: Game, draws: Seq<u64>)
    ensures
        forall|count: nat, times: nat|
            is_midway(game, count, times) ==> bounded_after(
                game,
                #[trigger] midway(game, draws, count, times),
                steps_within(game.actions@, count) + times,
            ),
        game.outcome(draws) == Winner::Leader || game.outcome(draws) == Winner::Follower,
        game.draws_used(draws) <= total_steps(game.actions@),
        total_steps(game.actions@) > 0 ==> game.draws_used(draws) < total_steps(game.actions@),
{
    assert forall|count: nat, times: nat| is_midway(game, count, times) implies bounded_after(
        game,
        #[trigger] midway(game, draws, count, times),
        steps_within(game.actions@, count) + times,
    ) by {
        lemma_walk_bounded(game, draws, count);
        lemma_repeat_bounded(
            game,
            draws,
            game.walk(draws, count),
            agrees(game.actions@[count as int]),
            steps_within(game.actions@, count),
            times,
        );
    }
    lemma_walk_bounded(game, draws, game.actions@.len());
}

/// With no more steps than middle levels the walk cannot reach the far
/// boundary: the Leader wins, whatever the draws and the probability.
pub proof fn lemma_too_few_steps(game: Game, draws: Seq<u64>)
    requires
        total_steps(game.actions@) <= game.middle_levels_count,
    ensures
        game.outcome(draws) == Winner::Leader,
{
    lemma_walk_bounded(game, draws, game.actions@.len());
}

/// Two play-throughs of one game on repeating sources with the same script at
/// the same position consume the same draws and end alike. Of each
/// play-through the lemma asks what `Game::play` ensures.
pub proof fn lemma_scripted_play_repeats(
    game: Game,
    first: DrawSource,
    first_after: DrawSource,
    second: DrawSource,
    second_after: DrawSource,
)
    requires
        first.is_scripted(),
        second.is_scripted(),
        first.script() == second.script(),
        first.script().len() > 0,
        first.drawn().len() % first.script().len() == second.drawn().len() % second.script().len(),
        first_after.well_formed(),
        first_after.follows(first, first_after.drawn_since(first)),
        first_after.drawn_since(first).len() == game.draws_used(first_after.drawn_since(first)),
        second_after.well_formed(),
        second_after.follows(second, second_after.drawn_since(second)),
        second_after.drawn_since(second).len() == game.draws_used(
            second_after.drawn_since(second),
        ),
    ensures
        first_after.drawn_since(first) == second_after.drawn_since(second),
        game.outcome(first_after.drawn_since(first)) == game.outcome(
            second_after.drawn_since(second),
        ),
{
    let one = first_after.drawn_since(first);
    let other = second_after.drawn_since(second);
    let len = first.script().len() as int;
    lemma_script_followed(first, first_after);
    lemma_script_followed(second, second_after);
    assert forall|k: int| 0 <= k < one.len() && k < other.len() implies one[k] == other[k] by {
        lemma_add_mod_noop(first.drawn().len() as int, k, len);
        lemma_add_mod_noop(second.drawn().len() as int, k, len);
    }
    if one.len() <= other.len() {
        assert(agree_below(one, other, one.len()));
        lemma_outcome_determined(game, one, other);
    } else {
        assert(agree_below(other, one, other.len()));
        lemma_outcome_determined(game, other, one);
    }
    assert(one =~= other);
}

/// With probability one and agreement, repeated steps climb one level each
/// until the far boundary.
proof fn lemma_repeat_climbs(game: Game, draws: Seq<u64>, from: Walk, times: nat)
    requires
        game.probability_of_go_from_center == DRAW_SCALE,
        all_in_range(draws),
        from.level <= game.far_boundary(),
    ensures
        game.repeat(draws, from, true, times).level == at_most(
            from.level + times,
            game.far_boundary(),
        ),
    decreases times,
{
    if times > 0 {
        let before = game.repeat(draws, from, true, (times - 1) as nat);
        lemma_repeat_climbs(game, draws, from, (times - 1) as nat);
        assert(draw_at(draws, before.draws_used) <= DRAW_SCALE);
    }
}

/// With probability one and every action positive, the walk after whole
/// actions stands at the number of steps made, or at the far boundary if
/// that is nearer.
proof fn lemma_walk_climbs(game: Game, draws: Seq<u64>, count: nat)
    requires
        game.probability_of_go_from_center == DRAW_SCALE,
        all_agree(game.actions@),
        all_in_range(draws),
        count <= game.actions@.len(),
    ensures
        game.walk(draws, count).level == at_most(
            steps_within(game.actions@, count),
            game.far_boundary(),
        ),
    decreases count,
{
    if count > 0 {
        let action = game.actions@[count - 1];
        lemma_walk_climbs(game, draws, (count - 1) as nat);
        lemma_repeat_climbs(game, draws, game.walk(draws, (count - 1) as nat), steps_of(action));
    }
}

/// With probability one and every action positive, every step advances,
/// whatever the draws: the walk stands at the number of steps made until it
/// reaches the far boundary, and the Follower wins exactly when the actions
/// stand for more steps than there are middle levels.
pub proof fn lemma_sure_advance(game: Game, draws: Seq<u64>)
    requires
        game.probability_of_go_from_center == DRAW_SCALE,
        all_agree(game.actions@),
        all_in_range(draws),
    ensures
        forall|count: nat, times: nat|
            is_midway(game, count, times) ==> (#[trigger] midway(game, draws, count, times)).level
                == at_most(steps_within(game.actions@, count) + times, game.far_boundary()),
        game.outcome(draws) == Winner::Follower <==> total_steps(game.actions@)
            > game.middle_levels_count,
{
    assert forall|count: nat, times: nat| is_midway(game, count, times) implies (#[trigger] midway(
        game,
        draws,
        count,
        times,
    )).level == at_most(steps_within(game.actions@, count) + times, game.far_boundary()) by {
        lemma_walk_climbs(game, draws, count);
        lemma_repeat_climbs(game, draws, game.walk(draws, count), times);
    }
    lemma_walk_climbs(game, draws, game.actions@.len());
}

/// Whether a walk that has made `steps` steps stands where a walk stands that
/// was never moved past level 1.
pub open spec fn held_after(at: Walk, steps: nat) -> bool {
    if steps == 0 {
        at.level == 0 && at.draws_used == 0
    } else {
        at.level == 1 && at.draws_used + 1 == steps
    }
}

/// With probability zero and disagreement, repeated steps on draws of zero
/// hold the walk at level 1.
proof fn lemma_repeat_held(game: Game, draws: Seq<u64>, from: Walk, steps: nat, times: nat)
    requires
        game.middle_levels_count >= 1,
        game.probability_of_go_from_center == 0,
        held_after(from, steps),
        forall|i: nat| i + 1 < steps + times ==> #[trigger] draw_at(draws, i) == 0,
    ensures
        held_after(game.repeat(draws, from, false, times), steps + times),
    decreases times,
{
    if times > 0 {
        let before = game.repeat(draws, from, false, (times - 1) as nat);
        lemma_repeat_held(game, draws, from, steps, (times - 1) as nat);
        if before.level == 1 {
            assert(draw_at(draws, before.draws_used) == 0);
        }
    }
}

/// With probability zero, every action negative and every draw consumed
/// equal to zero, the walk after whole actions stands at level 1.
proof fn lemma_walk_held(game: Game, draws: Seq<u64>, count: nat)
    requires
        game.middle_levels_count >= 1,
        game.probability_of_go_from_center == 0,
        all_disagree(game.actions@),
        count <= game.actions@.len(),
        forall|i: nat|
            i + 1 < steps_within(game.actions@, count) ==> #[trigger] draw_at(draws, i) == 0,
    ensures
        held_after(game.walk(draws, count), steps_within(game.actions@, count)),
    decreases count,
{
    if count > 0 {
        let action = game.actions@[count - 1];
        lemma_walk_held(game, draws, (count - 1) as nat);
        lemma_repeat_held(
            game,
            draws,
            game.walk(draws, (count - 1) as nat),
            steps_within(game.actions@, (count - 1) as nat),
            steps_of(action),
        );
    }
}

/// With probability zero and every action negative, a draw of zero never
/// advances: where every draw consumed is zero, the walk never rises above
/// level 1 and the Leader wins, however long the action list is. A draw
/// above zero does advance such a walk, so the draws must be zero.
pub proof fn lemma_never_advance(game: Game, draws: Seq<u64>)
    requires
        game.middle_levels_count >= 1,
        game.probability_of_go_from_center == 0,
        all_disagree(game.actions@),
        forall|i: nat|
            i + 1 < total_steps(game.actions@) ==> #[trigger] draw_at(draws, i) == 0,
    ensures
        forall|count: nat, times: nat|
            is_midway(game, count, times) ==> (#[trigger] midway(game, draws, count, times)).level
                <= 1,
        game.outcome(draws) == Winner::Leader,
        forall|level: nat, draw: u64|
            level >= 1 && draw > 0 ==> #[trigger] game.moved(level, false, draw) == level + 1,
{
    assert forall|count: nat, times: nat| is_midway(game, count, times) implies (#[trigger] midway(
        game,
        draws,
        count,
        times,
    )).level <= 1 by {
        lemma_steps_within_grows(game.actions@, count + 1, game.actions@.len());
        lemma_walk_held(game, draws, count);
        lemma_repeat_held(
            game,
            draws,
            game.walk(draws, count),
            steps_within(game.actions@, count),
            times,
        );
    }
    lemma_walk_held(game, draws, game.actions@.len());
}

} // verus!
