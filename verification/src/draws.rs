//! Random draws and the sources that hand them out.
//!
//! A draw is an integer `k` with `0 <= k < DRAW_SCALE` and stands for the real
//! number `k / DRAW_SCALE` in `[0, 1)`.

use rand::Rng;
use vstd::prelude::*;

verus! {

/// The number of distinct draws: a draw `k` stands for `k / DRAW_SCALE`.
pub const DRAW_SCALE: u64 = 0x10_0000_0000_0000;

/// Where a play-through takes its draws from.
///
/// Every source remembers, in ghost state, the draws it has handed out since
/// it was made, so that contracts can speak of the draws a call consumed.
pub enum DrawSource {
    /// The thread-local generator of the `rand` crate.
    Entropy { drawn: Ghost<Seq<u64>> },
    /// A fixed script, handed out in order and started over at its end.
    Repeating { script: Vec<u64>, next: usize, drawn: Ghost<Seq<u64>> },
}

/// Whether every draw in `draws` stands for a number in `[0, 1)`.
pub open spec fn all_in_range(draws: Seq<u64>) -> bool {
    forall|i: int| 0 <= i < draws.len() ==> #[trigger] draws[i] < DRAW_SCALE
}

impl DrawSource {
    /// The draws handed out so far, oldest first.
    pub open spec fn drawn(&self) -> Seq<u64> {
        match self {
            DrawSource::Entropy { drawn } => drawn@,
            DrawSource::Repeating { drawn, .. } => drawn@,
        }
    }

    /// The script of a repeating source; empty for the entropy source.
    pub open spec fn script(&self) -> Seq<u64> {
        match self {
            DrawSource::Entropy { .. } => Seq::empty(),
            DrawSource::Repeating { script, .. } => script@,
        }
    }

    /// Whether the draws of this source are fixed in advance.
    pub open spec fn is_scripted(&self) -> bool {
        self is Repeating
    }

    /// The invariant of a source: all draws are in range, and a repeating
    /// source has handed out its script cyclically from the start.
    pub open spec fn well_formed(&self) -> bool {
        &&& all_in_range(self.drawn())
        &&& match self {
            DrawSource::Entropy { .. } => true,
            DrawSource::Repeating { script, next, drawn } => {
                &&& script@.len() > 0
                &&& all_in_range(script@)
                &&& *next == drawn@.len() % script@.len()
                &&& forall|i: int|
                    0 <= i < drawn@.len() ==> #[trigger] drawn@[i] == script@[i % script@.len() as int]
            },
        }
    }

    /// Whether `self` is `before` after it has handed out exactly `draws`.
    pub open spec fn follows(&self, before: DrawSource, draws: Seq<u64>) -> bool {
        &&& self.drawn() == before.drawn() + draws
        &&& self.is_scripted() == before.is_scripted()
        &&& self.script() == before.script()
    }

    /// The draws handed out since the source was as `before`.
    pub open spec fn drawn_since(&self, before: DrawSource) -> Seq<u64> {
        self.drawn().skip(before.drawn().len() as int)
    }

    /// The draws that a repeating source hands out next, `count` of them.
    pub open spec fn upcoming(&self, count: nat) -> Seq<u64> {
        Seq::new(
            count,
            |k: int| self.script()[(self.drawn().len() + k) % (self.script().len() as int)],
        )
    }

    /// A source that draws from the thread-local generator.
    pub fn entropy() -> (source: DrawSource)
        ensures
            source.well_formed(),
            !source.is_scripted(),
            source.drawn() == Seq::<u64>::empty(),
    {
        DrawSource::Entropy { drawn: Ghost(Seq::empty()) }
    }

    /// A source that hands out `script` in order, over and over.
    ///
    /// Returns `None` exactly when the script is empty or holds a draw that is
    /// not below `DRAW_SCALE`.
    pub fn repeating(script: Vec<u64>) -> (made: Option<DrawSource>)
        ensures
            made is Some <==> script@.len() > 0 && all_in_range(script@),
            made matches Some(source) ==> {
                &&& source.well_formed()
                &&& source.is_scripted()
                &&& source.script() == script@
                &&& source.drawn() == Seq::<u64>::empty()
            },
    {
        if script.len() == 0 {
            return None;
        }
        let mut i: usize = 0;
        while i < script.len()
            invariant
                i <= script.len(),
                forall|j: int| 0 <= j < i ==> #[trigger] script@[j] < DRAW_SCALE,
            decreases script.len() - i,
        {
            if script[i] >= DRAW_SCALE {
                return None;
            }
            i += 1;
        }
        Some(DrawSource::Repeating { script, next: 0, drawn: Ghost(Seq::empty()) })
    }

    /// Hands out the next draw.
    pub fn next_draw(&mut self) -> (draw: u64)
        requires
            old(self).well_formed(),
        ensures
            draw < DRAW_SCALE,
            final(self).well_formed(),
            final(self).follows(*old(self), seq![draw]),
    {
        match self {
            DrawSource::Entropy { drawn } => {
                let draw = uniform_below(DRAW_SCALE);
                assert(drawn@.push(draw) =~= drawn@ + seq![draw]);
                *drawn = Ghost(drawn@.push(draw));
                draw
            },
            DrawSource::Repeating { script, next, drawn } => {
                proof {
                    lemma_next_position(drawn@.len() as int, script@.len() as int);
                }
                let at: usize = *next;
                let len: usize = script.len();
                let draw = script[at];
                assert(drawn@.push(draw) =~= drawn@ + seq![draw]);
                *next = if at + 1 == len { 0 } else { at + 1 };
                *drawn = Ghost(drawn@.push(draw));
                draw
            },
        }
    }
}

/// A repeating source hands out its script in order: whatever it has handed
/// out since it was as `before` is what `before` had coming.
pub proof fn lemma_script_followed(before: DrawSource, after: DrawSource)
    requires
        before.is_scripted(),
        after.well_formed(),
        after.follows(before, after.drawn_since(before)),
    ensures
        after.drawn_since(before) == before.upcoming(after.drawn_since(before).len()),
{
    let used = after.drawn_since(before);
    assert forall|k: int| 0 <= k < used.len() implies used[k] == before.upcoming(used.len())[k] by {
        assert(used[k] == after.drawn()[before.drawn().len() + k]);
    }
    assert(used =~= before.upcoming(used.len()));
}

/// The position after `count % len` in a cycle of length `len`.
proof fn lemma_next_position(count: int, len: int)
    requires
        0 <= count,
        0 < len,
    ensures
        0 <= count % len < len,
        (count + 1) % len == if count % len + 1 == len { 0 } else { count % len + 1 },
{
    assert(0 <= count % len < len && (count + 1) % len == if count % len + 1 == len {
        0
    } else {
        count % len + 1
    }) by (nonlinear_arith)
        requires
            0 <= count,
            0 < len,
    ;
}

/// Calls `rand::Rng::gen_range` on `rand::thread_rng()` with the half-open
/// range `0..bound`.
///
/// Believed, not proved: the value lies in the range, which is all that
/// `gen_range` documents of it. Which value comes back depends on chance, so
/// nothing more is claimed, and two calls may differ. `gen_range` panics on
/// an empty range, which `requires` leaves out; `thread_rng` panics where the
/// operating system gives its generator no seed, which no input decides.
#[verifier::external_body]
fn uniform_below(bound: u64) -> (draw: u64)
    requires
        bound > 0,
    ensures
        draw < bound,
{
    rand::thread_rng().gen_range(0..bound)
}

} // verus!
