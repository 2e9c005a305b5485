//! Start boards for a goal, at a wanted distance from it: what a corpus of
//! search problems is made of.

use crate::grid::{lemma_run_tiles, undone, Grid, GridView};
use crate::heuristic::{lemma_manhattan_fits, man_dist, manhattan};
use vstd::prelude::*;

verus! {

/// The draws of one round.
pub const DRAWS: usize = 10;

/// By how many steps a walk grows or shrinks from one round to the next.
pub const STRIDE: i32 = 10;

/// The length of the walks of the next round: longer where more boards of this
/// round were too near (`below`) than too far (`above`), shorter where more
/// were too far.
pub open spec fn adjusted(steps: int, below: int, above: int) -> int {
    if below > above {
        steps + STRIDE
    } else if below < above {
        steps - STRIDE
    } else {
        steps
    }
}

/// The length of the walks of the next round: see [`adjusted`].
pub fn next_steps(steps: i32, below: i32, above: i32) -> (next: i32)
    requires
        i32::MIN + STRIDE <= steps <= i32::MAX - STRIDE,
    ensures
        next == adjusted(steps as int, below as int, above as int),
{
    if below > above {
        steps + STRIDE
    } else if below < above {
        steps - STRIDE
    } else {
        steps
    }
}

/// Whether `start` is a start board for `end`: a walk of `steps` random moves
/// from `end` leads to it, and its distance to `end` is from `min` to `max`.
pub open spec fn is_start(start: GridView, end: GridView, steps: int, min: int, max: int) -> bool {
    &&& start.wf()
    &&& start.tiles_within(end)
    &&& min <= manhattan(start, end) <= max
    &&& exists|actions: Seq<(i32, i32)>| end.walks_to(start, actions, steps)
}

/// One round of drawing start boards for `end`: up to [`DRAWS`] walks of
/// `steps` random moves from `end`, each kept if its distance to `end` is from
/// `min` to `max`, until `starts` holds `n` boards. Returns the length of the
/// walks of the next round.
pub fn gen_round(end: &Grid, starts: &mut Vec<Grid>, n: usize, steps: i32, min: i32, max: i32) -> (next:
    i32)
    requires
        end@.wf(),
        end@.size <= 1024,
        i32::MIN + STRIDE <= steps <= i32::MAX - STRIDE,
    ensures
        old(starts)@.len() <= final(starts)@.len() <= old(starts)@.len() + DRAWS,
        old(starts)@.len() <= n ==> final(starts)@.len() <= n,
        final(starts)@.subrange(0, old(starts)@.len() as int) == old(starts)@,
        forall|i: int|
            old(starts)@.len() <= i < final(starts)@.len() ==> is_start(
                (#[trigger] final(starts)@[i])@,
                end@,
                steps as int,
                min as int,
                max as int,
            ),
        exists|below: int, above: int|
            0 <= below && 0 <= above && (final(starts)@.len() == n || below + above + (final(starts)@.len() - old(starts)@.len()) == DRAWS) && below + above + (final(starts)@.len() - old(starts)@.len()) <= DRAWS && next == #[trigger] adjusted(steps as int, below, above),
{
    let mut below: i32 = 0;
    let mut above: i32 = 0;
    let mut draw: usize = 0;
    let ghost first = starts@;
    while draw < DRAWS && starts.len() != n
        invariant
            draw <= DRAWS,
            end@.wf(),
            end@.size <= 1024,
            0 <= below,
            0 <= above,
            below + above + (starts@.len() - first.len()) == draw,
            first.len() <= starts@.len(),
            first.len() <= n ==> starts@.len() <= n,
            starts@.subrange(0, first.len() as int) == first,
            forall|i: int|
                first.len() <= i < starts@.len() ==> is_start(
                    (#[trigger] starts@[i])@,
                    end@,
                    steps as int,
                    min as int,
                    max as int,
                ),
        decreases DRAWS - draw,
    {
        let start = end.rand_actions(steps);
        proof {
            let actions = choose|actions: Seq<(i32, i32)>| end@.walks_to(start@, actions, steps as int);
            assert(end@.tiles_within(end@));
            lemma_run_tiles(end@, actions, end@);
            lemma_manhattan_fits(start@, end@);
        }
        let d = man_dist(&start, end);
        let ghost before = starts@;
        if d < min {
            below = below + 1;
        } else if d > max {
            above = above + 1;
        } else {
            starts.push(start);
            proof {
                assert(starts@.subrange(0, first.len() as int) == before.subrange(
                    0,
                    first.len() as int,
                ));
                assert forall|i: int| first.len() <= i < starts@.len() implies is_start(
                    (#[trigger] starts@[i])@,
                    end@,
                    steps as int,
                    min as int,
                    max as int,
                ) by {
                    if i < before.len() {
                        assert(starts@[i] == before[i]);
                    }
                }
            }
        }
        draw = draw + 1;
    }
    let next = next_steps(steps, below, above);
    assert(next == adjusted(steps as int, below as int, above as int));
    next
}

/// Whether `start` is a start board for `end` that walks of some length give.
pub open spec fn drawn_for(start: GridView, end: GridView, min: int, max: int) -> bool {
    exists|walk: int| #[trigger] is_start(start, end, walk, min, max)
}

/// Start boards for `end` from up to `rounds` rounds of drawing: rounds go on,
/// each with walks of the length that the round before asked for, until `n`
/// boards are kept, the rounds are used up, or the walks would grow or shrink
/// beyond what an `i32` holds.
pub fn gen_starts(end: &Grid, n: usize, steps: i32, min: i32, max: i32, rounds: u64) -> (starts: Vec<
    Grid,
>)
    requires
        end@.wf(),
        end@.size <= 1024,
    ensures
        starts.len() <= n,
        rounds == 0 || !(i32::MIN + STRIDE <= steps <= i32::MAX - STRIDE) ==> starts.len() == 0,
        forall|i: int|
            0 <= i < starts.len() ==> #[trigger] drawn_for(starts[i]@, end@, min as int, max as int),
{
    let ghost first = steps;
    let mut starts: Vec<Grid> = Vec::new();
    let mut steps = steps;
    let mut round: u64 = 0;
    while round < rounds && starts.len() < n && steps >= i32::MIN + STRIDE && steps <= i32::MAX
        - STRIDE
        invariant
            end@.wf(),
            end@.size <= 1024,
            starts.len() <= n,
            round <= rounds,
            round == 0 ==> starts.len() == 0 && steps == first,
            round > 0 ==> i32::MIN + STRIDE <= first <= i32::MAX - STRIDE,
            forall|i: int|
                0 <= i < starts.len() ==> #[trigger] drawn_for(
                    starts[i]@,
                    end@,
                    min as int,
                    max as int,
                ),
        decreases rounds - round,
    {
        let ghost before = starts@;
        let ghost walk = steps as int;
        steps = gen_round(end, &mut starts, n, steps, min, max);
        proof {
            assert forall|i: int| 0 <= i < starts.len() implies #[trigger] drawn_for(
                starts[i]@,
                end@,
                min as int,
                max as int,
            ) by {
                if i < before.len() {
                    assert(starts@.subrange(0, before.len() as int)[i] == starts[i]);
                    assert(drawn_for(before[i]@, end@, min as int, max as int));
                } else {
                    assert(is_start(starts[i]@, end@, walk, min as int, max as int));
                }
            }
        }
        round = round + 1;
    }
    starts
}

impl Grid {
    /// Whether the way back from this board along `actions` stays on the
    /// board: see [`GridView::retraces`].
    pub fn can_retrace(&self, actions: &Vec<(i32, i32)>) -> (ok: bool)
        requires
            self@.wf(),
        ensures
            ok == self@.retraces(actions@),
    {
        let mut state = self.clone();
        let mut left: usize = actions.len();
        assert(actions@.subrange(0, left as int) == actions@);
        while left > 0
            invariant
                left <= actions.len(),
                state@.wf(),
                self@.retraces(actions@) == state@.retraces(actions@.subrange(0, left as int)),
            decreases left,
        {
            let ghost prefix = actions@.subrange(0, left as int);
            proof {
                assert(prefix.last() == actions[left - 1]);
                assert(prefix.drop_last() == actions@.subrange(0, left - 1));
            }
            left = left - 1;
            let act = actions[left];
            if act.0 == i32::MIN || act.1 == i32::MIN {
                return false;
            }
            let back: (i32, i32) = (-act.0, -act.1);
            if !state.valid_action(back) {
                return false;
            }
            state = state.do_action(back);
        }
        assert(actions@.subrange(0, 0).len() == 0);
        true
    }

    /// The boards on the way back from this board along `actions`: this board
    /// first, then the board before the last action was taken, and so on to
    /// the board that the actions started from.
    pub fn retrace(&self, actions: &Vec<(i32, i32)>) -> (trail: Vec<Grid>)
        requires
            self@.wf(),
            self@.retraces(actions@),
        ensures
            trail.len() == actions.len() + 1,
            trail[0]@ == self@,
            forall|i: int|
                0 <= i < actions.len() ==> (#[trigger] trail[i + 1])@ == trail[i]@.moved(
                    undone(actions[actions.len() - 1 - i]),
                ),
    {
        let mut trail: Vec<Grid> = Vec::new();
        let mut state = self.clone();
        trail.push(self.clone());
        let mut left: usize = actions.len();
        assert(actions@.subrange(0, left as int) == actions@);
        while left > 0
            invariant
                left <= actions.len(),
                state@.wf(),
                state@.retraces(actions@.subrange(0, left as int)),
                trail.len() == actions.len() - left + 1,
                trail[0]@ == self@,
                trail[trail.len() - 1]@ == state@,
                forall|i: int|
                    0 <= i < actions.len() - left ==> (#[trigger] trail[i + 1])@ == trail[i]@.moved(
                        undone(actions[actions.len() - 1 - i]),
                    ),
            decreases left,
        {
            let ghost prefix = actions@.subrange(0, left as int);
            let ghost walked = trail@;
            proof {
                assert(prefix.last() == actions[left - 1]);
                assert(prefix.drop_last() == actions@.subrange(0, left - 1));
            }
            left = left - 1;
            let act = actions[left];
            let back: (i32, i32) = (-act.0, -act.1);
            state = state.do_action(back);
            trail.push(state.clone());
            proof {
                assert forall|i: int| 0 <= i < actions.len() - left implies (
                #[trigger] trail[i + 1])@ == trail[i]@.moved(
                    undone(actions[actions.len() - 1 - i]),
                ) by {
                    if i + 1 < walked.len() {
                        assert(trail[i + 1] == walked[i + 1]);
                        assert(trail[i] == walked[i]);
                    } else {
                        assert(trail[i] == walked[i]);
                    }
                }
            }
        }
        trail
    }
}

impl GridView {
    /// Whether `actions` can be undone from this board, the last first: each
    /// can be negated, and its negation is a valid move of the board that the
    /// later ones lead back to.
    pub open spec fn retraces(self, actions: Seq<(i32, i32)>) -> bool
        decreases actions.len(),
    {
        if actions.len() == 0 {
            true
        } else {
            let last = actions.last();
            &&& last.0 > i32::MIN
            &&& last.1 > i32::MIN
            &&& self.valid(undone(last))
            &&& self.moved(undone(last)).retraces(actions.drop_last())
        }
    }
}

} // verus!
