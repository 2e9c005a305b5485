//! The search by one worker with one frontier: the reference that the search
//! by several workers is held against.

use crate::grid::{lemma_reaches_next, lemma_successors_complete, Grid, GridView};
use crate::node::{rated, 
    child_cost_overflows, children_of, estimates, lemma_estimates_successors, node_views, try_expand, Node,
    NodeView,
};
use crate::optimality::{
    awaited, booked, consistent, entered, lemma_after_child, lemma_after_pick, lemma_awaited_step,
    lemma_book_closed, lemma_first_pick, newcomer, shortest, steady,
};
use crate::queue::{is_least, NodeQueue};
use crate::statemap::StateMap;
use vstd::multiset::Multiset;
use vstd::prelude::*;

verus! {

broadcast use {vstd::multiset::group_multiset_axioms, vstd::multiset::group_multiset_properties};

/// Why a search ended without an answer.
#[derive(Debug, Clone, Copy, PartialEq, Eq, Structural)]
pub enum Halt {
    /// The rounds granted were used up.
    OutOfRounds,
    /// A board was reached whose successor has a cost that is no `i32`.
    CostOverflow,
}

/// How a search ended.
#[derive(Debug)]
pub struct Report {
    /// The goal's node, `None` where the goal cannot be reached, or why the
    /// search gave up.
    pub result: Result<Option<Node>, Halt>,
    /// The nodes taken from the frontier.
    pub rounds: u64,
    /// The nodes expanded.
    pub expanded: u64,
}

/// Whether the search knows of board `s`: it is closed, or a node of it waits
/// in the frontier.
pub open spec fn covered(open: Multiset<NodeView>, closed: Map<GridView, int>, s: GridView) -> bool {
    closed.contains_key(s) || exists|n: NodeView| #[trigger] open.contains(n) && n.state == s
}

/// Whether a search from `init` for `end` reaches a board whose successor has
/// a cost that is no `i32`.
pub open spec fn overflows<H: Fn(&Grid, &Grid) -> i32>(init: GridView, end: GridView, h_func: H) -> bool {
    exists|node: Node, goal: Grid|
        goal@ == end && node@.grounded(init, end) && #[trigger] child_cost_overflows(
            node,
            &goal,
            h_func,
        )
}

/// Whether a search from `init` for `end` reaches the goal at the cost that
/// stands for "no solution".
pub open spec fn unpriced(init: GridView, end: GridView) -> bool {
    exists|node: Node| #[trigger]
        node@.grounded(init, end) && node.state@ == end && node.f == i32::MAX
}

/// What a search holds between two rounds: the nodes that wait, and the
/// boards that are closed, each with the `g` it was closed at.
#[verifier::ext_equal]
pub struct Stage {
    pub open: Multiset<NodeView>,
    pub closed: Map<GridView, int>,
}

/// The stage after successor `c` is dealt with: it is dropped where its board
/// is closed at no more than its `g`; else it waits, and its board is closed
/// no longer.
pub open spec fn taken_in(stage: Stage, c: NodeView) -> Stage {
    if stage.closed.contains_key(c.state) && stage.closed[c.state] <= c.g {
        stage
    } else {
        Stage { open: stage.open.insert(c), closed: stage.closed.remove(c.state) }
    }
}

/// The stage after the successors `children` are dealt with, the last first.
pub open spec fn absorbed(stage: Stage, children: Seq<NodeView>) -> Stage
    decreases children.len(),
{
    if children.len() == 0 {
        stage
    } else {
        absorbed(taken_in(stage, children.last()), children.drop_last())
    }
}

/// Whether a round that expands leads from `before` to `after`: a node of
/// least `f`, not of the goal, is taken from those that wait, its board is
/// closed at its `g`, and its successors are dealt with.
pub open spec fn expands<H: Fn(&Grid, &Grid) -> i32>(
    before: Stage,
    after: Stage,
    end: GridView,
    h_func: H,
) -> bool {
    exists|node: Node, goal: Grid, children: Seq<Node>|
        goal@ == end && is_least(before.open, node@) && node.state@ != end && #[trigger] children_of(
            children,
            node,
            &goal,
            h_func,
        ) && after == absorbed(
            Stage {
                open: before.open.remove(node@),
                closed: before.closed.insert(node.state@, node.g as int),
            },
            node_views(children),
        )
}

/// Whether `trace` are the stages of a search from `init` for `end`: at first
/// the start's node waits alone, at `g` 0 and with an answer of the estimate;
/// each further stage comes from the one before by a round that expands.
pub open spec fn walked<H: Fn(&Grid, &Grid) -> i32>(
    trace: Seq<Stage>,
    init: GridView,
    end: GridView,
    h_func: H,
) -> bool {
    &&& trace.len() > 0
    &&& exists|r: int| #[trigger]
        rated(h_func, end, init, r) && trace[0] == (Stage {
            open: Multiset::empty().insert(NodeView { state: init, f: r, g: 0, h: r }),
            closed: Map::empty(),
        })
    &&& forall|i: int|
        0 <= i < trace.len() - 1 ==> expands(#[trigger] trace[i], trace[i + 1], end, h_func)
}

/// Whether the search that has come to stage `last` ends as `report` says:
/// with a node of the goal that is a cheapest of those that wait; with none
/// where nothing waits; out of rounds where as many rounds as were granted
/// have expanded and a node still waits; or at a cheapest node whose successor
/// has a cost that is no `i32`.
pub open spec fn closes<H: Fn(&Grid, &Grid) -> i32>(
    last: Stage,
    report: Report,
    rounds: u64,
    end: GridView,
    h_func: H,
) -> bool {
    match report.result {
        Ok(Some(node)) => is_least(last.open, node@) && node.state@ == end && report.rounds
            == report.expanded + 1,
        Ok(None) => last.open.len() == 0 && report.rounds == report.expanded,
        Err(Halt::OutOfRounds) => last.open.len() > 0 && report.rounds == rounds && report.expanded
            == rounds,
        Err(Halt::CostOverflow) => report.rounds == report.expanded + 1 && exists|
            node: Node,
            goal: Grid,
        |
            goal@ == end && is_least(last.open, node@) && node.state@ != end
                && #[trigger] child_cost_overflows(node, &goal, h_func),
    }
}

/// Whether every successor of a closed board, `but` aside, is known.
pub open spec fn closed_under_moves(
    open: Multiset<NodeView>,
    closed: Map<GridView, int>,
    but: Option<GridView>,
) -> bool {
    forall|s: GridView, t: GridView|
        closed.contains_key(s) && Some(s) != but && #[trigger] s.steps_to(t) ==> covered(
            open,
            closed,
            t,
        )
}

/// Where nothing waits in the frontier, every board that can be reached is
/// closed.
pub proof fn lemma_exhausted(closed: Map<GridView, int>, init: GridView, to: GridView, steps: nat)
    requires
        covered(Multiset::empty(), closed, init),
        closed_under_moves(Multiset::empty(), closed, None),
        init.reaches(to, steps),
    ensures
        closed.contains_key(to),
    decreases steps,
{
    if steps > 0 {
        let mid = choose|mid: GridView|
            init.reaches(mid, (steps - 1) as nat) && #[trigger] mid.steps_to(to);
        lemma_exhausted(closed, init, mid, (steps - 1) as nat);
        assert(covered(Multiset::empty(), closed, to));
    }
}

/// Searches for `end_state` from `init_state`, cheapest `f` first, for at
/// most `rounds` nodes taken from the frontier.
///
/// A node that is returned stands for a path of `g` valid moves from
/// `init_state` to `end_state`, and for a shortest one where the estimate is
/// consistent. `Ok(None)` says that no path exists.
pub fn astar<H: Fn(&Grid, &Grid) -> i32>(
    init_state: &Grid,
    end_state: &Grid,
    h_func: H,
    rounds: u64,
) -> (report: Report)
    requires
        init_state@.wf(),
        end_state@.wf(),
        init_state@.tiles_within(end_state@),
        estimates(h_func, end_state@),
    ensures
        report.expanded <= report.rounds <= rounds,
        match report.result {
            Ok(Some(node)) => {
                &&& node.state@ == end_state@
                &&& node.g >= 0
                &&& node.f == node.g + node.h
                &&& rated(h_func, end_state@, node.state@, node.h as int)
                &&& init_state@.reaches(end_state@, node.g as nat)
            },
            Ok(None) => forall|steps: nat| !init_state@.reaches(end_state@, steps),
            Err(Halt::OutOfRounds) => report.rounds == rounds,
            Err(Halt::CostOverflow) => overflows(init_state@, end_state@, h_func),
        },
        init_state@ == end_state@ && rounds > 0 ==> report.rounds == 1 && report.expanded == 0 && (
        report.result matches Ok(Some(node)) && node.g == 0 && node.f == node.h),
        rounds == 0 ==> report.result == Err::<Option<Node>, Halt>(Halt::OutOfRounds),
        exists|trace: Seq<Stage>| #[trigger]
            walked(trace, init_state@, end_state@, h_func) && trace.len() == report.expanded + 1
                && closes(trace.last(), report, rounds, end_state@, h_func),
        consistent(h_func, end_state@) ==> (report.result matches Ok(Some(node)) ==> shortest(
            init_state@,
            end_state@,
            node.g as int,
        )),
{
    let ghost init = init_state@;
    let ghost end = end_state@;
    let h: i32 = h_func(init_state, end_state);
    let start = Node { state: init_state.clone(), f: h, g: 0, h };
    let mut open = NodeQueue::new();
    let mut closed = StateMap::new();
    open.push(start);
    let mut taken: u64 = 0;
    let mut expanded: u64 = 0;
    let ghost mut trace: Seq<Stage> = seq![Stage { open: open@, closed: closed@ }];
    proof {
        assert(rated(h_func, end, init, h as int)) by {
            assert(init_state@ == init && end_state@ == end && call_ensures(
                h_func,
                (init_state, end_state),
                h,
            ));
        }
        assert(closed@ =~= Map::<GridView, int>::empty());
        assert(trace[0] == (Stage {
            open: Multiset::empty().insert(
                NodeView { state: init, f: h as int, g: 0, h: h as int },
            ),
            closed: Map::empty(),
        }));
        assert(walked(trace, init, end, h_func));
    }
    let ghost tame = consistent(h_func, end);
    let ghost hv = choose|hv: spec_fn(GridView) -> int| steady(h_func, end, hv);
    let ghost mut best: Map<GridView, int> = Map::empty();
    proof {
        assert(init.reaches(init, 0));
        assert(open@.contains(start@));
        assert forall|n: NodeView| #[trigger] open@.contains(n) implies n.grounded(init, end) && rated(
            h_func,
            end,
            n.state,
            n.h,
        ) by {
            assert(n == start@);
        }
        if tame {
            assert(start.h == hv(init));
            assert(open@.contains(start@) && start@.state == init && start@.g <= 0);
            assert forall|n: NodeView| #[trigger] open@.contains(n) implies n.h == hv(n.state) && n.f
                == n.g + n.h by {
                assert(n == start@);
            }
            assert(booked(open@, closed@, best, init, end, hv, None));
        }
    }
    while taken < rounds
        invariant
            init == init_state@,
            end == end_state@,
            init.wf(),
            end.wf(),
            init.tiles_within(end),
            estimates(h_func, end_state@),
            closed.wf(),
            open.wf(),
            expanded <= taken <= rounds,
            forall|n: NodeView| #[trigger] open@.contains(n) ==> n.grounded(init, end) && rated(
                h_func,
                end,
                n.state,
                n.h,
            ),
            covered(open@, closed@, init),
            closed_under_moves(open@, closed@, None),
            !closed@.contains_key(end),
            taken == 0 ==> expanded == 0 && open@ == Multiset::<NodeView>::empty().insert(start@)
                && start@.state == init && start@.g == 0,
            taken > 0 ==> init != end,
            tame == consistent(h_func, end),
            tame ==> steady(h_func, end, hv) && booked(open@, closed@, best, init, end, hv, None),
            walked(trace, init, end, h_func),
            trace.last() == (Stage { open: open@, closed: closed@ }),
            trace.len() == expanded + 1,
            taken == expanded,
        decreases rounds - taken,
    {
        let ghost waiting = open@;
        let ghost settled = closed@;
        let node = match open.pop() {
            Some(node) => node,
            None => {
                proof {
                    assert(open@ =~= Multiset::<NodeView>::empty()) by {
                        vstd::multiset::lemma_multiset_empty_len(open@);
                    }
                    assert forall|steps: nat| !init.reaches(end, steps) by {
                        if init.reaches(end, steps) {
                            lemma_exhausted(closed@, init, end, steps);
                        }
                    }
                }
                return Report { result: Ok(None), rounds: taken, expanded };
            },
        };
        assert(waiting.contains(node@));
        assert(node@.grounded(init, end));
        assert(taken == 0 ==> node@ == start@);
        assert forall|n: NodeView| #[trigger] open@.contains(n) implies n.grounded(init, end) && rated(
            h_func,
            end,
            n.state,
            n.h,
        ) by {
            assert(waiting.contains(n));
        }
        proof {
            if tame && !best.contains_key(node@.state) {
                lemma_first_pick(waiting, settled, best, init, end, hv, node@);
            }
        }
        taken = taken + 1;
        if node.state.same_as(end_state) {
            return Report { result: Ok(Some(node)), rounds: taken, expanded };
        }
        proof {
            lemma_estimates_successors(h_func, end_state, node.state@);
        }
        let mut children = match try_expand(&node, end_state, &h_func) {
            Some(children) => children,
            None => {
                assert(child_cost_overflows(node, end_state, h_func));
                return Report { result: Err(Halt::CostOverflow), rounds: taken, expanded };
            },
        };
        expanded = expanded + 1;
        closed.insert(node.state.clone(), node.g);
        let ghost parent = node.state@;
        let ghost brood = children@;
        let ghost target = absorbed(Stage { open: open@, closed: closed@ }, node_views(brood));
        proof {
            assert forall|j: int| 0 <= j < children.len() implies rated(
                h_func,
                end,
                (#[trigger] children[j]).state@,
                children[j].h as int,
            ) by {
                assert(crate::node::is_child(children[j], node, end_state, h_func));
                assert(children[j].state@ == children[j].state@ && end_state@ == end && call_ensures(
                    h_func,
                    (&children[j].state, end_state),
                    children[j].h,
                ));
            }
        }
        let ghost but = if tame {
            newcomer(best, node@)
        } else {
            None
        };
        proof {
            if tame {
                lemma_after_pick(waiting, settled, best, init, end, hv, node@);
                best = entered(best, node@);
                assert forall|j: int| 0 <= j < children.len() implies (#[trigger] children[j]).h
                    == hv(children[j].state@) by {
                    assert(crate::node::is_child(children[j], node, end_state, h_func));
                }
                if but is Some {
                    assert forall|u: GridView| #[trigger] parent.steps_to(u) implies exists|j: int|
                        0 <= j < children.len() && (#[trigger] children[j]).state@ == u by {
                        lemma_successors_complete(parent, u);
                        let succ = parent.successors();
                        let j = choose|j: int| 0 <= j < succ.len() && succ[j] == u;
                        assert(children[j].state@ == u);
                    }
                }
            }
        }
        proof {
            assert forall|s: GridView| covered(waiting, settled, s) implies covered(
                open@,
                closed@,
                s,
            ) by {
                if !settled.contains_key(s) && s != parent {
                    let m = choose|m: NodeView| #[trigger] waiting.contains(m) && m.state == s;
                    assert(open@.contains(m) && m.state == s);
                }
            }
            assert forall|t: GridView| parent.steps_to(t) implies covered(open@, closed@, t) || exists|
                j: int,
            |
                0 <= j < children.len() && (#[trigger] children[j]).state@ == t by {
                lemma_successors_complete(parent, t);
                let succ = parent.successors();
                let j = choose|j: int| 0 <= j < succ.len() && succ[j] == t;
                assert(children[j].state@ == t);
            }
        }
        while children.len() > 0
            invariant
                init == init_state@,
                end == end_state@,
                closed.wf(),
                open.wf(),
                parent == node.state@,
                parent != end,
                node@.grounded(init, end),
                forall|n: NodeView| #[trigger] open@.contains(n) ==> n.grounded(init, end) && rated(
                h_func,
                end,
                n.state,
                n.h,
            ),
                covered(open@, closed@, init),
                closed_under_moves(open@, closed@, Some(parent)),
                !closed@.contains_key(end),
                forall|j: int|
                    0 <= j < children.len() ==> {
                        &&& parent.steps_to((#[trigger] children[j]).state@)
                        &&& children[j].state@.wf()
                        &&& children[j].state@.tiles_within(end)
                        &&& children[j].g == node.g + 1
                        &&& children[j].f == children[j].g + children[j].h
                        &&& rated(h_func, end, children[j].state@, children[j].h as int)
                    },
                forall|t: GridView| #[trigger]
                    parent.steps_to(t) ==> covered(open@, closed@, t) || exists|j: int|
                        0 <= j < children.len() && (#[trigger] children[j]).state@ == t,
                absorbed(Stage { open: open@, closed: closed@ }, node_views(children@)) == target,
                tame == consistent(h_func, end),
                tame ==> steady(h_func, end, hv) && booked(open@, closed@, best, init, end, hv, but),
                tame ==> forall|j: int|
                    0 <= j < children.len() ==> (#[trigger] children[j]).h == hv(children[j].state@),
                !tame ==> but is None,
                but is Some ==> but == Some(parent) && best.contains_key(parent) && best[parent]
                    == node.g && awaited(open@, best, children@, parent, node.g as int),
            decreases children.len(),
        {
            let ghost rest = children@;
            let ghost waiting = open@;
            let ghost settled = closed@;
            match children.pop() {
                Some(child) => {
                    proof {
                        assert(child == rest[rest.len() - 1]);
                        lemma_reaches_next(init, parent, child.state@, node.g as nat);
                        assert(child@.grounded(init, end));
                    }
                    let keep = match closed.get(&child.state) {
                        Some(g) => {
                            if child.g < g {
                                closed.remove(&child.state);
                                true
                            } else {
                                false
                            }
                        },
                        None => true,
                    };
                    if keep {
                        open.push(child);
                    }
                    proof {
                        assert(node_views(rest).last() == child@);
                        assert(node_views(rest).drop_last() =~= node_views(children@));
                        assert((Stage { open: open@, closed: closed@ }) =~= taken_in(
                            Stage { open: waiting, closed: settled },
                            child@,
                        ));
                    }
                    proof {
                        if tame {
                            assert(child.h == hv(child.state@));
                            lemma_after_child(waiting, settled, best, init, end, hv, but, child@, keep);
                            if but is Some {
                                lemma_awaited_step(waiting, best, rest, parent, node.g as int, keep);
                                assert(children@ =~= rest.drop_last());
                            }
                            assert forall|j: int| 0 <= j < children.len() implies (
                            #[trigger] children[j]).h == hv(children[j].state@) by {
                                assert(children[j] == rest[j]);
                            }
                        }
                    }
                    proof {
                        assert forall|s: GridView| covered(waiting, settled, s) implies covered(
                            open@,
                            closed@,
                            s,
                        ) by {
                            if settled.contains_key(s) {
                                if !closed@.contains_key(s) {
                                    assert(open@.contains(child@) && child@.state == s);
                                }
                            } else {
                                let m = choose|m: NodeView| #[trigger]
                                    waiting.contains(m) && m.state == s;
                                assert(open@.contains(m) && m.state == s);
                            }
                        }
                        assert(covered(open@, closed@, child.state@)) by {
                            if keep {
                                assert(open@.contains(child@) && child@.state == child.state@);
                            }
                        }
                        assert forall|n: NodeView| #[trigger] open@.contains(n) implies n.grounded(
                            init,
                            end,
                        ) && rated(h_func, end, n.state, n.h) by {
                            if n != child@ {
                                assert(waiting.contains(n));
                            }
                        }
                        assert forall|t: GridView| #[trigger] parent.steps_to(t) implies covered(
                            open@,
                            closed@,
                            t,
                        ) || exists|j: int|
                            0 <= j < children.len() && (#[trigger] children[j]).state@ == t by {
                            if !covered(waiting, settled, t) {
                                let j = choose|j: int|
                                    0 <= j < rest.len() && (#[trigger] rest[j]).state@ == t;
                                if j < children.len() {
                                    assert(children[j].state@ == t);
                                }
                            }
                        }
                        assert forall|j: int| 0 <= j < children.len() implies {
                            &&& parent.steps_to((#[trigger] children[j]).state@)
                            &&& children[j].state@.wf()
                            &&& children[j].state@.tiles_within(end)
                            &&& children[j].g == node.g + 1
                            &&& children[j].f == children[j].g + children[j].h
                            &&& rated(h_func, end, children[j].state@, children[j].h as int)
                        &&& rated(h_func, end, children[j].state@, children[j].h as int)
                        } by {
                            assert(children[j] == rest[j]);
                        }
                    }
                },
                None => {},
            }
        }
        proof {
            if but is Some {
                assert(children@ =~= Seq::<Node>::empty());
                lemma_book_closed(open@, closed@, best, init, end, hv, parent);
            }
            assert(node_views(children@).len() == 0);
            let grown = trace.push(target);
            assert(expands(trace.last(), target, end, h_func)) by {
                assert(end_state@ == end && is_least(waiting, node@) && node.state@ != end
                    && children_of(brood, node, end_state, h_func));
            }
            assert forall|i: int| 0 <= i < grown.len() - 1 implies expands(
                #[trigger] grown[i],
                grown[i + 1],
                end,
                h_func,
            ) by {
                if i < trace.len() - 1 {
                    assert(grown[i] == trace[i] && grown[i + 1] == trace[i + 1]);
                }
            }
            assert(grown[0] == trace[0]);
            trace = grown;
        }
    }
    if open.is_empty() {
        proof {
            assert(open@ =~= Multiset::<NodeView>::empty()) by {
                vstd::multiset::lemma_multiset_empty_len(open@);
            }
            assert forall|steps: nat| !init.reaches(end, steps) by {
                if init.reaches(end, steps) {
                    lemma_exhausted(closed@, init, end, steps);
                }
            }
        }
        Report { result: Ok(None), rounds: taken, expanded }
    } else {
        Report { result: Err(Halt::OutOfRounds), rounds: taken, expanded }
    }
}

} // verus!
