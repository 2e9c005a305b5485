//! Why the `h` of every node of a search by turns, and so of the node it
//! returns, is an answer of the estimate for the node's board.

use crate::baseline::Report;
use crate::coordinator::{arrivals, finished, played, turned, went_on, Beat, Team, Turn};
use crate::grid::{Grid, GridView};
use crate::hash::StateHash;
use crate::incumbent::NO_SOLUTION;
use crate::node::{is_child, node_views, rated, Node, NodeView};
use crate::router::Router;
use crate::worker::{kept, routed_nodes, sent, Frontier};
use vstd::prelude::*;

verus! {

broadcast use {vstd::multiset::group_multiset_axioms, vstd::multiset::group_multiset_properties};

/// Whether the `h` of each of `nodes` is an answer of `h_func` for the node's
/// board and the goal `end`.
pub open spec fn all_rated<H: Fn(&Grid, &Grid) -> i32>(nodes: Seq<NodeView>, end: GridView, h_func: H) -> bool {
    forall|j: int| 0 <= j < nodes.len() ==> rated(h_func, end, (#[trigger] nodes[j]).state, nodes[j].h)
}

/// Whether the `h` of each node in the queue of `front` is an answer of
/// `h_func` for the node's board and the goal `end`.
pub open spec fn queue_rated<H: Fn(&Grid, &Grid) -> i32>(front: Frontier, end: GridView, h_func: H) -> bool {
    forall|n: NodeView| #[trigger] front.queue.contains(n) ==> rated(h_func, end, n.state, n.h)
}

/// Whether the `h` of each node that waits at worker `i` of `team`, in its
/// queue or arrived, is an answer of `h_func` for the node's board.
pub open spec fn rated_at<H: Fn(&Grid, &Grid) -> i32>(team: Team, i: int, h_func: H) -> bool {
    &&& queue_rated(team.workers[i].frontier(), team.goal@, h_func)
    &&& all_rated(node_views(team.workers[i].inbox@), team.goal@, h_func)
}

/// Whether the `h` of each node that waits at a worker of `team` is an answer
/// of `h_func` for the node's board.
pub open spec fn team_rated<H: Fn(&Grid, &Grid) -> i32>(team: Team, h_func: H) -> bool {
    forall|i: int| 0 <= i < team.workers.len() ==> #[trigger] rated_at(team, i, h_func)
}

/// Merging what has arrived brings no node into the queue but those that
/// arrived.
pub proof fn lemma_rated_merged_all<H: Fn(&Grid, &Grid) -> i32>(
    front: Frontier,
    inbox: Seq<NodeView>,
    end: GridView,
    h_func: H,
)
    requires
        queue_rated(front, end, h_func),
        all_rated(inbox, end, h_func),
    ensures
        queue_rated(front.merged_all(inbox), end, h_func),
    decreases inbox.len(),
{
    if inbox.len() > 0 {
        let n = inbox.last();
        let step = front.merged(n);
        let rest = inbox.drop_last();
        assert(rated(h_func, end, inbox[inbox.len() - 1].state, inbox[inbox.len() - 1].h));
        assert forall|m: NodeView| #[trigger] step.queue.contains(m) implies rated(
            h_func,
            end,
            m.state,
            m.h,
        ) by {
            assert(front.queue.contains(m) || m == n);
        }
        assert forall|j: int| 0 <= j < rest.len() implies rated(
            h_func,
            end,
            (#[trigger] rest[j]).state,
            rest[j].h,
        ) by {
            assert(rest[j] == inbox[j]);
        }
        lemma_rated_merged_all(step, rest, end, h_func);
    }
}

/// The successors kept and the successors sent on are among the successors.
pub proof fn lemma_routed_rated<H: Fn(&Grid, &Grid) -> i32>(
    routed: Seq<(u32, Node)>,
    me: u32,
    k: int,
    end: GridView,
    h_func: H,
)
    requires
        0 <= k <= routed.len(),
        all_rated(node_views(routed_nodes(routed)), end, h_func),
    ensures
        all_rated(node_views(kept(routed, me, k)), end, h_func),
        all_rated(node_views(routed_nodes(sent(routed, me, k))), end, h_func),
    decreases k,
{
    if k > 0 {
        lemma_routed_rated(routed, me, k - 1, end, h_func);
        let all = node_views(routed_nodes(routed));
        assert(rated(h_func, end, all[k - 1].state, all[k - 1].h));
        let held = node_views(kept(routed, me, k));
        let gone = node_views(routed_nodes(sent(routed, me, k)));
        let held_before = node_views(kept(routed, me, k - 1));
        let gone_before = node_views(routed_nodes(sent(routed, me, k - 1)));
        assert forall|j: int| 0 <= j < held.len() implies rated(
            h_func,
            end,
            (#[trigger] held[j]).state,
            held[j].h,
        ) by {
            if j < held_before.len() {
                assert(held[j] == held_before[j]);
            } else {
                assert(held[j] == all[k - 1]);
            }
        }
        assert forall|j: int| 0 <= j < gone.len() implies rated(
            h_func,
            end,
            (#[trigger] gone[j]).state,
            gone[j].h,
        ) by {
            if j < gone_before.len() {
                assert(gone[j] == gone_before[j]);
            } else {
                assert(gone[j] == all[k - 1]);
            }
        }
    }
}

/// What arrives at a worker is among what was sent on.
pub proof fn lemma_arrivals_rated<H: Fn(&Grid, &Grid) -> i32>(
    outbound: Seq<(u32, Node)>,
    k: int,
    end: GridView,
    h_func: H,
)
    requires
        all_rated(node_views(routed_nodes(outbound)), end, h_func),
    ensures
        all_rated(node_views(arrivals(outbound, k)), end, h_func),
    decreases outbound.len(),
{
    if outbound.len() > 0 {
        let all = node_views(routed_nodes(outbound));
        let rest = outbound.drop_last();
        let rest_all = node_views(routed_nodes(rest));
        assert forall|j: int| 0 <= j < rest_all.len() implies rated(
            h_func,
            end,
            (#[trigger] rest_all[j]).state,
            rest_all[j].h,
        ) by {
            assert(rest_all[j] == all[j]);
        }
        lemma_arrivals_rated(rest, k, end, h_func);
        let came = node_views(arrivals(outbound, k));
        let came_before = node_views(arrivals(rest, k));
        assert(rated(h_func, end, all[outbound.len() - 1].state, all[outbound.len() - 1].h));
        assert forall|j: int| 0 <= j < came.len() implies rated(
            h_func,
            end,
            (#[trigger] came[j]).state,
            came[j].h,
        ) by {
            if outbound.last().0 == k {
                if j == 0 {
                    assert(came[j] == all[outbound.len() - 1]);
                } else {
                    assert(came[j] == came_before[j - 1]);
                }
            } else {
                assert(came[j] == came_before[j]);
            }
        }
    }
}

/// A turn after which the search goes on brings no node to a worker but
/// successors with an answer of the estimate.
pub proof fn lemma_turn_rated<H: Fn(&Grid, &Grid) -> i32, T: StateHash>(
    before: Team,
    after: Team,
    i: int,
    h_func: H,
    router: Router<T>,
)
    requires
        before.wf(),
        0 <= i < before.workers.len(),
        went_on(before, after, i, h_func, router),
        team_rated(before, h_func),
    ensures
        team_rated(after, h_func),
        after.incumbent@ == before.incumbent@,
{
    let end = before.goal@;
    let w = before.workers[i];
    assert(before.member(i));
    assert(rated_at(before, i, h_func));
    lemma_rated_merged_all(w.frontier(), node_views(w.inbox@), end, h_func);
    let merged = before.merged_at(i);
    if turned(before, after, i, Turn::Idle, h_func, router) {
        assert(after.idled(&before, i));
        assert forall|k: int| 0 <= k < after.workers.len() implies #[trigger] rated_at(
            after,
            k,
            h_func,
        ) by {
            if k != i {
                assert(rated_at(before, k, h_func));
                assert(after.workers[k] == before.workers[k]);
            }
        }
    } else {
        assert(turned(before, after, i, Turn::Expanded, h_func, router));
        let (routed, node) = choose|routed: Seq<(u32, Node)>, node: Node| #[trigger]
            after.expanded(&before, i, h_func, router, routed, node);
        let made = node_views(routed_nodes(routed));
        let outbound = sent(routed, w.id, routed.len() as int);
        assert forall|j: int| 0 <= j < made.len() implies rated(
            h_func,
            end,
            (#[trigger] made[j]).state,
            made[j].h,
        ) by {
            let child = routed_nodes(routed)[j];
            assert(is_child(child, node, &w.goal, h_func));
            assert(child.state@ == made[j].state && w.goal@ == end && call_ensures(
                h_func,
                (&child.state, &w.goal),
                child.h,
            ));
        }
        lemma_routed_rated(routed, w.id, routed.len() as int, end, h_func);
        assert forall|k: int| 0 <= k < after.workers.len() implies #[trigger] rated_at(
            after,
            k,
            h_func,
        ) by {
            if k == i {
                let next = after.workers[i].frontier();
                assert(merged.selects(node@, next));
                assert forall|m: NodeView| #[trigger] next.queue.contains(m) implies rated(
                    h_func,
                    end,
                    m.state,
                    m.h,
                ) by {
                    assert(next.queue.insert(node@).contains(m));
                    assert(merged.queue.contains(m));
                }
            } else {
                assert(rated_at(before, k, h_func));
                lemma_arrivals_rated(outbound, k, end, h_func);
                let was = node_views(before.workers[k].inbox@);
                let came = node_views(arrivals(outbound, k));
                let now = node_views(after.workers[k].inbox@);
                assert(now =~= was + came);
                assert forall|j: int| 0 <= j < now.len() implies rated(
                    h_func,
                    end,
                    (#[trigger] now[j]).state,
                    now[j].h,
                ) by {
                    if j < was.len() {
                        assert(now[j] == was[j]);
                    } else {
                        assert(now[j] == came[j - was.len()]);
                    }
                }
            }
        }
    }
}

/// At each moment of a search by turns, the `h` of every node that waits is
/// an answer of the estimate, if it was so at the beginning.
pub proof fn lemma_played_rated<H: Fn(&Grid, &Grid) -> i32, T: StateHash>(
    beats: Seq<Beat>,
    j: int,
    first: Team,
    h_func: H,
    router: Router<T>,
)
    requires
        first.wf(),
        team_rated(first, h_func),
        played(beats, first, h_func, router),
        0 <= j < beats.len(),
    ensures
        team_rated(beats[j].team, h_func),
        beats[j].team.wf(),
        beats[j].team.same_search(&first),
        0 <= beats[j].turn_of < first.workers.len(),
        beats[j].team.incumbent@ == first.incumbent@,
    decreases j,
{
    if j > 0 {
        lemma_played_rated(beats, j - 1, first, h_func, router);
        let at = beats[j - 1];
        assert(went_on(at.team, beats[j].team, at.turn_of, h_func, router));
        lemma_turn_rated(at.team, beats[j].team, at.turn_of, h_func, router);
    }
}

/// The `h` of the node that a search by turns returns is an answer of the
/// estimate for the goal, if the search began with no solution known and with
/// nodes whose `h` is an answer of the estimate.
pub proof fn lemma_answer_rated<H: Fn(&Grid, &Grid) -> i32, T: StateHash>(
    beats: Seq<Beat>,
    first: Team,
    last: Team,
    report: Report,
    rounds: u64,
    h_func: H,
    router: Router<T>,
)
    requires
        first.wf(),
        first.incumbent@.f == NO_SOLUTION,
        team_rated(first, h_func),
        played(beats, first, h_func, router),
        finished(beats.last(), last, report, rounds, h_func, router),
        report.result matches Ok(Some(_)),
    ensures
        report.result matches Ok(Some(node)) && rated(h_func, first.goal@, first.goal@, node.h as int),
{
    lemma_played_rated(beats, beats.len() - 1, first, h_func, router);
    let at = beats.last();
    let i = at.turn_of;
    let w = at.team.workers[i];
    assert(rated_at(at.team, i, h_func));
    lemma_rated_merged_all(w.frontier(), node_views(w.inbox@), first.goal@, h_func);
    assert(turned(at.team, last, i, Turn::Solved, h_func, router));
    let picked = choose|picked: Node| #[trigger] last.solved(&at.team, i, picked);
    let answer = report.result->Ok_0->Some_0;
    assert(answer@ == picked@);
    assert(at.team.merged_at(i).queue.contains(picked@));
}

/// A team as it is when a search begins has the start's node alone, and its
/// `h` is an answer of the estimate.
pub proof fn lemma_launched_rated<H: Fn(&Grid, &Grid) -> i32, T: StateHash>(
    team: Team,
    start: Grid,
    count: u32,
    h_func: H,
    router: Router<T>,
)
    requires
        team.launched(start, team.goal@, count, h_func, router),
    ensures
        team_rated(team, h_func),
{
    let owner = choose|owner: int|
        0 <= owner < count && router.sends(start, 0, count, owner as u32) && #[trigger] team.fresh(
            owner,
        ) && rated(h_func, team.goal@, start@, team.workers[owner].inbox[0].h as int);
    assert forall|i: int| 0 <= i < team.workers.len() implies #[trigger] rated_at(team, i, h_func) by {
        let inbox = node_views(team.workers[i].inbox@);
        assert forall|j: int| 0 <= j < inbox.len() implies rated(
            h_func,
            team.goal@,
            (#[trigger] inbox[j]).state,
            inbox[j].h,
        ) by {
            assert(i == owner && j == 0);
            assert(inbox[0] == team.workers[owner].inbox[0]@);
        }
    }
}

} // verus!
