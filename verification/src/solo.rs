//! Why a search by one worker finds a shortest path when the estimate is
//! consistent, and within how many rounds: the book that can be kept of the
//! boards whose shortest path the worker has found, and what follows from it.

use crate::baseline::{Halt, Report};
use crate::coordinator::{finished, played, turned, went_on, Beat, Team, Turn};
use crate::grid::{
    lemma_move_undone, lemma_moved_tiles, lemma_moved_wf, move_at, undone, Grid, GridView,
};
use crate::hash::StateHash;
use crate::incumbent::NO_SOLUTION;
use crate::log::Log;
use crate::node::{
    child_cost_fits, is_child, lemma_children_grounded, node_views, rated, Node, NodeView,
};
use crate::optimality::{consistent, lemma_reached_fits, shortest, steady};
use crate::router::Router;
use crate::worker::{
    kept, lemma_children_cover, lemma_merged_sound, routed_nodes, sent, Frontier,
};
use vstd::prelude::*;

verus! {

broadcast use {vstd::multiset::group_multiset_axioms, vstd::multiset::group_multiset_properties};

/// Whether node `n` stands for a path from `init` and has the estimate that
/// `hv` tells for its board.
pub open spec fn tagged(n: NodeView, init: GridView, end: GridView, hv: spec_fn(GridView) -> int) -> bool {
    n.grounded(init, end) && n.h == hv(n.state)
}

/// Whether an up-to-date node of board `u` at a `g` of at most `g` waits in
/// the queue.
pub open spec fn queued(front: Frontier, u: GridView, g: int) -> bool {
    exists|n: NodeView| #[trigger] front.queue.contains(n) && front.live(n) && n.state == u && n.g <= g
}

/// Whether a node of board `u` at a `g` of at most `g` has arrived and is not
/// merged yet.
pub open spec fn arrived(inbox: Seq<NodeView>, u: GridView, g: int) -> bool {
    exists|j: int| 0 <= j < inbox.len() && (#[trigger] inbox[j]).state == u && inbox[j].g <= g
}

/// Whether a node of board `u` at a `g` of at most `g` waits: up to date in
/// the queue, or arrived and not merged yet.
pub open spec fn waits(front: Frontier, inbox: Seq<NodeView>, u: GridView, g: int) -> bool {
    queued(front, u, g) || arrived(inbox, u, g)
}

/// The book of a search by one worker. `best` holds the closed boards, each
/// closed at the length of a shortest path to it; the goal is not among them.
/// The start is among them or waits at `g` 0. And each board one move from a
/// board `t` of the book is in the book or waits at no more than one step
/// beyond the shortest path to `t`. Every node that waits stands for a path,
/// of no more moves than the book has boards, and has the estimate of its
/// board.
pub open spec fn solo_booked(
    front: Frontier,
    inbox: Seq<NodeView>,
    best: Map<GridView, int>,
    init: GridView,
    end: GridView,
    hv: spec_fn(GridView) -> int,
) -> bool {
    &&& front.sound()
    &&& forall|n: NodeView| #[trigger] front.queue.contains(n) ==> tagged(n, init, end, hv)
    &&& forall|j: int| 0 <= j < inbox.len() ==> tagged(#[trigger] inbox[j], init, end, hv)
    &&& forall|t: GridView| #[trigger] best.contains_key(t) ==> shortest(init, t, best[t])
    &&& front.closed == best
    &&& best.dom().finite()
    &&& forall|n: NodeView| #[trigger] front.queue.contains(n) ==> n.g <= best.dom().len()
    &&& forall|j: int| 0 <= j < inbox.len() ==> (#[trigger] inbox[j]).g <= best.dom().len()
    &&& !best.contains_key(end)
    &&& best.contains_key(init) || waits(front, inbox, init, 0)
    &&& forall|t: GridView, u: GridView|
        best.contains_key(t) && #[trigger] t.steps_to(u) ==> best.contains_key(u) || waits(
            front,
            inbox,
            u,
            best[t] + 1,
        )
}

/// A node that waits still waits once the node that arrived last is merged,
/// unless its board is closed.
pub proof fn lemma_waits_merged(
    front: Frontier,
    inbox: Seq<NodeView>,
    init: GridView,
    end: GridView,
    hv: spec_fn(GridView) -> int,
    u: GridView,
    g: int,
)
    requires
        inbox.len() > 0,
        front.sound(),
        forall|n: NodeView| #[trigger] front.queue.contains(n) ==> tagged(n, init, end, hv),
        forall|j: int| 0 <= j < inbox.len() ==> tagged(#[trigger] inbox[j], init, end, hv),
        waits(front, inbox, u, g),
    ensures
        front.merged(inbox.last()).closed.contains_key(u) || waits(
            front.merged(inbox.last()),
            inbox.drop_last(),
            u,
            g,
        ),
{
    let n = inbox.last();
    let next = front.merged(n);
    let rest = inbox.drop_last();
    assert(tagged(inbox[inbox.len() - 1], init, end, hv));
    if queued(front, u, g) {
        let m = choose|m: NodeView| #[trigger]
            front.queue.contains(m) && front.live(m) && m.state == u && m.g <= g;
        assert(tagged(m, init, end, hv));
        if next.queue.contains(m) && next.live(m) {
            assert(queued(next, u, g));
        } else {
            assert(next.queue.contains(n) && next.live(n) && n.state == u && n.g <= g);
            assert(queued(next, u, g));
        }
    } else {
        let j = choose|j: int| 0 <= j < inbox.len() && (#[trigger] inbox[j]).state == u && inbox[j].g <= g;
        if j < inbox.len() - 1 {
            assert(rest[j] == inbox[j]);
            assert(arrived(rest, u, g));
        } else if front.closed.contains_key(n.state) && front.closed[n.state] <= n.g {
        } else if front.open.contains_key(n.state) && front.open[n.state] <= n.f {
            let m = choose|m: NodeView| front.queue.contains(m) && m.state == n.state && front.live(m);
            assert(tagged(m, init, end, hv));
            assert(next.queue.contains(m) && next.live(m) && m.state == u && m.g <= g);
            assert(queued(next, u, g));
        } else {
            assert(next.queue.contains(n) && next.live(n) && n.state == u && n.g <= g);
            assert(queued(next, u, g));
        }
    }
}

/// The book stays in order when the node that arrived last is merged.
pub proof fn lemma_book_merged(
    front: Frontier,
    inbox: Seq<NodeView>,
    best: Map<GridView, int>,
    init: GridView,
    end: GridView,
    hv: spec_fn(GridView) -> int,
)
    requires
        inbox.len() > 0,
        solo_booked(front, inbox, best, init, end, hv),
    ensures
        solo_booked(front.merged(inbox.last()), inbox.drop_last(), best, init, end, hv),
{
    let n = inbox.last();
    let next = front.merged(n);
    let rest = inbox.drop_last();
    lemma_merged_sound(front, n);
    assert(tagged(inbox[inbox.len() - 1], init, end, hv));
    assert forall|j: int| 0 <= j < rest.len() implies tagged(#[trigger] rest[j], init, end, hv) by {
        assert(rest[j] == inbox[j]);
    }
    if front.closed.contains_key(n.state) {
        assert(shortest(init, n.state, best[n.state]));
        assert(init.reaches(n.state, n.g as nat));
        assert(next == front);
    } else {
        assert(next.closed =~= front.closed);
    }
    assert(next.closed == best);
    assert forall|j: int| 0 <= j < rest.len() implies (#[trigger] rest[j]).g <= best.dom().len() by {
        assert(rest[j] == inbox[j]);
    }
    assert forall|m: NodeView| #[trigger] next.queue.contains(m) implies m.g <= best.dom().len() by {
        assert(front.queue.contains(m) || m == n);
    }
    if !best.contains_key(init) {
        lemma_waits_merged(front, inbox, init, end, hv, init, 0);
    }
    assert forall|t: GridView, u: GridView|
        best.contains_key(t) && #[trigger] t.steps_to(u) implies best.contains_key(u) || waits(
        next,
        rest,
        u,
        best[t] + 1,
    ) by {
        if !best.contains_key(u) {
            lemma_waits_merged(front, inbox, init, end, hv, u, best[t] + 1);
            assert(!next.closed.contains_key(u));
        }
    }
    assert(best.contains_key(init) || waits(next, rest, init, 0));
    assert(next.sound());
    assert(forall|m: NodeView| #[trigger] next.queue.contains(m) ==> tagged(m, init, end, hv)) by {
        assert forall|m: NodeView| #[trigger] next.queue.contains(m) implies tagged(
            m,
            init,
            end,
            hv,
        ) by {
            assert(front.queue.contains(m) || m == n);
        }
    }
    assert(solo_booked(next, rest, best, init, end, hv));
}

/// The book stays in order when all that has arrived is merged.
pub proof fn lemma_book_merged_all(
    front: Frontier,
    inbox: Seq<NodeView>,
    best: Map<GridView, int>,
    init: GridView,
    end: GridView,
    hv: spec_fn(GridView) -> int,
)
    requires
        solo_booked(front, inbox, best, init, end, hv),
    ensures
        solo_booked(front.merged_all(inbox), Seq::empty(), best, init, end, hv),
    decreases inbox.len(),
{
    if inbox.len() == 0 {
        assert(inbox =~= Seq::empty());
    } else {
        lemma_book_merged(front, inbox, best, init, end, hv);
        lemma_book_merged_all(front.merged(inbox.last()), inbox.drop_last(), best, init, end, hv);
    }
}

/// With nothing left to merge, a board that is reached in `k` moves is in the
/// book, or an up-to-date node waits whose `f` is at most `k` plus the
/// estimate of the board.
pub proof fn lemma_live_bound(
    front: Frontier,
    best: Map<GridView, int>,
    init: GridView,
    end: GridView,
    hv: spec_fn(GridView) -> int,
    s: GridView,
    k: nat,
)
    requires
        solo_booked(front, Seq::empty(), best, init, end, hv),
        forall|a: GridView, b: GridView|
            a.wf() && a.tiles_within(end) && #[trigger] a.steps_to(b) ==> hv(a) <= hv(b) + 1,
        init.wf(),
        init.tiles_within(end),
        init.reaches(s, k),
    ensures
        best.contains_key(s) || exists|n: NodeView| #[trigger]
            front.queue.contains(n) && front.live(n) && n.f <= k + hv(s),
    decreases k,
{
    let none = Seq::<NodeView>::empty();
    if k == 0 {
        if !best.contains_key(init) {
            assert(queued(front, init, 0));
            let n = choose|n: NodeView| #[trigger]
                front.queue.contains(n) && front.live(n) && n.state == init && n.g <= 0;
            assert(tagged(n, init, end, hv));
            assert(front.queue.contains(n) && front.live(n) && n.f <= k + hv(s));
        }
    } else {
        let mid = choose|mid: GridView| init.reaches(mid, (k - 1) as nat) && #[trigger] mid.steps_to(s);
        lemma_live_bound(front, best, init, end, hv, mid, (k - 1) as nat);
        lemma_reached_fits(init, end, mid, (k - 1) as nat);
        assert(hv(mid) <= hv(s) + 1);
        if best.contains_key(mid) {
            assert(shortest(init, mid, best[mid]));
            assert(best[mid] <= k - 1);
            if !best.contains_key(s) {
                assert(waits(front, none, s, best[mid] + 1));
                assert(queued(front, s, best[mid] + 1));
                let n = choose|n: NodeView| #[trigger]
                    front.queue.contains(n) && front.live(n) && n.state == s && n.g <= best[mid] + 1;
                assert(tagged(n, init, end, hv));
                assert(front.queue.contains(n) && front.live(n) && n.f <= k + hv(s));
            }
        } else {
            let n = choose|n: NodeView| #[trigger]
                front.queue.contains(n) && front.live(n) && n.f <= (k - 1) + hv(mid);
            assert(front.queue.contains(n) && front.live(n) && n.f <= k + hv(s));
        }
    }
}

/// With nothing left to merge, a node that is picked stands for a shortest
/// path to its board, unless the board is in the book.
pub proof fn lemma_pick_least(
    front: Frontier,
    next: Frontier,
    best: Map<GridView, int>,
    init: GridView,
    end: GridView,
    hv: spec_fn(GridView) -> int,
    n: NodeView,
    k: nat,
)
    requires
        solo_booked(front, Seq::empty(), best, init, end, hv),
        forall|a: GridView, b: GridView|
            a.wf() && a.tiles_within(end) && #[trigger] a.steps_to(b) ==> hv(a) <= hv(b) + 1,
        init.wf(),
        init.tiles_within(end),
        front.selects(n, next),
        !best.contains_key(n.state),
        init.reaches(n.state, k),
    ensures
        n.g <= k,
{
    lemma_live_bound(front, best, init, end, hv, n.state, k);
    let m = choose|m: NodeView| #[trigger]
        front.queue.contains(m) && front.live(m) && m.f <= k + hv(n.state);
    assert(front.open.contains_key(m.state));
    assert(n.f <= front.open[m.state]);
    assert(tagged(n, init, end, hv));
}

/// The book after a board was picked and expanded: once the successors
/// `children` have arrived, the book with the board added is in order, and
/// has one board more.
pub proof fn lemma_book_expanded(
    front: Frontier,
    next: Frontier,
    children: Seq<NodeView>,
    best: Map<GridView, int>,
    init: GridView,
    end: GridView,
    hv: spec_fn(GridView) -> int,
    n: NodeView,
) -> (after: Map<GridView, int>)
    requires
        solo_booked(front, Seq::empty(), best, init, end, hv),
        forall|a: GridView, b: GridView|
            a.wf() && a.tiles_within(end) && #[trigger] a.steps_to(b) ==> hv(a) <= hv(b) + 1,
        init.wf(),
        init.tiles_within(end),
        front.selects(n, next),
        n.state != end,
        forall|j: int|
            0 <= j < children.len() ==> tagged(#[trigger] children[j], init, end, hv) && children[j].g
                <= n.g + 1,
        forall|u: GridView| #[trigger] n.state.steps_to(u) ==> arrived(children, u, n.g + 1),
    ensures
        solo_booked(next, children, after, init, end, hv),
        after == best.insert(n.state, n.g),
        !best.contains_key(n.state),
        after.dom().len() == best.dom().len() + 1,
{
    let none = Seq::<NodeView>::empty();
    assert(tagged(n, init, end, hv));
    assert(front.open.contains_key(n.state));
    assert(!front.closed.contains_key(n.state));
    let after = best.insert(n.state, n.g);
    assert(after.dom() =~= best.dom().insert(n.state));
    assert(next.closed =~= after);
    assert forall|k: nat| init.reaches(n.state, k) implies n.g <= k by {
        lemma_pick_least(front, next, best, init, end, hv, n, k);
    }
    assert(shortest(init, n.state, n.g));
    assert forall|m: NodeView| front.queue.contains(m) && front.live(m) && m.state != n.state implies
        next.queue.contains(m) && next.live(m) by {
        if !next.queue.contains(m) {
            assert(next.queue.insert(n).count(m) < front.queue.count(m));
        }
    }
    assert forall|k: GridView| #[trigger] next.open.contains_key(k) implies exists|m: NodeView|
        next.queue.contains(m) && m.state == k && next.live(m) by {
        assert(front.open.contains_key(k));
        let m = choose|m: NodeView| front.queue.contains(m) && m.state == k && front.live(m);
        assert(next.queue.contains(m) && m.state == k && next.live(m));
    }
    assert(next.sound());
    assert forall|m: NodeView| #[trigger] next.queue.contains(m) implies tagged(m, init, end, hv)
        && m.g <= after.dom().len() by {
        assert(next.queue.insert(n).contains(m));
        assert(front.queue.contains(m));
    }
    assert forall|j: int| 0 <= j < children.len() implies (#[trigger] children[j]).g
        <= after.dom().len() by {
        assert(tagged(children[j], init, end, hv) && children[j].g <= n.g + 1);
    }
    assert forall|u: GridView, g: int| waits(front, none, u, g) implies after.contains_key(u) || waits(
        next,
        children,
        u,
        g,
    ) by {
        assert(queued(front, u, g));
        let m = choose|m: NodeView| #[trigger]
            front.queue.contains(m) && front.live(m) && m.state == u && m.g <= g;
        if m.state != n.state {
            assert(next.queue.contains(m) && next.live(m) && m.state == u && m.g <= g);
            assert(queued(next, u, g));
        }
    }
    assert forall|t: GridView, u: GridView|
        after.contains_key(t) && #[trigger] t.steps_to(u) implies after.contains_key(u) || waits(
        next,
        children,
        u,
        after[t] + 1,
    ) by {
        if best.contains_key(t) {
            if !best.contains_key(u) {
                assert(waits(front, none, u, best[t] + 1));
            }
        } else {
            assert(t == n.state);
            assert(arrived(children, u, n.g + 1));
        }
    }
    if !best.contains_key(init) {
        assert(waits(front, none, init, 0));
    }
    after
}

/// Whether `r` is what `h_func` answers for the goal `end` itself, whenever
/// it is asked.
pub open spec fn answered<H: Fn(&Grid, &Grid) -> i32>(h_func: H, end: GridView, r: int) -> bool {
    forall|s: Grid, goal: Grid, got: i32|
        s@ == end && goal@ == end && #[trigger] call_ensures(h_func, (&s, &goal), got) ==> got == r
}

/// Two nodes of the goal that both stand for a shortest path and both have
/// the one answer of the estimate for the goal are one node: so a search by
/// one worker and a search with one frontier, under one consistent estimate,
/// return the same node.
pub proof fn lemma_same_answer<H: Fn(&Grid, &Grid) -> i32>(
    h_func: H,
    init: GridView,
    end: GridView,
    one: NodeView,
    other: NodeView,
)
    requires
        one.state == end,
        other.state == end,
        one.f == one.g + one.h,
        other.f == other.g + other.h,
        shortest(init, end, one.g),
        shortest(init, end, other.g),
        rated(h_func, end, end, one.h),
        answered(h_func, end, other.h),
    ensures
        one == other,
{
    assert(init.reaches(end, one.g as nat));
    assert(init.reaches(end, other.g as nat));
}

/// Where every successor goes to worker `me`, all are kept, in their order.
pub proof fn lemma_kept_all(routed: Seq<(u32, Node)>, me: u32, k: int)
    requires
        0 <= k <= routed.len(),
        forall|j: int| 0 <= j < routed.len() ==> (#[trigger] routed[j]).0 == me,
    ensures
        kept(routed, me, k) == routed_nodes(routed).subrange(0, k),
    decreases k,
{
    if k > 0 {
        lemma_kept_all(routed, me, k - 1);
        assert(routed[k - 1].0 == me);
        assert(routed_nodes(routed).subrange(0, k - 1).push(routed[k - 1].1) =~= routed_nodes(
            routed,
        ).subrange(0, k));
    } else {
        assert(kept(routed, me, k) =~= routed_nodes(routed).subrange(0, k));
    }
}

/// Where every successor goes to worker `me`, none is sent on.
pub proof fn lemma_sent_none(routed: Seq<(u32, Node)>, me: u32, k: int)
    requires
        0 <= k <= routed.len(),
        forall|j: int| 0 <= j < routed.len() ==> (#[trigger] routed[j]).0 == me,
    ensures
        sent(routed, me, k).len() == 0,
    decreases k,
{
    if k > 0 {
        lemma_sent_none(routed, me, k - 1);
        assert(routed[k - 1].0 == me);
    }
}

/// Whether `family` is a finite set of boards that holds every board that can
/// be reached from `init`, and is small enough for the costs: a path of as
/// many moves as it has boards, together with the estimate of any of them,
/// costs less than "no solution", and its boards can be counted in `i32`.
pub open spec fn roomy(family: Set<GridView>, init: GridView, hv: spec_fn(GridView) -> int) -> bool {
    &&& family.finite()
    &&& family.len() + 2 < i32::MAX
    &&& forall|s: GridView, k: nat| #[trigger] init.reaches(s, k) ==> family.contains(s)
    &&& forall|s: GridView| #[trigger] family.contains(s) ==> hv(s) + family.len() < NO_SOLUTION
}

/// The book has no more boards than any set that holds every board that can
/// be reached.
pub proof fn lemma_book_fits(
    front: Frontier,
    inbox: Seq<NodeView>,
    best: Map<GridView, int>,
    init: GridView,
    end: GridView,
    hv: spec_fn(GridView) -> int,
    family: Set<GridView>,
)
    requires
        solo_booked(front, inbox, best, init, end, hv),
        roomy(family, init, hv),
    ensures
        best.dom().len() <= family.len(),
{
    assert forall|t: GridView| best.dom().contains(t) implies family.contains(t) by {
        assert(shortest(init, t, best[t]));
        assert(init.reaches(t, best[t] as nat));
    }
    vstd::set_lib::lemma_len_subset(best.dom(), family);
}

/// With nothing left to merge and room for the costs, a frontier with no
/// node worth expanding under the bound "no solution" has no board open.
pub proof fn lemma_solo_stalled(
    front: Frontier,
    best: Map<GridView, int>,
    init: GridView,
    end: GridView,
    hv: spec_fn(GridView) -> int,
    family: Set<GridView>,
)
    requires
        solo_booked(front, Seq::empty(), best, init, end, hv),
        roomy(family, init, hv),
        front.stalled(NO_SOLUTION as int),
    ensures
        front.open == Map::<GridView, int>::empty(),
{
    lemma_book_fits(front, Seq::empty(), best, init, end, hv, family);
    if exists|k: GridView| front.open.contains_key(k) {
        let k = choose|k: GridView| front.open.contains_key(k);
        let m = choose|m: NodeView| front.queue.contains(m) && m.state == k && front.live(m);
        assert(tagged(m, init, end, hv));
        assert(init.reaches(m.state, m.g as nat));
        assert(family.contains(m.state));
        assert(m.f < NO_SOLUTION);
        assert(front.open =~= Map::<GridView, int>::empty());
    } else {
        assert(front.open =~= Map::<GridView, int>::empty());
    }
}

/// Whether `best` is the book of the one worker of `team`: see
/// [`solo_booked`].
pub open spec fn team_booked(team: Team, best: Map<GridView, int>, hv: spec_fn(GridView) -> int) -> bool {
    solo_booked(
        team.workers[0].frontier(),
        node_views(team.workers[0].inbox@),
        best,
        team.start@,
        team.goal@,
        hv,
    )
}

/// Whether the book `then` is the book `best` with the board of a node that
/// was picked from `front`: an up-to-date node of the least `f` that any open
/// board has.
pub open spec fn entered_by(front: Frontier, best: Map<GridView, int>, then: Map<GridView, int>) -> bool {
    exists|n: NodeView| #[trigger]
        front.queue.contains(n) && front.live(n) && then == best.insert(n.state, n.g) && forall|
            k: GridView,
        |
            front.open.contains_key(k) ==> n.f <= #[trigger] front.open[k]
}

/// A turn of the one worker of a team, after which the search goes on, leaves
/// a book in order: the same book after an idle turn, and else the book with
/// the board that was expanded.
pub proof fn lemma_solo_turn<H: Fn(&Grid, &Grid) -> i32, T: StateHash>(
    before: Team,
    after: Team,
    h_func: H,
    router: Router<T>,
    hv: spec_fn(GridView) -> int,
    best: Map<GridView, int>,
) -> (then: Map<GridView, int>)
    requires
        before.wf(),
        before.workers.len() == 1,
        went_on(before, after, 0, h_func, router),
        steady(h_func, before.goal@, hv),
        team_booked(before, best, hv),
    ensures
        team_booked(after, then, hv),
        after.wf(),
        after.same_search(&before),
        after.incumbent@ == before.incumbent@,
        solo_booked(before.merged_at(0), Seq::empty(), best, before.start@, before.goal@, hv),
        (then == best && after.idled(&before, 0)) || (then.dom().len() == best.dom().len() + 1
            && after.counted(&before, 0, 0, 0) && entered_by(before.merged_at(0), best, then)),
{
    let init = before.start@;
    let end = before.goal@;
    let w = before.workers[0];
    let merged = before.merged_at(0);
    assert(before.member(0));
    lemma_book_merged_all(w.frontier(), node_views(w.inbox@), best, init, end, hv);
    if turned(before, after, 0, Turn::Idle, h_func, router) {
        assert(after.idled(&before, 0));
        assert(node_views(after.workers[0].inbox@) =~= Seq::<NodeView>::empty());
        best
    } else {
        assert(turned(before, after, 0, Turn::Expanded, h_func, router));
        let (routed, node) = choose|routed: Seq<(u32, Node)>, node: Node| #[trigger]
            after.expanded(&before, 0, h_func, router, routed, node);
        let next = after.workers[0].frontier();
        let children = node_views(after.workers[0].inbox@);
        let made = routed_nodes(routed);
        assert(merged.selects(node@, next));
        assert(tagged(node@, init, end, hv));
        assert forall|j: int| 0 <= j < routed.len() implies (#[trigger] routed[j]).0 == w.id by {
            assert(router.sends(routed[j].1.state, w.id, w.workers, routed[j].0));
        }
        lemma_kept_all(routed, w.id, routed.len() as int);
        lemma_sent_none(routed, w.id, routed.len() as int);
        assert(made.subrange(0, routed.len() as int) =~= made);
        assert(after.workers[0].inbox@ == made);
        lemma_children_grounded(made, node, &w.goal, h_func, init);
        assert forall|j: int| 0 <= j < children.len() implies tagged(
            #[trigger] children[j],
            init,
            end,
            hv,
        ) && children[j].g <= node@.g + 1 by {
            assert(is_child(made[j], node, &w.goal, h_func));
            assert(made[j]@.grounded(init, end));
            assert(call_ensures(h_func, (&made[j].state, &w.goal), made[j].h));
        }
        assert forall|u: GridView| #[trigger] node@.state.steps_to(u) implies arrived(
            children,
            u,
            node@.g + 1,
        ) by {
            lemma_children_cover(routed, node, &w.goal, h_func, u);
            let idx = choose|idx: int| 0 <= idx < routed.len() && (#[trigger] routed[idx]).1.state@ == u;
            assert(is_child(made[idx], node, &w.goal, h_func));
            assert(children[idx].state == u && children[idx].g <= node@.g + 1);
        }
        let then = lemma_book_expanded(merged, next, children, best, init, end, hv, node@);
        assert(merged.queue.contains(node@) && merged.live(node@) && then == best.insert(
            node@.state,
            node@.g,
        ));
        assert(entered_by(merged, best, then));
        then
    }
}

/// Whether the search by one worker has come to its `j`-th moment at the
/// pace of a board a turn: `j` turns are counted and nothing else, and the
/// book `best` has `j` boards, or one less where nothing is left to do.
pub open spec fn paced(at: Beat, j: int, best: Map<GridView, int>, family: Set<GridView>) -> bool {
    let log = at.team.workers[0].log;
    &&& at.round == j
    &&& j <= family.len() + 1
    &&& log.iter_cnt == j
    &&& 0 <= log.abort_cnt <= j
    &&& log.node_cnt == 0
    &&& best.dom().len() == j || (at.team.quiescent() && best.dom().len() + 1 == j)
}

/// At each moment of a search by one worker that began with the start's node
/// alone, some book is in order; and the search keeps the pace of a board a
/// turn where `family` has room for it.
pub proof fn lemma_solo_played<H: Fn(&Grid, &Grid) -> i32, T: StateHash>(
    beats: Seq<Beat>,
    j: int,
    first: Team,
    start: Grid,
    h_func: H,
    router: Router<T>,
    hv: spec_fn(GridView) -> int,
    family: Set<GridView>,
) -> (best: Map<GridView, int>)
    requires
        first.launched(start, first.goal@, 1, h_func, router),
        played(beats, first, h_func, router),
        steady(h_func, first.goal@, hv),
        0 <= j < beats.len(),
    ensures
        team_booked(beats[j].team, best, hv),
        beats[j].team.wf(),
        beats[j].team.same_search(&first),
        beats[j].turn_of == 0,
        beats[j].team.incumbent@ == first.incumbent@,
        roomy(family, first.start@, hv) ==> paced(beats[j], j, best, family),
    decreases j,
{
    if j == 0 {
        let owner = choose|owner: int|
            0 <= owner < 1 && router.sends(start, 0, 1, owner as u32) && #[trigger] first.fresh(owner)
                && rated(h_func, first.goal@, start@, first.workers[owner].inbox[0].h as int);
        let w = first.workers[0];
        let inbox = node_views(w.inbox@);
        let best = Map::<GridView, int>::empty();
        assert(first.member(0));
        assert(inbox[0] == w.inbox[0]@);
        assert(first.start@.reaches(first.start@, 0));
        assert(tagged(inbox[0], first.start@, first.goal@, hv));
        assert(arrived(inbox, first.start@, 0));
        assert(w.frontier().sound());
        assert(best.dom() =~= Set::<GridView>::empty());
        assert(w.frontier().closed =~= best);
        assert(w.log == (Log { iter_cnt: 0, node_cnt: 0, abort_cnt: 0 }));
        best
    } else {
        let best = lemma_solo_played(beats, j - 1, first, start, h_func, router, hv, family);
        let at = beats[j - 1];
        let next = beats[j];
        assert(went_on(at.team, next.team, at.turn_of, h_func, router));
        let then = lemma_solo_turn(at.team, next.team, h_func, router, hv, best);
        if roomy(family, first.start@, hv) {
            assert(!at.team.quiescent());
            assert(best.dom().len() == j - 1);
            lemma_book_fits(
                next.team.workers[0].frontier(),
                node_views(next.team.workers[0].inbox@),
                then,
                first.start@,
                first.goal@,
                hv,
                family,
            );
            if then == best && next.team.idled(&at.team, 0) {
                lemma_solo_stalled(
                    at.team.merged_at(0),
                    best,
                    first.start@,
                    first.goal@,
                    hv,
                    family,
                );
                assert(next.team.quiescent());
            }
            assert(paced(next, j, then, family));
        }
        then
    }
}

/// A search by one worker under a consistent estimate does not run out of
/// rounds where they are more than the boards of `family` and one, if
/// `family` is a finite set of boards that holds every board that can be
/// reached from the start and has room for the costs: see [`roomy`].
pub proof fn lemma_solo_ends<H: Fn(&Grid, &Grid) -> i32, T: StateHash>(
    beats: Seq<Beat>,
    first: Team,
    last: Team,
    report: Report,
    rounds: u64,
    start: Grid,
    h_func: H,
    router: Router<T>,
    hv: spec_fn(GridView) -> int,
    family: Set<GridView>,
)
    requires
        first.launched(start, first.goal@, 1, h_func, router),
        played(beats, first, h_func, router),
        finished(beats.last(), last, report, rounds, h_func, router),
        steady(h_func, first.goal@, hv),
        roomy(family, first.start@, hv),
        family.len() + 1 < rounds,
    ensures
        report.result != Err::<Option<Node>, Halt>(Halt::OutOfRounds),
{
    let j = beats.len() - 1;
    let best = lemma_solo_played(beats, j, first, start, h_func, router, hv, family);
    let at = beats.last();
    assert(paced(at, j, best, family));
    if report.result == Err::<Option<Node>, Halt>(Halt::OutOfRounds) {
        assert(turned(at.team, last, at.turn_of, Turn::Worn, h_func, router));
        assert(at.team.worn(0));
    }
}

/// A move can be taken back: the board it starts from is one move from the
/// board it leads to, which is a valid board of the same tiles.
pub proof fn lemma_steps_back(a: GridView, b: GridView, end: GridView)
    requires
        a.wf(),
        a.tiles_within(end),
        a.steps_to(b),
    ensures
        b.wf(),
        b.tiles_within(end),
        b.steps_to(a),
{
    let k = choose|k: int| 0 <= k < 4 && a.valid(#[trigger] move_at(k)) && b == a.moved(move_at(k));
    lemma_move_undone(a, move_at(k));
    lemma_moved_wf(a, move_at(k));
    lemma_moved_tiles(a, move_at(k), end);
    let back = if k == 0 {
        1int
    } else if k == 1 {
        0int
    } else if k == 2 {
        3int
    } else {
        2int
    };
    assert(undone(move_at(k)) == move_at(back));
    assert(0 <= back < 4 && b.valid(move_at(back)) && a == b.moved(move_at(back)));
}

/// Whether every board of the book `best` is there at a cost, the length of
/// its shortest path and its estimate, of no more than `c`.
pub open spec fn capped(best: Map<GridView, int>, hv: spec_fn(GridView) -> int, c: int) -> bool {
    forall|t: GridView| #[trigger] best.contains_key(t) ==> best[t] + hv(t) <= c
}

/// Whether `family` is a finite set of boards that holds every board that a
/// path from `init` leads to at a cost of no more than `c`, the goal `end`
/// among them: the cost is the length of the path and the estimate of the
/// board, `c` and one more are less than "no solution", and the boards can be
/// counted in `i32`.
pub open spec fn near(
    family: Set<GridView>,
    init: GridView,
    end: GridView,
    hv: spec_fn(GridView) -> int,
    c: int,
) -> bool {
    &&& family.finite()
    &&& family.len() + 2 < i32::MAX
    &&& c + 1 < NO_SOLUTION
    &&& exists|k: nat| #[trigger] init.reaches(end, k) && k + hv(end) <= c
    &&& forall|s: GridView, k: nat| #[trigger] init.reaches(s, k) && k + hv(s) <= c ==> family.contains(s)
}

/// Whether the search by one worker has come to its `j`-th moment by
/// expanding a board in every turn, each at a cost of no more than `c`.
pub open spec fn chased(
    at: Beat,
    j: int,
    best: Map<GridView, int>,
    hv: spec_fn(GridView) -> int,
    family: Set<GridView>,
    c: int,
) -> bool {
    let log = at.team.workers[0].log;
    &&& at.round == j
    &&& j + 1 <= family.len()
    &&& log == (Log { iter_cnt: j as i32, abort_cnt: 0, node_cnt: 0 })
    &&& best.dom().len() == j
    &&& capped(best, hv, c)
}

/// While the goal can be reached at a cost of no more than `c`, a search by
/// one worker that began with the start's node alone expands a board in every
/// turn, at a cost of no more than `c`.
pub proof fn lemma_solo_chased<H: Fn(&Grid, &Grid) -> i32, T: StateHash>(
    beats: Seq<Beat>,
    j: int,
    first: Team,
    start: Grid,
    h_func: H,
    router: Router<T>,
    hv: spec_fn(GridView) -> int,
    family: Set<GridView>,
    c: int,
) -> (best: Map<GridView, int>)
    requires
        first.launched(start, first.goal@, 1, h_func, router),
        played(beats, first, h_func, router),
        steady(h_func, first.goal@, hv),
        near(family, first.start@, first.goal@, hv, c),
        0 <= j < beats.len(),
    ensures
        team_booked(beats[j].team, best, hv),
        beats[j].team.wf(),
        beats[j].team.same_search(&first),
        beats[j].turn_of == 0,
        beats[j].team.incumbent@ == first.incumbent@,
        chased(beats[j], j, best, hv, family, c),
    decreases j,
{
    let init = first.start@;
    let end = first.goal@;
    if j == 0 {
        let best = lemma_solo_played(beats, 0, first, start, h_func, router, hv, family);
        assert(best.dom().len() == 0) by {
            assert(beats[0].team == first);
            assert(first.fresh(0)) by {
                let owner = choose|owner: int|
                    0 <= owner < 1 && router.sends(start, 0, 1, owner as u32) && #[trigger] first.fresh(
                        owner,
                    ) && rated(h_func, first.goal@, start@, first.workers[owner].inbox[0].h as int);
            }
            assert(first.workers[0].frontier().closed == best);
            assert(best.dom() =~= Set::<GridView>::empty());
        }
        assert(first.workers[0].log == (Log { iter_cnt: 0, node_cnt: 0, abort_cnt: 0 }));
        let kg = choose|k: nat| #[trigger] init.reaches(end, k) && k + hv(end) <= c;
        assert(family.contains(end));
        assert(family.len() >= 1) by {
            if family.len() == 0 {
                assert(family =~= Set::<GridView>::empty());
            }
        }
        best
    } else {
        let best = lemma_solo_chased(beats, j - 1, first, start, h_func, router, hv, family, c);
        let at = beats[j - 1];
        let next = beats[j];
        assert(went_on(at.team, next.team, at.turn_of, h_func, router));
        let then = lemma_solo_turn(at.team, next.team, h_func, router, hv, best);
        let merged = at.team.merged_at(0);
        let kg = choose|k: nat| #[trigger] init.reaches(end, k) && k + hv(end) <= c;
        lemma_live_bound(merged, best, init, end, hv, end, kg);
        let m = choose|m: NodeView| #[trigger]
            merged.queue.contains(m) && merged.live(m) && m.f <= kg + hv(end);
        assert(merged.open.contains_key(m.state));
        if then == best && next.team.idled(&at.team, 0) {
            assert(merged.stalled(NO_SOLUTION as int));
            assert(m.f < NO_SOLUTION);
            assert(!merged.stalled(NO_SOLUTION as int));
        }
        let n = choose|n: NodeView| #[trigger]
            merged.queue.contains(n) && merged.live(n) && then == best.insert(n.state, n.g) && forall|
                k: GridView,
            |
                merged.open.contains_key(k) ==> n.f <= #[trigger] merged.open[k];
        assert(n.f <= merged.open[m.state]);
        assert(tagged(n, init, end, hv));
        assert(capped(then, hv, c));
        assert forall|t: GridView| then.dom().contains(t) implies family.remove(end).contains(t) by {
            assert(shortest(init, t, then[t]));
            assert(init.reaches(t, then[t] as nat) && then[t] + hv(t) <= c);
        }
        assert(family.contains(end));
        vstd::set_lib::lemma_len_subset(then.dom(), family.remove(end));
        then
    }
}

/// A search by one worker under a consistent estimate finds the goal where
/// the goal can be reached at a cost of no more than `c` and the rounds are no
/// fewer than the boards of `family`, a finite set that holds every board that
/// a path leads to at a cost of no more than `c`: see [`near`].
pub proof fn lemma_solo_finds<H: Fn(&Grid, &Grid) -> i32, T: StateHash>(
    beats: Seq<Beat>,
    first: Team,
    last: Team,
    report: Report,
    rounds: u64,
    start: Grid,
    h_func: H,
    router: Router<T>,
    hv: spec_fn(GridView) -> int,
    family: Set<GridView>,
    c: int,
)
    requires
        first.launched(start, first.goal@, 1, h_func, router),
        played(beats, first, h_func, router),
        finished(beats.last(), last, report, rounds, h_func, router),
        steady(h_func, first.goal@, hv),
        near(family, first.start@, first.goal@, hv, c),
        family.len() <= rounds,
    ensures
        report.result matches Ok(Some(_)),
{
    let init = first.start@;
    let end = first.goal@;
    let j = beats.len() - 1;
    let best = lemma_solo_chased(beats, j, first, start, h_func, router, hv, family, c);
    let at = beats.last();
    assert(chased(at, j, best, hv, family, c));
    if report.result == Err::<Option<Node>, Halt>(Halt::OutOfRounds) {
        assert(turned(at.team, last, at.turn_of, Turn::Worn, h_func, router));
        assert(at.team.worn(0));
    }
    if report.result == Ok::<Option<Node>, Halt>(None) {
        assert(at.team.quiescent());
        let w = at.team.workers[0];
        assert(node_views(w.inbox@) =~= Seq::<NodeView>::empty());
        let kg = choose|k: nat| #[trigger] init.reaches(end, k) && k + hv(end) <= c;
        lemma_live_bound(w.frontier(), best, init, end, hv, end, kg);
        let m = choose|m: NodeView| #[trigger]
            w.frontier().queue.contains(m) && w.frontier().live(m) && m.f <= kg + hv(end);
        assert(w.frontier().open.contains_key(m.state));
        assert(w.open@ != Map::<GridView, int>::empty());
    }
    if report.result == Err::<Option<Node>, Halt>(Halt::CostOverflow) {
        let w = at.team.workers[0];
        let merged = at.team.merged_at(0);
        assert(at.team.member(0));
        lemma_book_merged_all(w.frontier(), node_views(w.inbox@), best, init, end, hv);
        let kg = choose|k: nat| #[trigger] init.reaches(end, k) && k + hv(end) <= c;
        lemma_live_bound(merged, best, init, end, hv, end, kg);
        let m = choose|m: NodeView| #[trigger]
            merged.queue.contains(m) && merged.live(m) && m.f <= kg + hv(end);
        assert(merged.open.contains_key(m.state));
        if turned(at.team, last, at.turn_of, Turn::Overflow, h_func, router) {
            let node = choose|node: Node| #[trigger] last.overflowed(&at.team, 0, h_func, node);
            assert(merged.selects(node@, last.workers[0].frontier()));
            assert(node@.f <= merged.open[m.state]);
            assert(tagged(node@, init, end, hv));
            let (s, r) = choose|s: Grid, r: i32|
                node.state@.steps_to(s@) && #[trigger] call_ensures(h_func, (&s, &w.goal), r)
                    && !child_cost_fits(node.g as int, r as int);
            lemma_steps_back(node.state@, s@, end);
            assert(hv(node.state@) <= hv(s@) + 1);
            assert(hv(s@) <= hv(node.state@) + 1);
            assert(r == hv(s@));
            assert(child_cost_fits(node.g as int, r as int));
        } else {
            let picked = choose|picked: Node| #[trigger] last.solved(&at.team, 0, picked);
            assert(merged.selects(picked@, last.workers[0].frontier()));
            assert(picked@.f <= merged.open[m.state]);
            assert(last.incumbent@ == picked@);
        }
    }
}

/// A search by one worker under a consistent estimate that ends with a path
/// ends with a shortest one: no path from the start to the goal has fewer
/// moves than the `g` of the node it returns. And the `h` of that node is what
/// the estimate answers for the goal.
pub proof fn lemma_solo_least<H: Fn(&Grid, &Grid) -> i32, T: StateHash>(
    beats: Seq<Beat>,
    first: Team,
    last: Team,
    report: Report,
    rounds: u64,
    start: Grid,
    h_func: H,
    router: Router<T>,
)
    requires
        first.launched(start, first.goal@, 1, h_func, router),
        played(beats, first, h_func, router),
        finished(beats.last(), last, report, rounds, h_func, router),
        consistent(h_func, first.goal@),
        report.result matches Ok(Some(_)),
    ensures
        report.result matches Ok(Some(node)) && shortest(first.start@, first.goal@, node.g as int)
            && answered(h_func, first.goal@, node.h as int),
{
    let init = first.start@;
    let end = first.goal@;
    let hv = choose|hv: spec_fn(GridView) -> int| steady(h_func, end, hv);
    let best = lemma_solo_played(
        beats,
        beats.len() - 1,
        first,
        start,
        h_func,
        router,
        hv,
        Set::empty(),
    );
    let at = beats.last();
    let w = at.team.workers[0];
    let merged = at.team.merged_at(0);
    lemma_book_merged_all(w.frontier(), node_views(w.inbox@), best, init, end, hv);
    let answer = report.result->Ok_0->Some_0;
    assert(turned(at.team, last, 0, Turn::Solved, h_func, router));
    let picked = choose|picked: Node| #[trigger] last.solved(&at.team, 0, picked);
    assert(answer@ == picked@);
    assert(merged.selects(picked@, last.workers[0].frontier()));
    assert(tagged(picked@, init, end, hv));
    assert forall|k: nat| init.reaches(end, k) implies answer.g <= k by {
        lemma_pick_least(merged, last.workers[0].frontier(), best, init, end, hv, picked@, k);
    }
    assert(shortest(init, end, answer.g as int));
}

} // verus!
