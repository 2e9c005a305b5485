//! Why a search with one frontier finds a shortest path when the estimate is
//! consistent: the book it keeps of the boards whose shortest path it has
//! found, and what follows from it.

use crate::grid::{lemma_moved_tiles, lemma_moved_wf, move_at, Grid, GridView};
use crate::node::{Node, NodeView};
use crate::queue::is_least;
use vstd::multiset::Multiset;
use vstd::prelude::*;

verus! {

broadcast use {vstd::multiset::group_multiset_axioms, vstd::multiset::group_multiset_properties};

/// Whether `hv` tells what `h_func` estimates for each board, and the
/// estimate drops by no more than one along a move between boards of the
/// goal's tiles.
pub open spec fn steady<H: Fn(&Grid, &Grid) -> i32>(
    h_func: H,
    end: GridView,
    hv: spec_fn(GridView) -> int,
) -> bool {
    &&& forall|s: Grid, goal: Grid, r: i32|
        goal@ == end && #[trigger] call_ensures(h_func, (&s, &goal), r) ==> r == hv(s@)
    &&& forall|s: GridView, t: GridView|
        s.wf() && s.tiles_within(end) && #[trigger] s.steps_to(t) ==> hv(s) <= hv(t) + 1
}

/// Whether the estimate of `h_func` is consistent: it depends on the boards
/// alone, and drops by no more than one along a move.
pub open spec fn consistent<H: Fn(&Grid, &Grid) -> i32>(h_func: H, end: GridView) -> bool {
    exists|hv: spec_fn(GridView) -> int| steady(h_func, end, hv)
}

/// Whether `d` is the length of a shortest path from `init` to `t`.
pub open spec fn shortest(init: GridView, t: GridView, d: int) -> bool {
    &&& d >= 0
    &&& init.reaches(t, d as nat)
    &&& forall|k: nat| init.reaches(t, k) ==> d <= k
}

/// Whether a node of board `u` at a `g` of at most `g` waits in the frontier.
pub open spec fn within(open: Multiset<NodeView>, u: GridView, g: int) -> bool {
    exists|n: NodeView| #[trigger] open.contains(n) && n.state == u && n.g <= g
}

/// The book of a search. `best` holds boards with the length of a shortest
/// path to each: every closed board is among them, the goal is not. The
/// start is among them or waits at `g` 0. And each board one move from a board
/// `t` of the book, `but` aside, is in the book or waits at no more than one
/// step beyond the shortest path to `t`. Every node that waits has the
/// estimate of its board, and its `f` is its `g` plus that.
pub open spec fn booked(
    open: Multiset<NodeView>,
    closed: Map<GridView, int>,
    best: Map<GridView, int>,
    init: GridView,
    end: GridView,
    hv: spec_fn(GridView) -> int,
    but: Option<GridView>,
) -> bool {
    &&& forall|n: NodeView| #[trigger] open.contains(n) ==> n.h == hv(n.state) && n.f == n.g + n.h
    &&& forall|t: GridView| #[trigger] best.contains_key(t) ==> shortest(init, t, best[t])
    &&& forall|t: GridView| #[trigger] closed.contains_key(t) ==> best.contains_key(t)
    &&& !best.contains_key(end)
    &&& best.contains_key(init) || within(open, init, 0)
    &&& forall|t: GridView, u: GridView|
        best.contains_key(t) && Some(t) != but && #[trigger] t.steps_to(u) ==> best.contains_key(u)
            || within(open, u, best[t] + 1)
}

/// A board that is reached from a valid board of the goal's tiles is such a
/// board.
pub proof fn lemma_reached_fits(init: GridView, end: GridView, s: GridView, k: nat)
    requires
        init.wf(),
        init.tiles_within(end),
        init.reaches(s, k),
    ensures
        s.wf(),
        s.tiles_within(end),
    decreases k,
{
    if k > 0 {
        let mid = choose|mid: GridView| init.reaches(mid, (k - 1) as nat) && #[trigger] mid.steps_to(s);
        lemma_reached_fits(init, end, mid, (k - 1) as nat);
        let m = choose|m: int| 0 <= m < 4 && mid.valid(#[trigger] move_at(m)) && s == mid.moved(move_at(m));
        lemma_moved_wf(mid, move_at(m));
        lemma_moved_tiles(mid, move_at(m), end);
    }
}

/// A board that is reached in `k` moves is in the book, or a node waits whose
/// `f` is at most `k` plus the estimate of the board.
pub proof fn lemma_frontier_bound(
    open: Multiset<NodeView>,
    closed: Map<GridView, int>,
    best: Map<GridView, int>,
    init: GridView,
    end: GridView,
    hv: spec_fn(GridView) -> int,
    s: GridView,
    k: nat,
)
    requires
        booked(open, closed, best, init, end, hv, None),
        forall|a: GridView, b: GridView|
            a.wf() && a.tiles_within(end) && #[trigger] a.steps_to(b) ==> hv(a) <= hv(b) + 1,
        init.wf(),
        init.tiles_within(end),
        init.reaches(s, k),
    ensures
        best.contains_key(s) || exists|n: NodeView| #[trigger] open.contains(n) && n.f <= k + hv(s),
    decreases k,
{
    if k == 0 {
        if !best.contains_key(init) {
            let n = choose|n: NodeView| #[trigger] open.contains(n) && n.state == init && n.g <= 0;
            assert(open.contains(n) && n.f <= k + hv(s));
        }
    } else {
        let mid = choose|mid: GridView| init.reaches(mid, (k - 1) as nat) && #[trigger] mid.steps_to(s);
        lemma_frontier_bound(open, closed, best, init, end, hv, mid, (k - 1) as nat);
        lemma_reached_fits(init, end, mid, (k - 1) as nat);
        assert(hv(mid) <= hv(s) + 1);
        if best.contains_key(mid) {
            assert(shortest(init, mid, best[mid]));
            assert(best[mid] <= k - 1);
            if !best.contains_key(s) {
                let n = choose|n: NodeView|
                    #[trigger] open.contains(n) && n.state == s && n.g <= best[mid] + 1;
                assert(open.contains(n) && n.f <= k + hv(s));
            }
        } else {
            let n = choose|n: NodeView| #[trigger] open.contains(n) && n.f <= (k - 1) + hv(mid);
            assert(open.contains(n) && n.f <= k + hv(s));
        }
    }
}

/// The cheapest node that waits, if its board is not in the book yet, stands
/// for a shortest path to its board.
pub proof fn lemma_first_pick(
    open: Multiset<NodeView>,
    closed: Map<GridView, int>,
    best: Map<GridView, int>,
    init: GridView,
    end: GridView,
    hv: spec_fn(GridView) -> int,
    n: NodeView,
)
    requires
        booked(open, closed, best, init, end, hv, None),
        forall|a: GridView, b: GridView|
            a.wf() && a.tiles_within(end) && #[trigger] a.steps_to(b) ==> hv(a) <= hv(b) + 1,
        init.wf(),
        init.tiles_within(end),
        is_least(open, n),
        n.grounded(init, end),
        !best.contains_key(n.state),
    ensures
        shortest(init, n.state, n.g),
{
    assert forall|k: nat| init.reaches(n.state, k) implies n.g <= k by {
        lemma_frontier_bound(open, closed, best, init, end, hv, n.state, k);
        let m = choose|m: NodeView| #[trigger] open.contains(m) && m.f <= k + hv(n.state);
        assert(n.f <= m.f);
    }
}

/// The book after the cheapest node `n`, not of the goal, was taken from the
/// frontier and its board closed: the board is in the book, and is the board
/// whose successors are yet to come if it is new there.
pub proof fn lemma_after_pick(
    open: Multiset<NodeView>,
    closed: Map<GridView, int>,
    best: Map<GridView, int>,
    init: GridView,
    end: GridView,
    hv: spec_fn(GridView) -> int,
    n: NodeView,
)
    requires
        booked(open, closed, best, init, end, hv, None),
        open.contains(n),
        n.state != end,
        !best.contains_key(n.state) ==> shortest(init, n.state, n.g),
    ensures
        booked(
            open.remove(n),
            closed.insert(n.state, n.g),
            entered(best, n),
            init,
            end,
            hv,
            newcomer(best, n),
        ),
{
    let open1 = open.remove(n);
    let best1 = entered(best, n);
    let but = newcomer(best, n);
    assert forall|m: NodeView| #[trigger] open1.contains(m) implies open.contains(m) by {}
    assert(best1.contains_key(init) || within(open1, init, 0)) by {
        if !best.contains_key(init) {
            let m = choose|m: NodeView| #[trigger] open.contains(m) && m.state == init && m.g <= 0;
            if m != n {
                assert(open1.contains(m) && m.state == init && m.g <= 0);
            }
        }
    }
    assert forall|t: GridView, u: GridView|
        best1.contains_key(t) && Some(t) != but && #[trigger] t.steps_to(u) implies best1.contains_key(
        u,
    ) || within(open1, u, best1[t] + 1) by {
        assert(best.contains_key(t));
        if !best.contains_key(u) {
            let m = choose|m: NodeView|
                #[trigger] open.contains(m) && m.state == u && m.g <= best[t] + 1;
            if m != n {
                assert(open1.contains(m) && m.state == u && m.g <= best1[t] + 1);
            }
        }
    }
}

/// The book with the board of `n` entered at the `g` of `n`, if it was not in
/// the book.
pub open spec fn entered(best: Map<GridView, int>, n: NodeView) -> Map<GridView, int> {
    if best.contains_key(n.state) {
        best
    } else {
        best.insert(n.state, n.g)
    }
}

/// The board of `n`, if it is not in the book.
pub open spec fn newcomer(best: Map<GridView, int>, n: NodeView) -> Option<GridView> {
    if best.contains_key(n.state) {
        None
    } else {
        Some(n.state)
    }
}

/// The book after a successor was dealt with: it was dropped because its
/// board is closed, or it waits now, its board closed no longer.
pub proof fn lemma_after_child(
    open: Multiset<NodeView>,
    closed: Map<GridView, int>,
    best: Map<GridView, int>,
    init: GridView,
    end: GridView,
    hv: spec_fn(GridView) -> int,
    but: Option<GridView>,
    child: NodeView,
    keep: bool,
)
    requires
        booked(open, closed, best, init, end, hv, but),
        child.h == hv(child.state),
        child.f == child.g + child.h,
        !keep ==> closed.contains_key(child.state),
    ensures
        keep ==> booked(open.insert(child), closed.remove(child.state), best, init, end, hv, but)
            && booked(open.insert(child), closed, best, init, end, hv, but) && within(
            open.insert(child),
            child.state,
            child.g,
        ),
        !keep ==> best.contains_key(child.state),
{
    if keep {
        let open1 = open.insert(child);
        assert(open1.contains(child));
        assert forall|n: NodeView| #[trigger] open1.contains(n) implies n.h == hv(n.state) && n.f
            == n.g + n.h by {
            if n != child {
                assert(open.contains(n));
            }
        }
        assert(best.contains_key(init) || within(open1, init, 0)) by {
            if !best.contains_key(init) {
                let m = choose|m: NodeView| #[trigger] open.contains(m) && m.state == init && m.g <= 0;
                assert(open1.contains(m) && m.state == init && m.g <= 0);
            }
        }
        assert forall|t: GridView, u: GridView|
            best.contains_key(t) && Some(t) != but && #[trigger] t.steps_to(u) implies best.contains_key(
            u,
        ) || within(open1, u, best[t] + 1) by {
            if !best.contains_key(u) {
                let m = choose|m: NodeView|
                    #[trigger] open.contains(m) && m.state == u && m.g <= best[t] + 1;
                assert(open1.contains(m) && m.state == u && m.g <= best[t] + 1);
            }
        }
    }
}

/// Whether each board one move from `parent` is in the book, or waits at no
/// more than `g + 1`, or is the board of one of `children`, who are yet to be
/// dealt with.
pub open spec fn awaited(
    open: Multiset<NodeView>,
    best: Map<GridView, int>,
    children: Seq<Node>,
    parent: GridView,
    g: int,
) -> bool {
    forall|u: GridView| #[trigger]
        parent.steps_to(u) ==> best.contains_key(u) || within(open, u, g + 1) || exists|j: int|
            0 <= j < children.len() && (#[trigger] children[j]).state@ == u
}

/// After the last of the children is dealt with, the others are still
/// awaited.
pub proof fn lemma_awaited_step(
    open: Multiset<NodeView>,
    best: Map<GridView, int>,
    children: Seq<Node>,
    parent: GridView,
    g: int,
    keep: bool,
)
    requires
        awaited(open, best, children, parent, g),
        children.len() > 0,
        children.last().g == g + 1,
        !keep ==> best.contains_key(children.last().state@),
    ensures
        awaited(
            if keep {
                open.insert(children.last()@)
            } else {
                open
            },
            best,
            children.drop_last(),
            parent,
            g,
        ),
{
    let child = children.last();
    let open1 = if keep {
        open.insert(child@)
    } else {
        open
    };
    let rest = children.drop_last();
    assert forall|u: GridView| #[trigger] parent.steps_to(u) implies best.contains_key(u) || within(
        open1,
        u,
        g + 1,
    ) || exists|j: int| 0 <= j < rest.len() && (#[trigger] rest[j]).state@ == u by {
        if best.contains_key(u) {
        } else if within(open, u, g + 1) {
            let m = choose|m: NodeView| #[trigger] open.contains(m) && m.state == u && m.g <= g + 1;
            assert(open1.contains(m) && m.state == u && m.g <= g + 1);
        } else {
            let j = choose|j: int| 0 <= j < children.len() && (#[trigger] children[j]).state@ == u;
            if j < rest.len() {
                assert(rest[j].state@ == u);
            } else {
                assert(open1.contains(child@) && child@.state == u && child@.g <= g + 1);
            }
        }
    }
}

/// Once every successor of the board that was new in the book is dealt with,
/// the book has no board left aside.
pub proof fn lemma_book_closed(
    open: Multiset<NodeView>,
    closed: Map<GridView, int>,
    best: Map<GridView, int>,
    init: GridView,
    end: GridView,
    hv: spec_fn(GridView) -> int,
    parent: GridView,
)
    requires
        booked(open, closed, best, init, end, hv, Some(parent)),
        best.contains_key(parent),
        awaited(open, best, Seq::empty(), parent, best[parent]),
    ensures
        booked(open, closed, best, init, end, hv, None),
{
}

} // verus!
