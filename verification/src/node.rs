//! Search nodes, and the expansion of a node into its successors.

use crate::grid::{move_at, unit_move, Grid, GridView};
use vstd::prelude::*;

verus! {

/// A candidate path to a board: the board, the cost `g` of the path, the
/// estimate `h` of what is left, and their sum `f`.
#[derive(Debug)]
pub struct Node {
    pub state: Grid,
    pub f: i32,
    pub g: i32,
    pub h: i32,
}

/// The mathematical value of a [`Node`].
#[verifier::ext_equal]
pub struct NodeView {
    pub state: GridView,
    pub f: int,
    pub g: int,
    pub h: int,
}

impl View for Node {
    type V = NodeView;

    open spec fn view(&self) -> NodeView {
        NodeView { state: self.state@, f: self.f as int, g: self.g as int, h: self.h as int }
    }
}

impl Clone for Node {
    fn clone(&self) -> (out: Node)
        ensures
            out@ == self@,
    {
        Node { state: self.state.clone(), f: self.f, g: self.g, h: self.h }
    }
}

/// The views of a sequence of nodes.
pub open spec fn node_views(nodes: Seq<Node>) -> Seq<NodeView> {
    nodes.map_values(|n: Node| n@)
}

/// Whether an estimate `h` added to a path cost `g` is an `i32`.
pub open spec fn cost_fits(g: int, h: int) -> bool {
    i32::MIN <= g + h <= i32::MAX
}

/// Whether one step more than the path cost `g`, and that with the estimate
/// `h` added, are both an `i32`.
pub open spec fn child_cost_fits(g: int, h: int) -> bool {
    g < i32::MAX && cost_fits(g + 1, h)
}

impl NodeView {
    /// Whether the node stands for a path: from `init`, of `g` valid moves,
    /// to the node's board, which is a valid board of the tiles of `end`; and
    /// its `f` is its `g` plus its `h`.
    pub open spec fn grounded(self, init: GridView, end: GridView) -> bool {
        &&& self.state.wf()
        &&& self.state.tiles_within(end)
        &&& self.g >= 0
        &&& self.f == self.g + self.h
        &&& init.reaches(self.state, self.g as nat)
    }
}

/// The successors of a node that stands for a path stand for paths one move
/// longer.
pub proof fn lemma_children_grounded<H: Fn(&Grid, &Grid) -> i32>(
    children: Seq<Node>,
    parent: Node,
    end_state: &Grid,
    h_func: H,
    init: GridView,
)
    requires
        children_of(children, parent, end_state, h_func),
        parent@.grounded(init, end_state@),
    ensures
        forall|i: int| 0 <= i < children.len() ==> (#[trigger] children[i])@.grounded(init, end_state@),
{
    assert forall|i: int| 0 <= i < children.len() implies (#[trigger] children[i])@.grounded(
        init,
        end_state@,
    ) by {
        let child = children[i];
        assert(is_child(child, parent, end_state, h_func));
        let k = choose|k: int|
            0 <= k < 4 && parent.state@.valid(#[trigger] move_at(k)) && child.state@
                == parent.state@.moved(move_at(k));
        crate::grid::lemma_moved_tiles(parent.state@, move_at(k), end_state@);
        crate::grid::lemma_reaches_next(init, parent.state@, child.state@, parent.g as nat);
    }
}

impl Node {
    /// The node of a board that no path has been found to yet: all costs zero.
    pub fn new(state: Grid) -> (node: Node)
        ensures
            node.state == state,
            node.f == 0,
            node.g == 0,
            node.h == 0,
    {
        Node { state, f: 0, g: 0, h: 0 }
    }

    /// Sets `h` to the estimate from this node's board to `end_state`, and `f`
    /// to `g + h`.
    pub fn calc_cost<H: Fn(&Grid, &Grid) -> i32>(&mut self, end_state: &Grid, h_func: H)
        requires
            call_requires(h_func, (&old(self).state, end_state)),
            forall|r: i32|
                call_ensures(h_func, (&old(self).state, end_state), r) ==> cost_fits(
                    old(self).g as int,
                    r as int,
                ),
        ensures
            final(self).state == old(self).state,
            final(self).g == old(self).g,
            call_ensures(h_func, (&old(self).state, end_state), final(self).h),
            final(self).f == final(self).g + final(self).h,
    {
        let h: i32 = h_func(&self.state, end_state);
        assert(cost_fits(self.g as int, h as int));
        self.h = h;
        self.f = self.g + h;
    }
}

/// What a successor of `parent` must look like: one move further, with the
/// estimate that `h_func` gave for its board.
pub open spec fn is_child<H: Fn(&Grid, &Grid) -> i32>(
    child: Node,
    parent: Node,
    end_state: &Grid,
    h_func: H,
) -> bool {
    &&& parent.state@.steps_to(child.state@)
    &&& child.state@.wf()
    &&& child.g == parent.g + 1
    &&& call_ensures(h_func, (&child.state, end_state), child.h)
    &&& child.f == child.g + child.h
}

/// `nodes` are the successors of `parent` among the first `k` moves: one for
/// each board a valid move away, in the order of the board's expansion.
pub open spec fn children_upto<H: Fn(&Grid, &Grid) -> i32>(
    nodes: Seq<Node>,
    parent: Node,
    end_state: &Grid,
    h_func: H,
    k: int,
) -> bool {
    &&& nodes.len() == parent.state@.successors_upto(k).len()
    &&& forall|i: int|
        0 <= i < nodes.len() ==> (#[trigger] nodes[i]).state@ == parent.state@.successors_upto(k)[i]
    &&& forall|i: int| 0 <= i < nodes.len() ==> is_child(#[trigger] nodes[i], parent, end_state, h_func)
}

/// `nodes` are the successors of `parent`.
pub open spec fn children_of<H: Fn(&Grid, &Grid) -> i32>(
    nodes: Seq<Node>,
    parent: Node,
    end_state: &Grid,
    h_func: H,
) -> bool {
    children_upto(nodes, parent, end_state, h_func, 4)
}

/// Some successor of `parent` has a cost that is no `i32`.
pub open spec fn child_cost_overflows<H: Fn(&Grid, &Grid) -> i32>(
    parent: Node,
    end_state: &Grid,
    h_func: H,
) -> bool {
    exists|s: Grid, r: i32|
        parent.state@.steps_to(s@) && #[trigger] call_ensures(h_func, (&s, end_state), r)
            && !child_cost_fits(parent.g as int, r as int)
}

/// Whether `h_func` can be asked about every board one move from `state`.
pub open spec fn estimates_successors<H: Fn(&Grid, &Grid) -> i32>(
    state: GridView,
    end_state: &Grid,
    h_func: H,
) -> bool {
    forall|s: Grid|
        state.steps_to(s@) && s@.wf() ==> #[trigger] call_requires(h_func, (&s, end_state))
}

/// Whether `r` is an answer of `h_func` for board `state` and goal `end`.
pub open spec fn rated<H: Fn(&Grid, &Grid) -> i32>(
    h_func: H,
    end: GridView,
    state: GridView,
    r: int,
) -> bool {
    exists|s: Grid, goal: Grid, got: i32|
        s@ == state && goal@ == end && #[trigger] call_ensures(h_func, (&s, &goal), got) && got == r
}

/// Whether `h_func` can be asked about every valid board made of the tiles of
/// the goal, for every board that is the goal `goal`.
pub open spec fn estimates<H: Fn(&Grid, &Grid) -> i32>(h_func: H, goal: GridView) -> bool {
    forall|s: Grid, end: Grid|
        s@.wf() && s@.tiles_within(goal) && end@ == goal ==> #[trigger] call_requires(
            h_func,
            (&s, &end),
        )
}

/// An estimate for the boards of a goal's tiles is one for the successors of
/// such a board, which are such boards too.
pub proof fn lemma_estimates_successors<H: Fn(&Grid, &Grid) -> i32>(
    h_func: H,
    goal: &Grid,
    state: GridView,
)
    requires
        estimates(h_func, goal@),
        state.wf(),
        state.tiles_within(goal@),
    ensures
        estimates_successors(state, goal, h_func),
        forall|next: GridView| state.steps_to(next) ==> next.wf() && next.tiles_within(goal@),
{
    assert forall|next: GridView| state.steps_to(next) implies next.wf() && next.tiles_within(
        goal@,
    ) by {
        let k = choose|k: int|
            0 <= k < 4 && state.valid(#[trigger] move_at(k)) && next == state.moved(move_at(k));
        crate::grid::lemma_moved_wf(state, move_at(k));
        crate::grid::lemma_moved_tiles(state, move_at(k), goal@);
    }
}

/// The successors of a node, or `None` where the cost of one of them is no
/// `i32`.
pub fn try_expand<H: Fn(&Grid, &Grid) -> i32>(node: &Node, end_state: &Grid, h_func: &H) -> (out:
    Option<Vec<Node>>)
    requires
        node.state@.wf(),
        estimates_successors(node.state@, end_state, *h_func),
    ensures
        match out {
            Some(nodes) => children_of(nodes@, *node, end_state, *h_func),
            None => child_cost_overflows(*node, end_state, *h_func),
        },
{
    let mut nodes: Vec<Node> = Vec::new();
    let mut k: usize = 0;
    while k < 4
        invariant
            k <= 4,
            node.state@.wf(),
            estimates_successors(node.state@, end_state, *h_func),
            children_upto(nodes@, *node, end_state, *h_func, k as int),
        decreases 4 - k,
    {
        let ghost before = nodes@;
        match node.state.try_action(unit_move(k)) {
            Some(state) => {
                assert(node.state@.steps_to(state@)) by {
                    assert(node.state@.valid(move_at(k as int)));
                }
                let h: i32 = h_func(&state, end_state);
                let f: i64 = node.g as i64 + 1 + h as i64;
                if node.g == i32::MAX || f < i32::MIN as i64 || f > i32::MAX as i64 {
                    assert(!child_cost_fits(node.g as int, h as int));
                    return None;
                }
                let child = Node { state, f: f as i32, g: node.g + 1, h };
                nodes.push(child);
                assert(nodes@ == before.push(child));
                assert(node.state@.successors_upto(k + 1) == node.state@.successors_upto(
                    k as int,
                ).push(child.state@));
            },
            None => {
                assert(node.state@.successors_upto(k + 1) == node.state@.successors_upto(k as int));
            },
        }
        k = k + 1;
    }
    Some(nodes)
}

/// The successors of a node: one for each board a valid move away, in the
/// order of the board's expansion, each one step costlier than `node`.
pub fn expand<H: Fn(&Grid, &Grid) -> i32>(node: &Node, end_state: &Grid, h_func: H) -> (nodes: Vec<
    Node,
>)
    requires
        node.state@.wf(),
        estimates_successors(node.state@, end_state, h_func),
        !child_cost_overflows(*node, end_state, h_func),
    ensures
        children_of(nodes@, *node, end_state, h_func),
{
    match try_expand(node, end_state, &h_func) {
        Some(nodes) => nodes,
        None => Vec::new(),
    }
}

} // verus!
