//! One worker of a search: its frontier, the boards it has settled, and the
//! round it repeats until the search is told to stop.
//!
//! A round merges what has arrived, picks the cheapest open board, and either
//! reports the goal or expands the board and hands each successor to the worker
//! that the router names. Reading the shared flag and bound, and carrying nodes
//! between workers, is the caller's part.

use crate::grid::{Grid, GridView};
use crate::hash::{covers_board, lemma_covers_rearranged, StateHash};
use crate::log::Log;
use crate::node::{
    child_cost_overflows, children_of, estimates, lemma_estimates_successors, node_views,
    try_expand, Node, NodeView,
};
use crate::queue::{is_least, NodeQueue};
use crate::router::Router;
use crate::statemap::StateMap;
use vstd::multiset::Multiset;
use vstd::prelude::*;

verus! {

broadcast use {vstd::multiset::group_multiset_axioms, vstd::multiset::group_multiset_properties};

/// What a worker knows of its part of the search graph.
#[verifier::ext_equal]
pub struct Frontier {
    /// The boards found but not yet expanded, each with the best `f` known.
    pub open: Map<GridView, int>,
    /// The boards expanded, each with the `g` it was expanded at.
    pub closed: Map<GridView, int>,
    /// The nodes waiting to be picked; some may be out of date.
    pub queue: Multiset<NodeView>,
}

impl Frontier {
    /// Whether `n` is up to date: its board is open, at the `f` of `n`.
    pub open spec fn live(self, n: NodeView) -> bool {
        self.open.contains_key(n.state) && self.open[n.state] == n.f
    }

    /// Whether board `s` is open or closed.
    pub open spec fn has(self, s: GridView) -> bool {
        self.open.contains_key(s) || self.closed.contains_key(s)
    }

    /// No board is both open and closed, and every open board has an
    /// up-to-date node in the queue.
    pub open spec fn sound(self) -> bool {
        &&& forall|k: GridView| !(self.open.contains_key(k) && self.closed.contains_key(k))
        &&& forall|k: GridView| #[trigger]
            self.open.contains_key(k) ==> exists|n: NodeView|
                self.queue.contains(n) && n.state == k && self.live(n)
    }

    /// The frontier after node `n` has arrived. A board closed at no more
    /// than the `g` of `n` stays closed and `n` is dropped. Otherwise the board
    /// is closed no longer; `n` is dropped if the board is open at no more than
    /// the `f` of `n`, and else becomes the board's open node.
    pub open spec fn merged(self, n: NodeView) -> Frontier {
        if self.closed.contains_key(n.state) && self.closed[n.state] <= n.g {
            self
        } else if self.open.contains_key(n.state) && self.open[n.state] <= n.f {
            Frontier { closed: self.closed.remove(n.state), ..self }
        } else {
            Frontier {
                open: self.open.insert(n.state, n.f),
                closed: self.closed.remove(n.state),
                queue: self.queue.insert(n),
            }
        }
    }

    /// The frontier after the nodes of `nodes` have arrived, the last first.
    pub open spec fn merged_all(self, nodes: Seq<NodeView>) -> Frontier
        decreases nodes.len(),
    {
        if nodes.len() == 0 {
            self
        } else {
            self.merged(nodes.last()).merged_all(nodes.drop_last())
        }
    }

    /// Whether there is nothing worth expanding under the bound `bound`: no
    /// board is open, or no node in the queue has an `f` below the bound.
    pub open spec fn stalled(self, bound: int) -> bool {
        self.open == Map::<GridView, int>::empty() || forall|n: NodeView|
            self.queue.contains(n) ==> n.f >= bound
    }

    /// Whether picking from this frontier may give `n` and leave `next`: `n`
    /// is an up-to-date node of the least `f` that any open board has; its
    /// board moves from open to closed, at the `g` of `n`; and the queue loses
    /// `n` and, besides, only nodes that were out of date and no costlier.
    pub open spec fn selects(self, n: NodeView, next: Frontier) -> bool {
        &&& self.queue.contains(n)
        &&& self.live(n)
        &&& forall|k: GridView| self.open.contains_key(k) ==> n.f <= #[trigger] self.open[k]
        &&& next.open == self.open.remove(n.state)
        &&& next.closed == self.closed.insert(n.state, n.g)
        &&& next.queue.insert(n).subset_of(self.queue)
        &&& forall|m: NodeView|
            next.queue.insert(n).count(m) < self.queue.count(m) ==> !self.live(m) && m.f <= n.f
        &&& forall|m: NodeView| next.queue.contains(m) ==> n.f <= m.f
    }
}

/// Whether one of `nodes` is a node of board `s`.
pub open spec fn names(nodes: Seq<NodeView>, s: GridView) -> bool {
    exists|j: int| 0 <= j < nodes.len() && (#[trigger] nodes[j]).state == s
}

/// Merging forgets no board: what was open or closed, or arrives, is open or
/// closed afterwards. And it closes none.
pub proof fn lemma_merged_all_has(front: Frontier, nodes: Seq<NodeView>)
    ensures
        forall|s: GridView|
            front.has(s) || names(nodes, s) ==> #[trigger] front.merged_all(nodes).has(s),
        forall|s: GridView| #[trigger]
            front.merged_all(nodes).closed.contains_key(s) ==> front.closed.contains_key(s),
    decreases nodes.len(),
{
    if nodes.len() > 0 {
        let step = front.merged(nodes.last());
        let rest = nodes.drop_last();
        lemma_merged_all_has(step, rest);
        assert forall|s: GridView| #[trigger]
            front.merged_all(nodes).closed.contains_key(s) implies front.closed.contains_key(s) by {
            assert(step.merged_all(rest).closed.contains_key(s));
            assert(step.closed.contains_key(s));
        }
        assert forall|s: GridView| front.has(s) || names(nodes, s) implies #[trigger] front.merged_all(
            nodes,
        ).has(s) by {
            if front.has(s) {
                assert(step.has(s));
            } else {
                let j = choose|j: int| 0 <= j < nodes.len() && (#[trigger] nodes[j]).state == s;
                if j < rest.len() {
                    assert(rest[j].state == s);
                    assert(names(rest, s));
                } else {
                    assert(step.has(s));
                }
            }
            assert(step.merged_all(rest).has(s));
        }
    }
}

/// Each routed successor is among those kept or among those sent.
pub proof fn lemma_routed_members(routed: Seq<(u32, Node)>, me: u32, k: int, idx: int)
    requires
        0 <= idx < k <= routed.len(),
    ensures
        routed[idx].0 == me ==> kept(routed, me, k).contains(routed[idx].1),
        routed[idx].0 != me ==> sent(routed, me, k).contains(routed[idx]),
    decreases k,
{
    if idx < k - 1 {
        lemma_routed_members(routed, me, k - 1, idx);
        if routed[idx].0 == me {
            let prev = kept(routed, me, k - 1);
            let j = choose|j: int| 0 <= j < prev.len() && prev[j] == routed[idx].1;
            assert(kept(routed, me, k)[j] == routed[idx].1);
        } else {
            let prev = sent(routed, me, k - 1);
            let j = choose|j: int| 0 <= j < prev.len() && prev[j] == routed[idx];
            assert(sent(routed, me, k)[j] == routed[idx]);
        }
    } else {
        if routed[idx].0 == me {
            let now = kept(routed, me, k);
            assert(now[now.len() - 1] == routed[idx].1);
        } else {
            let now = sent(routed, me, k);
            assert(now[now.len() - 1] == routed[idx]);
        }
    }
}

/// Every board one move from an expanded board is the board of one of its
/// routed successors.
pub proof fn lemma_children_cover<H: Fn(&Grid, &Grid) -> i32>(
    routed: Seq<(u32, Node)>,
    node: Node,
    goal: &Grid,
    h_func: H,
    next: GridView,
)
    requires
        children_of(routed_nodes(routed), node, goal, h_func),
        node.state@.steps_to(next),
    ensures
        exists|idx: int| 0 <= idx < routed.len() && (#[trigger] routed[idx]).1.state@ == next,
{
    crate::grid::lemma_successors_complete(node.state@, next);
    let succ = node.state@.successors();
    let j = choose|j: int| 0 <= j < succ.len() && succ[j] == next;
    assert(routed_nodes(routed)[j].state@ == next);
    assert(routed[j].1.state@ == next);
}

/// A closed board is not opened again, and so not expanded again, unless a
/// node arrives for it with a strictly lower `g` than it was closed at.
pub proof fn lemma_dominance(frontier: Frontier, n: NodeView, k: GridView)
    requires
        frontier.sound(),
        frontier.closed.contains_key(k),
    ensures
        !frontier.open.contains_key(k),
        (n.state == k && n.g < frontier.closed[k]) || (frontier.merged(n).closed.contains_key(k)
            && frontier.merged(n).closed[k] == frontier.closed[k] && !frontier.merged(
            n,
        ).open.contains_key(k)),
{
}

/// Merging keeps a frontier sound.
pub proof fn lemma_merged_sound(frontier: Frontier, n: NodeView)
    requires
        frontier.sound(),
    ensures
        frontier.merged(n).sound(),
{
    let next = frontier.merged(n);
    assert forall|k: GridView| #[trigger] next.open.contains_key(k) implies exists|m: NodeView|
        next.queue.contains(m) && m.state == k && next.live(m) by {
        if k == n.state && next.open != frontier.open {
            assert(next.queue.contains(n) && n.state == k && next.live(n));
        } else {
            assert(frontier.open.contains_key(k));
            let m = choose|m: NodeView| frontier.queue.contains(m) && m.state == k && frontier.live(m);
            assert(next.queue.contains(m) && m.state == k && next.live(m));
        }
    }
}

/// Where the successors of a node go: those for worker `me` among the first
/// `k` of `routed`.
pub open spec fn kept(routed: Seq<(u32, Node)>, me: u32, k: int) -> Seq<Node>
    decreases k,
{
    if k <= 0 {
        Seq::empty()
    } else if routed[k - 1].0 == me {
        kept(routed, me, k - 1).push(routed[k - 1].1)
    } else {
        kept(routed, me, k - 1)
    }
}

/// Where the successors of a node go: those for other workers than `me` among
/// the first `k` of `routed`, each with its destination.
pub open spec fn sent(routed: Seq<(u32, Node)>, me: u32, k: int) -> Seq<(u32, Node)>
    decreases k,
{
    if k <= 0 {
        Seq::empty()
    } else if routed[k - 1].0 != me {
        sent(routed, me, k - 1).push(routed[k - 1])
    } else {
        sent(routed, me, k - 1)
    }
}

/// The nodes of routed successors.
pub open spec fn routed_nodes(routed: Seq<(u32, Node)>) -> Seq<Node> {
    routed.map_values(|p: (u32, Node)| p.1)
}

/// Whether `router` can route every board made of the tiles of `goal`.
pub open spec fn serves<T: StateHash>(router: Router<T>, goal: GridView) -> bool {
    match router {
        Router::Owner { hasher } => covers_board(&hasher, goal),
        Router::Diffusion { .. } => true,
    }
}

/// What a worker is to do at the start of a round.
#[derive(Debug, Clone, Copy, PartialEq, Eq, Structural)]
pub enum Phase {
    /// The search is over: leave the loop.
    Stop,
    /// Take what has arrived from other workers, then go on.
    Poll,
    /// Go on with what is at hand.
    Proceed,
}

/// How a round of a worker ended.
#[derive(Debug)]
pub enum Outcome {
    /// Nothing was worth expanding.
    Idle,
    /// The goal was picked: the search is to stop, and the node to be held
    /// against the best solution so far.
    Goal(Node),
    /// A board was expanded. The nodes are those of its successors that go to
    /// other workers, each with the worker it goes to.
    Expanded(Vec<(u32, Node)>),
    /// A board was picked whose successor has a cost that is no `i32`: the
    /// search cannot go on.
    Overflow(Node),
}

impl Outcome {
    /// Whether every node that the outcome sends on goes to a worker of the
    /// search other than worker `id`.
    pub open spec fn addressed(self, id: u32, workers: u32) -> bool {
        self matches Outcome::Expanded(outbound) ==> forall|i: int|
            0 <= i < outbound.len() ==> (#[trigger] outbound[i]).0 < workers && outbound[i].0 != id
    }

    /// Whether every node of the outcome stands for a path from `start`.
    pub open spec fn grounded(self, start: GridView, goal: GridView) -> bool {
        match self {
            Outcome::Idle => true,
            Outcome::Goal(node) => node@.grounded(start, goal),
            Outcome::Overflow(node) => node@.grounded(start, goal),
            Outcome::Expanded(outbound) => forall|i: int|
                0 <= i < outbound.len() ==> (#[trigger] outbound[i]).1@.grounded(start, goal),
        }
    }
}

/// One worker of a search.
pub struct Worker {
    /// The worker's index among the workers of the search.
    pub id: u32,
    /// The number of workers of the search.
    pub workers: u32,
    /// The board searched for.
    pub goal: Grid,
    /// The boards found but not yet expanded, each with the best `f` known.
    pub open: StateMap,
    /// The boards expanded, each with the `g` it was expanded at.
    pub closed: StateMap,
    /// The nodes waiting to be picked.
    pub queue: NodeQueue,
    /// The nodes that have arrived and are not merged yet.
    pub inbox: Vec<Node>,
    /// The counters of the run.
    pub log: Log,
}

impl Worker {
    /// The worker's frontier.
    pub open spec fn frontier(&self) -> Frontier {
        Frontier { open: self.open@, closed: self.closed@, queue: self.queue@ }
    }

    /// Whether `state` is a board of this search: valid, and made of the
    /// goal's tiles.
    pub open spec fn fits(&self, state: GridView) -> bool {
        state.wf() && state.tiles_within(self.goal@)
    }

    /// The worker's invariant.
    pub open spec fn wf(&self) -> bool {
        &&& self.id < self.workers
        &&& self.goal@.wf()
        &&& self.open.wf()
        &&& self.closed.wf()
        &&& self.queue.wf()
        &&& self.frontier().sound()
        &&& forall|n: NodeView| #[trigger] self.queue@.contains(n) ==> self.fits(n.state)
        &&& forall|i: int| 0 <= i < self.inbox.len() ==> self.fits((#[trigger] self.inbox[i]).state@)
    }

    /// Whether every node that waits at the worker stands for a path from
    /// `start`: see [`NodeView::grounded`].
    pub open spec fn rooted(&self, start: GridView) -> bool {
        &&& forall|n: NodeView| #[trigger] self.queue@.contains(n) ==> n.grounded(start, self.goal@)
        &&& forall|i: int|
            0 <= i < self.inbox.len() ==> (#[trigger] self.inbox[i])@.grounded(start, self.goal@)
    }

    /// Whether the worker is rooted at every board that `before` is rooted at.
    pub open spec fn keeps_rooted(&self, before: &Worker) -> bool {
        forall|start: GridView| #[trigger] before.rooted(start) ==> self.rooted(start)
    }

    /// Whether a node of board `s` has arrived and is not merged yet.
    pub open spec fn awaits(&self, s: GridView) -> bool {
        exists|j: int| 0 <= j < self.inbox.len() && (#[trigger] self.inbox[j]).state@ == s
    }

    /// Whether the worker knows of board `s`: it has it open or closed, or a
    /// node of it has arrived.
    pub open spec fn knows(&self, s: GridView) -> bool {
        self.open@.contains_key(s) || self.closed@.contains_key(s) || self.awaits(s)
    }

    /// Whether this worker is what the expansion of `node` has made of
    /// `before`: `routed` are the successors of `node` with the workers they go
    /// to, this worker's own among them have arrived at it, and `outbound` are
    /// the others, counted as sent.
    pub open spec fn handed_on<H: Fn(&Grid, &Grid) -> i32, T: StateHash>(
        &self,
        before: &Worker,
        node: Node,
        h_func: H,
        router: Router<T>,
        outbound: Seq<(u32, Node)>,
        routed: Seq<(u32, Node)>,
    ) -> bool {
        &&& children_of(routed_nodes(routed), node, &before.goal, h_func)
        &&& forall|i: int|
            0 <= i < routed.len() ==> router.sends(
                (#[trigger] routed[i]).1.state,
                before.id,
                before.workers,
                routed[i].0,
            )
        &&& self.inbox@ == before.inbox@ + kept(routed, before.id, routed.len() as int)
        &&& outbound == sent(routed, before.id, routed.len() as int)
        &&& self.log == (Log {
            node_cnt: (before.log.node_cnt + outbound.len()) as i32,
            ..before.log
        })
    }

    /// Whether this worker is what an idle round has made of `before`, under
    /// the bound `bound`: what had arrived was merged, nothing was worth
    /// expanding, and the round was counted as idle.
    pub open spec fn idled_by(&self, before: &Worker, bound: int) -> bool {
        let merged = before.frontier().merged_all(node_views(before.inbox@));
        &&& merged.stalled(bound)
        &&& self.frontier() == merged
        &&& self.inbox@ == Seq::<Node>::empty()
        &&& self.log == (Log { abort_cnt: (before.log.abort_cnt + 1) as i32, ..before.log })
    }

    /// Whether this worker is what a round that picked `node` and went no
    /// further has made of `before`, under the bound `bound`: what had arrived
    /// was merged, and `node` was picked.
    pub open spec fn picked_by(&self, before: &Worker, bound: int, node: Node) -> bool {
        let merged = before.frontier().merged_all(node_views(before.inbox@));
        &&& !merged.stalled(bound)
        &&& merged.selects(node@, self.frontier())
        &&& self.inbox@ == Seq::<Node>::empty()
        &&& self.log == before.log
    }

    /// Whether this worker is what a round that expanded `node` has made of
    /// `before`, under the bound `bound`: what had arrived was merged, `node`
    /// was picked and is not the goal, `routed` are its successors with the
    /// workers they go to, this worker's own among them have arrived at it, and
    /// `outbound` are the others.
    pub open spec fn expanded_by<H: Fn(&Grid, &Grid) -> i32, T: StateHash>(
        &self,
        before: &Worker,
        bound: int,
        h_func: H,
        router: Router<T>,
        outbound: Seq<(u32, Node)>,
        routed: Seq<(u32, Node)>,
        node: Node,
    ) -> bool {
        let merged = before.frontier().merged_all(node_views(before.inbox@));
        &&& !merged.stalled(bound)
        &&& merged.selects(node@, self.frontier())
        &&& node.state@ != before.goal@
        &&& children_of(routed_nodes(routed), node, &before.goal, h_func)
        &&& forall|i: int|
            0 <= i < routed.len() ==> router.sends(
                (#[trigger] routed[i]).1.state,
                before.id,
                before.workers,
                routed[i].0,
            )
        &&& self.inbox@ == kept(routed, before.id, routed.len() as int)
        &&& outbound == sent(routed, before.id, routed.len() as int)
        &&& self.log == (Log {
            node_cnt: (before.log.node_cnt + outbound.len()) as i32,
            ..before.log
        })
    }

    /// Whether `other` is the same worker of the same search.
    pub open spec fn same_search(&self, other: &Worker) -> bool {
        self.id == other.id && self.workers == other.workers && self.goal == other.goal
    }

    /// A worker with nothing open, closed or arrived.
    pub fn new(id: u32, workers: u32, goal: Grid) -> (worker: Worker)
        requires
            id < workers,
            goal@.wf(),
        ensures
            worker.wf(),
            worker.id == id,
            worker.workers == workers,
            worker.goal == goal,
            worker.frontier() == (Frontier {
                open: Map::empty(),
                closed: Map::empty(),
                queue: Multiset::empty(),
            }),
            worker.inbox@ == Seq::<Node>::empty(),
            worker.log == (Log { iter_cnt: 0, node_cnt: 0, abort_cnt: 0 }),
    {
        Worker {
            id,
            workers,
            goal,
            open: StateMap::new(),
            closed: StateMap::new(),
            queue: NodeQueue::new(),
            inbox: Vec::new(),
            log: Log::new(),
        }
    }

    /// Takes a node that has arrived, to be merged in the next round.
    pub fn receive(&mut self, node: Node)
        requires
            old(self).wf(),
            old(self).fits(node.state@),
        ensures
            final(self).wf(),
            final(self).same_search(old(self)),
            final(self).frontier() == old(self).frontier(),
            final(self).inbox@ == old(self).inbox@.push(node),
            final(self).log == old(self).log,
            forall|start: GridView| #[trigger]
                old(self).rooted(start) && node@.grounded(start, old(self).goal@) ==> final(self).rooted(start),
    {
        self.inbox.push(node);
    }

    /// Takes the start board of the search: its node, at `g` 0 and with the
    /// estimate of `h_func`, arrives at this worker.
    pub fn seed<H: Fn(&Grid, &Grid) -> i32>(&mut self, start: Grid, h_func: &H)
        requires
            old(self).wf(),
            old(self).fits(start@),
            call_requires(*h_func, (&start, &old(self).goal)),
        ensures
            final(self).wf(),
            final(self).same_search(old(self)),
            final(self).frontier() == old(self).frontier(),
            final(self).log == old(self).log,
            final(self).inbox@.len() == old(self).inbox@.len() + 1,
            final(self).inbox@.drop_last() == old(self).inbox@,
            ({
                let node = final(self).inbox@.last();
                &&& node.state == start
                &&& node.g == 0
                &&& node.f == node.h
                &&& call_ensures(*h_func, (&start, &old(self).goal), node.h)
            }),
            old(self).rooted(start@) ==> final(self).rooted(start@),
    {
        let h: i32 = h_func(&start, &self.goal);
        let node = Node { state: start, f: h, g: 0, h };
        assert(start@.reaches(start@, 0));
        self.inbox.push(node);
        assert(self.inbox@.drop_last() == old(self).inbox@);
    }

    /// Starts a round: counts it, and says what to do. The search is over
    /// when `terminated` says so; what has arrived is taken in every other
    /// round.
    pub fn begin(&mut self, terminated: bool) -> (phase: Phase)
        requires
            old(self).wf(),
            0 <= old(self).log.iter_cnt < i32::MAX,
        ensures
            final(self).wf(),
            final(self).same_search(old(self)),
            final(self).frontier() == old(self).frontier(),
            final(self).inbox@ == old(self).inbox@,
            final(self).log == (Log { iter_cnt: (old(self).log.iter_cnt + 1) as i32, ..old(self).log }),
            phase == if terminated {
                Phase::Stop
            } else if (old(self).log.iter_cnt + 1) % 2 == 0 {
                Phase::Poll
            } else {
                Phase::Proceed
            },
    {
        self.log.iter_cnt = self.log.iter_cnt + 1;
        if terminated {
            Phase::Stop
        } else if self.log.iter_cnt % 2 == 0 {
            Phase::Poll
        } else {
            Phase::Proceed
        }
    }

    /// Merges one node into the frontier: see [`Frontier::merged`].
    pub fn merge_node(&mut self, node: Node)
        requires
            old(self).wf(),
            old(self).fits(node.state@),
        ensures
            final(self).wf(),
            final(self).same_search(old(self)),
            final(self).frontier() == old(self).frontier().merged(node@),
            final(self).inbox@ == old(self).inbox@,
            final(self).log == old(self).log,
            forall|start: GridView| #[trigger]
                old(self).rooted(start) && node@.grounded(start, old(self).goal@) ==> final(self).rooted(start),
    {
        proof {
            lemma_merged_sound(self.frontier(), node@);
            assert forall|start: GridView, n: NodeView| #[trigger]
                old(self).rooted(start) && node@.grounded(start, old(self).goal@)
                    && #[trigger] self.queue@.insert(node@).contains(n) implies n.grounded(
                start,
                self.goal@,
            ) by {
                if n != node@ {
                    assert(self.queue@.contains(n));
                }
            }
            assert forall|n: NodeView| #[trigger]
                self.queue@.insert(node@).contains(n) implies self.fits(n.state) by {
                if n != node@ {
                    assert(self.queue@.contains(n));
                }
            }
        }
        match self.closed.get(&node.state) {
            Some(g) => {
                if g > node.g {
                    self.closed.remove(&node.state);
                } else {
                    return ;
                }
            },
            None => {
                assert(self.closed@.remove(node.state@) == self.closed@);
            },
        }
        match self.open.get(&node.state) {
            Some(f) => {
                if node.f >= f {
                    return ;
                }
            },
            None => {},
        }
        self.open.insert(node.state.clone(), node.f);
        self.queue.push(node);
    }

    /// Merges all that has arrived into the frontier, the last arrival first.
    pub fn merge(&mut self)
        requires
            old(self).wf(),
        ensures
            final(self).wf(),
            final(self).same_search(old(self)),
            final(self).frontier() == old(self).frontier().merged_all(node_views(old(self).inbox@)),
            final(self).inbox@ == Seq::<Node>::empty(),
            final(self).log == old(self).log,
            final(self).keeps_rooted(old(self)),
    {
        while self.inbox.len() > 0
            invariant
                self.wf(),
                self.keeps_rooted(old(self)),
                self.same_search(old(self)),
                self.log == old(self).log,
                self.frontier().merged_all(node_views(self.inbox@)) == old(self).frontier().merged_all(
                    node_views(old(self).inbox@),
                ),
            decreases self.inbox.len(),
        {
            let ghost before = self.inbox@;
            let ghost last = self.inbox@.last();
            assert(self.fits(last.state@));
            match self.inbox.pop() {
                Some(node) => {
                    assert(node_views(before).last() == node@);
                    assert(node_views(before).drop_last() == node_views(self.inbox@));
                    assert forall|i: int| 0 <= i < self.inbox.len() implies self.fits(
                        (#[trigger] self.inbox[i]).state@,
                    ) by {
                        assert(self.inbox[i] == before[i]);
                    }
                    let ghost popped = *self;
                    assert forall|start: GridView| #[trigger] old(self).rooted(start) implies popped.rooted(
                        start,
                    ) && node@.grounded(start, self.goal@) by {
                        assert(node == before[before.len() - 1]);
                        assert forall|i: int| 0 <= i < popped.inbox.len() implies (
                        #[trigger] popped.inbox[i])@.grounded(start, popped.goal@) by {
                            assert(popped.inbox[i] == before[i]);
                        }
                    }
                    self.merge_node(node);
                },
                None => {},
            }
        }
        assert(node_views(self.inbox@).len() == 0);
    }

    /// Picks the node to expand, under the bound `incumbent_f`. Where nothing
    /// is worth expanding ([`Frontier::stalled`]) the round counts as idle and
    /// the frontier stays as it is. Otherwise the pick is as
    /// [`Frontier::selects`] says.
    pub fn select(&mut self, incumbent_f: i32) -> (out: Option<Node>)
        requires
            old(self).wf(),
            old(self).log.abort_cnt < i32::MAX,
        ensures
            final(self).wf(),
            final(self).same_search(old(self)),
            final(self).inbox@ == old(self).inbox@,
            out is None <==> old(self).frontier().stalled(incumbent_f as int),
            out is None ==> final(self).frontier() == old(self).frontier() && final(self).log == (Log {
                abort_cnt: (old(self).log.abort_cnt + 1) as i32,
                ..old(self).log
            }),
            out matches Some(n) ==> old(self).frontier().selects(n@, final(self).frontier())
                && final(self).log == old(self).log && final(self).fits(n.state@),
            final(self).keeps_rooted(old(self)),
            forall|root: GridView| #[trigger]
                old(self).rooted(root) ==> (out matches Some(n) ==> n@.grounded(root, old(self).goal@)),
    {
        let ghost start = self.frontier();
        if self.open.is_empty() {
            self.log.abort_cnt = self.log.abort_cnt + 1;
            return None;
        }
        let ghost mut floor: int = 0;
        let worth = match self.queue.peek_f() {
            Some(best) => {
                proof {
                    floor = best as int;
                }
                best < incumbent_f
            },
            None => false,
        };
        if !worth {
            self.log.abort_cnt = self.log.abort_cnt + 1;
            return None;
        }
        assert(exists|n: NodeView| self.queue@.contains(n) && n.f < incumbent_f);
        proof {
            let cheap = choose|n: NodeView| self.queue@.contains(n) && n.f < incumbent_f;
            assert(start.queue.contains(cheap) && cheap.f < incumbent_f);
        }
        let mut found: Option<Node> = None;
        while found.is_none()
            invariant
                self.wf(),
                self.same_search(old(self)),
                self.inbox@ == old(self).inbox@,
                self.log == old(self).log,
                start == old(self).frontier(),
                start.open != Map::<GridView, int>::empty(),
                found is None ==> self.frontier().open == start.open && self.frontier().closed
                    == start.closed && self.queue@.subset_of(start.queue),
                found is None ==> forall|m: NodeView| #[trigger]
                    self.queue@.count(m) < start.queue.count(m) ==> !start.live(m) && m.f <= floor,
                found is None ==> forall|w: NodeView| #[trigger]
                    self.queue@.contains(w) ==> floor <= w.f,
                found matches Some(n) ==> start.selects(n@, self.frontier()) && self.fits(n.state@),
                self.keeps_rooted(old(self)),
                forall|root: GridView| #[trigger]
                    old(self).rooted(root) ==> (found matches Some(n) ==> n@.grounded(
                        root,
                        old(self).goal@,
                    )),
            decreases
                    if found is None {
                        self.queue@.len() + 1
                    } else {
                        0
                    },
        {
            let ghost queued = self.queue@;
            proof {
                // An open board has an up-to-date node in the queue, so the queue is not empty.
                assert(exists|k: GridView| start.open.contains_key(k)) by {
                    if forall|k: GridView| !start.open.contains_key(k) {
                        assert(start.open =~= Map::<GridView, int>::empty());
                    }
                }
                let k = choose|k: GridView| start.open.contains_key(k);
                assert(self.frontier().open.contains_key(k));
                let w = choose|w: NodeView|
                    self.queue@.contains(w) && w.state == k && self.frontier().live(w);
                assert(queued.count(w) > 0);
                assert(queued.len() > 0) by {
                    if queued.len() == 0 {
                        vstd::multiset::lemma_multiset_empty_len(queued);
                    }
                }
            }
            match self.queue.pop() {
                Some(node) => {
                    assert(is_least(queued, node@));
                    assert(self.queue@ == queued.remove(node@));
                    assert forall|m: NodeView| #[trigger]
                        self.queue@.contains(m) implies queued.contains(m) && self.fits(m.state) by {
                        assert(queued.count(m) >= self.queue@.count(m));
                    }
                    assert(self.fits(node@.state));
                    assert forall|root: GridView| #[trigger] old(self).rooted(root) implies self.rooted(
                        root,
                    ) && node@.grounded(root, self.goal@) by {
                        assert(queued.contains(node@));
                        assert forall|m: NodeView| #[trigger] self.queue@.contains(m) implies m.grounded(
                            root,
                            self.goal@,
                        ) by {
                            assert(queued.contains(m));
                        }
                    }
                    let recorded = self.open.get(&node.state);
                    let live = match recorded {
                        Some(f) => f == node.f,
                        None => false,
                    };
                    if live {
                        proof {
                            assert forall|m: NodeView|
                                queued.count(m) < start.queue.count(m) implies !start.live(m)
                                && m.f <= node@.f by {
                                assert(queued.contains(node@));
                            }
                            assert forall|k: GridView| start.open.contains_key(k) implies node@.f
                                <= #[trigger] start.open[k] by {
                                let w = choose|w: NodeView|
                                    queued.contains(w) && w.state == k && self.frontier().live(w);
                                assert(queued.contains(w));
                            }
                        }
                        self.open.remove(&node.state);
                        self.closed.insert(node.state.clone(), node.g);
                        proof {
                            let next = self.frontier();
                            assert(next.queue.insert(node@) =~= queued);
                            assert forall|k: GridView| #[trigger]
                                next.open.contains_key(k) implies exists|m: NodeView|
                                next.queue.contains(m) && m.state == k && next.live(m) by {
                                let w = choose|w: NodeView|
                                    queued.contains(w) && w.state == k && start.live(w);
                                assert(w != node@);
                                assert(next.queue.contains(w) && w.state == k && next.live(w));
                            }
                            assert forall|m: NodeView| next.queue.contains(m) implies node@.f
                                <= m.f by {
                                assert(queued.contains(m));
                            }
                        }
                        found = Some(node);
                    } else {
                        proof {
                            let next = self.frontier();
                            assert forall|k: GridView| #[trigger]
                                next.open.contains_key(k) implies exists|m: NodeView|
                                next.queue.contains(m) && m.state == k && next.live(m) by {
                                let w = choose|w: NodeView|
                                    queued.contains(w) && w.state == k && start.live(w);
                                assert(w != node@);
                                assert(next.queue.contains(w) && w.state == k && next.live(w));
                            }
                            assert forall|m: NodeView| #[trigger]
                                self.queue@.count(m) < start.queue.count(m) implies !start.live(m)
                                && m.f <= node@.f by {
                                if m != node@ {
                                    assert(queued.count(m) < start.queue.count(m));
                                }
                            }
                            assert forall|w: NodeView| #[trigger]
                                self.queue@.contains(w) implies node@.f <= w.f by {
                                assert(queued.contains(w));
                            }
                            floor = node@.f;
                        }
                    }
                },
                None => {},
            }
        }
        found
    }

    /// Expands `node` and hands each successor to the worker that `router`
    /// names: this worker keeps its own, the others are returned with their
    /// destinations and counted as sent. `None` where a successor's cost is no
    /// `i32`; then nothing has changed.
    pub fn spread<H: Fn(&Grid, &Grid) -> i32, T: StateHash>(
        &mut self,
        node: &Node,
        h_func: &H,
        router: &mut Router<T>,
    ) -> (out: Option<Vec<(u32, Node)>>)
        requires
            old(self).wf(),
            old(self).fits(node.state@),
            estimates(*h_func, old(self).goal@),
            serves(*old(router), old(self).goal@),
            0 <= old(self).log.node_cnt <= i32::MAX - 4,
        ensures
            final(self).wf(),
            final(self).same_search(old(self)),
            final(self).frontier() == old(self).frontier(),
            final(router).keeps(*old(router)),
            out is Some ==> exists|routed: Seq<(u32, Node)>| #[trigger]
                final(self).handed_on(old(self), *node, *h_func, *old(router), out->0@, routed),
            out is None ==> child_cost_overflows(*node, &old(self).goal, *h_func) && final(self).inbox@
                == old(self).inbox@ && final(self).log == old(self).log,
            out matches Some(outbound) ==> forall|i: int|
                0 <= i < outbound.len() ==> (#[trigger] outbound[i]).0 < old(self).workers
                    && outbound[i].0 != old(self).id,
            out matches Some(outbound) ==> outbound.len() <= 4,
            forall|start: GridView| #[trigger]
                old(self).rooted(start) && node@.grounded(start, old(self).goal@) ==> final(self).rooted(start) && (out matches Some(outbound) ==> forall|i: int|
                    0 <= i < outbound.len() ==> (#[trigger] outbound[i]).1@.grounded(
                        start,
                        old(self).goal@,
                    )),
    {
        proof {
            lemma_estimates_successors(*h_func, &self.goal, node.state@);
        }
        let mut children = match try_expand(node, &self.goal, h_func) {
            Some(children) => children,
            None => {
                return None;
            },
        };
        let ghost all = children@;
        let ghost mut routed: Seq<(u32, Node)> = Seq::empty();
        proof {
            crate::grid::lemma_successors_len(node.state@, 4);
        }
        let mut outbound: Vec<(u32, Node)> = Vec::new();
        assert(forall|i: int| 0 <= i < all.len() ==> self.fits((#[trigger] all[i]).state@));
        proof {
            assert forall|start: GridView| #[trigger]
                old(self).rooted(start) && node@.grounded(start, self.goal@) implies forall|i: int|
                0 <= i < all.len() ==> (#[trigger] all[i])@.grounded(start, self.goal@) by {
                crate::node::lemma_children_grounded(all, *node, &self.goal, *h_func, start);
            }
        }
        while children.len() > 0
            invariant
                self.wf(),
                self.same_search(old(self)),
                self.frontier() == old(self).frontier(),
                router.keeps(*old(router)),
                serves(*old(router), self.goal@),
                children_of(all, *node, &self.goal, *h_func),
                forall|i: int| 0 <= i < all.len() ==> self.fits((#[trigger] all[i]).state@),
                all.len() <= 4,
                routed.len() + children.len() == all.len(),
                routed_nodes(routed) + children@ == all,
                forall|i: int|
                    0 <= i < outbound.len() ==> (#[trigger] outbound[i]).0 < self.workers
                        && outbound[i].0 != self.id,
                forall|start: GridView| #[trigger]
                    old(self).rooted(start) && node@.grounded(start, self.goal@) ==> forall|i: int|
                        0 <= i < all.len() ==> (#[trigger] all[i])@.grounded(start, self.goal@),
                forall|start: GridView| #[trigger]
                    old(self).rooted(start) && node@.grounded(start, self.goal@) ==> self.rooted(
                        start,
                    ) && forall|i: int|
                        0 <= i < outbound.len() ==> (#[trigger] outbound[i]).1@.grounded(
                            start,
                            self.goal@,
                        ),
                forall|i: int|
                    0 <= i < routed.len() ==> old(router).sends(
                        (#[trigger] routed[i]).1.state,
                        self.id,
                        self.workers,
                        routed[i].0,
                    ),
                self.inbox@ == old(self).inbox@ + kept(routed, self.id, routed.len() as int),
                outbound@ == sent(routed, self.id, routed.len() as int),
                outbound.len() <= routed.len(),
                self.log == (Log {
                    node_cnt: (old(self).log.node_cnt + outbound.len()) as i32,
                    ..old(self).log
                }),
                0 <= old(self).log.node_cnt <= i32::MAX - 4,
            decreases children.len(),
        {
            let ghost rest = children@;
            let child = children.remove(0);
            proof {
                let at = routed.len() as int;
                assert(all[at] == (routed_nodes(routed) + rest)[at]);
                assert(child == all[at]);
                assert(self.fits(child.state@));
                lemma_square_len(child.state@);
                lemma_serves_accepts(*router, *old(router), self.goal@, child.state@);
            }
            let dest = router.route(&child.state, self.id, self.workers);
            let ghost grown = routed.push((dest, child));
            proof {
                assert(routed_nodes(grown) + children@ =~= all);
                assert(grown.drop_last() == routed);
                assert(kept(grown, self.id, grown.len() as int) == if dest == self.id {
                    kept(routed, self.id, routed.len() as int).push(child)
                } else {
                    kept(routed, self.id, routed.len() as int)
                }) by {
                    lemma_kept_prefix(grown, self.id, routed.len() as int, routed);
                }
                assert(sent(grown, self.id, grown.len() as int) == if dest != self.id {
                    sent(routed, self.id, routed.len() as int).push((dest, child))
                } else {
                    sent(routed, self.id, routed.len() as int)
                }) by {
                    lemma_sent_prefix(grown, self.id, routed.len() as int, routed);
                }
            }
            let ghost was = *self;
            let ghost out_was = outbound@;
            if dest == self.id {
                self.inbox.push(child);
            } else {
                outbound.push((dest, child));
                self.log.node_cnt = self.log.node_cnt + 1;
            }
            proof {
                assert forall|start: GridView| #[trigger]
                    old(self).rooted(start) && node@.grounded(start, self.goal@) implies self.rooted(
                    start,
                ) && forall|i: int|
                    0 <= i < outbound.len() ==> (#[trigger] outbound[i]).1@.grounded(
                        start,
                        self.goal@,
                    ) by {
                    assert(was.rooted(start));
                    assert(child@.grounded(start, self.goal@));
                    assert forall|i: int| 0 <= i < self.inbox.len() implies (
                    #[trigger] self.inbox[i])@.grounded(start, self.goal@) by {
                        if i < was.inbox.len() {
                            assert(self.inbox[i] == was.inbox[i]);
                        }
                    }
                    assert forall|i: int| 0 <= i < outbound.len() implies (
                    #[trigger] outbound[i]).1@.grounded(start, self.goal@) by {
                        if i < out_was.len() {
                            assert(outbound[i] == out_was[i]);
                        }
                    }
                }
            }
            proof {
                routed = grown;
            }
        }
        proof {
            assert(routed_nodes(routed) =~= all);
            assert(self.handed_on(old(self), *node, *h_func, *old(router), outbound@, routed));
        }
        let ghost sent_on = outbound@;
        let out = Some(outbound);
        assert(out->0@ == sent_on);
        assert(self.handed_on(old(self), *node, *h_func, *old(router), out->0@, routed));
        out
    }

    /// One round after [`Worker::begin`]: merges what has arrived, picks a
    /// node under the bound `incumbent_f`, and reports the goal or expands the
    /// node and routes its successors.
    pub fn advance<H: Fn(&Grid, &Grid) -> i32, T: StateHash>(
        &mut self,
        incumbent_f: i32,
        h_func: &H,
        router: &mut Router<T>,
    ) -> (out: Outcome)
        requires
            old(self).wf(),
            estimates(*h_func, old(self).goal@),
            serves(*old(router), old(self).goal@),
            old(self).log.abort_cnt < i32::MAX,
            0 <= old(self).log.node_cnt <= i32::MAX - 4,
        ensures
            final(self).wf(),
            final(self).same_search(old(self)),
            final(router).keeps(*old(router)),
            out.addressed(old(self).id, old(self).workers),
            out matches Outcome::Expanded(outbound) ==> outbound.len() <= 4,
            forall|start: GridView| #[trigger]
                old(self).rooted(start) ==> final(self).rooted(start) && out.grounded(
                    start,
                    old(self).goal@,
                ),
            out is Idle ==> final(self).idled_by(old(self), incumbent_f as int),
            out is Goal ==> final(self).picked_by(old(self), incumbent_f as int, out->Goal_0)
                && out->Goal_0.state@ == old(self).goal@,
            out is Expanded ==> exists|routed: Seq<(u32, Node)>, node: Node| #[trigger]
                final(self).expanded_by(
                    old(self),
                    incumbent_f as int,
                    *h_func,
                    *old(router),
                    out->Expanded_0@,
                    routed,
                    node,
                ),
            out is Overflow ==> final(self).picked_by(old(self), incumbent_f as int, out->Overflow_0)
                && out->Overflow_0.state@ != old(self).goal@ && child_cost_overflows(
                out->Overflow_0,
                &old(self).goal,
                *h_func,
            ),
    {
        self.merge();
        let node = match self.select(incumbent_f) {
            Some(node) => node,
            None => {
                assert(self.idled_by(old(self), incumbent_f as int));
                return Outcome::Idle;
            },
        };
        assert(self.picked_by(old(self), incumbent_f as int, node));
        if node.state.same_as(&self.goal) {
            return Outcome::Goal(node);
        }
        let ghost picked = *self;
        match self.spread(&node, h_func, router) {
            Some(outbound) => {
                let ghost routed = choose|routed: Seq<(u32, Node)>| #[trigger]
                    self.handed_on(&picked, node, *h_func, *old(router), outbound@, routed);
                assert(self.handed_on(&picked, node, *h_func, *old(router), outbound@, routed));
                proof {
                    assert(picked.inbox@ + kept(routed, picked.id, routed.len() as int) =~= kept(
                        routed,
                        picked.id,
                        routed.len() as int,
                    ));
                }
                let ghost sent_on = outbound@;
                let out = Outcome::Expanded(outbound);
                assert(out->Expanded_0@ == sent_on);
                assert(self.expanded_by(
                    old(self),
                    incumbent_f as int,
                    *h_func,
                    *old(router),
                    out->Expanded_0@,
                    routed,
                    node,
                ));
                out
            },
            None => {
                assert(child_cost_overflows(node, &old(self).goal, *h_func));
                assert(self.picked_by(old(self), incumbent_f as int, node));
                Outcome::Overflow(node)
            },
        }
    }
}

/// A router that serves the goal accepts every board made of the goal's
/// tiles, and so does what a routing leaves of it.
pub proof fn lemma_serves_accepts<T: StateHash>(
    router: Router<T>,
    before: Router<T>,
    goal: GridView,
    state: GridView,
)
    requires
        router.keeps(before),
        serves(before, goal),
        goal.wf(),
        state.wf(),
        state.tiles_within(goal),
    ensures
        router.accepts(state.data),
        serves(router, goal),
{
    lemma_square_len(goal);
    lemma_square_len(state);
    match router {
        Router::Owner { hasher } => {
            lemma_covers_rearranged(&hasher, goal, state);
        },
        Router::Diffusion { .. } => {},
    }
}

/// A valid board has as many cells as an `i32` can index.
pub proof fn lemma_square_len(state: GridView)
    requires
        state.wf(),
    ensures
        state.squared(),
        state.data.len() <= i32::MAX,
{
    crate::grid::lemma_square_fits(state.size);
}

/// `kept` reads only the part of the sequence it is asked about.
pub proof fn lemma_kept_prefix(routed: Seq<(u32, Node)>, me: u32, k: int, prefix: Seq<(u32, Node)>)
    requires
        0 <= k <= prefix.len() <= routed.len(),
        forall|i: int| 0 <= i < prefix.len() ==> routed[i] == prefix[i],
    ensures
        kept(routed, me, k) == kept(prefix, me, k),
    decreases k,
{
    if k > 0 {
        lemma_kept_prefix(routed, me, k - 1, prefix);
    }
}

/// `sent` reads only the part of the sequence it is asked about.
pub proof fn lemma_sent_prefix(routed: Seq<(u32, Node)>, me: u32, k: int, prefix: Seq<(u32, Node)>)
    requires
        0 <= k <= prefix.len() <= routed.len(),
        forall|i: int| 0 <= i < prefix.len() ==> routed[i] == prefix[i],
    ensures
        sent(routed, me, k) == sent(prefix, me, k),
    decreases k,
{
    if k > 0 {
        lemma_sent_prefix(routed, me, k - 1, prefix);
    }
}

} // verus!
