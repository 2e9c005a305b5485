//! The priority queue of a frontier: nodes come out cheapest `f` first.

use crate::grid::Grid;
use crate::node::{node_views, Node, NodeView};
use vstd::multiset::Multiset;
use vstd::prelude::*;

verus! {

broadcast use {
    vstd::seq_lib::group_to_multiset_ensures,
    vstd::multiset::group_multiset_axioms,
    vstd::multiset::group_multiset_properties,
};

/// A bag of nodes from which the one with the least `f` is taken first: a
/// binary heap, in which no node is cheaper than the node above it.
pub struct NodeQueue {
    nodes: Vec<Node>,
}

/// Whether `n` is in `q` and no node of `q` has a smaller `f`.
pub open spec fn is_least(q: Multiset<NodeView>, n: NodeView) -> bool {
    q.contains(n) && forall|m: NodeView| q.contains(m) ==> n.f <= m.f
}

/// Whether `f` is the least `f` among the nodes of `q`.
pub open spec fn is_least_f(q: Multiset<NodeView>, f: int) -> bool {
    (exists|n: NodeView| q.contains(n) && n.f == f) && forall|m: NodeView|
        q.contains(m) ==> f <= m.f
}

/// The place above place `i` of a heap.
spec fn above(i: int) -> int {
    (i - 1) / 2
}

/// Whether the node at each place but `but`, the top aside, is no cheaper
/// than the node above it.
spec fn ordered_but(nodes: Seq<Node>, but: int) -> bool {
    forall|k: int| 0 < k < nodes.len() && k != but ==> nodes[above(k)].f <= (#[trigger] nodes[k]).f
}

/// Whether each node below place `i` is no cheaper than the node above place
/// `i`.
spec fn spans(nodes: Seq<Node>, i: int) -> bool {
    i > 0 ==> forall|k: int|
        0 < k < nodes.len() && above(k) == i ==> nodes[above(i)].f <= (#[trigger] nodes[k]).f
}

/// Whether the node at each place, but those below place `i`, is no cheaper
/// than the node above it.
spec fn ordered_below(nodes: Seq<Node>, i: int) -> bool {
    forall|k: int|
        0 < k < nodes.len() && above(k) != i ==> nodes[above(k)].f <= (#[trigger] nodes[k]).f
}

/// Whether the nodes are a heap.
spec fn heaped(nodes: Seq<Node>) -> bool {
    ordered_but(nodes, 0)
}

/// The top of a heap is as cheap as any node of it.
proof fn lemma_top_least(nodes: Seq<Node>, i: int)
    requires
        heaped(nodes),
        0 <= i < nodes.len(),
    ensures
        nodes[0].f <= nodes[i].f,
    decreases i,
{
    if i > 0 {
        lemma_top_least(nodes, above(i));
    }
}

/// Exchanging two nodes leaves the bag of them as it is.
proof fn lemma_exchange(nodes: Seq<Node>, i: int, j: int)
    requires
        0 <= i < nodes.len(),
        0 <= j < nodes.len(),
        i != j,
    ensures
        node_views(nodes.update(i, nodes[j]).update(j, nodes[i])).to_multiset() == node_views(
            nodes,
        ).to_multiset(),
{
    let views = node_views(nodes);
    let half = views.update(i, views[j]);
    assert(node_views(nodes.update(i, nodes[j]).update(j, nodes[i])) =~= half.update(j, views[i]));
    vstd::seq_lib::to_multiset_update(views, i, views[j]);
    vstd::seq_lib::to_multiset_update(half, j, views[i]);
    assert(views.to_multiset().count(views[i]) > 0) by {
        assert(views.contains(views[i]));
    }
    assert(views.to_multiset().count(views[j]) > 0) by {
        assert(views.contains(views[j]));
    }
    assert(half.update(j, views[i]).to_multiset() =~= views.to_multiset());
}

/// Exchanges the nodes at two places.
fn exchange(nodes: &mut Vec<Node>, i: usize, j: usize)
    requires
        i < old(nodes).len(),
        j < old(nodes).len(),
        i != j,
    ensures
        final(nodes)@ == old(nodes)@.update(i as int, old(nodes)@[j as int]).update(
            j as int,
            old(nodes)@[i as int],
        ),
{
    let mut spare = Node { state: Grid { data: Vec::new(), size: 0, empty_idx: 0 }, f: 0, g: 0, h: 0 };
    core::mem::swap(&mut nodes[i], &mut spare);
    core::mem::swap(&mut nodes[j], &mut spare);
    core::mem::swap(&mut nodes[i], &mut spare);
    assert(nodes@ =~= old(nodes)@.update(i as int, old(nodes)@[j as int]).update(
        j as int,
        old(nodes)@[i as int],
    ));
}

impl View for NodeQueue {
    type V = Multiset<NodeView>;

    closed spec fn view(&self) -> Multiset<NodeView> {
        node_views(self.nodes@).to_multiset()
    }
}

impl NodeQueue {
    /// No node is cheaper than the node above it.
    pub closed spec fn wf(&self) -> bool {
        heaped(self.nodes@)
    }

    /// The empty queue.
    pub fn new() -> (q: NodeQueue)
        ensures
            q.wf(),
            q@ == Multiset::<NodeView>::empty(),
    {
        let q = NodeQueue { nodes: Vec::new() };
        assert(node_views(q.nodes@) =~= Seq::<NodeView>::empty());
        q
    }

    /// The number of nodes in the queue.
    pub fn len(&self) -> (n: usize)
        ensures
            n == self@.len(),
    {
        self.nodes.len()
    }

    /// Whether the queue holds no node.
    pub fn is_empty(&self) -> (empty: bool)
        ensures
            empty <==> self@.len() == 0,
    {
        self.nodes.len() == 0
    }

    /// Adds a node.
    pub fn push(&mut self, node: Node)
        requires
            old(self).wf(),
        ensures
            final(self).wf(),
            final(self)@ == old(self)@.insert(node@),
    {
        let ghost before = node_views(self.nodes@);
        self.nodes.push(node);
        assert(node_views(self.nodes@) =~= before.push(node@));
        let mut i: usize = self.nodes.len() - 1;
        while i > 0
            invariant
                i < self.nodes.len(),
                ordered_but(self.nodes@, i as int),
                spans(self.nodes@, i as int),
                self@ == old(self)@.insert(node@),
            ensures
                heaped(self.nodes@),
                self@ == old(self)@.insert(node@),
            decreases i,
        {
            let up: usize = (i - 1) / 2;
            if self.nodes[i].f >= self.nodes[up].f {
                break ;
            }
            let ghost was = self.nodes@;
            exchange(&mut self.nodes, i, up);
            proof {
                lemma_exchange(was, i as int, up as int);
                let now = self.nodes@;
                assert forall|k: int| 0 < k < now.len() && k != up implies now[above(k)].f <= (
                #[trigger] now[k]).f by {
                    if k != i && above(k) != i && above(k) != up {
                        assert(was[above(k)].f <= was[k].f);
                    } else if k == i {
                    } else if above(k) == i {
                        assert(was[above(i as int)].f <= was[k].f);
                    } else {
                        assert(was[above(k)].f <= was[k].f);
                    }
                }
                assert(spans(now, up as int)) by {
                    if up > 0 {
                        assert forall|k: int| 0 < k < now.len() && above(k) == up implies now[above(
                            up as int,
                        )].f <= (#[trigger] now[k]).f by {
                            assert(was[above(up as int)].f <= was[up as int].f);
                            if k != i {
                                assert(was[above(k)].f <= was[k].f);
                            }
                        }
                    }
                }
            }
            i = up;
        }
    }

    /// The least `f` in the queue, if the queue holds a node.
    pub fn peek_f(&self) -> (best: Option<i32>)
        requires
            self.wf(),
        ensures
            best is None <==> self@.len() == 0,
            best matches Some(f) ==> is_least_f(self@, f as int),
    {
        if self.nodes.len() == 0 {
            return None;
        }
        proof {
            self.lemma_top();
        }
        Some(self.nodes[0].f)
    }

    /// The top of the queue is a node of least `f`.
    proof fn lemma_top(&self)
        requires
            self.wf(),
            self.nodes@.len() > 0,
        ensures
            is_least(self@, self.nodes@[0]@),
    {
        let views = node_views(self.nodes@);
        assert(views[0] == self.nodes@[0]@);
        assert(views.contains(views[0]));
        assert forall|m: NodeView| self@.contains(m) implies self.nodes@[0].f <= m.f by {
            assert(views.contains(m));
            let j = choose|j: int| 0 <= j < views.len() && views[j] == m;
            assert(views[j] == self.nodes@[j]@);
            lemma_top_least(self.nodes@, j);
        }
    }

    /// Takes a node of least `f` out of the queue, if the queue holds a node.
    pub fn pop(&mut self) -> (out: Option<Node>)
        requires
            old(self).wf(),
        ensures
            final(self).wf(),
            out is None <==> old(self)@.len() == 0,
            out is None ==> final(self)@ == old(self)@,
            out matches Some(n) ==> is_least(old(self)@, n@) && final(self)@ == old(self)@.remove(n@),
    {
        let len = self.nodes.len();
        if len == 0 {
            return None;
        }
        proof {
            self.lemma_top();
        }
        let ghost first = self.nodes@;
        if len > 1 {
            exchange(&mut self.nodes, 0, len - 1);
            proof {
                lemma_exchange(first, 0, len - 1);
            }
        }
        let ghost turned = self.nodes@;
        let node = match self.nodes.pop() {
            Some(node) => node,
            None => {
                return None;
            },
        };
        proof {
            assert(node == first[0]);
            assert(self.nodes@ =~= turned.remove(len - 1));
            assert(node_views(self.nodes@) =~= node_views(turned).remove(len - 1));
            vstd::seq_lib::to_multiset_remove(node_views(turned), len - 1);
            assert(self@ == old(self)@.remove(node@));
            assert forall|k: int| 0 < k < self.nodes@.len() && above(k) != 0 implies self.nodes@[above(
                k,
            )].f <= (#[trigger] self.nodes@[k]).f by {
                assert(first[above(k)].f <= first[k].f);
            }
        }
        let n = self.nodes.len();
        let mut i: usize = 0;
        while i < n / 2
            invariant
                n == self.nodes.len(),
                i <= n,
                ordered_below(self.nodes@, i as int),
                spans(self.nodes@, i as int),
                self@ == old(self)@.remove(node@),
            ensures
                heaped(self.nodes@),
                self@ == old(self)@.remove(node@),
            decreases n - i,
        {
            let left: usize = 2 * i + 1;
            let mut least: usize = left;
            if left + 1 < n && self.nodes[left + 1].f < self.nodes[left].f {
                least = left + 1;
            }
            if self.nodes[least].f >= self.nodes[i].f {
                proof {
                    assert forall|k: int| 0 < k < self.nodes@.len() && k != 0 implies self.nodes@[above(
                        k,
                    )].f <= (#[trigger] self.nodes@[k]).f by {
                        if above(k) == i {
                            assert(k == left || k == left + 1);
                        }
                    }
                }
                break ;
            }
            let ghost was = self.nodes@;
            exchange(&mut self.nodes, i, least);
            proof {
                lemma_exchange(was, i as int, least as int);
                let now = self.nodes@;
                assert forall|k: int| 0 < k < now.len() && above(k) != least implies now[above(k)].f
                    <= (#[trigger] now[k]).f by {
                    if above(k) == i {
                        assert(k == left || k == left + 1);
                    } else if k == i {
                        assert(was[above(i as int)].f <= was[least as int].f);
                    } else {
                        assert(was[above(k)].f <= was[k].f);
                    }
                }
                assert(spans(now, least as int)) by {
                    assert forall|k: int| 0 < k < now.len() && above(k) == least implies now[above(
                        least as int,
                    )].f <= (#[trigger] now[k]).f by {
                        assert(was[above(k)].f <= was[k].f);
                    }
                }
            }
            i = least;
        }
        Some(node)
    }
}

} // verus!
