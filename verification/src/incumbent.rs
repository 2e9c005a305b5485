//! What the workers of one search share: the best solution found so far and
//! the signal to stop.

use crate::grid::Grid;
use crate::node::{Node, NodeView};
use vstd::prelude::*;

verus! {

/// The cost that stands for "no solution yet".
pub const NO_SOLUTION: i32 = i32::MAX;

/// The best goal node found so far. Its `f` bounds what is still worth
/// expanding, and never grows.
#[derive(Debug)]
pub struct Incumbent {
    best: Node,
}

impl View for Incumbent {
    type V = NodeView;

    closed spec fn view(&self) -> NodeView {
        self.best@
    }
}

/// The bound after `offer` has been held against the bound `f`.
pub open spec fn improved(f: int, offer: int) -> int {
    if offer < f {
        offer
    } else {
        f
    }
}

/// The bound after each of `offers`, in order, has been held against it.
pub open spec fn improved_by(f: int, offers: Seq<int>) -> int
    decreases offers.len(),
{
    if offers.len() == 0 {
        f
    } else {
        improved(improved_by(f, offers.drop_last()), offers.last())
    }
}

/// The bound never grows: after more offers it is at most what it was after
/// fewer, whatever was offered.
pub proof fn lemma_incumbent_monotone(f: int, offers: Seq<int>, i: int, j: int)
    requires
        0 <= i <= j <= offers.len(),
    ensures
        improved_by(f, offers.take(j)) <= improved_by(f, offers.take(i)),
        improved_by(f, offers.take(j)) <= f,
    decreases j,
{
    if j > 0 {
        assert(offers.take(j).drop_last() == offers.take(j - 1));
        if i < j {
            lemma_incumbent_monotone(f, offers, i, j - 1);
        } else {
            lemma_incumbent_monotone(f, offers, j - 1, j - 1);
        }
    } else {
        assert(offers.take(0).len() == 0);
    }
}

impl Incumbent {
    /// The record at the start of a search: the start board at cost
    /// [`NO_SOLUTION`].
    pub fn new(start: Grid) -> (inc: Incumbent)
        ensures
            inc@.state == start@,
            inc@.f == NO_SOLUTION,
            inc@.g == 0,
            inc@.h == 0,
    {
        Incumbent { best: Node { state: start, f: NO_SOLUTION, g: 0, h: 0 } }
    }

    /// The bound: the `f` of the best solution so far.
    pub fn f(&self) -> (f: i32)
        ensures
            f == self@.f,
    {
        self.best.f
    }

    /// A copy of the record.
    pub fn read(&self) -> (node: Node)
        ensures
            node@ == self@,
    {
        self.best.clone()
    }

    /// Takes `node` as the record if its `f` is strictly lower than the
    /// record's, and says whether it did.
    pub fn try_improve(&mut self, node: &Node) -> (better: bool)
        ensures
            better == (node.f < old(self)@.f),
            final(self)@ == if better {
                node@
            } else {
                old(self)@
            },
            final(self)@.f == improved(old(self)@.f, node.f as int),
            final(self)@.f <= old(self)@.f,
    {
        if node.f < self.best.f {
            self.best = node.clone();
            true
        } else {
            false
        }
    }

    /// The solution, or `None` if the record still stands at [`NO_SOLUTION`].
    pub fn solution(&self) -> (out: Option<Node>)
        ensures
            out is None <==> self@.f == NO_SOLUTION,
            out matches Some(node) ==> node@ == self@,
    {
        if self.best.f == NO_SOLUTION {
            None
        } else {
            Some(self.best.clone())
        }
    }
}

/// The signal that ends a search. Once raised it stays raised.
#[derive(Debug)]
pub struct TerminationFlag {
    raised: bool,
}

impl View for TerminationFlag {
    type V = bool;

    closed spec fn view(&self) -> bool {
        self.raised
    }
}

impl TerminationFlag {
    /// A flag that is not raised.
    pub fn new() -> (flag: TerminationFlag)
        ensures
            !flag@,
    {
        TerminationFlag { raised: false }
    }

    /// Raises the flag; on a raised flag this changes nothing.
    pub fn raise(&mut self)
        ensures
            final(self)@,
    {
        self.raised = true;
    }

    /// Whether the flag is raised.
    pub fn is_raised(&self) -> (raised: bool)
        ensures
            raised == self@,
    {
        self.raised
    }
}

} // verus!
