//! A search by several workers that take turns in one thread.
//!
//! The team holds what a search shares: the workers, the best solution found
//! so far, and the flag that ends the search. A worker's turn is one round of
//! its loop; what it sends arrives at once.

use crate::answers::{lemma_answer_rated, lemma_launched_rated};
use crate::baseline::{overflows, unpriced, Halt, Report};
use crate::grid::{Grid, GridView};
use crate::hash::StateHash;
use crate::incumbent::{Incumbent, TerminationFlag, NO_SOLUTION};
use crate::log::Log;
use crate::node::{child_cost_overflows, children_of, estimates, node_views, rated, Node};
use crate::optimality::{consistent, shortest, steady};
use crate::router::Router;
use crate::solo::{
    answered, lemma_solo_ends, lemma_solo_finds, lemma_solo_least, near, roomy,
};
use crate::worker::{
    kept, lemma_serves_accepts, lemma_square_len, routed_nodes, sent, serves, Frontier, Outcome,
    Phase, Worker,
};
use vstd::prelude::*;

verus! {

/// How the turn of one worker ended.
#[derive(Debug, Clone, Copy, PartialEq, Eq, Structural)]
pub enum Turn {
    /// The worker saw the flag raised and stopped.
    Stopped,
    /// The worker had nothing worth expanding.
    Idle,
    /// The worker expanded a board and sent its successors on.
    Expanded,
    /// The worker picked the goal: the flag is raised.
    Solved,
    /// The worker picked a board whose successor has a cost that is no `i32`.
    Overflow,
    /// A counter of the worker cannot count further.
    Worn,
}

/// The workers of one search and what they share.
pub struct Team {
    /// The workers, each at its index.
    pub workers: Vec<Worker>,
    /// The best solution found so far.
    pub incumbent: Incumbent,
    /// The flag that ends the search.
    pub flag: TerminationFlag,
    /// The board the search starts from.
    pub start: Grid,
    /// The board searched for.
    pub goal: Grid,
}

impl Team {
    /// Whether worker `i` is a worker of this team's search, and every node
    /// that waits at it stands for a path from the start.
    pub open spec fn member(&self, i: int) -> bool {
        let w = self.workers[i];
        &&& w.wf()
        &&& w.id == i
        &&& w.workers == self.workers.len()
        &&& w.goal@ == self.goal@
        &&& w.rooted(self.start@)
    }

    /// The team's invariant.
    pub open spec fn wf(&self) -> bool {
        &&& 0 < self.workers.len() <= u32::MAX
        &&& self.start@.wf()
        &&& self.goal@.wf()
        &&& self.start@.tiles_within(self.goal@)
        &&& forall|i: int| 0 <= i < self.workers.len() ==> #[trigger] self.member(i)
        &&& self.incumbent@.f != NO_SOLUTION ==> self.incumbent@.state == self.goal@
            && self.incumbent@.grounded(self.start@, self.goal@)
    }

    /// Whether `other` is a team of the same search: the same boards and as
    /// many workers.
    pub open spec fn same_search(&self, other: &Team) -> bool {
        &&& self.start@ == other.start@
        &&& self.goal@ == other.goal@
        &&& self.workers.len() == other.workers.len()
    }

    /// The frontier of worker `i` once what has arrived is merged.
    pub open spec fn merged_at(&self, i: int) -> Frontier {
        self.workers[i].frontier().merged_all(node_views(self.workers[i].inbox@))
    }

    /// Whether all workers but worker `i` are as they are in `before`.
    pub open spec fn others_as(&self, before: &Team, i: int) -> bool {
        forall|k: int|
            0 <= k < before.workers.len() && k != i ==> #[trigger] self.workers[k] == before.workers[k]
    }

    /// Whether the counters of worker `i` count one round more than in
    /// `before`, `aborts` idle rounds more and `nodes` nodes more.
    pub open spec fn counted(&self, before: &Team, i: int, aborts: int, nodes: int) -> bool {
        let was = before.workers[i].log;
        self.workers[i].log == (Log {
            iter_cnt: (was.iter_cnt + 1) as i32,
            abort_cnt: (was.abort_cnt + aborts) as i32,
            node_cnt: (was.node_cnt + nodes) as i32,
        })
    }

    /// Whether this team is what an idle turn of worker `i` has made of
    /// `before`: what had arrived was merged and nothing was worth expanding
    /// under the bound of the best solution so far.
    pub open spec fn idled(&self, before: &Team, i: int) -> bool {
        &&& before.merged_at(i).stalled(before.incumbent@.f)
        &&& self.workers[i].frontier() == before.merged_at(i)
        &&& self.workers[i].inbox@.len() == 0
        &&& self.counted(before, i, 1, 0)
        &&& self.others_as(before, i)
        &&& self.incumbent@ == before.incumbent@
    }

    /// Whether this team is what a turn in which worker `i` picked the goal's
    /// node `node` has made of `before`: the node is the best solution now if it
    /// is strictly better than the one so far.
    pub open spec fn solved(&self, before: &Team, i: int, node: Node) -> bool {
        &&& !before.merged_at(i).stalled(before.incumbent@.f)
        &&& before.merged_at(i).selects(node@, self.workers[i].frontier())
        &&& node.state@ == before.goal@
        &&& self.workers[i].inbox@.len() == 0
        &&& self.counted(before, i, 0, 0)
        &&& self.others_as(before, i)
        &&& self.incumbent@ == if node.f < before.incumbent@.f {
            node@
        } else {
            before.incumbent@
        }
    }

    /// Whether this team is what a turn in which worker `i` picked `node`,
    /// whose successor has a cost that is no `i32`, has made of `before`.
    pub open spec fn overflowed<H: Fn(&Grid, &Grid) -> i32>(
        &self,
        before: &Team,
        i: int,
        h_func: H,
        node: Node,
    ) -> bool {
        &&& !before.merged_at(i).stalled(before.incumbent@.f)
        &&& before.merged_at(i).selects(node@, self.workers[i].frontier())
        &&& node.state@ != before.goal@
        &&& child_cost_overflows(node, &before.workers[i].goal, h_func)
        &&& self.workers[i].inbox@.len() == 0
        &&& self.counted(before, i, 0, 0)
        &&& self.others_as(before, i)
        &&& self.incumbent@ == before.incumbent@
    }

    /// Whether this team is what a turn in which worker `i` expanded `node`
    /// has made of `before`: `routed` are the successors with the workers they
    /// go to, and each has arrived where it goes, those sent on the last first.
    pub open spec fn expanded<H: Fn(&Grid, &Grid) -> i32, T: StateHash>(
        &self,
        before: &Team,
        i: int,
        h_func: H,
        router: Router<T>,
        routed: Seq<(u32, Node)>,
        node: Node,
    ) -> bool {
        let was = before.workers[i];
        let outbound = sent(routed, was.id, routed.len() as int);
        &&& !before.merged_at(i).stalled(before.incumbent@.f)
        &&& before.merged_at(i).selects(node@, self.workers[i].frontier())
        &&& node.state@ != before.goal@
        &&& children_of(routed_nodes(routed), node, &was.goal, h_func)
        &&& forall|j: int|
            0 <= j < routed.len() ==> router.sends(
                (#[trigger] routed[j]).1.state,
                was.id,
                was.workers,
                routed[j].0,
            )
        &&& self.counted(before, i, 0, outbound.len() as int)
        &&& self.workers[i].inbox@ == kept(routed, was.id, routed.len() as int)
        &&& forall|k: int|
            0 <= k < before.workers.len() && k != i ==> (#[trigger] self.workers[k]).frontier()
                == before.workers[k].frontier() && self.workers[k].log == before.workers[k].log
                && self.workers[k].inbox@ == before.workers[k].inbox@ + arrivals(outbound, k)
        &&& self.incumbent@ == before.incumbent@
    }

    /// Whether this is a team of `count` workers as it is when the search from
    /// `start` for `goal` begins: no flag is raised and no solution known, the
    /// counters are at zero, nothing is open or closed, and the start's node, at
    /// `g` 0 and with an answer of the estimate, has arrived at the worker that
    /// `router` names for it.
    pub open spec fn launched<H: Fn(&Grid, &Grid) -> i32, T: StateHash>(
        &self,
        start: Grid,
        goal: GridView,
        count: u32,
        h_func: H,
        router: Router<T>,
    ) -> bool {
        &&& self.wf()
        &&& self.start@ == start@
        &&& self.goal@ == goal
        &&& self.workers.len() == count
        &&& !self.flag@
        &&& self.incumbent@.f == NO_SOLUTION
        &&& self.explored()
        &&& forall|i: int|
            0 <= i < count ==> (#[trigger] self.workers[i]).log == (Log {
                iter_cnt: 0,
                node_cnt: 0,
                abort_cnt: 0,
            })
        &&& exists|owner: int|
            0 <= owner < count && router.sends(start, 0, count, owner as u32)
                && #[trigger] self.fresh(owner) && rated(
                h_func,
                goal,
                start@,
                self.workers[owner].inbox[0].h as int,
            )
    }

    /// Whether the search has not begun and is over at once: the start, which
    /// has arrived at worker `owner`, is the goal, at a cost below the one that
    /// stands for "no solution", and no worker up to `owner` is worn.
    pub open spec fn ready(&self, owner: int) -> bool {
        &&& self.fresh(owner)
        &&& self.start@ == self.goal@
        &&& self.incumbent@.f == NO_SOLUTION
        &&& !self.flag@
        &&& forall|k: int| 0 <= k <= owner ==> !#[trigger] self.worn(k)
        &&& self.workers[owner].inbox[0].f < NO_SOLUTION
    }

    /// Whether worker `i` knows of board `s`.
    pub open spec fn known_at(&self, i: int, s: GridView) -> bool {
        0 <= i < self.workers.len() && self.workers[i].knows(s)
    }

    /// Whether some worker knows of board `s`: has it open or closed, or a
    /// node of it has arrived there.
    pub open spec fn knows(&self, s: GridView) -> bool {
        exists|i: int| #[trigger] self.known_at(i, s)
    }

    /// Whether worker `i` has board `s` closed.
    pub open spec fn closed_at(&self, i: int, s: GridView) -> bool {
        0 <= i < self.workers.len() && self.workers[i].closed@.contains_key(s)
    }

    /// Whether the team has lost nothing of the search: the start is known,
    /// every board one move from a closed board is known, and the goal is
    /// closed nowhere.
    pub open spec fn explored(&self) -> bool {
        &&& self.knows(self.start@)
        &&& forall|i: int, s: GridView, t: GridView| #[trigger]
            self.closed_at(i, s) && #[trigger] s.steps_to(t) ==> self.knows(t)
        &&& forall|i: int| !#[trigger] self.closed_at(i, self.goal@)
    }

    /// Whether no worker has a board open or a node waiting to be merged.
    pub open spec fn quiescent(&self) -> bool {
        forall|i: int|
            0 <= i < self.workers.len() ==> (#[trigger] self.workers[i]).open@ == Map::<
                GridView,
                int,
            >::empty() && self.workers[i].inbox@.len() == 0
    }

    /// Whether the search has not begun: no worker has a board open or closed,
    /// and the start's node, at `g` 0, has arrived at worker `owner` and nothing
    /// anywhere else.
    pub open spec fn fresh(&self, owner: int) -> bool {
        &&& 0 <= owner < self.workers.len()
        &&& forall|i: int|
            0 <= i < self.workers.len() ==> (#[trigger] self.workers[i]).frontier() == (
            crate::worker::Frontier {
                open: Map::empty(),
                closed: Map::empty(),
                queue: vstd::multiset::Multiset::empty(),
            }) && self.workers[i].inbox.len() == if i == owner {
                1int
            } else {
                0int
            }
        &&& self.workers[owner].inbox[0].state@ == self.start@
        &&& self.workers[owner].inbox[0].g == 0
        &&& self.workers[owner].inbox[0].f == self.workers[owner].inbox[0].h
    }

    /// A team of `count` workers for the search from `start` to `goal`. The
    /// start arrives at the worker that `router` names for it; nothing else is
    /// open anywhere.
    pub fn new<H: Fn(&Grid, &Grid) -> i32, T: StateHash>(
        start: &Grid,
        goal: &Grid,
        count: u32,
        h_func: &H,
        router: &mut Router<T>,
    ) -> (team: Team)
        requires
            count > 0,
            start@.wf(),
            goal@.wf(),
            start@.tiles_within(goal@),
            estimates(*h_func, goal@),
            serves(*old(router), goal@),
        ensures
            team.launched(*start, goal@, count, *h_func, *old(router)),
            team.wf(),
            team.start@ == start@,
            team.goal@ == goal@,
            team.workers.len() == count,
            !team.flag@,
            team.incumbent@.f == NO_SOLUTION,
            team.explored(),
            final(router).keeps(*old(router)),
            forall|i: int|
                0 <= i < count ==> (#[trigger] team.workers[i]).log == (Log {
                    iter_cnt: 0,
                    node_cnt: 0,
                    abort_cnt: 0,
                }),
            exists|owner: int|
                0 <= owner < count && old(router).sends(*start, 0, count, owner as u32)
                    && #[trigger] team.fresh(owner) && rated(
                    *h_func,
                    goal@,
                    start@,
                    team.workers[owner].inbox[0].h as int,
                ),
    {
        proof {
            lemma_serves_accepts(*router, *router, goal@, start@);
            lemma_square_len(start@);
        }
        let owner = router.route(start, 0, count);
        let mut workers: Vec<Worker> = Vec::new();
        let mut i: u32 = 0;
        while i < count
            invariant
                i <= count,
                owner < count,
                workers.len() == i,
                start@.wf(),
                goal@.wf(),
                start@.tiles_within(goal@),
                estimates(*h_func, goal@),
                forall|k: int|
                    0 <= k < i ==> {
                        let w = #[trigger] workers[k];
                        &&& w.wf()
                        &&& w.id == k
                        &&& w.workers == count
                        &&& w.goal@ == goal@
                        &&& w.rooted(start@)
                        &&& w.frontier() == (crate::worker::Frontier {
                            open: Map::empty(),
                            closed: Map::empty(),
                            queue: vstd::multiset::Multiset::empty(),
                        })
                        &&& w.inbox.len() == if k == owner {
                            1int
                        } else {
                            0int
                        }
                        &&& k == owner ==> w.inbox[0].state@ == start@ && w.inbox[0].g == 0
                            && w.inbox[0].f == w.inbox[0].h && rated(
                            *h_func,
                            goal@,
                            start@,
                            w.inbox[0].h as int,
                        )
                        &&& w.log == (Log { iter_cnt: 0, node_cnt: 0, abort_cnt: 0 })
                    },
            decreases count - i,
        {
            let mut worker = Worker::new(i, count, goal.clone());
            if i == owner {
                let ghost fresh_worker = worker;
                worker.seed(start.clone(), h_func);
                proof {
                    let first = worker.inbox[0];
                    assert(first == worker.inbox@.last());
                    assert(first.state@ == start@ && fresh_worker.goal@ == goal@ && call_ensures(
                        *h_func,
                        (&first.state, &fresh_worker.goal),
                        first.h,
                    ));
                }
            }
            let ghost before = workers@;
            workers.push(worker);
            assert forall|k: int| 0 <= k < i implies workers[k] == before[k] by {}
            i = i + 1;
        }
        let team = Team {
            workers,
            incumbent: Incumbent::new(start.clone()),
            flag: TerminationFlag::new(),
            start: start.clone(),
            goal: goal.clone(),
        };
        assert forall|k: int| 0 <= k < team.workers.len() implies #[trigger] team.member(k) by {
            assert(team.workers[k].wf());
        }
        assert(team.fresh(owner as int));
        assert(team.explored()) by {
            assert(team.workers[owner as int].inbox[0].state@ == team.start@);
            assert(team.workers[owner as int].awaits(team.start@));
            assert(team.known_at(owner as int, team.start@));
            assert forall|i: int| !#[trigger] team.closed_at(i, team.goal@) by {
                if 0 <= i < team.workers.len() {
                    assert(team.workers[i].frontier().closed == Map::<GridView, int>::empty());
                }
            }
            assert forall|i: int, s: GridView, t: GridView| #[trigger]
                team.closed_at(i, s) && #[trigger] s.steps_to(t) implies team.knows(t) by {
                assert(team.workers[i].frontier().closed == Map::<GridView, int>::empty());
            }
        }
        team
    }

    /// Whether no worker has a board open or a node waiting to be merged: then
    /// no turn can change anything.
    pub fn is_quiescent(&self) -> (quiet: bool)
        requires
            self.wf(),
        ensures
            quiet == self.quiescent(),
    {
        let mut i: usize = 0;
        while i < self.workers.len()
            invariant
                i <= self.workers.len(),
                self.wf(),
                forall|k: int|
                    0 <= k < i ==> (#[trigger] self.workers[k]).open@ == Map::<GridView, int>::empty()
                        && self.workers[k].inbox@.len() == 0,
            decreases self.workers.len() - i,
        {
            assert(self.member(i as int));
            if !self.workers[i].open.is_empty() || self.workers[i].inbox.len() > 0 {
                return false;
            }
            i = i + 1;
        }
        true
    }

    /// Gives worker `i` its turn: one round, in which it merges what has
    /// arrived, and picks, reports or expands a node. What it sends arrives at
    /// the workers it is sent to; a goal it picks raises the flag and is held
    /// against the best solution so far.
    pub fn turn<H: Fn(&Grid, &Grid) -> i32, T: StateHash>(
        &mut self,
        i: usize,
        h_func: &H,
        router: &mut Router<T>,
    ) -> (turn: Turn)
        requires
            old(self).wf(),
            i < old(self).workers.len(),
            estimates(*h_func, old(self).goal@),
            serves(*old(router), old(self).goal@),
        ensures
            final(self).wf(),
            final(self).same_search(old(self)),
            final(router).keeps(*old(router)),
            serves(*final(router), old(self).goal@),
            turn == Turn::Solved ==> final(self).flag@,
            turn == Turn::Solved && final(self).incumbent@.f == NO_SOLUTION ==> unpriced(
                old(self).start@,
                old(self).goal@,
            ),
            turn == Turn::Overflow ==> overflows(old(self).start@, old(self).goal@, *h_func),
            turn == Turn::Worn ==> final(self).workers@ == old(self).workers@,
            turned(*old(self), *final(self), i as int, turn, *h_func, *old(router)),
            turn == Turn::Idle ==> final(self).idled(old(self), i as int),
            turn == Turn::Solved ==> exists|node: Node| #[trigger]
                final(self).solved(old(self), i as int, node),
            turn == Turn::Overflow ==> exists|node: Node| #[trigger]
                final(self).overflowed(old(self), i as int, *h_func, node),
            turn == Turn::Expanded ==> exists|routed: Seq<(u32, Node)>, node: Node| #[trigger]
                final(self).expanded(old(self), i as int, *h_func, *old(router), routed, node),
            turn == Turn::Stopped ==> final(self).counted(old(self), i as int, 0, 0),
            logged(old(self).workers[i as int].log, final(self).workers[i as int].log, 1),
            forall|k: int|
                0 <= k < old(self).workers.len() && k != i ==> (#[trigger] final(self).workers[k]).log
                    == old(self).workers[k].log,
            turn == Turn::Solved ==> final(self).incumbent@.f <= old(self).incumbent@.f,
            turn == Turn::Stopped ==> final(self).workers[i as int].frontier() == old(self).workers[i as int].frontier() && final(self).workers[i as int].inbox@ == old(self).workers[i as int].inbox@,
            turn == Turn::Idle ==> final(self).workers[i as int].frontier() == old(self).workers[i as int].frontier().merged_all(
                crate::node::node_views(old(self).workers[i as int].inbox@),
            ) && final(self).workers[i as int].inbox@.len() == 0,
            (turn == Turn::Idle || turn == Turn::Solved || turn == Turn::Overflow) ==> forall|k: int|
                0 <= k < old(self).workers.len() && k != i ==> final(self).workers[k] == old(self).workers[k],
            turn != Turn::Solved ==> final(self).flag@ == old(self).flag@ && final(self).incumbent@
                == old(self).incumbent@,
            old(self).explored() && turn != Turn::Solved && turn != Turn::Overflow ==> final(self).explored(),
            turn == Turn::Stopped <==> old(self).flag@ && !(old(self).worn(i as int)),
            turn == Turn::Worn <==> old(self).worn(i as int),
            (turn == Turn::Worn || turn == Turn::Stopped) ==> forall|k: int|
                0 <= k < old(self).workers.len() && k != i ==> final(self).workers[k] == old(self).workers[k],
    {
        proof {
            assert(self.member(i as int));
        }
        let log = self.workers[i].log;
        if log.iter_cnt < 0 || log.iter_cnt == i32::MAX || log.abort_cnt == i32::MAX || log.node_cnt
            < 0 || log.node_cnt > i32::MAX - 4 {
            return Turn::Worn;
        }
        let raised = self.flag.is_raised();
        let bound = self.incumbent.f();
        let ghost team = *self;
        let phase = self.workers[i].begin(raised);
        proof {
            assert forall|k: int| 0 <= k < self.workers.len() implies #[trigger] self.member(k) by {
                assert(team.member(k));
            }
        }
        proof {
            if team.explored() {
                lemma_untouched(team, *self);
            }
        }
        match phase {
            Phase::Stop => {
                return Turn::Stopped;
            },
            _ => {},
        }
        let ghost begun = *self;
        let outcome = self.workers[i].advance(bound, h_func, router);
        proof {
            assert(begun.member(i as int));
            assert forall|k: int| 0 <= k < self.workers.len() implies #[trigger] self.member(k) by {
                assert(begun.member(k));
            }
            lemma_serves_accepts(*router, *old(router), self.goal@, self.goal@);
        }
        match outcome {
            Outcome::Idle => {
                proof {
                    if begun.explored() {
                        lemma_idle(begun, *self, i as int);
                    }
                    assert(self.idled(old(self), i as int));
                }
                Turn::Idle
            },
            Outcome::Goal(node) => {
                self.flag.raise();
                self.incumbent.try_improve(&node);
                proof {
                    if self.incumbent@.f == NO_SOLUTION {
                        assert(node@.grounded(self.start@, self.goal@) && node.state@ == self.goal@
                            && node.f == i32::MAX);
                    }
                }
                proof {
                    assert forall|k: int| 0 <= k < self.workers.len() implies #[trigger] self.member(
                        k,
                    ) by {
                        assert(begun.member(k));
                    }
                    assert(outcome->Goal_0 == node);
                    assert(self.solved(old(self), i as int, node));
                }
                Turn::Solved
            },
            Outcome::Overflow(node) => {
                proof {
                    let end = begun.workers[i as int].goal;
                    assert(outcome->Overflow_0 == node);
                    assert(end@ == self.goal@ && node@.grounded(self.start@, self.goal@)
                        && child_cost_overflows(node, &end, *h_func));
                    assert(self.overflowed(old(self), i as int, *h_func, node));
                }
                Turn::Overflow
            },
            Outcome::Expanded(outbound) => {
                let ghost mid = *self;
                let ghost sent_on = outbound@;
                proof {
                    assert(outcome->Expanded_0@ == sent_on);
                }
                let ghost (routed, node) = choose|routed: Seq<(u32, Node)>, node: Node| #[trigger]
                    mid.workers[i as int].expanded_by(
                        &begun.workers[i as int],
                        bound as int,
                        *h_func,
                        *old(router),
                        sent_on,
                        routed,
                        node,
                    );
                proof {
                    if begun.explored() {
                        lemma_expanded(
                            begun,
                            mid,
                            i as int,
                            bound as int,
                            *h_func,
                            *old(router),
                            sent_on,
                            routed,
                            node,
                        );
                    }
                }
                self.deliver(outbound);
                proof {
                    if begun.explored() {
                        let k0 = choose|k: int| #[trigger] mid.known_at(k, mid.start@);
                        assert(self.known_at(k0, self.start@));
                        assert forall|k: int, s: GridView, t: GridView| #[trigger]
                            self.closed_at(k, s) && #[trigger] s.steps_to(t) implies self.knows(t) by {
                            assert(self.workers[k].frontier() == mid.workers[k].frontier());
                            assert(mid.closed_at(k, s));
                            if mid.knows(t) {
                                let k1 = choose|k1: int| #[trigger] mid.known_at(k1, t);
                                assert(self.known_at(k1, t));
                            }
                        }
                        assert forall|k: int| !#[trigger] self.closed_at(k, self.goal@) by {
                            if 0 <= k < self.workers.len() {
                                assert(self.workers[k].frontier() == mid.workers[k].frontier());
                                assert(!mid.closed_at(k, mid.goal@));
                            }
                        }
                    }
                }
                proof {
                    lemma_no_arrivals(sent_on, i as int);
                    assert(self.workers[i as int].inbox@ =~= mid.workers[i as int].inbox@);
                    assert(self.expanded(old(self), i as int, *h_func, *old(router), routed, node));
                }
                Turn::Expanded
            },
        }
    }

    /// Whether a counter of worker `i` cannot count one more round.
    pub open spec fn worn(&self, i: int) -> bool {
        let log = self.workers[i].log;
        ||| log.iter_cnt < 0
        ||| log.iter_cnt == i32::MAX
        ||| log.abort_cnt == i32::MAX
        ||| log.node_cnt < 0
        ||| log.node_cnt > i32::MAX - 4
    }

    /// Hands each node to the worker it is sent to.
    fn deliver(&mut self, outbound: Vec<(u32, Node)>)
        requires
            old(self).wf(),
            forall|k: int|
                0 <= k < outbound.len() ==> (#[trigger] outbound[k]).0 < old(self).workers.len()
                    && outbound[k].1@.grounded(old(self).start@, old(self).goal@),
        ensures
            final(self).wf(),
            final(self).same_search(old(self)),
            final(self).flag@ == old(self).flag@,
            final(self).incumbent@ == old(self).incumbent@,
            forall|k: int|
                0 <= k < old(self).workers.len() ==> (#[trigger] final(self).workers[k]).frontier()
                    == old(self).workers[k].frontier(),
            forall|k: int, s: GridView| #[trigger]
                old(self).known_at(k, s) ==> final(self).known_at(k, s),
            forall|t: GridView| #[trigger] pending(outbound@, t) ==> final(self).knows(t),
            forall|k: int|
                0 <= k < old(self).workers.len() ==> (#[trigger] final(self).workers[k]).log == old(self).workers[k].log && final(self).workers[k].inbox@ == old(self).workers[k].inbox@
                    + arrivals(outbound@, k),
    {
        let ghost all = outbound@;
        let mut outbound = outbound;
        while outbound.len() > 0
            invariant
                self.wf(),
                self.same_search(old(self)),
                self.flag@ == old(self).flag@,
                self.incumbent@ == old(self).incumbent@,
                outbound.len() <= all.len(),
                outbound@ == all.subrange(0, outbound.len() as int),
                forall|k: int|
                    0 <= k < outbound.len() ==> (#[trigger] outbound[k]).0 < self.workers.len()
                        && outbound[k].1@.grounded(self.start@, self.goal@),
                forall|k: int|
                    0 <= k < old(self).workers.len() ==> (#[trigger] self.workers[k]).frontier()
                        == old(self).workers[k].frontier(),
                forall|k: int, s: GridView| #[trigger]
                    old(self).known_at(k, s) ==> self.known_at(k, s),
                forall|m: int|
                    outbound.len() <= m < all.len() ==> self.knows((#[trigger] all[m]).1.state@),
                forall|k: int|
                    0 <= k < old(self).workers.len() ==> (#[trigger] self.workers[k]).log == old(self).workers[k].log && self.workers[k].inbox@ + arrivals(outbound@, k) == old(self).workers[k].inbox@ + arrivals(all, k),
            decreases outbound.len(),
        {
            let ghost rest = outbound@;
            let ghost team = *self;
            match outbound.pop() {
                Some((dest, node)) => {
                    proof {
                        assert((dest, node) == rest[rest.len() - 1]);
                        assert((dest, node) == all[rest.len() - 1]);
                        assert(self.member(dest as int));
                        assert forall|k: int| 0 <= k < outbound.len() implies (
                        #[trigger] outbound[k]).0 < self.workers.len() && outbound[k].1@.grounded(
                            self.start@,
                            self.goal@,
                        ) by {
                            assert(outbound[k] == rest[k]);
                        }
                    }
                    self.workers[dest as usize].receive(node);
                    proof {
                        assert forall|k: int| 0 <= k < self.workers.len() implies #[trigger] self.member(
                            k,
                        ) by {
                            assert(team.member(k));
                        }
                        lemma_received(team, *self, dest as int, node);
                        assert(outbound@ =~= rest.drop_last());
                        assert forall|k: int| 0 <= k < old(self).workers.len() implies (
                        #[trigger] self.workers[k]).log == old(self).workers[k].log
                            && self.workers[k].inbox@ + arrivals(outbound@, k) == old(self).workers[k].inbox@ + arrivals(all, k) by {
                            assert(team.workers[k].inbox@ + arrivals(rest, k) == old(self).workers[k].inbox@ + arrivals(all, k));
                            if k == dest {
                                assert(self.workers[k].inbox@ + arrivals(outbound@, k)
                                    =~= team.workers[k].inbox@ + arrivals(rest, k));
                            }
                        }
                        assert forall|m: int| outbound.len() <= m < all.len() implies self.knows(
                            (#[trigger] all[m]).1.state@,
                        ) by {
                            if m > outbound.len() {
                                let t = all[m].1.state@;
                                let k1 = choose|k1: int| #[trigger] team.known_at(k1, t);
                                assert(self.known_at(k1, t));
                            } else {
                                assert(self.known_at(dest as int, node.state@));
                            }
                        }
                        assert(outbound@ == all.subrange(0, outbound.len() as int));
                    }
                },
                None => {},
            }
        }
        proof {
            assert forall|k: int| 0 <= k < old(self).workers.len() implies (
            #[trigger] self.workers[k]).inbox@ == old(self).workers[k].inbox@ + arrivals(all, k) by {
                assert(self.workers[k].inbox@ + arrivals(outbound@, k) =~= self.workers[k].inbox@);
            }
            assert forall|t: GridView| #[trigger] pending(all, t) implies self.knows(t) by {
                let m = choose|m: int| 0 <= m < all.len() && (#[trigger] all[m]).1.state@ == t;
                assert(self.knows(all[m].1.state@));
            }
        }
    }

    /// Lets the workers take turns, one after the other and round after
    /// round, for at most `rounds` rounds, until one picks the goal or none has
    /// anything left to do.
    ///
    /// A node that is returned stands for a path of `g` valid moves from the
    /// start to the goal. `Ok(None)` says that the workers ran out of boards
    /// without meeting the goal.
    #[verifier::rlimit(40)]
    pub fn run<H: Fn(&Grid, &Grid) -> i32, T: StateHash>(
        &mut self,
        h_func: &H,
        router: &mut Router<T>,
        rounds: u64,
    ) -> (report: Report)
        requires
            old(self).wf(),
            !old(self).flag@,
            estimates(*h_func, old(self).goal@),
            serves(*old(router), old(self).goal@),
        ensures
            final(self).wf(),
            final(self).same_search(old(self)),
            final(router).keeps(*old(router)),
            report.rounds <= rounds,
            match report.result {
                Ok(Some(node)) => {
                    &&& node.state@ == old(self).goal@
                    &&& node.g >= 0
                    &&& node.f == node.g + node.h
                    &&& old(self).start@.reaches(old(self).goal@, node.g as nat)
                    &&& node.f < NO_SOLUTION
                    &&& node@ == final(self).incumbent@
                    &&& final(self).flag@
                },
                Ok(None) => final(self).quiescent() && !final(self).flag@,
                Err(Halt::OutOfRounds) => report.rounds == rounds || exists|i: int|
                    0 <= i < final(self).workers.len() && #[trigger] final(self).worn(i),
                Err(Halt::CostOverflow) => overflows(old(self).start@, old(self).goal@, *h_func)
                    || unpriced(old(self).start@, old(self).goal@),
            },
            rounds == 0 ==> report.result == Err::<Option<Node>, Halt>(Halt::OutOfRounds),
            exists|beats: Seq<Beat>| #[trigger]
                played(beats, *old(self), *h_func, *old(router)) && finished(
                    beats.last(),
                    *final(self),
                    report,
                    rounds,
                    *h_func,
                    *old(router),
                ),
            forall|owner: int| #[trigger]
                old(self).ready(owner) && rounds > 0 ==> report.rounds == 0 && report.expanded == 0 && (
                report.result matches Ok(Some(n)) && n@ == old(self).workers[owner].inbox[0]@),
            forall|k: int|
                0 <= k < old(self).workers.len() ==> logged(
                    old(self).workers[k].log,
                    (#[trigger] final(self).workers[k]).log,
                    report.rounds + 1,
                ),
            old(self).explored() && report.result == Ok::<Option<Node>, Halt>(None) ==> forall|
                steps: nat,
            |
                !old(self).start@.reaches(old(self).goal@, steps),
    {
        let mut done: u64 = 0;
        let mut expanded: u64 = 0;
        let ghost mut beats: Seq<Beat> = seq![Beat { team: *self, turn_of: 0, round: 0 }];
        let ghost primed = rounds > 0 && exists|o: int| old(self).ready(o);
        let ghost owner = choose|o: int| old(self).ready(o);
        proof {
            assert forall|o: int| #[trigger] old(self).ready(o) && rounds > 0 implies o == owner by {
                assert(old(self).workers[o].inbox.len() == 1);
            }
        }
        while done < rounds
            invariant
                self.wf(),
                self.same_search(old(self)),
                !self.flag@,
                router.keeps(*old(router)),
                serves(*router, self.goal@),
                estimates(*h_func, self.goal@),
                done <= rounds,
                old(self).explored() ==> self.explored(),
                played(beats, *old(self), *h_func, *old(router)),
                beats.last() == (Beat { team: *self, turn_of: 0, round: done as int }),
                primed ==> old(self).ready(owner) && done == 0 && expanded == 0 && self.incumbent@
                    == old(self).incumbent@ && forall|k: int|
                    0 <= k < self.workers.len() ==> #[trigger] self.workers[k] == old(self).workers[k],
                forall|o: int| #[trigger] old(self).ready(o) && rounds > 0 ==> o == owner && primed,
                forall|k: int|
                    0 <= k < self.workers.len() ==> logged(
                        old(self).workers[k].log,
                        (#[trigger] self.workers[k]).log,
                        done as int,
                    ),
            decreases rounds - done,
        {
            if self.is_quiescent() {
                proof {
                    if primed {
                        assert(self.workers[owner].inbox@.len() == 1);
                    }
                    if self.explored() {
                        assert forall|steps: nat| !self.start@.reaches(self.goal@, steps) by {
                            if self.start@.reaches(self.goal@, steps) {
                                lemma_team_exhausted(*self, self.goal@, steps);
                            }
                        }
                    }
                }
                return Report { result: Ok(None), rounds: done, expanded };
            }
            let mut i: usize = 0;
            while i < self.workers.len()
                invariant
                    self.wf(),
                    self.same_search(old(self)),
                    !self.flag@,
                    router.keeps(*old(router)),
                    serves(*router, self.goal@),
                    estimates(*h_func, self.goal@),
                    i <= self.workers.len(),
                    done < rounds,
                    old(self).explored() ==> self.explored(),
                    played(beats, *old(self), *h_func, *old(router)),
                    beats.last() == if i < self.workers.len() {
                        Beat { team: *self, turn_of: i as int, round: done as int }
                    } else {
                        Beat { team: *self, turn_of: 0, round: done + 1 }
                    },
                    i == 0 ==> !self.quiescent(),
                    primed ==> old(self).ready(owner) && done == 0 && expanded == 0 && i <= owner
                        && self.incumbent@ == old(self).incumbent@ && forall|k: int|
                        i <= k < self.workers.len() ==> #[trigger] self.workers[k] == old(self).workers[k],
                    forall|o: int| #[trigger] old(self).ready(o) && rounds > 0 ==> o == owner && primed,
                    forall|k: int|
                        0 <= k < self.workers.len() ==> logged(
                            old(self).workers[k].log,
                            (#[trigger] self.workers[k]).log,
                            done + (if k < i {
                                1int
                            } else {
                                0int
                            }),
                        ),
                decreases self.workers.len() - i,
            {
                let ghost was = *self;
                let ghost router_was = *router;
                let turn = self.turn(i, h_func, router);
                proof {
                    if primed {
                        assert(was.workers[i as int] == old(self).workers[i as int]);
                        assert(was.workers[owner] == old(self).workers[owner]);
                        assert(!old(self).worn(i as int));
                        if turn == Turn::Overflow {
                            let node = choose|node: Node| #[trigger]
                                self.overflowed(&was, i as int, *h_func, node);
                            assert(was.merged_at(i as int).selects(
                                node@,
                                self.workers[i as int].frontier(),
                            ));
                        }
                        if turn == Turn::Expanded {
                            let (routed, node) = choose|routed: Seq<(u32, Node)>, node: Node| #[trigger]
                                self.expanded(&was, i as int, *h_func, router_was, routed, node);
                            assert(was.merged_at(i as int).selects(
                                node@,
                                self.workers[i as int].frontier(),
                            ));
                        }
                        lemma_first_round(was, *self, i as int, owner, turn);
                    }
                    assert forall|k: int| 0 <= k < self.workers.len() implies logged(
                        old(self).workers[k].log,
                        (#[trigger] self.workers[k]).log,
                        done + (if k < i + 1 {
                            1int
                        } else {
                            0int
                        }),
                    ) by {
                        assert(logged(
                            old(self).workers[k].log,
                            was.workers[k].log,
                            done + (if k < i {
                                1int
                            } else {
                                0int
                            }),
                        ));
                    }
                }
                proof {
                    lemma_turned_kept(was, *self, i as int, turn, *h_func, router_was, *old(router));
                    if turn == Turn::Idle || turn == Turn::Expanded {
                        let next = if i + 1 < self.workers.len() {
                            Beat { team: *self, turn_of: i + 1, round: done as int }
                        } else {
                            Beat { team: *self, turn_of: 0, round: done + 1 }
                        };
                        let grown = beats.push(next);
                        assert(went_on(was, *self, i as int, *h_func, *old(router)));
                        assert(grown[0] == beats[0]);
                        assert forall|j: int| 0 <= j < grown.len() - 1 implies {
                            let at = #[trigger] grown[j];
                            let after = grown[j + 1];
                            &&& went_on(at.team, after.team, at.turn_of, *h_func, *old(router))
                            &&& at.turn_of == 0 ==> !at.team.quiescent()
                            &&& if at.turn_of + 1 < old(self).workers.len() {
                                after.turn_of == at.turn_of + 1 && after.round == at.round
                            } else {
                                after.turn_of == 0 && after.round == at.round + 1
                            }
                        } by {
                            if j < beats.len() - 1 {
                                assert(grown[j] == beats[j] && grown[j + 1] == beats[j + 1]);
                            } else {
                                assert(grown[j] == beats.last());
                            }
                        }
                        beats = grown;
                    }
                }
                match turn {
                    Turn::Solved => {
                        return match self.incumbent.solution() {
                            Some(node) => Report { result: Ok(Some(node)), rounds: done, expanded },
                            None => Report { result: Err(Halt::CostOverflow), rounds: done, expanded },
                        };
                    },
                    Turn::Overflow => {
                        return Report { result: Err(Halt::CostOverflow), rounds: done, expanded };
                    },
                    Turn::Worn => {
                        assert(was.worn(i as int) && self.worn(i as int));
                        return Report { result: Err(Halt::OutOfRounds), rounds: done, expanded };
                    },
                    Turn::Expanded => {
                        if expanded < u64::MAX {
                            expanded = expanded + 1;
                        }
                    },
                    _ => {},
                }
                i = i + 1;
            }
            done = done + 1;
        }
        Report { result: Err(Halt::OutOfRounds), rounds: done, expanded }
    }
}

/// Searches for `goal` from `start` with `thread_count` workers that take
/// turns, routed by `router`, for at most `rounds` rounds.
///
/// A node that is returned stands for a path of `g` valid moves from `start`
/// to `goal`, and for a shortest one where there is one worker and the
/// estimate is consistent. `Ok(None)` says that no path exists. One worker
/// under a consistent estimate finds a goal that can be reached where the
/// rounds are no fewer than the boards that cost no more than the goal: see
/// [`near`]. And it does not run out of rounds where they are more than the
/// boards that can be reached and one: see [`roomy`].
pub fn search<H: Fn(&Grid, &Grid) -> i32, T: StateHash>(
    start: &Grid,
    goal: &Grid,
    h_func: &H,
    thread_count: u32,
    router: &mut Router<T>,
    rounds: u64,
) -> (report: Report)
    requires
        thread_count > 0,
        start@.wf(),
        goal@.wf(),
        start@.tiles_within(goal@),
        estimates(*h_func, goal@),
        serves(*old(router), goal@),
    ensures
        final(router).keeps(*old(router)),
        report.rounds <= rounds,
        match report.result {
            Ok(Some(node)) => {
                &&& node.state@ == goal@
                &&& node.g >= 0
                &&& node.f == node.g + node.h
                &&& node.f < NO_SOLUTION
                &&& rated(*h_func, goal@, goal@, node.h as int)
                &&& start@.reaches(goal@, node.g as nat)
            },
            Ok(None) => forall|steps: nat| !start@.reaches(goal@, steps),
            Err(Halt::OutOfRounds) => report.rounds == rounds || 4 * (report.rounds + 1) > i32::MAX
                - 4,
            Err(Halt::CostOverflow) => overflows(start@, goal@, *h_func) || unpriced(start@, goal@),
        },
        rounds == 0 ==> report.result == Err::<Option<Node>, Halt>(Halt::OutOfRounds),
        exists|first: Team, last: Team, beats: Seq<Beat>|
            #![trigger played(beats, first, *h_func, *old(router)), finished(beats.last(), last, report, rounds, *h_func, *old(router))]
            played(beats, first, *h_func, *old(router)) && first.launched(
                *start,
                goal@,
                thread_count,
                *h_func,
                *old(router),
            ) && finished(beats.last(), last, report, rounds, *h_func, *old(router)),
        start@ == goal@ && rounds > 0 ==> rated(*h_func, goal@, start@, i32::MAX as int) || (
        report.rounds == 0 && report.expanded == 0 && (report.result matches Ok(Some(n)) && n.g == 0
            && n.f == n.h && rated(*h_func, goal@, start@, n.h as int))),
        thread_count == 1 && consistent(*h_func, goal@) ==> (report.result matches Ok(Some(node))
            ==> shortest(start@, goal@, node.g as int) && answered(*h_func, goal@, node.h as int)),
        thread_count == 1 ==> forall|hv: spec_fn(GridView) -> int, family: Set<GridView>|
            steady(*h_func, goal@, hv) && #[trigger] roomy(family, start@, hv) && family.len() + 1
                < rounds ==> report.result != Err::<Option<Node>, Halt>(Halt::OutOfRounds),
        thread_count == 1 ==> forall|hv: spec_fn(GridView) -> int, family: Set<GridView>, c: int|
            steady(*h_func, goal@, hv) && #[trigger] near(family, start@, goal@, hv, c)
                && family.len() <= rounds ==> report.result matches Ok(Some(_)),
{
    let ghost first = *router;
    let mut team = Team::new(start, goal, thread_count, h_func, router);
    proof {
        lemma_serves_accepts(*router, first, goal@, goal@);
    }
    let ghost fresh_team = team;
    let ghost owner = choose|owner: int|
        0 <= owner < thread_count && first.sends(*start, 0, thread_count, owner as u32)
            && #[trigger] fresh_team.fresh(owner) && rated(
            *h_func,
            goal@,
            start@,
            fresh_team.workers[owner].inbox[0].h as int,
        );
    proof {
        if start@ == goal@ && rounds > 0 && fresh_team.workers[owner].inbox[0].f < NO_SOLUTION {
            assert forall|k: int| 0 <= k <= owner implies !#[trigger] fresh_team.worn(k) by {
                assert(fresh_team.workers[k].log == (Log { iter_cnt: 0, node_cnt: 0, abort_cnt: 0 }));
            }
            assert(fresh_team.ready(owner));
        }
    }
    let ghost routed_once = *router;
    let report = team.run(h_func, router, rounds);
    proof {
        let beats = choose|beats: Seq<Beat>| #[trigger]
            played(beats, fresh_team, *h_func, routed_once) && finished(
                beats.last(),
                team,
                report,
                rounds,
                *h_func,
                routed_once,
            );
        lemma_played_kept(beats, fresh_team, team, report, rounds, *h_func, routed_once, first);
        assert(played(beats, fresh_team, *h_func, first) && fresh_team.launched(
            *start,
            goal@,
            thread_count,
            *h_func,
            first,
        ) && finished(beats.last(), team, report, rounds, *h_func, first));
        if report.result == Err::<Option<Node>, Halt>(Halt::OutOfRounds) && report.rounds != rounds {
            let i = choose|i: int| 0 <= i < team.workers.len() && #[trigger] team.worn(i);
            assert(logged(fresh_team.workers[i].log, team.workers[i].log, report.rounds + 1));
        }
        if report.result is Ok && report.result->Ok_0 is Some {
            lemma_launched_rated(fresh_team, *start, thread_count, *h_func, first);
            lemma_answer_rated(beats, fresh_team, team, report, rounds, *h_func, first);
        }
        if thread_count == 1 && consistent(*h_func, goal@) && report.result is Ok
            && report.result->Ok_0 is Some {
            lemma_solo_least(beats, fresh_team, team, report, rounds, *start, *h_func, first);
        }
        if thread_count == 1 {
            assert forall|hv: spec_fn(GridView) -> int, family: Set<GridView>|
                steady(*h_func, goal@, hv) && #[trigger] roomy(family, start@, hv) && family.len() + 1
                    < rounds implies report.result != Err::<Option<Node>, Halt>(Halt::OutOfRounds) by {
                lemma_solo_ends(
                    beats,
                    fresh_team,
                    team,
                    report,
                    rounds,
                    *start,
                    *h_func,
                    first,
                    hv,
                    family,
                );
            }
            assert forall|hv: spec_fn(GridView) -> int, family: Set<GridView>, c: int|
                steady(*h_func, goal@, hv) && #[trigger] near(family, start@, goal@, hv, c)
                    && family.len() <= rounds implies report.result matches Ok(Some(_)) by {
                lemma_solo_finds(
                    beats,
                    fresh_team,
                    team,
                    report,
                    rounds,
                    *start,
                    *h_func,
                    first,
                    hv,
                    family,
                    c,
                );
            }
        }
    }
    report
}

/// Whether a turn of worker `i` that ended as `turn` leads from `before` to
/// `after`, a team in order.
pub open spec fn turned<H: Fn(&Grid, &Grid) -> i32, T: StateHash>(
    before: Team,
    after: Team,
    i: int,
    turn: Turn,
    h_func: H,
    router: Router<T>,
) -> bool {
    &&& after.wf()
    &&& after.same_search(&before)
    &&& turn != Turn::Solved ==> after.flag@ == before.flag@
    &&& turn != Turn::Worn && turn != Turn::Stopped ==> !before.flag@ && !before.worn(i)
    &&& match turn {
        Turn::Idle => after.idled(&before, i),
        Turn::Solved => after.flag@ && exists|node: Node| #[trigger] after.solved(&before, i, node),
        Turn::Overflow => exists|node: Node| #[trigger] after.overflowed(&before, i, h_func, node),
        Turn::Expanded => exists|routed: Seq<(u32, Node)>, node: Node| #[trigger]
            after.expanded(&before, i, h_func, router, routed, node),
        Turn::Stopped => {
            &&& before.flag@
            &&& !before.worn(i)
            &&& after.counted(&before, i, 0, 0)
            &&& after.workers[i].frontier() == before.workers[i].frontier()
            &&& after.workers[i].inbox@ == before.workers[i].inbox@
            &&& after.others_as(&before, i)
            &&& after.incumbent@ == before.incumbent@
        },
        Turn::Worn => before.worn(i) && after.workers@ == before.workers@ && after.incumbent@
            == before.incumbent@,
    }
}

/// Whether a turn of worker `i` after which the search goes on leads from
/// `before` to `after`: the worker was idle or expanded a board.
pub open spec fn went_on<H: Fn(&Grid, &Grid) -> i32, T: StateHash>(
    before: Team,
    after: Team,
    i: int,
    h_func: H,
    router: Router<T>,
) -> bool {
    turned(before, after, i, Turn::Idle, h_func, router) || turned(
        before,
        after,
        i,
        Turn::Expanded,
        h_func,
        router,
    )
}

/// A moment of a search by turns: the team, the worker whose turn is next, and
/// the rounds that are over.
pub struct Beat {
    pub team: Team,
    pub turn_of: int,
    pub round: int,
}

/// Whether `beats` are the moments of a search by turns from the team `first`
/// on: it starts at worker 0 in round 0; each turn is one after which the search
/// goes on, and the next is that of the next worker, or of worker 0 in the next
/// round; and at the start of a round some worker has something left to do.
pub open spec fn played<H: Fn(&Grid, &Grid) -> i32, T: StateHash>(
    beats: Seq<Beat>,
    first: Team,
    h_func: H,
    router: Router<T>,
) -> bool {
    &&& beats.len() > 0
    &&& beats[0] == (Beat { team: first, turn_of: 0, round: 0 })
    &&& forall|j: int|
        0 <= j < beats.len() - 1 ==> {
            let at = #[trigger] beats[j];
            let next = beats[j + 1];
            &&& went_on(at.team, next.team, at.turn_of, h_func, router)
            &&& at.turn_of == 0 ==> !at.team.quiescent()
            &&& if at.turn_of + 1 < first.workers.len() {
                next.turn_of == at.turn_of + 1 && next.round == at.round
            } else {
                next.turn_of == 0 && next.round == at.round + 1
            }
        }
}

/// Whether the search by turns that has come to the moment `at` ends as
/// `report` says and leaves the team `last`: with none where a round starts
/// and no worker has anything left to do; with the best solution where the
/// worker whose turn it is picks the goal; out of rounds where the rounds
/// granted are over or the worker whose turn it is is worn; at a cost that is
/// no `i32` where that worker meets one.
pub open spec fn finished<H: Fn(&Grid, &Grid) -> i32, T: StateHash>(
    at: Beat,
    last: Team,
    report: Report,
    rounds: u64,
    h_func: H,
    router: Router<T>,
) -> bool {
    let begun = at.turn_of == 0 ==> !at.team.quiescent();
    &&& report.rounds == at.round
    &&& match report.result {
        Ok(None) => at.turn_of == 0 && at.round < rounds && at.team.quiescent() && last == at.team,
        Ok(Some(node)) => at.round < rounds && begun && turned(
            at.team,
            last,
            at.turn_of,
            Turn::Solved,
            h_func,
            router,
        ) && node@ == last.incumbent@ && node.f < NO_SOLUTION,
        Err(Halt::OutOfRounds) => (at.turn_of == 0 && at.round == rounds && last == at.team) || (
        at.round < rounds && begun && turned(at.team, last, at.turn_of, Turn::Worn, h_func, router)),
        Err(Halt::CostOverflow) => at.round < rounds && begun && (turned(
            at.team,
            last,
            at.turn_of,
            Turn::Overflow,
            h_func,
            router,
        ) || (turned(at.team, last, at.turn_of, Turn::Solved, h_func, router) && last.incumbent@.f
            == NO_SOLUTION)),
    }
}

/// What a routing leaves of a router sends every board where the router sent
/// it.
pub proof fn lemma_turned_kept<H: Fn(&Grid, &Grid) -> i32, T: StateHash>(
    before: Team,
    after: Team,
    i: int,
    turn: Turn,
    h_func: H,
    router: Router<T>,
    first: Router<T>,
)
    requires
        turned(before, after, i, turn, h_func, router),
        router.keeps(first),
    ensures
        turned(before, after, i, turn, h_func, first),
{
    if turn == Turn::Expanded {
        let (routed, node) = choose|routed: Seq<(u32, Node)>, node: Node| #[trigger]
            after.expanded(&before, i, h_func, router, routed, node);
        assert forall|j: int| 0 <= j < routed.len() implies first.sends(
            (#[trigger] routed[j]).1.state,
            before.workers[i].id,
            before.workers[i].workers,
            routed[j].0,
        ) by {
            assert(router.sends(
                routed[j].1.state,
                before.workers[i].id,
                before.workers[i].workers,
                routed[j].0,
            ));
        }
        assert(after.expanded(&before, i, h_func, first, routed, node));
    }
}

/// A search by turns under what a routing has left of a router is one under
/// the router.
pub proof fn lemma_played_kept<H: Fn(&Grid, &Grid) -> i32, T: StateHash>(
    beats: Seq<Beat>,
    first: Team,
    last: Team,
    report: Report,
    rounds: u64,
    h_func: H,
    router: Router<T>,
    before: Router<T>,
)
    requires
        played(beats, first, h_func, router),
        finished(beats.last(), last, report, rounds, h_func, router),
        router.keeps(before),
    ensures
        played(beats, first, h_func, before),
        finished(beats.last(), last, report, rounds, h_func, before),
{
    assert forall|j: int| 0 <= j < beats.len() - 1 implies went_on(
        (#[trigger] beats[j]).team,
        beats[j + 1].team,
        beats[j].turn_of,
        h_func,
        before,
    ) by {
        let at = beats[j];
        let next = beats[j + 1];
        assert(went_on(at.team, next.team, at.turn_of, h_func, router));
        if turned(at.team, next.team, at.turn_of, Turn::Idle, h_func, router) {
            lemma_turned_kept(at.team, next.team, at.turn_of, Turn::Idle, h_func, router, before);
        } else {
            lemma_turned_kept(at.team, next.team, at.turn_of, Turn::Expanded, h_func, router, before);
        }
    }
    let at = beats.last();
    if turned(at.team, last, at.turn_of, Turn::Solved, h_func, router) {
        lemma_turned_kept(at.team, last, at.turn_of, Turn::Solved, h_func, router, before);
    }
    if turned(at.team, last, at.turn_of, Turn::Worn, h_func, router) {
        lemma_turned_kept(at.team, last, at.turn_of, Turn::Worn, h_func, router, before);
    }
    if turned(at.team, last, at.turn_of, Turn::Overflow, h_func, router) {
        lemma_turned_kept(at.team, last, at.turn_of, Turn::Overflow, h_func, router, before);
    }
}

/// Whether the counters `now` are what at most `turns` turns can have made of
/// the counters `was`: a round and an idle round a turn at most, and four nodes.
pub open spec fn logged(was: Log, now: Log, turns: int) -> bool {
    &&& was.iter_cnt <= now.iter_cnt <= was.iter_cnt + turns
    &&& was.abort_cnt <= now.abort_cnt <= was.abort_cnt + turns
    &&& was.node_cnt <= now.node_cnt <= was.node_cnt + 4 * turns
}

/// In the first round of a team that is ready, the workers before the owner
/// of the start are idle, and the owner picks the start, which is the goal.
pub proof fn lemma_first_round(before: Team, after: Team, i: int, owner: int, turn: Turn)
    requires
        0 <= i <= owner < before.workers.len(),
        before.workers[i].frontier() == (Frontier {
            open: Map::empty(),
            closed: Map::empty(),
            queue: vstd::multiset::Multiset::empty(),
        }),
        before.workers[i].inbox.len() == if i == owner {
            1int
        } else {
            0int
        },
        i == owner ==> before.workers[i].inbox[0].state@ == before.goal@
            && before.workers[i].inbox[0].f < NO_SOLUTION,
        before.incumbent@.f == NO_SOLUTION,
        !before.flag@,
        !before.worn(i),
        turn == Turn::Idle ==> after.idled(&before, i),
        turn == Turn::Solved ==> exists|node: Node| #[trigger] after.solved(&before, i, node),
        turn == Turn::Overflow || turn == Turn::Expanded ==> exists|node: Node|
            !before.merged_at(i).stalled(before.incumbent@.f) && #[trigger] before.merged_at(
                i,
            ).selects(node@, after.workers[i].frontier()) && node.state@ != before.goal@,
        turn == Turn::Stopped ==> before.flag@,
        turn == Turn::Worn ==> before.worn(i),
    ensures
        i < owner ==> turn == Turn::Idle && after.workers[i].frontier() == before.workers[i].frontier()
            && after.workers[i].inbox@ == before.workers[i].inbox@,
        i == owner ==> turn == Turn::Solved && after.incumbent@ == before.workers[owner].inbox[0]@,
{
    let was = before.workers[i];
    let views = node_views(was.inbox@);
    let merged = before.merged_at(i);
    if i < owner {
        assert(views.len() == 0);
        assert(merged == was.frontier());
        assert(merged.stalled(before.incumbent@.f));
        if turn == Turn::Idle {
            assert(after.workers[i].inbox@ =~= before.workers[i].inbox@);
        }
    } else {
        let first = was.inbox[0];
        assert(views.len() == 1);
        assert(views.last() == first@);
        assert(views.drop_last().len() == 0);
        assert(merged == was.frontier().merged(first@).merged_all(views.drop_last()));
        assert(merged == was.frontier().merged(first@));
        assert(merged.queue.contains(first@));
        assert(merged.open.contains_key(first@.state));
        assert(!merged.stalled(before.incumbent@.f)) by {
            if merged.open == Map::<GridView, int>::empty() {
                assert(!Map::<GridView, int>::empty().contains_key(first@.state));
            }
        }
        if turn == Turn::Solved {
            let node = choose|node: Node| #[trigger] after.solved(&before, i, node);
            assert(merged.queue.contains(node@));
            assert(node@ == first@);
        }
        if turn == Turn::Overflow || turn == Turn::Expanded {
            let node = choose|node: Node|
                !before.merged_at(i).stalled(before.incumbent@.f) && #[trigger] before.merged_at(
                    i,
                ).selects(node@, after.workers[i].frontier()) && node.state@ != before.goal@;
            assert(merged.queue.contains(node@));
            assert(node@ == first@);
        }
    }
}

/// The nodes among `outbound` that go to worker `k`, in the order in which
/// they arrive: the last that was sent on first.
pub open spec fn arrivals(outbound: Seq<(u32, Node)>, k: int) -> Seq<Node>
    decreases outbound.len(),
{
    if outbound.len() == 0 {
        Seq::empty()
    } else if outbound.last().0 == k {
        seq![outbound.last().1] + arrivals(outbound.drop_last(), k)
    } else {
        arrivals(outbound.drop_last(), k)
    }
}

/// Nothing arrives at a worker that no node is sent to.
pub proof fn lemma_no_arrivals(outbound: Seq<(u32, Node)>, k: int)
    requires
        forall|m: int| 0 <= m < outbound.len() ==> (#[trigger] outbound[m]).0 != k,
    ensures
        arrivals(outbound, k) == Seq::<Node>::empty(),
    decreases outbound.len(),
{
    if outbound.len() > 0 {
        assert(outbound.last() == outbound[outbound.len() - 1]);
        lemma_no_arrivals(outbound.drop_last(), k);
    }
}

/// Whether one of the nodes sent on is a node of board `t`.
pub open spec fn pending(outbound: Seq<(u32, Node)>, t: GridView) -> bool {
    exists|m: int| 0 <= m < outbound.len() && (#[trigger] outbound[m]).1.state@ == t
}

/// A team whose workers have the frontiers and the arrivals of the workers of
/// another has lost nothing if the other has not.
pub proof fn lemma_untouched(before: Team, after: Team)
    requires
        before.explored(),
        after.same_search(&before),
        forall|k: int|
            0 <= k < before.workers.len() ==> (#[trigger] after.workers[k]).frontier()
                == before.workers[k].frontier() && after.workers[k].inbox@ == before.workers[k].inbox@,
    ensures
        after.explored(),
{
    assert forall|k: int, s: GridView| #[trigger] before.known_at(k, s) implies after.known_at(
        k,
        s,
    ) by {
        assert(after.workers[k].frontier() == before.workers[k].frontier());
        if before.workers[k].awaits(s) {
            let j = choose|j: int|
                0 <= j < before.workers[k].inbox.len() && (#[trigger] before.workers[k].inbox[j]).state@
                    == s;
            assert(after.workers[k].inbox[j].state@ == s);
        }
    }
    assert forall|k: int| !#[trigger] after.closed_at(k, after.goal@) by {
        if after.closed_at(k, after.goal@) {
            assert(after.workers[k].frontier() == before.workers[k].frontier());
            assert(before.closed_at(k, before.goal@));
        }
    }
    assert forall|k: int, s: GridView| #[trigger] after.closed_at(k, s) implies before.closed_at(
        k,
        s,
    ) by {
        assert(after.workers[k].frontier() == before.workers[k].frontier());
    }
    lemma_carried(before, after);
}

/// A team has lost nothing if it knows what another knew that had lost
/// nothing, has closed nothing more, and knows every board one move from what
/// it has closed, but perhaps for those `pending`, of which there are none.
proof fn lemma_carried(before: Team, after: Team)
    requires
        before.explored(),
        after.same_search(&before),
        forall|k: int, s: GridView| #[trigger] before.known_at(k, s) ==> after.knows(s),
        forall|k: int, s: GridView| #[trigger] after.closed_at(k, s) ==> before.closed_at(k, s),
        forall|k: int| !#[trigger] after.closed_at(k, after.goal@),
    ensures
        after.explored(),
{
    let k0 = choose|k: int| #[trigger] before.known_at(k, before.start@);
    assert(before.known_at(k0, before.start@));
    assert forall|k: int, s: GridView, t: GridView| #[trigger]
        after.closed_at(k, s) && #[trigger] s.steps_to(t) implies after.knows(t) by {
        if before.closed_at(k, s) {
            let k1 = choose|k1: int| #[trigger] before.known_at(k1, t);
            assert(before.known_at(k1, t));
        }
    }
}

/// What a worker knew before a round it knows after it, as open or closed.
proof fn lemma_round_keeps(before: Worker, merged: crate::worker::Frontier, s: GridView)
    requires
        merged == before.frontier().merged_all(crate::node::node_views(before.inbox@)),
        before.knows(s),
    ensures
        merged.has(s),
{
    let views = crate::node::node_views(before.inbox@);
    crate::worker::lemma_merged_all_has(before.frontier(), views);
    if before.awaits(s) {
        let j = choose|j: int| 0 <= j < before.inbox.len() && (#[trigger] before.inbox[j]).state@ == s;
        assert(views[j].state == s);
        assert(crate::worker::names(views, s));
    } else {
        assert(before.frontier().has(s));
    }
}

/// An idle round of worker `i` loses nothing.
pub proof fn lemma_idle(before: Team, after: Team, i: int)
    requires
        before.explored(),
        after.same_search(&before),
        0 <= i < before.workers.len(),
        forall|k: int|
            0 <= k < before.workers.len() && k != i ==> after.workers[k] == before.workers[k],
        after.workers[i].frontier() == before.workers[i].frontier().merged_all(
            crate::node::node_views(before.workers[i].inbox@),
        ),
    ensures
        after.explored(),
{
    let merged = after.workers[i].frontier();
    crate::worker::lemma_merged_all_has(
        before.workers[i].frontier(),
        crate::node::node_views(before.workers[i].inbox@),
    );
    assert forall|k: int, s: GridView| #[trigger] before.known_at(k, s) implies after.knows(s) by {
        if k == i {
            lemma_round_keeps(before.workers[i], merged, s);
        }
        assert(after.known_at(k, s));
    }
    assert forall|k: int, s: GridView| #[trigger] after.closed_at(k, s) implies before.closed_at(
        k,
        s,
    ) by {
        if k == i {
            assert(merged.closed.contains_key(s));
        }
    }
    assert forall|k: int| !#[trigger] after.closed_at(k, after.goal@) by {
        if after.closed_at(k, after.goal@) {
            assert(before.closed_at(k, before.goal@));
        }
    }
    lemma_carried(before, after);
}

/// A round in which worker `i` expanded a board loses nothing but, until they
/// arrive, the successors sent to other workers.
pub proof fn lemma_expanded<H: Fn(&Grid, &Grid) -> i32, T: StateHash>(
    before: Team,
    mid: Team,
    i: int,
    bound: int,
    h_func: H,
    router: Router<T>,
    outbound: Seq<(u32, Node)>,
    routed: Seq<(u32, Node)>,
    node: Node,
)
    requires
        before.explored(),
        mid.same_search(&before),
        0 <= i < before.workers.len(),
        before.workers[i].goal@ == before.goal@,
        forall|k: int| 0 <= k < before.workers.len() && k != i ==> mid.workers[k] == before.workers[k],
        mid.workers[i].expanded_by(
            &before.workers[i],
            bound,
            h_func,
            router,
            outbound,
            routed,
            node,
        ),
    ensures
        mid.knows(mid.start@),
        forall|k: int, s: GridView| #[trigger] before.known_at(k, s) ==> mid.knows(s),
        forall|k: int, s: GridView, t: GridView| #[trigger]
            mid.closed_at(k, s) && #[trigger] s.steps_to(t) ==> mid.knows(t) || pending(outbound, t),
        forall|k: int| !#[trigger] mid.closed_at(k, mid.goal@),
{
    let was = before.workers[i];
    let now = mid.workers[i];
    let merged = was.frontier().merged_all(crate::node::node_views(was.inbox@));
    crate::worker::lemma_merged_all_has(was.frontier(), crate::node::node_views(was.inbox@));
    assert forall|k: int, s: GridView| #[trigger] before.known_at(k, s) implies mid.knows(s) by {
        if k == i {
            lemma_round_keeps(was, merged, s);
            assert(now.frontier().open.contains_key(s) || now.frontier().closed.contains_key(s));
        }
        assert(mid.known_at(k, s));
    }
    let k0 = choose|k: int| #[trigger] before.known_at(k, before.start@);
    assert(before.known_at(k0, before.start@));
    assert forall|k: int| !#[trigger] mid.closed_at(k, mid.goal@) by {
        if mid.closed_at(k, mid.goal@) {
            if k == i {
                assert(merged.closed.contains_key(mid.goal@));
            }
            assert(before.closed_at(k, before.goal@));
        }
    }
    assert forall|k: int, s: GridView, t: GridView| #[trigger]
        mid.closed_at(k, s) && #[trigger] s.steps_to(t) implies mid.knows(t) || pending(
        outbound,
        t,
    ) by {
        if k == i && s == node.state@ {
            crate::worker::lemma_children_cover(routed, node, &was.goal, h_func, t);
            let idx = choose|idx: int|
                0 <= idx < routed.len() && (#[trigger] routed[idx]).1.state@ == t;
            crate::worker::lemma_routed_members(routed, was.id, routed.len() as int, idx);
            if routed[idx].0 == was.id {
                let own = crate::worker::kept(routed, was.id, routed.len() as int);
                let j = choose|j: int| 0 <= j < own.len() && own[j] == routed[idx].1;
                assert(now.inbox[j].state@ == t);
                assert(now.awaits(t));
                assert(mid.known_at(i, t));
            } else {
                let rest = crate::worker::sent(routed, was.id, routed.len() as int);
                let m = choose|m: int| 0 <= m < rest.len() && rest[m] == routed[idx];
                assert(outbound[m].1.state@ == t);
            }
        } else {
            if k == i {
                assert(merged.closed.contains_key(s));
            }
            assert(before.closed_at(k, s));
            let k1 = choose|k1: int| #[trigger] before.known_at(k1, t);
            assert(before.known_at(k1, t));
        }
    }
}

/// A node that arrives at worker `dest` is known there, and nothing that was
/// known anywhere is forgotten.
proof fn lemma_received(before: Team, after: Team, dest: int, node: Node)
    requires
        0 <= dest < before.workers.len(),
        after.workers.len() == before.workers.len(),
        forall|k: int|
            0 <= k < before.workers.len() && k != dest ==> after.workers[k] == before.workers[k],
        after.workers[dest].frontier() == before.workers[dest].frontier(),
        after.workers[dest].inbox@ == before.workers[dest].inbox@.push(node),
    ensures
        after.known_at(dest, node.state@),
        forall|k: int, s: GridView| #[trigger] before.known_at(k, s) ==> after.known_at(k, s),
{
    let last = after.workers[dest].inbox.len() - 1;
    assert(after.workers[dest].inbox[last].state@ == node.state@);
    assert forall|k: int, s: GridView| #[trigger] before.known_at(k, s) implies after.known_at(
        k,
        s,
    ) by {
        if k == dest && before.workers[k].awaits(s) {
            let j = choose|j: int|
                0 <= j < before.workers[k].inbox.len() && (#[trigger] before.workers[k].inbox[j]).state@
                    == s;
            assert(after.workers[k].inbox[j].state@ == s);
        }
    }
}

/// Where no worker of a team that has lost nothing has anything left to do,
/// every board that can be reached from the start is closed somewhere.
pub proof fn lemma_team_exhausted(team: Team, to: GridView, steps: nat)
    requires
        team.explored(),
        team.quiescent(),
        team.start@.reaches(to, steps),
    ensures
        exists|k: int| #[trigger] team.closed_at(k, to),
    decreases steps,
{
    if steps == 0 {
        let k = choose|k: int| #[trigger] team.known_at(k, team.start@);
        assert(team.workers[k].open@ == Map::<GridView, int>::empty());
        assert(team.closed_at(k, to));
    } else {
        let mid = choose|mid: GridView|
            team.start@.reaches(mid, (steps - 1) as nat) && #[trigger] mid.steps_to(to);
        lemma_team_exhausted(team, mid, (steps - 1) as nat);
        let k0 = choose|k: int| #[trigger] team.closed_at(k, mid);
        assert(team.closed_at(k0, mid) && mid.steps_to(to));
        let k = choose|k: int| #[trigger] team.known_at(k, to);
        assert(team.workers[k].open@ == Map::<GridView, int>::empty());
        assert(team.closed_at(k, to));
    }
}

} // verus!
