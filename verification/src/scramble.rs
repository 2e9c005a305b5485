//! Boards drawn at random: a shuffled board, and a board some random moves
//! away from another.

use crate::grid::{
    is_unit_move, lemma_square_fits, move_at, Grid, GridView, MAX_SIZE,
};
use crate::random::{below_i32, below_usize, fresh_seed, seeded};
use rand::rngs::StdRng;
use vstd::prelude::*;

verus! {

impl GridView {
    /// A valid board that holds each tile `0 .. size * size - 1` exactly once.
    pub open spec fn shuffled(self) -> bool {
        &&& self.wf()
        &&& forall|i: int|
            0 <= i < self.data.len() && i != self.empty_idx ==> (#[trigger] self.data[i] matches Some(
                v,
            ) && 0 <= v < self.data.len() - 1)
        &&& forall|i: int, j: int|
            0 <= i < j < self.data.len() ==> #[trigger] self.data[i] != #[trigger] self.data[j]
        &&& forall|v: i32| 0 <= v < self.data.len() - 1 ==> #[trigger] holds_tile(self.data, v)
    }
}

/// Whether some cell holds tile `v`.
pub open spec fn holds_tile(cells: Seq<Option<i32>>, v: i32) -> bool {
    exists|i: int| 0 <= i < cells.len() && cells[i] == Some(v)
}

/// Whether `v` is among `nums`.
spec fn lists(nums: Seq<i32>, v: i32) -> bool {
    exists|a: int| 0 <= a < nums.len() && nums[a] == v
}

/// The `k`-th move of a random walk: right, left, down, up.
pub open spec fn walk_move_at(k: int) -> (i32, i32) {
    if k == 0 {
        (0i32, 1i32)
    } else if k == 1 {
        (0i32, -1i32)
    } else if k == 2 {
        (1i32, 0i32)
    } else {
        (-1i32, 0i32)
    }
}

/// The `k`-th move of a random walk.
fn walk_move(k: usize) -> (action: (i32, i32))
    requires
        k < 4,
    ensures
        action == walk_move_at(k as int),
        is_unit_move(action),
{
    proof {
        assert(walk_move_at(0) == move_at(3));
        assert(walk_move_at(1) == move_at(2));
        assert(walk_move_at(2) == move_at(1));
        assert(walk_move_at(3) == move_at(0));
    }
    if k == 0 {
        (0, 1)
    } else if k == 1 {
        (0, -1)
    } else if k == 2 {
        (1, 0)
    } else {
        (-1, 0)
    }
}

/// The cells dealt so far and the tiles still to be placed, after the first
/// `k` of `cells` cells are dealt: the blank goes to cell `empty_idx`; each
/// other cell, in order, takes of the tiles still to be placed, listed in
/// rising order at first, the one that the next of `picks` points at.
pub open spec fn dealt_upto(cells: int, empty_idx: int, picks: Seq<usize>, k: int) -> (
    Seq<Option<i32>>,
    Seq<i32>,
)
    decreases k,
{
    if k <= 0 {
        (Seq::empty(), Seq::new((cells - 1) as nat, |v: int| v as i32))
    } else {
        let (data, left) = dealt_upto(cells, empty_idx, picks, k - 1);
        if k - 1 == empty_idx {
            (data.push(None), left)
        } else {
            let p = picks[(cells - 1) - left.len()] as int;
            (data.push(Some(left[p])), left.remove(p))
        }
    }
}

/// The cells of the board of side `size` that `picks` deal around a blank in
/// cell `empty_idx`.
pub open spec fn dealt(size: int, empty_idx: int, picks: Seq<usize>) -> Seq<Option<i32>> {
    dealt_upto(size * size, empty_idx, picks, size * size).0
}

/// Whether `picks` can deal a board of `cells` cells: there is one for each
/// tile, and each points at one of the tiles still to be placed.
pub open spec fn deals(picks: Seq<usize>, cells: int) -> bool {
    &&& picks.len() == cells - 1
    &&& forall|j: int| 0 <= j < picks.len() ==> (#[trigger] picks[j]) < cells - 1 - j
}

/// The picks for a board of side `size`, drawn from `rng`: for each tile a
/// number below the count of the tiles still to be placed.
fn draw_picks(cells: i32, rng: &mut StdRng) -> (picks: Vec<usize>)
    requires
        0 < cells,
    ensures
        deals(picks@, cells as int),
{
    let mut picks: Vec<usize> = Vec::new();
    let mut j: i32 = 0;
    while j < cells - 1
        invariant
            0 <= j <= cells - 1,
            picks.len() == j,
            forall|k: int| 0 <= k < j ==> (#[trigger] picks[k]) < cells - 1 - k,
        decreases cells - 1 - j,
    {
        let pick = below_usize(rng, (cells - 1 - j) as usize);
        picks.push(pick);
        j = j + 1;
    }
    picks
}

impl Grid {
    /// The shuffled board of side `size` that `picks` deal around a blank in
    /// cell `empty_idx`.
    pub fn from_draws(size: i32, empty_idx: i32, picks: &Vec<usize>) -> (grid: Grid)
        requires
            0 < size <= MAX_SIZE,
            0 <= empty_idx < size * size,
            deals(picks@, size * size),
        ensures
            grid.size == size,
            grid.empty_idx == empty_idx,
            grid@.data == dealt(size as int, empty_idx as int, picks@),
            grid@.shuffled(),
    {
        deal(size, empty_idx, picks)
    }
}

/// The shuffled board of side `size` that `picks` deal around a blank in cell
/// `empty_idx`.
fn deal(size: i32, empty_idx: i32, picks: &Vec<usize>) -> (grid: Grid)
    requires
        0 < size <= MAX_SIZE,
        0 <= empty_idx < size * size,
        deals(picks@, size * size),
    ensures
        grid.size == size,
        grid.empty_idx == empty_idx,
        grid@.data == dealt(size as int, empty_idx as int, picks@),
        grid@.shuffled(),
{
    proof {
        lemma_square_fits(size as int);
    }
    let cells: i32 = size * size;
    let mut nums: Vec<i32> = Vec::new();
    let mut v: i32 = 0;
    while v < cells - 1
        invariant
            0 <= v <= cells - 1,
            nums.len() == v,
            forall|a: int| 0 <= a < v ==> nums[a] == a,
        decreases cells - 1 - v,
    {
        nums.push(v);
        v = v + 1;
    }
    let mut data: Vec<Option<i32>> = Vec::new();
    let mut i: i32 = 0;
    proof {
        assert forall|v: i32| 0 <= v < cells - 1 implies #[trigger] lists(nums@, v) by {
            assert(nums[v as int] == v);
        }
    }
    proof {
        assert(nums@ =~= Seq::new((cells - 1) as nat, |v: int| v as i32));
    }
    while i < cells
        invariant
            0 <= i <= cells,
            0 <= empty_idx < cells,
            cells == size * size,
            deals(picks@, cells as int),
            (data@, nums@) == dealt_upto(cells as int, empty_idx as int, picks@, i as int),
            data.len() == i,
            nums.len() + i == cells - 1 + (if i > empty_idx {
                1int
            } else {
                0int
            }),
            forall|a: int| 0 <= a < nums.len() ==> 0 <= #[trigger] nums[a] < cells - 1,
            forall|a: int, b: int| 0 <= a < b < nums.len() ==> nums[a] != nums[b],
            forall|j: int|
                0 <= j < i && j != empty_idx ==> (#[trigger] data[j] matches Some(v) && 0 <= v < cells
                    - 1 && forall|a: int| 0 <= a < nums.len() ==> nums[a] != v),
            empty_idx < i ==> data[empty_idx as int] is None,
            forall|j: int, k: int| 0 <= j < k < i ==> #[trigger] data[j] != #[trigger] data[k],
            forall|v: i32|
                0 <= v < cells - 1 ==> #[trigger] lists(nums@, v) || holds_tile(data@, v),
        decreases cells - i,
    {
        let ghost placed = data@;
        let ghost left = nums@;
        if i == empty_idx {
            data.push(None);
            proof {
                assert forall|v: i32| 0 <= v < cells - 1 implies #[trigger] lists(nums@, v)
                    || holds_tile(data@, v) by {
                    if !lists(left, v) {
                        let j = choose|j: int| 0 <= j < placed.len() && placed[j] == Some(v);
                        assert(data[j] == Some(v));
                    }
                }
            }
        } else {
            let idx = picks[(cells as usize - 1) - nums.len()];
            let num = nums.remove(idx);
            data.push(Some(num));
            proof {
                assert forall|a: int| 0 <= a < nums.len() implies 0 <= #[trigger] nums[a] < cells
                    - 1 && nums[a] != num by {
                    if a < idx {
                        assert(nums[a] == left[a]);
                    } else {
                        assert(nums[a] == left[a + 1]);
                    }
                }
                assert forall|a: int, b: int| 0 <= a < b < nums.len() implies nums[a] != nums[b] by {
                    let a0 = if a < idx {
                        a
                    } else {
                        a + 1
                    };
                    let b0 = if b < idx {
                        b
                    } else {
                        b + 1
                    };
                    assert(nums[a] == left[a0] && nums[b] == left[b0]);
                }
                assert forall|j: int| 0 <= j < i + 1 && j != empty_idx implies (
                #[trigger] data[j] matches Some(v) && 0 <= v < cells - 1 && forall|a: int|
                    0 <= a < nums.len() ==> nums[a] != v) by {
                    if j < i {
                        assert(data[j] == placed[j]);
                        let v = placed[j]->0;
                        assert forall|a: int| 0 <= a < nums.len() implies nums[a] != v by {
                            if a < idx {
                                assert(nums[a] == left[a]);
                            } else {
                                assert(nums[a] == left[a + 1]);
                            }
                        }
                    }
                }
                assert forall|j: int, k: int| 0 <= j < k < i + 1 implies #[trigger] data[j]
                    != #[trigger] data[k] by {
                    if k == i {
                        assert(data[j] == placed[j]);
                        if j != empty_idx {
                            assert(left[idx as int] == num);
                        }
                    } else {
                        assert(data[j] == placed[j] && data[k] == placed[k]);
                    }
                }
                assert forall|v: i32| 0 <= v < cells - 1 implies #[trigger] lists(nums@, v)
                    || holds_tile(data@, v) by {
                    if v == num {
                        assert(data[i as int] == Some(v));
                    } else if lists(left, v) {
                        let a = choose|a: int| 0 <= a < left.len() && left[a] == v;
                        if a < idx {
                            assert(nums[a] == v);
                        } else {
                            assert(nums[a - 1] == v);
                        }
                    } else {
                        let j = choose|j: int| 0 <= j < placed.len() && placed[j] == Some(v);
                        assert(data[j] == Some(v));
                    }
                }
            }
        }
        i = i + 1;
    }
    proof {
        assert forall|v: i32| 0 <= v < cells - 1 implies #[trigger] holds_tile(data@, v) by {
            assert(lists(nums@, v) || holds_tile(data@, v));
        }
    }
    Grid { data, size, empty_idx }
}

impl Grid {
    /// A shuffled board of side `size`, drawn afresh.
    pub fn rand(size: i32) -> (grid: Grid)
        requires
            0 < size <= MAX_SIZE,
        ensures
            grid.size == size,
            grid@.shuffled(),
            exists|picks: Seq<usize>| #[trigger]
                deals(picks, size * size) && grid@.data == dealt(
                    size as int,
                    grid@.empty_idx,
                    picks,
                ),
    {
        Grid::rand_with_seed(size, fresh_seed())
    }

    /// A shuffled board of side `size`, drawn from `seed`.
    pub fn rand_with_seed(size: i32, seed: u64) -> (grid: Grid)
        requires
            0 < size <= MAX_SIZE,
        ensures
            grid.size == size,
            grid@.shuffled(),
            exists|picks: Seq<usize>| #[trigger]
                deals(picks, size * size) && grid@.data == dealt(
                    size as int,
                    grid@.empty_idx,
                    picks,
                ),
    {
        proof {
            lemma_square_fits(size as int);
        }
        let mut rng = seeded(seed);
        let empty_idx = below_i32(&mut rng, size * size);
        let picks = draw_picks(size * size, &mut rng);
        Grid::from_draws(size, empty_idx, &picks)
    }

    /// The board after `n` random moves, drawn afresh; a move that would
    /// leave the board is skipped.
    pub fn rand_actions(&self, n: i32) -> (last: Grid)
        requires
            self@.wf(),
        ensures
            last@.wf(),
            exists|actions: Seq<(i32, i32)>| self@.walks_to(last@, actions, n as int),
    {
        self.rand_actions_with_seed(n, fresh_seed())
    }

    /// The board after `n` random moves, drawn from seed `s`; a move that
    /// would leave the board is skipped.
    pub fn rand_actions_with_seed(&self, n: i32, s: u64) -> (last: Grid)
        requires
            self@.wf(),
        ensures
            last@.wf(),
            exists|actions: Seq<(i32, i32)>| self@.walks_to(last@, actions, n as int),
    {
        let mut rng = seeded(s);
        let mut actions: Vec<(i32, i32)> = Vec::new();
        let mut i: i32 = 0;
        while i < n
            invariant
                0 <= i,
                n > 0 ==> i <= n,
                n <= 0 ==> i == 0,
                actions.len() == i,
                forall|k: int| 0 <= k < i ==> is_unit_move(#[trigger] actions[k]),
            decreases n - i,
        {
            let k = below_usize(&mut rng, 4);
            actions.push(walk_move(k));
            i = i + 1;
        }
        let ghost taken = actions@;
        let last = self.do_actions(actions);
        assert(self@.walks_to(last@, taken, n as int));
        last
    }
}

impl GridView {
    /// Whether `actions` are `n` unit moves (none for a negative `n`) that
    /// lead from this board to `last`.
    pub open spec fn walks_to(self, last: GridView, actions: Seq<(i32, i32)>, n: int) -> bool {
        &&& actions.len() == if n > 0 {
            n
        } else {
            0
        }
        &&& forall|k: int| 0 <= k < actions.len() ==> is_unit_move(#[trigger] actions[k])
        &&& last == self.run(actions)
    }
}

} // verus!
