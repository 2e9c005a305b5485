//! The sliding-tile board: a square of cells, one of them blank, and the moves
//! that slide a neighbouring tile into the blank.

use vstd::prelude::*;

verus! {

/// Largest side length whose square is still an `i32` cell index.
pub const MAX_SIZE: i32 = 46340;

/// A board. `data` lists the cells row by row, `None` for the blank;
/// `empty_idx` is the blank's cell.
#[derive(Debug)]
pub struct Grid {
    pub data: Vec<Option<i32>>,
    pub size: i32,
    pub empty_idx: i32,
}

/// The mathematical value of a [`Grid`].
#[verifier::ext_equal]
pub struct GridView {
    pub data: Seq<Option<i32>>,
    pub size: int,
    pub empty_idx: int,
}

impl View for Grid {
    type V = GridView;

    open spec fn view(&self) -> GridView {
        GridView { data: self.data@, size: self.size as int, empty_idx: self.empty_idx as int }
    }
}

/// The four moves of the blank, in the order in which a board is expanded:
/// up, down, left, right, each as (row change, column change).
pub open spec fn move_at(k: int) -> (i32, i32) {
    if k == 0 {
        (-1i32, 0i32)
    } else if k == 1 {
        (1i32, 0i32)
    } else if k == 2 {
        (0i32, -1i32)
    } else {
        (0i32, 1i32)
    }
}

/// Whether `action` is one of the four unit moves.
pub open spec fn is_unit_move(action: (i32, i32)) -> bool {
    exists|k: int| 0 <= k < 4 && action == #[trigger] move_at(k)
}

impl GridView {
    /// The side length admits cell indices and the blank names a cell.
    pub open spec fn framed(self) -> bool {
        &&& 0 < self.size <= MAX_SIZE
        &&& 0 <= self.empty_idx < self.size * self.size
    }

    /// The cells fill a square of the board's side length.
    pub open spec fn squared(self) -> bool {
        &&& 0 < self.size <= MAX_SIZE
        &&& self.data.len() == self.size * self.size
    }

    /// A valid board: `size * size` cells, the blank's cell in range and empty.
    pub open spec fn wf(self) -> bool {
        &&& self.framed()
        &&& self.data.len() == self.size * self.size
        &&& self.data[self.empty_idx] is None
    }

    /// Row of cell `idx`.
    pub open spec fn row(self, idx: int) -> int {
        idx / self.size
    }

    /// Column of cell `idx`.
    pub open spec fn col(self, idx: int) -> int {
        idx % self.size
    }

    /// Whether moving the blank by `action` keeps it on the board.
    pub open spec fn valid(self, action: (i32, i32)) -> bool {
        &&& 0 <= self.row(self.empty_idx) + action.0 < self.size
        &&& 0 <= self.col(self.empty_idx) + action.1 < self.size
    }

    /// The cell that the blank reaches by `action`.
    pub open spec fn target(self, action: (i32, i32)) -> int {
        (self.row(self.empty_idx) + action.0) * self.size + (self.col(self.empty_idx) + action.1)
    }

    /// The board after the blank has moved by `action`: the tile of the target
    /// cell slides into the old blank.
    pub open spec fn moved(self, action: (i32, i32)) -> GridView {
        let t = self.target(action);
        GridView {
            data: self.data.update(self.empty_idx, self.data[t]).update(t, None),
            size: self.size,
            empty_idx: t,
        }
    }

    /// `moved` where the action is valid, the board itself where it is not.
    pub open spec fn stepped(self, action: (i32, i32)) -> GridView {
        if self.valid(action) {
            self.moved(action)
        } else {
            self
        }
    }

    /// The board after `actions`, taken left to right, invalid ones skipped.
    pub open spec fn run(self, actions: Seq<(i32, i32)>) -> GridView
        decreases actions.len(),
    {
        if actions.len() == 0 {
            self
        } else {
            self.run(actions.drop_last()).stepped(actions.last())
        }
    }

    /// The boards one valid move away, among the first `k` moves of [`move_at`].
    pub open spec fn successors_upto(self, k: int) -> Seq<GridView>
        decreases k,
    {
        if k <= 0 {
            Seq::empty()
        } else if self.valid(move_at(k - 1)) {
            self.successors_upto(k - 1).push(self.moved(move_at(k - 1)))
        } else {
            self.successors_upto(k - 1)
        }
    }

    /// The boards one valid move away, in the order of [`move_at`].
    pub open spec fn successors(self) -> Seq<GridView> {
        self.successors_upto(4)
    }

    /// Whether `next` is one valid unit move away.
    pub open spec fn steps_to(self, next: GridView) -> bool {
        exists|k: int| 0 <= k < 4 && self.valid(#[trigger] move_at(k)) && next == self.moved(move_at(k))
    }

    /// Whether `to` can be reached from this board in exactly `steps` valid
    /// unit moves.
    pub open spec fn reaches(self, to: GridView, steps: nat) -> bool
        decreases steps,
    {
        if steps == 0 {
            self == to
        } else {
            exists|mid: GridView| self.reaches(mid, (steps - 1) as nat) && #[trigger] mid.steps_to(to)
        }
    }

    /// Every cell value of this board occurs on `other`, and both have one size.
    pub open spec fn tiles_within(self, other: GridView) -> bool {
        &&& self.size == other.size
        &&& forall|i: int| 0 <= i < self.data.len() ==> occurs(other.data, #[trigger] self.data[i])
    }
}

/// Whether some cell of `cells` holds `v`.
pub open spec fn occurs(cells: Seq<Option<i32>>, v: Option<i32>) -> bool {
    exists|j: int| 0 <= j < cells.len() && cells[j] == v
}

/// The views of a sequence of boards.
pub open spec fn grid_views(boards: Seq<Grid>) -> Seq<GridView> {
    boards.map_values(|g: Grid| g@)
}

/// A cell given by an on-board row and column has an index on the board, and
/// the index gives the row and column back.
pub proof fn lemma_cell_index(size: int, x: int, y: int)
    by (nonlinear_arith)
    requires
        0 < size,
        0 <= x < size,
        0 <= y < size,
    ensures
        0 <= x * size + y < size * size,
        (x * size + y) / size == x,
        (x * size + y) % size == y,
{
}

/// A cell index on the board has an on-board row and column.
pub proof fn lemma_coord_range(size: int, idx: int)
    by (nonlinear_arith)
    requires
        0 < size,
        0 <= idx < size * size,
    ensures
        0 <= idx / size < size,
        0 <= idx % size < size,
        (idx / size) * size + idx % size == idx,
{
}

/// The square of a side length up to [`MAX_SIZE`] is an `i32`.
pub proof fn lemma_square_fits(size: int)
    by (nonlinear_arith)
    requires
        0 < size <= 46340,
    ensures
        0 < size * size <= 2147395600,
{
}

/// A valid move of a valid board gives a valid board of as many cells.
pub proof fn lemma_moved_wf(g: GridView, action: (i32, i32))
    requires
        g.wf(),
        g.valid(action),
    ensures
        g.moved(action).wf(),
        0 <= g.target(action) < g.size * g.size,
        g.moved(action).data.len() == g.data.len(),
{
    lemma_coord_range(g.size, g.empty_idx);
    lemma_cell_index(g.size, g.row(g.empty_idx) + action.0, g.col(g.empty_idx) + action.1);
}

/// The move that undoes `action`.
pub open spec fn undone(action: (i32, i32)) -> (i32, i32) {
    ((-action.0) as i32, (-action.1) as i32)
}

/// A valid move can be undone: its reverse is a valid move of the board it
/// led to, and leads back.
pub proof fn lemma_move_undone(g: GridView, action: (i32, i32))
    requires
        g.wf(),
        g.valid(action),
    ensures
        g.moved(action).valid(undone(action)),
        g.moved(action).moved(undone(action)) == g,
{
    lemma_moved_wf(g, action);
    lemma_coord_range(g.size, g.empty_idx);
    lemma_cell_index(g.size, g.row(g.empty_idx) + action.0, g.col(g.empty_idx) + action.1);
    let m = g.moved(action);
    assert(m.target(undone(action)) == g.empty_idx);
    assert(m.moved(undone(action)).data =~= g.data);
}

/// A board has at most one successor for each move.
pub proof fn lemma_successors_len(g: GridView, k: int)
    requires
        0 <= k,
    ensures
        g.successors_upto(k).len() <= k,
    decreases k,
{
    if k > 0 {
        lemma_successors_len(g, k - 1);
    }
}

/// Every board one valid unit move away is among the successors.
pub proof fn lemma_successors_complete(g: GridView, next: GridView)
    requires
        g.steps_to(next),
    ensures
        g.successors().contains(next),
{
    let k = choose|k: int| 0 <= k < 4 && g.valid(#[trigger] move_at(k)) && next == g.moved(move_at(k));
    lemma_successors_hold(g, k, 4);
}

/// The successor by the `k`-th move is among the successors by the first `n`
/// moves, for `n` above `k`.
proof fn lemma_successors_hold(g: GridView, k: int, n: int)
    requires
        0 <= k < n,
        g.valid(move_at(k)),
    ensures
        g.successors_upto(n).contains(g.moved(move_at(k))),
    decreases n,
{
    if k == n - 1 {
        let j = g.successors_upto(n).len() - 1;
        assert(g.successors_upto(n)[j] == g.moved(move_at(k)));
    } else {
        lemma_successors_hold(g, k, n - 1);
        let before = g.successors_upto(n - 1);
        let j = choose|j: int| 0 <= j < before.len() && before[j] == g.moved(move_at(k));
        assert(g.successors_upto(n)[j] == g.moved(move_at(k)));
    }
}

/// A board that is reached, and one more valid unit move, is reached in one
/// step more.
pub proof fn lemma_reaches_next(from: GridView, mid: GridView, to: GridView, steps: nat)
    requires
        from.reaches(mid, steps),
        mid.steps_to(to),
    ensures
        from.reaches(to, steps + 1),
{
    assert(from.reaches(mid, ((steps + 1) - 1) as nat) && mid.steps_to(to));
}

/// A walk from a valid board made of the tiles of `other` ends on such a
/// board.
pub proof fn lemma_run_tiles(g: GridView, actions: Seq<(i32, i32)>, other: GridView)
    requires
        g.wf(),
        g.tiles_within(other),
    ensures
        g.run(actions).wf(),
        g.run(actions).tiles_within(other),
    decreases actions.len(),
{
    if actions.len() > 0 {
        lemma_run_tiles(g, actions.drop_last(), other);
        let before = g.run(actions.drop_last());
        if before.valid(actions.last()) {
            lemma_moved_wf(before, actions.last());
            lemma_moved_tiles(before, actions.last(), other);
        }
    }
}

/// Moving tiles neither adds nor loses a cell value.
pub proof fn lemma_moved_tiles(g: GridView, action: (i32, i32), other: GridView)
    requires
        g.wf(),
        g.valid(action),
        g.tiles_within(other),
    ensures
        g.moved(action).tiles_within(other),
{
    lemma_moved_wf(g, action);
    let m = g.moved(action);
    let t = g.target(action);
    assert forall|i: int| 0 <= i < m.data.len() implies occurs(other.data, #[trigger] m.data[i]) by {
        if i == t {
            assert(m.data[i] == g.data[g.empty_idx]);
        } else if i == g.empty_idx {
            assert(m.data[i] == g.data[t]);
        } else {
            assert(m.data[i] == g.data[i]);
        }
    }
}

/// Copies the cells of a board.
fn copy_cells(cells: &Vec<Option<i32>>) -> (out: Vec<Option<i32>>)
    ensures
        out@ == cells@,
{
    let mut out: Vec<Option<i32>> = Vec::with_capacity(cells.len());
    let mut i: usize = 0;
    while i < cells.len()
        invariant
            i <= cells.len(),
            out@ == cells@.subrange(0, i as int),
        decreases cells.len() - i,
    {
        out.push(cells[i]);
        i = i + 1;
        assert(out@ == cells@.subrange(0, i as int));
    }
    assert(cells@.subrange(0, cells.len() as int) == cells@);
    out
}

/// The `k`-th move of a board's expansion.
pub fn unit_move(k: usize) -> (action: (i32, i32))
    requires
        k < 4,
    ensures
        action == move_at(k as int),
{
    if k == 0 {
        (-1, 0)
    } else if k == 1 {
        (1, 0)
    } else if k == 2 {
        (0, -1)
    } else {
        (0, 1)
    }
}

impl Clone for Grid {
    fn clone(&self) -> (out: Grid)
        ensures
            out@ == self@,
    {
        Grid { data: copy_cells(&self.data), size: self.size, empty_idx: self.empty_idx }
    }
}

impl Grid {
    /// A board of the given cells, side length and blank position, taken as
    /// they are.
    pub fn new(nums: Vec<Option<i32>>, size: i32, empty_idx: i32) -> (grid: Grid)
        ensures
            grid.data@ == nums@,
            grid.size == size,
            grid.empty_idx == empty_idx,
    {
        Grid { data: nums, size, empty_idx }
    }

    /// Whether the board is valid: see [`GridView::wf`].
    pub fn is_valid(&self) -> (ok: bool)
        ensures
            ok == self@.wf(),
    {
        if self.size <= 0 || self.size > MAX_SIZE {
            return false;
        }
        proof {
            lemma_square_fits(self.size as int);
        }
        let cells: i32 = self.size * self.size;
        if self.empty_idx < 0 || self.empty_idx >= cells {
            return false;
        }
        if self.data.len() != cells as usize {
            return false;
        }
        self.data[self.empty_idx as usize].is_none()
    }

    /// Whether two boards have the same cells, side length and blank.
    pub fn same_as(&self, other: &Grid) -> (same: bool)
        ensures
            same == (self@ == other@),
    {
        if self.size != other.size || self.empty_idx != other.empty_idx || self.data.len()
            != other.data.len() {
            return false;
        }
        let mut i: usize = 0;
        while i < self.data.len()
            invariant
                i <= self.data.len(),
                self.data.len() == other.data.len(),
                forall|j: int| 0 <= j < i ==> self.data@[j] == other.data@[j],
            decreases self.data.len() - i,
        {
            let a = self.data[i];
            let b = other.data[i];
            let equal = match (a, b) {
                (Some(x), Some(y)) => x == y,
                (None, None) => true,
                _ => false,
            };
            if !equal {
                return false;
            }
            i = i + 1;
        }
        assert(self@.data =~= other@.data);
        true
    }

    /// Whether this board has the side length of `other` and only cell values
    /// that occur on `other`.
    pub fn tiles_within(&self, other: &Grid) -> (within: bool)
        ensures
            within == self@.tiles_within(other@),
    {
        if self.size != other.size {
            return false;
        }
        let mut i: usize = 0;
        while i < self.data.len()
            invariant
                i <= self.data.len(),
                self.size == other.size,
                forall|k: int| 0 <= k < i ==> occurs(other.data@, #[trigger] self.data@[k]),
            decreases self.data.len() - i,
        {
            let mut found = false;
            let mut j: usize = 0;
            while j < other.data.len() && !found
                invariant
                    j <= other.data.len(),
                    i < self.data.len(),
                    found ==> occurs(other.data@, self.data@[i as int]),
                    !found ==> forall|m: int| 0 <= m < j ==> other.data@[m] != self.data@[i as int],
                decreases other.data.len() - j + (if found { 0int } else { 1int }),
            {
                let a = self.data[i];
                let b = other.data[j];
                let equal = match (a, b) {
                    (Some(x), Some(y)) => x == y,
                    (None, None) => true,
                    _ => false,
                };
                if equal {
                    found = true;
                } else {
                    j = j + 1;
                }
            }
            if !found {
                proof {
                    if self@.tiles_within(other@) {
                        let m = choose|m: int|
                            0 <= m < other@.data.len() && other@.data[m] == self@.data[i as int];
                        assert(other.data@[m] != self.data@[i as int]);
                    }
                }
                return false;
            }
            i = i + 1;
        }
        true
    }

    /// Row and column of cell `idx`.
    pub fn get_coord(&self, idx: i32) -> (coord: (i32, i32))
        requires
            0 < self.size <= MAX_SIZE,
            0 <= idx < self.size * self.size,
        ensures
            coord.0 == self@.row(idx as int),
            coord.1 == self@.col(idx as int),
            0 <= coord.0 < self.size,
            0 <= coord.1 < self.size,
    {
        proof {
            lemma_coord_range(self.size as int, idx as int);
        }
        let x: i32 = idx / self.size;
        let y: i32 = idx % self.size;
        (x, y)
    }

    /// Whether moving the blank by `action` keeps it on the board.
    pub fn valid_action(&self, action: (i32, i32)) -> (ok: bool)
        requires
            self@.framed(),
        ensures
            ok == self@.valid(action),
    {
        let (x, y) = self.get_coord(self.empty_idx);
        let nx: i64 = x as i64 + action.0 as i64;
        let ny: i64 = y as i64 + action.1 as i64;
        nx >= 0 && nx < self.size as i64 && ny >= 0 && ny < self.size as i64
    }

    /// The board after a valid move of the blank.
    pub fn do_action(&self, action: (i32, i32)) -> (next: Grid)
        requires
            self@.wf(),
            self@.valid(action),
        ensures
            next@ == self@.moved(action),
            next@.wf(),
    {
        let mut data = copy_cells(&self.data);
        let (x, y) = self.get_coord(self.empty_idx);
        proof {
            lemma_moved_wf(self@, action);
            lemma_cell_index(self.size as int, x + action.0, y + action.1);
            lemma_square_fits(self.size as int);
            assert((x + action.0) * self.size <= self.size * self.size) by (nonlinear_arith)
                requires
                    0 <= x + action.0 < self.size,
            ;
            assert(0 <= (x + action.0) * self.size) by (nonlinear_arith)
                requires
                    0 <= x + action.0,
                    0 < self.size,
            ;
        }
        let nx: i32 = x + action.0;
        let ny: i32 = y + action.1;
        let target: i32 = nx * self.size + ny;
        let tile = data[target as usize];
        data.set(self.empty_idx as usize, tile);
        data.set(target as usize, None);
        Grid { data, size: self.size, empty_idx: target }
    }

    /// The board after the move, if the move is valid.
    pub fn try_action(&self, action: (i32, i32)) -> (next: Option<Grid>)
        requires
            self@.wf(),
        ensures
            next is Some <==> self@.valid(action),
            next matches Some(g) ==> g@ == self@.moved(action) && g@.wf(),
    {
        if self.valid_action(action) {
            Some(self.do_action(action))
        } else {
            None
        }
    }

    /// The board after `actions`, taken in order; an invalid one is skipped.
    pub fn do_actions(&self, actions: Vec<(i32, i32)>) -> (last: Grid)
        requires
            self@.wf(),
        ensures
            last@ == self@.run(actions@),
            last@.wf(),
    {
        let mut grid = self.clone();
        let mut i: usize = 0;
        while i < actions.len()
            invariant
                i <= actions.len(),
                grid@ == self@.run(actions@.subrange(0, i as int)),
                grid@.wf(),
            decreases actions.len() - i,
        {
            let ghost before = actions@.subrange(0, i as int);
            let ghost after = actions@.subrange(0, i as int + 1);
            proof {
                assert(after.drop_last() == before);
                assert(after.last() == actions@[i as int]);
            }
            match grid.try_action(actions[i]) {
                Some(next) => {
                    grid = next;
                },
                None => {},
            }
            i = i + 1;
        }
        assert(actions@.subrange(0, actions.len() as int) == actions@);
        grid
    }

    /// The boards one valid move away: up, down, left, right of the blank,
    /// those that stay on the board.
    pub fn expand(&self) -> (next: Vec<Grid>)
        requires
            self@.wf(),
        ensures
            grid_views(next@) == self@.successors(),
            forall|i: int| 0 <= i < next.len() ==> (#[trigger] next[i])@.wf(),
            next.len() <= 4,
    {
        let mut next: Vec<Grid> = Vec::new();
        let mut k: usize = 0;
        while k < 4
            invariant
                k <= 4,
                self@.wf(),
                grid_views(next@) == self@.successors_upto(k as int),
                forall|i: int| 0 <= i < next.len() ==> (#[trigger] next[i])@.wf(),
                next.len() <= k,
            decreases 4 - k,
        {
            let ghost before = next@;
            match self.try_action(unit_move(k)) {
                Some(g) => {
                    next.push(g);
                    assert(grid_views(next@) == grid_views(before).push(g@));
                },
                None => {},
            }
            k = k + 1;
        }
        next
    }
}

} // verus!
