//! The Manhattan-distance estimate between two boards.

use crate::grid::{
    lemma_cell_index, lemma_coord_range, lemma_moved_wf, lemma_square_fits, move_at, Grid, GridView,
};
use crate::node::estimates;
use crate::optimality::{consistent, steady};
use std::collections::HashMap;
use vstd::prelude::*;

verus! {

broadcast use vstd::std_specs::hash::group_hash_axioms;

/// The last cell of `cells` that holds `v`, or -1 if none does.
pub open spec fn last_index_of(cells: Seq<Option<i32>>, v: Option<i32>) -> int
    decreases cells.len(),
{
    if cells.len() == 0 {
        -1
    } else if cells.last() == v {
        cells.len() - 1
    } else {
        last_index_of(cells.drop_last(), v)
    }
}

/// Distance between two numbers.
pub open spec fn gap(a: int, b: int) -> int {
    if a >= b {
        a - b
    } else {
        b - a
    }
}

/// Rows plus columns between cells `a` and `b` of a board of side `size`.
pub open spec fn cell_distance(size: int, a: int, b: int) -> int {
    gap(a / size, b / size) + gap(a % size, b % size)
}

/// What cell `i` of `from` adds to the distance: for a tile, the rows plus
/// columns to the last cell of `to` that holds the same tile; for the blank,
/// nothing.
pub open spec fn tile_distance(from: GridView, to: GridView, i: int) -> int {
    match from.data[i] {
        Some(_) => cell_distance(from.size, i, last_index_of(to.data, from.data[i])),
        None => 0,
    }
}

/// The distances of the tiles in the first `k` cells of `from`.
pub open spec fn distance_upto(from: GridView, to: GridView, k: int) -> int
    decreases k,
{
    if k <= 0 {
        0
    } else {
        distance_upto(from, to, k - 1) + tile_distance(from, to, k - 1)
    }
}

/// The Manhattan distance from `from` to `to`: the distances of all tiles,
/// the blank left out.
pub open spec fn manhattan(from: GridView, to: GridView) -> int {
    distance_upto(from, to, from.data.len() as int)
}

/// The key under which a cell value is looked up.
pub open spec fn cell_key(v: Option<i32>) -> i64 {
    match v {
        Some(x) => x as i64,
        None => 0x8000_0000i64,
    }
}

/// `last_index_of` finds a cell that holds the value exactly when one exists.
pub proof fn lemma_last_index(cells: Seq<Option<i32>>, v: Option<i32>)
    ensures
        -1 <= last_index_of(cells, v) < cells.len(),
        last_index_of(cells, v) >= 0 ==> cells[last_index_of(cells, v)] == v,
        forall|j: int| 0 <= j < cells.len() && cells[j] == v ==> last_index_of(cells, v) >= j,
    decreases cells.len(),
{
    if cells.len() > 0 && cells.last() != v {
        lemma_last_index(cells.drop_last(), v);
        assert forall|j: int| 0 <= j < cells.len() && cells[j] == v implies last_index_of(cells, v)
            >= j by {
            assert(cells.drop_last()[j] == cells[j]);
        }
    }
}

/// The distance between two cells of a board is at most twice the side
/// length less one.
pub proof fn lemma_cell_distance_range(size: int, a: int, b: int)
    requires
        0 < size,
        0 <= a < size * size,
        0 <= b < size * size,
    ensures
        0 <= cell_distance(size, a, b) <= 2 * (size - 1),
{
    lemma_coord_range(size, a);
    lemma_coord_range(size, b);
}

/// The partial sums of the Manhattan distance grow with the number of cells,
/// by at most `2 * (size - 1)` a cell.
pub proof fn lemma_distance_grows(from: GridView, to: GridView, i: int, j: int)
    requires
        from.squared(),
        to.squared(),
        from.tiles_within(to),
        0 <= i <= j <= from.data.len(),
    ensures
        0 <= distance_upto(from, to, i) <= distance_upto(from, to, j),
        distance_upto(from, to, j) <= j * (2 * (from.size - 1)),
    decreases j,
{
    if j > 0 {
        let at = last_index_of(to.data, from.data[j - 1]);
        lemma_last_index(to.data, from.data[j - 1]);
        lemma_cell_distance_range(from.size, j - 1, at);
        if i < j {
            lemma_distance_grows(from, to, i, j - 1);
        } else {
            lemma_distance_grows(from, to, j - 1, j - 1);
        }
        assert(j * (2 * (from.size - 1)) == (j - 1) * (2 * (from.size - 1)) + 2 * (from.size - 1))
            by (nonlinear_arith);
    }
}

/// On boards of side length up to 1024 the Manhattan distance is an `i32`.
pub proof fn lemma_manhattan_fits(from: GridView, to: GridView)
    requires
        from.squared(),
        to.squared(),
        from.tiles_within(to),
        from.size <= 1024,
    ensures
        0 <= manhattan(from, to) <= i32::MAX,
{
    let n = from.data.len() as int;
    lemma_distance_grows(from, to, n, n);
    assert(n * (2 * (from.size - 1)) <= 2147483647) by (nonlinear_arith)
        requires
            n == from.size * from.size,
            0 < from.size <= 1024,
    ;
}

/// Two boards of one size that agree on the first `k` cells, but perhaps on
/// cells `a` and `b`, differ in the distance of those cells by what `a` and
/// `b` add.
proof fn lemma_distance_differs(s: GridView, m: GridView, to: GridView, a: int, b: int, k: int)
    requires
        s.size == m.size,
        a != b,
        0 <= k <= s.data.len() == m.data.len(),
        forall|i: int| 0 <= i < k && i != a && i != b ==> s.data[i] == m.data[i],
    ensures
        distance_upto(m, to, k) - distance_upto(s, to, k) == (if 0 <= a < k {
            tile_distance(m, to, a) - tile_distance(s, to, a)
        } else {
            0
        }) + (if 0 <= b < k {
            tile_distance(m, to, b) - tile_distance(s, to, b)
        } else {
            0
        }),
    decreases k,
{
    if k > 0 {
        lemma_distance_differs(s, m, to, a, b, k - 1);
    }
}

/// Neighbouring cells are within one step of each other as seen from any
/// third cell.
proof fn lemma_neighbours(size: int, x: int, y: int, dx: int, dy: int, at: int)
    requires
        0 < size,
        0 <= x < size,
        0 <= y < size,
        0 <= x + dx < size,
        0 <= y + dy < size,
        (dx == 0 && (dy == 1 || dy == -1)) || (dy == 0 && (dx == 1 || dx == -1)),
    ensures
        cell_distance(size, x * size + y, at) <= cell_distance(size, (x + dx) * size + (y + dy), at)
            + 1,
{
    lemma_cell_index(size, x, y);
    lemma_cell_index(size, x + dx, y + dy);
}

/// One move changes the Manhattan distance to any board by at most one: the
/// estimate before the move is at most the estimate after it plus one.
pub proof fn lemma_manhattan_step(s: GridView, t: GridView, to: GridView)
    requires
        s.wf(),
        s.steps_to(t),
    ensures
        manhattan(s, to) <= manhattan(t, to) + 1,
{
    let k = choose|k: int| 0 <= k < 4 && s.valid(#[trigger] move_at(k)) && t == s.moved(move_at(k));
    let action = move_at(k);
    lemma_moved_wf(s, action);
    lemma_coord_range(s.size, s.empty_idx);
    let e = s.empty_idx;
    let c = s.target(action);
    let x = s.row(e);
    let y = s.col(e);
    lemma_cell_index(s.size, x + action.0, y + action.1);
    assert(c != e);
    lemma_distance_differs(s, t, to, e, c, s.data.len() as int);
    assert(tile_distance(s, to, e) == 0);
    assert(tile_distance(t, to, c) == 0);
    if s.data[c] is Some {
        let at = last_index_of(to.data, s.data[c]);
        assert(t.data[e] == s.data[c]);
        assert(e == x * s.size + y);
        // The tile stood in the target cell and stands in the old blank now.
        lemma_neighbours(s.size, x + action.0, y + action.1, -action.0, -action.1, at);
        assert(tile_distance(s, to, c) == cell_distance(s.size, c, at));
        assert(tile_distance(t, to, e) == cell_distance(s.size, e, at));
    }
}

/// The Manhattan distance to `end`, of each board.
pub open spec fn manhattan_to(end: GridView) -> spec_fn(GridView) -> int {
    |s: GridView| manhattan(s, end)
}

/// The Manhattan distance is a consistent estimate for every goal: what it
/// answers for a board is the distance of [`manhattan`], which drops by no
/// more than one along a move.
pub proof fn lemma_man_dist_consistent(end: GridView)
    ensures
        steady(man_dist, end, manhattan_to(end)),
        consistent(man_dist, end),
{
    let hv = manhattan_to(end);
    assert forall|s: GridView, t: GridView|
        s.wf() && s.tiles_within(end) && #[trigger] s.steps_to(t) implies hv(s) <= hv(t) + 1 by {
        lemma_manhattan_step(s, t, end);
    }
    assert(steady(man_dist, end, hv));
}

/// The Manhattan distance can be asked about every valid board of the tiles
/// of a goal of side length up to 1024.
pub proof fn lemma_man_dist_estimates(end: GridView)
    requires
        end.squared(),
        end.size <= 1024,
    ensures
        estimates(man_dist, end),
{
    assert forall|s: Grid, goal: Grid| s@.wf() && s@.tiles_within(end) && goal@ == end implies #[trigger] call_requires(
        man_dist,
        (&s, &goal),
    ) by {
        lemma_manhattan_fits(s@, end);
    }
}

/// The key of a cell value.
fn key_of(v: Option<i32>) -> (key: i64)
    ensures
        key == cell_key(v),
{
    match v {
        Some(x) => x as i64,
        None => 0x8000_0000i64,
    }
}

/// The Manhattan distance between two boards of one size that hold the same
/// values: for each tile of `g1` the rows plus columns to the cell of `g2` with
/// the same tile. The blank is not counted.
pub fn man_dist(g1: &Grid, g2: &Grid) -> (dist: i32)
    requires
        g1@.squared(),
        g2@.squared(),
        g1@.tiles_within(g2@),
        manhattan(g1@, g2@) <= i32::MAX,
    ensures
        dist == manhattan(g1@, g2@),
        dist >= 0,
{
    proof {
        lemma_square_fits(g1.size as int);
    }
    let n: i32 = g1.size * g1.size;
    let mut places: HashMap<i64, i32> = HashMap::new();
    let mut i: i32 = 0;
    while i < n
        invariant
            0 <= i <= n,
            n == g2.data.len(),
            forall|v: Option<i32>|
                places@.contains_key(#[trigger] cell_key(v)) <==> last_index_of(
                    g2.data@.subrange(0, i as int),
                    v,
                ) >= 0,
            forall|v: Option<i32>|
                places@.contains_key(#[trigger] cell_key(v)) ==> places@[cell_key(v)]
                    == last_index_of(g2.data@.subrange(0, i as int), v),
        decreases n - i,
    {
        let ghost before = g2.data@.subrange(0, i as int);
        let ghost after = g2.data@.subrange(0, i + 1);
        proof {
            assert(after.drop_last() == before);
            assert(after.last() == g2.data@[i as int]);
        }
        places.insert(key_of(g2.data[i as usize]), i);
        i = i + 1;
    }
    assert(g2.data@.subrange(0, n as int) == g2.data@);
    let mut dist: i32 = 0;
    let mut i: i32 = 0;
    while i < n
        invariant
            0 <= i <= n,
            n == g1.data.len(),
            n == g2.data.len(),
            g1@.squared(),
            g2@.squared(),
            g1@.tiles_within(g2@),
            manhattan(g1@, g2@) <= i32::MAX,
            dist == distance_upto(g1@, g2@, i as int),
            forall|v: Option<i32>|
                places@.contains_key(#[trigger] cell_key(v)) <==> last_index_of(g2.data@, v) >= 0,
            forall|v: Option<i32>|
                places@.contains_key(#[trigger] cell_key(v)) ==> places@[cell_key(v)]
                    == last_index_of(g2.data@, v),
        decreases n - i,
    {
        let v = g1.data[i as usize];
        proof {
            lemma_last_index(g2.data@, v);
            lemma_distance_grows(g1@, g2@, i + 1, n as int);
            lemma_distance_grows(g1@, g2@, i as int, i + 1);
            lemma_cell_distance_range(g1.size as int, i as int, last_index_of(g2.data@, v));
            assert(places@.contains_key(cell_key(v)));
        }
        if v.is_some() {
            let (x1, y1) = g1.get_coord(i);
            let at: i32 = match places.get(&key_of(v)) {
                Some(j) => *j,
                None => 0,
            };
            let (x2, y2) = g2.get_coord(at);
            let dx: i32 = if x1 >= x2 {
                x1 - x2
            } else {
                x2 - x1
            };
            let dy: i32 = if y1 >= y2 {
                y1 - y2
            } else {
                y2 - y1
            };
            dist = dist + dx + dy;
        }
        i = i + 1;
    }
    proof {
        lemma_distance_grows(g1@, g2@, 0, n as int);
    }
    dist
}

} // verus!
