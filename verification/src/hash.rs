//! Zobrist hashing of boards: one pseudorandom token for each proposition
//! "tile `n` stands in cell `i`", XORed over the propositions that hold.

use crate::grid::{lemma_square_fits, Grid, GridView, MAX_SIZE};
use crate::random::{seeded_tokens, token_stream};
use vstd::prelude::*;

verus! {

/// The seed of the table of a [`ZHasher`].
pub const ZOBRIST_SEED: u64 = 420;

/// The seed of the table of an [`AZHasher`].
pub const ABSTRACT_SEED: u64 = 100;

/// A source of tokens for the propositions of a board.
pub trait StateHash {
    /// Whether the hasher has a token for tile `n` in cell `i`.
    spec fn covers(&self, n: i32, i: i32) -> bool;

    /// The token for tile `n` in cell `i`.
    spec fn token(&self, n: i32, i: i32) -> u32;

    /// The token for tile `n` in cell `i`.
    fn hash_prop(&self, n: i32, i: i32) -> (t: u32)
        requires
            self.covers(n, i),
        ensures
            t == self.token(n, i),
    ;
}

/// The XOR of the tokens of the tiles in the first `k` cells.
pub open spec fn hash_upto<T: StateHash>(hasher: &T, cells: Seq<Option<i32>>, k: int) -> u32
    decreases k,
{
    if k <= 0 {
        0
    } else {
        match cells[k - 1] {
            Some(n) => hash_upto(hasher, cells, k - 1) ^ hasher.token(n, (k - 1) as i32),
            None => hash_upto(hasher, cells, k - 1),
        }
    }
}

/// The hash of a board: the XOR of the tokens of all its tiles, 0 for a board
/// without tiles.
pub open spec fn state_hash<T: StateHash>(hasher: &T, state: GridView) -> u32 {
    hash_upto(hasher, state.data, state.data.len() as int)
}

/// The worker that owns a board among `workers` workers.
pub open spec fn owner_of<T: StateHash>(hasher: &T, state: GridView, workers: u32) -> int {
    state_hash(hasher, state) as int % workers as int
}

/// Whether the hasher has a token for every tile of `cells` where it stands.
pub open spec fn covers_cells<T: StateHash>(hasher: &T, cells: Seq<Option<i32>>) -> bool {
    forall|i: int|
        0 <= i < cells.len() ==> (#[trigger] cells[i] matches Some(n) ==> hasher.covers(n, i as i32))
}

/// Whether the hasher has a token for every tile of `board` in every cell of
/// it.
pub open spec fn covers_board<T: StateHash>(hasher: &T, board: GridView) -> bool {
    forall|j: int, n: i32, i: i32|
        0 <= j < board.data.len() && #[trigger] board.data[j] == Some(n) && 0 <= i
            < board.data.len() ==> #[trigger] hasher.covers(n, i)
}

/// A hasher that covers a board covers every board of the same size made of
/// its tiles.
pub proof fn lemma_covers_rearranged<T: StateHash>(hasher: &T, board: GridView, state: GridView)
    requires
        covers_board(hasher, board),
        state.tiles_within(board),
        state.data.len() == board.data.len(),
        board.data.len() <= i32::MAX,
    ensures
        covers_cells(hasher, state.data),
        covers_board(hasher, state),
{
    assert forall|i: int| 0 <= i < state.data.len() implies (#[trigger] state.data[i] matches Some(n)
        ==> hasher.covers(n, i as i32)) by {
        let j = choose|j: int| 0 <= j < board.data.len() && board.data[j] == state.data[i];
        assert(board.data[j] == state.data[i]);
        if let Some(n) = state.data[i] {
            assert(hasher.covers(n, i as i32));
        }
    }
    assert forall|k: int, n: i32, i: i32|
        0 <= k < state.data.len() && #[trigger] state.data[k] == Some(n) && 0 <= i
            < state.data.len() implies #[trigger] hasher.covers(n, i) by {
        let j = choose|j: int| 0 <= j < board.data.len() && board.data[j] == state.data[k];
        assert(board.data[j] == Some(n));
    }
}

/// A board has one hash: boards that are equal hash alike, whenever and
/// however often they are hashed with one hasher.
pub proof fn lemma_hash_stable<T: StateHash>(hasher: &T, a: GridView, b: GridView, workers: u32)
    requires
        a.data == b.data,
    ensures
        state_hash(hasher, a) == state_hash(hasher, b),
        owner_of(hasher, a, workers) == owner_of(hasher, b, workers),
{
}

/// Division by a positive number that rounds towards zero, as `/` on `i32`
/// does.
pub open spec fn trunc_div(a: int, b: int) -> int {
    if a >= 0 {
        a / b
    } else {
        -((-a) / b)
    }
}

/// The rows of a table as sequences.
pub open spec fn table_view(table: Seq<Vec<u32>>) -> Seq<Seq<u32>> {
    table.map_values(|row: Vec<u32>| row@)
}

/// Copies a table of tokens.
fn copy_table(table: &Vec<Vec<u32>>) -> (out: Vec<Vec<u32>>)
    ensures
        table_view(out@) == table_view(table@),
{
    let mut out: Vec<Vec<u32>> = Vec::new();
    let mut r: usize = 0;
    while r < table.len()
        invariant
            r <= table.len(),
            out.len() == r,
            forall|k: int| 0 <= k < r ==> (#[trigger] out[k])@ == table[k]@,
        decreases table.len() - r,
    {
        let mut row: Vec<u32> = Vec::new();
        let mut c: usize = 0;
        while c < table[r].len()
            invariant
                r < table.len(),
                c <= table[r as int].len(),
                row@ == table[r as int]@.subrange(0, c as int),
            decreases table[r as int].len() - c,
        {
            row.push(table[r][c]);
            c = c + 1;
        }
        assert(row@ == table[r as int]@);
        out.push(row);
        r = r + 1;
    }
    assert(table_view(out@) =~= table_view(table@));
    out
}

/// The tokens of a stream laid out row by row, in `rows` rows of `cols`.
pub open spec fn tabled(tokens: Seq<u32>, rows: int, cols: int) -> Seq<Seq<u32>> {
    Seq::new(rows as nat, |r: int| Seq::new(cols as nat, |c: int| tokens[r * cols + c]))
}

/// The table of a hasher of `rows` rows of `cols` tokens: the stream of `seed`,
/// laid out row by row.
pub open spec fn seeded_table(seed: u64, rows: int, cols: int) -> Seq<Seq<u32>> {
    tabled(token_stream(seed, (rows * cols) as nat), rows, cols)
}

/// The tokens laid out row by row, in `rows` rows of `cols`.
fn table_of(tokens: &Vec<u32>, rows: usize, cols: usize) -> (table: Vec<Vec<u32>>)
    requires
        tokens.len() == rows * cols,
    ensures
        table_view(table@) == tabled(tokens@, rows as int, cols as int),
        table.len() == rows,
        forall|r: int| 0 <= r < rows ==> (#[trigger] table[r]).len() == cols,
{
    let mut table: Vec<Vec<u32>> = Vec::new();
    let mut at: usize = 0;
    let mut r: usize = 0;
    while r < rows
        invariant
            r <= rows,
            tokens.len() == rows * cols,
            at == r * cols,
            table.len() == r,
            forall|k: int| 0 <= k < r ==> (#[trigger] table[k])@ == tabled(
                tokens@,
                rows as int,
                cols as int,
            )[k],
        decreases rows - r,
    {
        let mut row: Vec<u32> = Vec::new();
        let mut c: usize = 0;
        proof {
            assert((r + 1) * cols <= rows * cols) by (nonlinear_arith)
                requires
                    r < rows,
            ;
            assert((r + 1) * cols == r * cols + cols) by (nonlinear_arith);
        }
        while c < cols
            invariant
                c <= cols,
                r < rows,
                row.len() == c,
                at == r * cols + c,
                r * cols + cols <= tokens.len(),
                forall|j: int| 0 <= j < c ==> row[j] == tokens[r * cols + j],
            decreases cols - c,
        {
            row.push(tokens[at]);
            at = at + 1;
            c = c + 1;
        }
        proof {
            assert(row@ =~= tabled(tokens@, rows as int, cols as int)[r as int]);
        }
        table.push(row);
        r = r + 1;
    }
    proof {
        assert(table_view(table@) =~= tabled(tokens@, rows as int, cols as int));
    }
    table
}

/// The rows of the table for boards of side `size`: one for each tile.
pub open spec fn rows_for(size: i32) -> int {
    if size == 0 {
        0
    } else {
        size * size - 1
    }
}

/// The tokens of a row of the coarser table for boards of side `size`: one
/// for each row of the board.
pub open spec fn cols_for(size: i32) -> int {
    if size > 0 {
        size as int
    } else {
        0
    }
}

/// Tokens for each tile in each cell.
#[derive(Debug)]
pub struct ZHasher {
    pub htable: Vec<Vec<u32>>,
}

impl Clone for ZHasher {
    fn clone(&self) -> (out: ZHasher)
        ensures
            table_view(out.htable@) == table_view(self.htable@),
    {
        ZHasher { htable: copy_table(&self.htable) }
    }
}

impl ZHasher {
    /// The table for boards of side `size`, drawn from [`ZOBRIST_SEED`]:
    /// a row for each tile `0 .. size * size - 1`, a token for each cell.
    pub fn new(size: i32) -> (hasher: ZHasher)
        requires
            -MAX_SIZE <= size <= MAX_SIZE,
            rows_for(size) * (size * size) <= usize::MAX / 8,
        ensures
            table_view(hasher.htable@) == seeded_table(ZOBRIST_SEED, rows_for(size), size * size),
            hasher.htable.len() == if size == 0 {
                0
            } else {
                size * size - 1
            },
            forall|r: int|
                0 <= r < hasher.htable.len() ==> (#[trigger] hasher.htable[r]).len() == size * size,
    {
        ZHasher::with_seed(size, ZOBRIST_SEED)
    }

    /// The table for boards of side `size`, drawn from `seed`.
    pub fn with_seed(size: i32, seed: u64) -> (hasher: ZHasher)
        requires
            -MAX_SIZE <= size <= MAX_SIZE,
            rows_for(size) * (size * size) <= usize::MAX / 8,
        ensures
            table_view(hasher.htable@) == seeded_table(seed, rows_for(size), size * size),
            hasher.htable.len() == if size == 0 {
                0
            } else {
                size * size - 1
            },
            forall|r: int|
                0 <= r < hasher.htable.len() ==> (#[trigger] hasher.htable[r]).len() == size * size,
    {
        proof {
            if size > 0 {
                lemma_square_fits(size as int);
            } else if size < 0 {
                lemma_square_fits(-size as int);
                assert(size * size == (-size) * (-size)) by (nonlinear_arith);
            }
        }
        let cells: i32 = size * size;
        let rows: usize = if cells == 0 {
            0
        } else {
            (cells - 1) as usize
        };
        let tokens = seeded_tokens(seed, rows * (cells as usize));
        ZHasher { htable: table_of(&tokens, rows, cells as usize) }
    }
}

impl ZHasher {
    /// Whether the table has a token for every tile of `board` in every cell
    /// of it.
    pub fn serves(&self, board: &Grid) -> (ok: bool)
        requires
            board@.squared(),
        ensures
            ok == covers_board(self, board@),
    {
        proof {
            lemma_square_fits(board.size as int);
        }
        let cells = board.data.len();
        let mut j: usize = 0;
        while j < cells
            invariant
                j <= cells,
                cells == board.data.len(),
                0 < cells <= i32::MAX,
                forall|k: int, n: i32, i: i32|
                    0 <= k < j && #[trigger] board.data@[k] == Some(n) && 0 <= i < cells
                        ==> #[trigger] self.covers(n, i),
            decreases cells - j,
        {
            match board.data[j] {
                Some(n) => {
                    if n < 0 || n as usize >= self.htable.len() {
                        assert(!self.covers(n, 0));
                        return false;
                    }
                    if self.htable[n as usize].len() < cells {
                        assert(!self.covers(n, (cells - 1) as i32));
                        return false;
                    }
                },
                None => {},
            }
            j = j + 1;
        }
        true
    }
}

impl StateHash for ZHasher {
    open spec fn covers(&self, n: i32, i: i32) -> bool {
        0 <= n < self.htable.len() && 0 <= i < self.htable[n as int].len()
    }

    open spec fn token(&self, n: i32, i: i32) -> u32 {
        self.htable[n as int][i as int]
    }

    fn hash_prop(&self, n: i32, i: i32) -> (t: u32) {
        self.htable[n as usize][i as usize]
    }
}

/// Tokens for each tile in each row of the board: a coarser hash, under which
/// a board keeps its hash while tiles move within their rows.
#[derive(Debug)]
pub struct AZHasher {
    pub htable: Vec<Vec<u32>>,
    pub size: i32,
}

impl Clone for AZHasher {
    fn clone(&self) -> (out: AZHasher)
        ensures
            table_view(out.htable@) == table_view(self.htable@),
            out.size == self.size,
    {
        AZHasher { htable: copy_table(&self.htable), size: self.size }
    }
}

impl AZHasher {
    /// The table for boards of side `size`, drawn from [`ABSTRACT_SEED`]:
    /// a row for each tile `0 .. size * size - 1`, a token for each board row.
    pub fn new(size: i32) -> (hasher: AZHasher)
        requires
            -MAX_SIZE <= size <= MAX_SIZE,
            rows_for(size) * cols_for(size) <= usize::MAX / 8,
        ensures
            table_view(hasher.htable@) == seeded_table(ABSTRACT_SEED, rows_for(size), cols_for(size)),
            hasher.size == size,
            hasher.htable.len() == if size == 0 {
                0
            } else {
                size * size - 1
            },
            forall|r: int|
                0 <= r < hasher.htable.len() ==> (#[trigger] hasher.htable[r]).len() == if size > 0 {
                    size as int
                } else {
                    0
                },
    {
        AZHasher::with_seed(size, ABSTRACT_SEED)
    }

    /// The table for boards of side `size`, drawn from `seed`.
    pub fn with_seed(size: i32, seed: u64) -> (hasher: AZHasher)
        requires
            -MAX_SIZE <= size <= MAX_SIZE,
            rows_for(size) * cols_for(size) <= usize::MAX / 8,
        ensures
            table_view(hasher.htable@) == seeded_table(seed, rows_for(size), cols_for(size)),
            hasher.size == size,
            hasher.htable.len() == if size == 0 {
                0
            } else {
                size * size - 1
            },
            forall|r: int|
                0 <= r < hasher.htable.len() ==> (#[trigger] hasher.htable[r]).len() == if size > 0 {
                    size as int
                } else {
                    0
                },
    {
        proof {
            if size > 0 {
                lemma_square_fits(size as int);
            } else if size < 0 {
                lemma_square_fits(-size as int);
                assert(size * size == (-size) * (-size)) by (nonlinear_arith);
            }
        }
        let cells: i32 = size * size;
        let rows: usize = if cells == 0 {
            0
        } else {
            (cells - 1) as usize
        };
        let cols: usize = if size > 0 {
            size as usize
        } else {
            0
        };
        let tokens = seeded_tokens(seed, rows * cols);
        AZHasher { htable: table_of(&tokens, rows, cols), size }
    }

    /// The board row of cell `i`: what a cell is abstracted to.
    pub fn abx(&self, i: i32) -> (row: i32)
        requires
            self.size > 0,
        ensures
            row == trunc_div(i as int, self.size as int),
    {
        i / self.size
    }
}

impl AZHasher {
    /// Whether the table has a token for every tile of `board` in every row
    /// of it.
    pub fn serves(&self, board: &Grid) -> (ok: bool)
        requires
            board@.squared(),
        ensures
            ok == covers_board(self, board@),
    {
        proof {
            lemma_square_fits(board.size as int);
        }
        let cells = board.data.len();
        if self.size <= 0 {
            proof {
                if covers_board(self, board@) {
                    let filled = choose|k: int| 0 <= k < cells && board.data@[k] is Some;
                }
            }
        }
        let mut j: usize = 0;
        while j < cells
            invariant
                j <= cells,
                cells == board.data.len(),
                0 < cells <= i32::MAX,
                forall|k: int, n: i32, i: i32|
                    0 <= k < j && #[trigger] board.data@[k] == Some(n) && 0 <= i < cells
                        ==> #[trigger] self.covers(n, i),
            decreases cells - j,
        {
            match board.data[j] {
                Some(n) => {
                    if self.size <= 0 || n < 0 || n as usize >= self.htable.len() {
                        assert(!self.covers(n, 0));
                        return false;
                    }
                    let last: i32 = (cells - 1) as i32 / self.size;
                    if self.htable[n as usize].len() <= last as usize {
                        assert(!self.covers(n, (cells - 1) as i32));
                        return false;
                    }
                    proof {
                        assert forall|i: i32| 0 <= i < cells implies #[trigger] self.covers(n, i) by {
                            vstd::arithmetic::div_mod::lemma_div_is_ordered(
                                i as int,
                                cells - 1,
                                self.size as int,
                            );
                            vstd::arithmetic::div_mod::lemma_div_pos_is_pos(i as int, self.size as int);
                        }
                    }
                },
                None => {},
            }
            j = j + 1;
        }
        true
    }
}

impl StateHash for AZHasher {
    open spec fn covers(&self, n: i32, i: i32) -> bool {
        &&& self.size > 0
        &&& 0 <= n < self.htable.len()
        &&& 0 <= trunc_div(i as int, self.size as int) < self.htable[n as int].len()
    }

    open spec fn token(&self, n: i32, i: i32) -> u32 {
        self.htable[n as int][trunc_div(i as int, self.size as int)]
    }

    fn hash_prop(&self, n: i32, i: i32) -> (t: u32) {
        self.htable[n as usize][self.abx(i) as usize]
    }
}

impl Grid {
    /// The hash of the board under `hasher`: the XOR of the tokens of its
    /// tiles, each in its cell.
    pub fn hash_with<T: StateHash>(&self, hasher: &T) -> (hash: u32)
        requires
            self@.squared(),
            covers_cells(hasher, self@.data),
        ensures
            hash == state_hash(hasher, self@),
    {
        proof {
            lemma_square_fits(self.size as int);
        }
        let cells: i32 = self.size * self.size;
        let mut hash: u32 = 0;
        let mut i: i32 = 0;
        while i < cells
            invariant
                0 <= i <= cells,
                cells == self.data.len(),
                covers_cells(hasher, self@.data),
                hash == hash_upto(hasher, self@.data, i as int),
            decreases cells - i,
        {
            match self.data[i as usize] {
                Some(n) => {
                    let t = hasher.hash_prop(n, i);
                    hash = hash ^ t;
                },
                None => {},
            }
            i = i + 1;
        }
        hash
    }

    /// The worker, among `workers`, that owns the board under `hasher`.
    pub fn owner<T: StateHash>(&self, hasher: &T, workers: u32) -> (owner: u32)
        requires
            self@.squared(),
            covers_cells(hasher, self@.data),
            workers > 0,
        ensures
            owner == owner_of(hasher, self@, workers),
            owner < workers,
    {
        self.hash_with(hasher) % workers
    }
}

} // verus!
