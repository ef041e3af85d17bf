//! What a game shows of itself: its tiles and empty cells, and the board
//! as a list of numbers.

use std::collections::BTreeMap;
use vstd::prelude::*;
use vstd::arithmetic::power2::pow2;
use vstd::laws_cmp::group_laws_cmp;
use vstd::std_specs::btree::group_btree_axioms;
use crate::game::{Game, SIZE};
use crate::slide::power_of_two;
use crate::tile::{Tile, TileView};

verus! {

/// The empty cells among the first `n` cells of the board, counted row by
/// row, each as row and column.
pub open spec fn empty_cells(grid: Seq<Seq<TileView>>, n: int) -> Seq<(usize, usize)>
    decreases n,
{
    if n <= 0 {
        Seq::empty()
    } else {
        let rest = empty_cells(grid, n - 1);
        if grid[(n - 1) / 4][(n - 1) % 4].value == 0 {
            rest.push((((n - 1) / 4) as usize, ((n - 1) % 4) as usize))
        } else {
            rest
        }
    }
}

/// Every entry of [`empty_cells`] is an empty cell of the board.
pub proof fn lemma_empty_cells_are_empty(grid: Seq<Seq<TileView>>, n: int)
    requires
        0 <= n <= 16,
    ensures
        forall|c: (usize, usize)| #[trigger]
            empty_cells(grid, n).contains(c) ==> c.0 < 4 && c.1 < 4 && grid[c.0 as int][c.1 as int].value
                == 0,
    decreases n,
{
    if n > 0 {
        lemma_empty_cells_are_empty(grid, n - 1);
        let rest = empty_cells(grid, n - 1);
        assert forall|c: (usize, usize)| #[trigger]
            empty_cells(grid, n).contains(c) implies c.0 < 4 && c.1 < 4 && grid[c.0 as int][c.1 as int].value
            == 0 by {
            if !rest.contains(c) {
                let at = choose|at: int| 0 <= at < empty_cells(grid, n).len() && empty_cells(grid, n)[at] == c;
                if at < rest.len() {
                    assert(rest[at] == c);
                }
            }
        }
    }
}

/// An empty cell among the first `n` cells is an entry of [`empty_cells`].
pub proof fn lemma_empty_cells_complete(grid: Seq<Seq<TileView>>, n: int, i: int, j: int)
    requires
        0 <= n <= 16,
        0 <= i < 4,
        0 <= j < 4,
        4 * i + j < n,
        grid[i][j].value == 0,
    ensures
        empty_cells(grid, n).contains((i as usize, j as usize)),
    decreases n,
{
    let rest = empty_cells(grid, n - 1);
    if 4 * i + j == n - 1 {
        assert((n - 1) / 4 == i && (n - 1) % 4 == j);
        assert(rest.push((i as usize, j as usize)).last() == (i as usize, j as usize));
    } else {
        lemma_empty_cells_complete(grid, n - 1, i, j);
        let at = choose|at: int| 0 <= at < rest.len() && rest[at] == (i as usize, j as usize);
        assert(empty_cells(grid, n)[at] == (i as usize, j as usize));
    }
}

/// The exponents of the first `n` cells of the board, counted row by row.
pub open spec fn flattened(grid: Seq<Seq<TileView>>, n: int) -> Seq<u32> {
    Seq::new(n as nat, |at: int| grid[at / 4][at % 4].value as u32)
}

/// Slots per cell in the one-hot encoding of the board.
pub const MAX_EXPONENT: usize = 17;

/// The one-hot encoding of the board: slot `at * MAX_EXPONENT + e` is set
/// for the cell of position `at`, counted row by row, if that cell holds a
/// tile of exponent `e`; all other slots are clear.
pub open spec fn one_hot(grid: Seq<Seq<TileView>>, n: int) -> Seq<u8> {
    Seq::new(
        (SIZE * SIZE * MAX_EXPONENT) as nat,
        |slot: int|
            if exists|at: int|
                0 <= at < n && #[trigger] hits(grid, at, slot) {
                1u8
            } else {
                0u8
            },
    )
}

/// Whether the cell of position `at` holds a tile whose slot is `slot`.
pub open spec fn hits(grid: Seq<Seq<TileView>>, at: int, slot: int) -> bool {
    grid[at / 4][at % 4].value != 0 && at * MAX_EXPONENT + grid[at / 4][at % 4].value == slot
}

/// What is shown of a tile: row, column, face value, and the marks for a new
/// and for a merged tile.
pub type Shown = (usize, usize, u32, bool, bool);

/// The tiles among the first `n` cells of the board, counted row by row,
/// each under its identity. Where two tiles share an identity the later one
/// is listed.
pub open spec fn listed(board: [[Tile; SIZE]; SIZE], n: int) -> Map<u32, Shown>
    decreases n,
{
    if n <= 0 {
        Map::empty()
    } else {
        let rest = listed(board, n - 1);
        let i = (n - 1) / 4;
        let j = (n - 1) % 4;
        let t = board[i][j];
        if t.value != 0 {
            rest.insert(
                t.idx,
                (i as usize, j as usize, pow2(t.value as nat) as u32, t.new, t.changed),
            )
        } else {
            rest
        }
    }
}

impl Game {
    /// Every face value on the board fits in 32 bits.
    pub open spec fn displayable(self) -> bool {
        forall|i: int, j: int| 0 <= i < 4 && 0 <= j < 4 ==> (#[trigger] self.board[i][j]).value < 32
    }

    /// The face value of the highest tile, or `None` on a board without
    /// tiles.
    pub fn highest_tile(&self) -> (best: Option<u32>)
        requires
            self.displayable(),
        ensures
            best is None <==> forall|i: int, j: int|
                0 <= i < 4 && 0 <= j < 4 ==> (#[trigger] self.board[i][j]).value == 0,
            best matches Some(face) ==> exists|i: int, j: int|
                {
                    &&& 0 <= i < 4 && 0 <= j < 4
                    &&& face == pow2((#[trigger] self.board[i][j]).value as nat)
                    &&& forall|r: int, c: int|
                        0 <= r < 4 && 0 <= c < 4 ==> (#[trigger] self.board[r][c]).value
                            <= self.board[i][j].value
                },
    {
        let mut top: u32 = 0;
        let ghost mut at: (int, int) = (0, 0);
        let mut i: usize = 0;
        while i < SIZE
            invariant
                i <= SIZE,
                0 <= at.0 < 4 && 0 <= at.1 < 4,
                top == self.board[at.0][at.1].value || (top == 0 && i == 0),
                forall|r: int, c: int|
                    0 <= r < i && 0 <= c < 4 ==> (#[trigger] self.board[r][c]).value <= top,
            decreases SIZE - i,
        {
            let mut j: usize = 0;
            while j < SIZE
                invariant
                    i < SIZE,
                    j <= SIZE,
                    0 <= at.0 < 4 && 0 <= at.1 < 4,
                    top == self.board[at.0][at.1].value || (top == 0 && i == 0 && j == 0),
                    forall|r: int, c: int|
                        0 <= r < i && 0 <= c < 4 ==> (#[trigger] self.board[r][c]).value <= top,
                    forall|c: int| 0 <= c < j ==> (#[trigger] self.board[i as int][c]).value <= top,
                decreases SIZE - j,
            {
                if self.board[i][j].value >= top {
                    top = self.board[i][j].value;
                    proof {
                        at = (i as int, j as int);
                    }
                }
                j = j + 1;
            }
            i = i + 1;
        }
        if top == 0 {
            None
        } else {
            assert(self.board[at.0][at.1].value < 32);
            Some(power_of_two(top))
        }
    }

    /// The exponents of the board, row by row.
    pub fn flatten(&self) -> (flat: Vec<u32>)
        ensures
            flat@ == flattened(self@.board, 16),
    {
        let mut flat: Vec<u32> = Vec::new();
        let mut i: usize = 0;
        while i < SIZE
            invariant
                i <= SIZE,
                flat@ == flattened(self@.board, 4 * i),
            decreases SIZE - i,
        {
            let mut j: usize = 0;
            while j < SIZE
                invariant
                    i < SIZE,
                    j <= SIZE,
                    flat@ == flattened(self@.board, 4 * i + j),
                decreases SIZE - j,
            {
                proof {
                    assert((4 * i + j) / 4 == i && (4 * i + j) % 4 == j);
                }
                flat.push(self.board[i][j].value);
                assert(flat@ =~= flattened(self@.board, 4 * i + j + 1));
                j = j + 1;
            }
            i = i + 1;
        }
        flat
    }

    /// Every tile has its slot in the one-hot encoding.
    pub open spec fn encodable(self) -> bool {
        forall|at: int|
            0 <= at < 16 ==> at * MAX_EXPONENT + (#[trigger] self@.board[at / 4][at % 4]).value
                < SIZE * SIZE * MAX_EXPONENT
    }

    /// The one-hot encoding of the board, [`MAX_EXPONENT`] slots for every
    /// cell.
    pub fn one_hot_encode_board(&self) -> (encoded: Vec<u8>)
        requires
            self.encodable(),
        ensures
            encoded@ == one_hot(self@.board, 16),
    {
        let mut encoded: Vec<u8> = Vec::new();
        let mut s: usize = 0;
        while s < SIZE * SIZE * MAX_EXPONENT
            invariant
                s <= SIZE * SIZE * MAX_EXPONENT,
                encoded@.len() == s,
                forall|slot: int| 0 <= slot < s ==> encoded@[slot] == 0u8,
            decreases SIZE * SIZE * MAX_EXPONENT - s,
        {
            encoded.push(0u8);
            s = s + 1;
        }
        let ghost grid = self@.board;
        assert(encoded@ =~= one_hot(grid, 0));
        let mut i: usize = 0;
        while i < SIZE
            invariant
                i <= SIZE,
                grid == self@.board,
                self.encodable(),
                encoded@ == one_hot(grid, 4 * i),
            decreases SIZE - i,
        {
            let mut j: usize = 0;
            while j < SIZE
                invariant
                    i < SIZE,
                    j <= SIZE,
                    grid == self@.board,
                    self.encodable(),
                    encoded@ == one_hot(grid, 4 * i + j),
                decreases SIZE - j,
            {
                let ghost at = 4 * i + j;
                proof {
                    assert(at / 4 == i && at % 4 == j);
                    assert(at * MAX_EXPONENT + grid[at / 4][at % 4].value < SIZE * SIZE
                        * MAX_EXPONENT);
                }
                let tile = self.board[i][j].value as usize;
                if tile != 0 {
                    let slot = (i * SIZE + j) * MAX_EXPONENT + tile;
                    encoded.set(slot, 1u8);
                    proof {
                        assert(hits(grid, at, slot as int));
                    }
                }
                proof {
                    let next = one_hot(grid, at + 1);
                    assert forall|slot: int| 0 <= slot < next.len() implies encoded@[slot]
                        == next[slot] by {
                        if exists|a: int| 0 <= a < at + 1 && #[trigger] hits(grid, a, slot) {
                            let a = choose|a: int| 0 <= a < at + 1 && #[trigger] hits(grid, a, slot);
                            if a < at {
                                assert(hits(grid, a, slot));
                            }
                        }
                        if exists|a: int| 0 <= a < at && #[trigger] hits(grid, a, slot) {
                            let a = choose|a: int| 0 <= a < at && #[trigger] hits(grid, a, slot);
                            assert(hits(grid, a, slot));
                        }
                    }
                    assert(encoded@ =~= next);
                }
                j = j + 1;
            }
            i = i + 1;
        }
        encoded
    }

    /// The tiles on the board, each under its identity, with row, column,
    /// face value and the two marks.
    pub fn tiles(&self) -> (listing: BTreeMap<u32, Shown>)
        requires
            self.displayable(),
        ensures
            listing@ == listed(self.board, 16),
    {
        broadcast use group_btree_axioms, group_laws_cmp;

        let mut listing: BTreeMap<u32, Shown> = BTreeMap::new();
        let mut i: usize = 0;
        while i < SIZE
            invariant
                i <= SIZE,
                self.displayable(),
                listing@ == listed(self.board, 4 * i),
            decreases SIZE - i,
        {
            let mut j: usize = 0;
            while j < SIZE
                invariant
                    i < SIZE,
                    j <= SIZE,
                    self.displayable(),
                    listing@ == listed(self.board, 4 * i + j),
                decreases SIZE - j,
            {
                proof {
                    assert((4 * i + j) / 4 == i && (4 * i + j) % 4 == j);
                }
                let tile = self.board[i][j];
                if tile.value > 0 {
                    listing.insert(
                        tile.idx,
                        (i, j, power_of_two(tile.value), tile.new, tile.changed),
                    );
                }
                j = j + 1;
            }
            i = i + 1;
        }
        listing
    }

    /// The empty cells of the board, row by row.
    pub fn empty_tiles(&self) -> (cells: Vec<(usize, usize)>)
        ensures
            cells@ == empty_cells(self@.board, 16),
    {
        let mut cells: Vec<(usize, usize)> = Vec::new();
        let mut i: usize = 0;
        while i < SIZE
            invariant
                i <= SIZE,
                cells@ == empty_cells(self@.board, 4 * i),
            decreases SIZE - i,
        {
            let mut j: usize = 0;
            while j < SIZE
                invariant
                    i < SIZE,
                    j <= SIZE,
                    cells@ == empty_cells(self@.board, 4 * i + j),
                decreases SIZE - j,
            {
                proof {
                    assert((4 * i + j) / 4 == i && (4 * i + j) % 4 == j);
                }
                if self.board[i][j].value == 0 {
                    cells.push((i, j));
                }
                j = j + 1;
            }
            i = i + 1;
        }
        cells
    }
}

} // verus!
