//! What a move does to the whole board, stated line by line.
//!
//! A move in a direction treats the board as four lines. Each line is read
//! from the wall that the tiles travel towards: a move to the left reads the
//! rows from their left end, a move down reads the columns from the bottom.

use vstd::prelude::*;
use crate::actions::{all_actions, Actions};
use crate::line::{line_changes, line_gain, slid};
use crate::tile::TileView;

verus! {

/// A board has four rows of four cells.
pub open spec fn is_grid(grid: Seq<Seq<TileView>>) -> bool {
    &&& grid.len() == 4
    &&& forall|i: int| 0 <= i < 4 ==> (#[trigger] grid[i]).len() == 4
}

/// Row and column of cell `p` of line `k` for a move in direction `d`.
pub open spec fn cell_at(d: Actions, k: int, p: int) -> (int, int) {
    match d {
        Actions::Left => (k, p),
        Actions::Right => (k, 3 - p),
        Actions::Up => (p, k),
        Actions::Down => (3 - p, k),
    }
}

/// The line and the position in it of the cell at row `i`, column `j`, for a
/// move in direction `d`: the inverse of [`cell_at`].
pub open spec fn place_of(d: Actions, i: int, j: int) -> (int, int) {
    match d {
        Actions::Left => (i, j),
        Actions::Right => (i, 3 - j),
        Actions::Up => (j, i),
        Actions::Down => (j, 3 - i),
    }
}

/// Line `k` of the board for a move in direction `d`.
pub open spec fn line_of(grid: Seq<Seq<TileView>>, d: Actions, k: int) -> Seq<TileView> {
    Seq::new(4, |p: int| grid[cell_at(d, k, p).0][cell_at(d, k, p).1])
}

/// The board after a move in direction `d`: every line slid.
pub open spec fn moved(grid: Seq<Seq<TileView>>, d: Actions) -> Seq<Seq<TileView>> {
    Seq::new(
        4,
        |i: int|
            Seq::new(
                4,
                |j: int| slid(line_of(grid, d, place_of(d, i, j).0))[place_of(d, i, j).1],
            ),
    )
}

/// The score that the first `n` lines gain by a move in direction `d`.
pub open spec fn gain_of_lines(grid: Seq<Seq<TileView>>, d: Actions, n: int) -> nat
    decreases n,
{
    if n <= 0 {
        0
    } else {
        gain_of_lines(grid, d, n - 1) + line_gain(line_of(grid, d, n - 1))
    }
}

/// The score that a move in direction `d` adds.
pub open spec fn move_gain(grid: Seq<Seq<TileView>>, d: Actions) -> nat {
    gain_of_lines(grid, d, 4)
}

/// Whether a move in direction `d` alters the exponents of the board.
pub open spec fn move_changes(grid: Seq<Seq<TileView>>, d: Actions) -> bool {
    exists|k: int| 0 <= k < 4 && #[trigger] line_changes(line_of(grid, d, k))
}

/// The directions among the first `n` of the enumeration order whose move
/// changes the board, in that order.
pub open spec fn legal_among(grid: Seq<Seq<TileView>>, n: int) -> Seq<Actions>
    decreases n,
{
    if n <= 0 {
        Seq::empty()
    } else {
        let rest = legal_among(grid, n - 1);
        if move_changes(grid, all_actions()[n - 1]) {
            rest.push(all_actions()[n - 1])
        } else {
            rest
        }
    }
}

/// The legal moves of a board: the directions whose move changes it, in
/// enumeration order.
pub open spec fn legal_moves(grid: Seq<Seq<TileView>>) -> Seq<Actions> {
    legal_among(grid, 4)
}

/// The cell at row `i`, column `j` holds a tile that differs from the tile
/// below it and from the tile to its right.
pub open spec fn stuck_at(grid: Seq<Seq<TileView>>, i: int, j: int) -> bool {
    &&& grid[i][j].value != 0
    &&& i < 3 ==> grid[i][j].value != grid[i + 1][j].value
    &&& j < 3 ==> grid[i][j].value != grid[i][j + 1].value
}

/// The game is over: no cell is empty and no two neighbours are equal.
pub open spec fn is_over(grid: Seq<Seq<TileView>>) -> bool {
    forall|i: int, j: int| 0 <= i < 4 && 0 <= j < 4 ==> #[trigger] stuck_at(grid, i, j)
}

/// A line that a move in direction `d` changes, if the move changes the
/// board.
pub proof fn line_changes_somewhere_witness(grid: Seq<Seq<TileView>>, d: Actions) -> (k: int)
    requires
        move_changes(grid, d),
    ensures
        0 <= k < 4,
        line_changes(line_of(grid, d, k)),
{
    choose|k: int| 0 <= k < 4 && #[trigger] line_changes(line_of(grid, d, k))
}

/// The gain of the first lines is part of the gain of the move.
pub proof fn lemma_gain_of_lines_bounded(grid: Seq<Seq<TileView>>, d: Actions, n: int)
    requires
        0 <= n <= 4,
    ensures
        gain_of_lines(grid, d, n) <= move_gain(grid, d),
{
    reveal_with_fuel(gain_of_lines, 5);
}

/// The gain of a move is the sum of the gains of its four lines.
pub proof fn lemma_move_gain_by_lines(grid: Seq<Seq<TileView>>, d: Actions)
    ensures
        move_gain(grid, d) == line_gain(line_of(grid, d, 0)) + line_gain(line_of(grid, d, 1))
            + line_gain(line_of(grid, d, 2)) + line_gain(line_of(grid, d, 3)),
{
    reveal_with_fuel(gain_of_lines, 5);
}

/// Two moves that see the same four lines gain the same score and change the
/// board, or leave it, alike.
pub proof fn lemma_same_lines(
    grid: Seq<Seq<TileView>>,
    d: Actions,
    other: Seq<Seq<TileView>>,
    e: Actions,
)
    requires
        forall|k: int| 0 <= k < 4 ==> #[trigger] line_of(grid, d, k) == line_of(other, e, k),
    ensures
        move_gain(grid, d) == move_gain(other, e),
        move_changes(grid, d) == move_changes(other, e),
{
    lemma_move_gain_by_lines(grid, d);
    lemma_move_gain_by_lines(other, e);
    assert(line_of(grid, d, 0) == line_of(other, e, 0));
    assert(line_of(grid, d, 1) == line_of(other, e, 1));
    assert(line_of(grid, d, 2) == line_of(other, e, 2));
    assert(line_of(grid, d, 3) == line_of(other, e, 3));
    if move_changes(grid, d) {
        let k = choose|k: int| 0 <= k < 4 && #[trigger] line_changes(line_of(grid, d, k));
        assert(line_changes(line_of(other, e, k)));
    }
    if move_changes(other, e) {
        let k = choose|k: int| 0 <= k < 4 && #[trigger] line_changes(line_of(other, e, k));
        assert(line_changes(line_of(grid, d, k)));
    }
}

} // verus!
