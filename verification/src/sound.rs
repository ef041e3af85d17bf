//! The games that play can reach, and why their numbers stay small.
//!
//! A board has sixteen cells and a spawn brings a face value of at most
//! four, so the face values on a board never add up to two to the eighteenth.
//! From that bound follow all the others: exponents stay below eighteen, and
//! the score and the counters stay far inside their machine types.

use vstd::prelude::*;
use vstd::arithmetic::power2::{
    lemma2_to64, lemma_pow2_adds, lemma_pow2_pos, lemma_pow2_strictly_increases,
    lemma_pow2_unfold, pow2,
};
use crate::actions::Actions;
use crate::board::{is_grid, line_changes_somewhere_witness, line_of, move_changes, move_gain, moved};
use crate::change::lemma_slid_shape;
use crate::game::{empty_game, has_empty_cell, pushed, spawned, spawned_at, stepped, GameView};
use crate::line::blank;
use crate::tally::{
    grid_sum, lemma_line_sum_joined, lemma_line_sum_of_four, lemma_lines_of_moved,
    lemma_moved_sums, line_sum, weigh, Measure,
};
use crate::tile::TileView;

verus! {

/// The face values on a board in play add up to less than this: two to the
/// eighteenth.
pub const FACE_LIMIT: u32 = 262144;

/// The score of a game in play stays at or below this.
pub const SCORE_LIMIT: u32 = 4194304;

/// A game that play can reach. The board holds at least one tile and its
/// face values add up to less than [`FACE_LIMIT`]; the score is no more than
/// what the tiles on the board are worth; every tile asked for has brought a
/// face value of at least two; and no more moves were made than tiles asked
/// for.
pub open spec fn sound(game: GameView) -> bool {
    &&& is_grid(game.board)
    &&& 0 < grid_sum(Measure::Face, game.board) < FACE_LIMIT
    &&& game.score <= grid_sum(Measure::Worth, game.board)
    &&& 2 * game.tiles <= grid_sum(Measure::Face, game.board)
    &&& game.moves <= game.tiles
}

/// Replacing one cell of a line changes a sum by the difference of the two
/// cells.
pub proof fn lemma_line_sum_update(m: Measure, line: Seq<TileView>, p: int, t: TileView)
    requires
        0 <= p < line.len(),
    ensures
        line_sum(m, line.update(p, t)) + weigh(m, line[p]) == line_sum(m, line) + weigh(m, t),
    decreases line.len(),
{
    let next = line.update(p, t);
    if p == 0 {
        assert(next.skip(1) =~= line.skip(1));
    } else {
        assert(next.skip(1) =~= line.skip(1).update(p - 1, t));
        lemma_line_sum_update(m, line.skip(1), p - 1, t);
    }
}

/// If every tile of a line has an exponent of at least `j`, the face values
/// of the line add up to a multiple of two to the `j`.
pub proof fn lemma_face_sum_multiple(line: Seq<TileView>, j: nat) -> (q: nat)
    requires
        forall|p: int| 0 <= p < line.len() ==> (#[trigger] line[p]).value == 0 || line[p].value >= j,
    ensures
        line_sum(Measure::Face, line) == q * pow2(j),
    decreases line.len(),
{
    if line.len() == 0 {
        assert(0 == 0 * pow2(j)) by (nonlinear_arith);
        0
    } else {
        let rest = line.skip(1);
        assert forall|p: int| 0 <= p < rest.len() implies (#[trigger] rest[p]).value == 0
            || rest[p].value >= j by {
            assert(rest[p] == line[p + 1]);
        }
        let r = lemma_face_sum_multiple(rest, j);
        let e = line[0].value;
        if e == 0 {
            r
        } else {
            let up = (e - j) as nat;
            lemma_pow2_adds(up, j);
            assert((r + pow2(up)) * pow2(j) == r * pow2(j) + pow2(up) * pow2(j))
                by (nonlinear_arith);
            r + pow2(up)
        }
    }
}

/// A line without tiles has no face value.
pub proof fn lemma_no_tiles_no_face(line: Seq<TileView>)
    requires
        line_sum(Measure::Count, line) == 0,
    ensures
        line_sum(Measure::Face, line) == 0,
    decreases line.len(),
{
    if line.len() > 0 {
        lemma_no_tiles_no_face(line.skip(1));
    }
}

/// Room to grow: `n` tiles whose face values add up to less than two to the
/// `k` add up to at most two to the `k` less two to the `k - n`.
pub proof fn lemma_room_to_grow(line: Seq<TileView>, k: nat)
    requires
        line_sum(Measure::Face, line) < pow2(k),
        line_sum(Measure::Count, line) <= k,
    ensures
        line_sum(Measure::Face, line) + pow2((k - line_sum(Measure::Count, line)) as nat) <= pow2(
            k,
        ),
    decreases line_sum(Measure::Count, line),
{
    let n = line_sum(Measure::Count, line);
    let total = line_sum(Measure::Face, line);
    let j = (k - n) as nat;
    if n == 0 {
        lemma_no_tiles_no_face(line);
    } else if forall|p: int|
        0 <= p < line.len() ==> (#[trigger] line[p]).value == 0 || line[p].value >= j {
        let q = lemma_face_sum_multiple(line, j);
        let top = pow2((k - j) as nat);
        let unit = pow2(j);
        lemma_pow2_adds((k - j) as nat, j);
        lemma_pow2_pos(j);
        assert(total + unit <= pow2(k)) by (nonlinear_arith)
            requires
                total == q * unit,
                pow2(k) == top * unit,
                total < pow2(k),
                unit > 0,
        ;
    } else {
        let p = choose|p: int|
            0 <= p < line.len() && !((#[trigger] line[p]).value == 0 || line[p].value >= j);
        let e = line[p].value;
        let fewer = line.update(p, blank(false));
        lemma_line_sum_update(Measure::Face, line, p, blank(false));
        lemma_line_sum_update(Measure::Count, line, p, blank(false));
        lemma_room_to_grow(fewer, k);
        lemma_pow2_unfold(j + 1);
        lemma_pow2_strictly_increases(e, j);
        assert((k - (n - 1)) as nat == j + 1);
    }
}

/// The cells of the board as one line, row after row.
pub open spec fn all_cells(grid: Seq<Seq<TileView>>) -> Seq<TileView> {
    grid[0] + grid[1] + grid[2] + grid[3]
}

/// The board summed cell by cell is the board summed row by row.
pub proof fn lemma_sum_of_all_cells(m: Measure, grid: Seq<Seq<TileView>>)
    ensures
        line_sum(m, all_cells(grid)) == grid_sum(m, grid),
{
    lemma_line_sum_joined(m, grid[0] + grid[1] + grid[2], grid[3]);
    lemma_line_sum_joined(m, grid[0] + grid[1], grid[2]);
    lemma_line_sum_joined(m, grid[0], grid[1]);
}

/// A board with an empty cell holds at most fifteen tiles, and its face
/// values leave room for a tile of face value eight.
pub proof fn lemma_room_for_spawn(grid: Seq<Seq<TileView>>)
    requires
        is_grid(grid),
        has_empty_cell(grid),
        grid_sum(Measure::Face, grid) < FACE_LIMIT,
    ensures
        grid_sum(Measure::Count, grid) <= 15,
        grid_sum(Measure::Face, grid) + 8 <= FACE_LIMIT,
{
    let (i, j) = choose|i: int, j: int|
        0 <= i < 4 && 0 <= j < 4 && (#[trigger] grid[i][j]).value == 0;
    lemma_line_sum_of_four(Measure::Count, grid[0]);
    lemma_line_sum_of_four(Measure::Count, grid[1]);
    lemma_line_sum_of_four(Measure::Count, grid[2]);
    lemma_line_sum_of_four(Measure::Count, grid[3]);
    let n = grid_sum(Measure::Count, grid);
    assert(n <= 15);
    lemma_sum_of_all_cells(Measure::Count, grid);
    lemma_sum_of_all_cells(Measure::Face, grid);
    lemma2_to64();
    lemma_room_to_grow(all_cells(grid), 18);
    if n < 15 {
        lemma_pow2_strictly_increases(3, (18 - n) as nat);
    }
}

/// On a board whose face values add up to less than [`FACE_LIMIT`], the
/// tiles of a line are worth at most sixteen times their face values.
pub proof fn lemma_line_worth_bounded(line: Seq<TileView>)
    requires
        line_sum(Measure::Face, line) < FACE_LIMIT,
    ensures
        line_sum(Measure::Worth, line) <= 16 * line_sum(Measure::Face, line),
        forall|p: int| 0 <= p < line.len() ==> (#[trigger] line[p]).value < 18,
    decreases line.len(),
{
    if line.len() > 0 {
        let rest = line.skip(1);
        lemma_line_worth_bounded(rest);
        let e = line[0].value;
        lemma2_to64();
        if e >= 18 {
            if e > 18 {
                lemma_pow2_strictly_increases(18, e);
            }
        }
        if e != 0 {
            assert((e - 1) * pow2(e) <= 16 * pow2(e)) by (nonlinear_arith)
                requires
                    1 <= e < 18,
            ;
        }
        assert forall|p: int| 0 <= p < line.len() implies (#[trigger] line[p]).value < 18 by {
            if p > 0 {
                assert(rest[p - 1] == line[p]);
            }
        }
    }
}

/// On a board whose face values add up to less than [`FACE_LIMIT`], every
/// exponent is below eighteen and the tiles are worth at most
/// [`SCORE_LIMIT`].
pub proof fn lemma_worth_bounded(grid: Seq<Seq<TileView>>)
    requires
        is_grid(grid),
        grid_sum(Measure::Face, grid) < FACE_LIMIT,
    ensures
        grid_sum(Measure::Worth, grid) <= SCORE_LIMIT,
        forall|i: int, j: int| 0 <= i < 4 && 0 <= j < 4 ==> (#[trigger] grid[i][j]).value < 18,
{
    lemma_line_worth_bounded(grid[0]);
    lemma_line_worth_bounded(grid[1]);
    lemma_line_worth_bounded(grid[2]);
    lemma_line_worth_bounded(grid[3]);
}

/// A game in play can be pushed any way: the new score stays within
/// [`SCORE_LIMIT`].
pub proof fn lemma_sound_can_move(game: GameView, d: Actions)
    requires
        sound(game),
    ensures
        game.score + move_gain(game.board, d) <= SCORE_LIMIT,
        game.tiles < FACE_LIMIT,
        game.moves < FACE_LIMIT,
{
    lemma_moved_sums(game.board, d);
    lemma_worth_bounded(moved(game.board, d));
}

/// A game in play has a tile on its board.
pub proof fn lemma_sound_has_tile(game: GameView)
    requires
        sound(game),
    ensures
        grid_sum(Measure::Count, game.board) > 0,
{
    if grid_sum(Measure::Count, game.board) == 0 {
        lemma_no_tiles_no_face(game.board[0]);
        lemma_no_tiles_no_face(game.board[1]);
        lemma_no_tiles_no_face(game.board[2]);
        lemma_no_tiles_no_face(game.board[3]);
    }
}

/// A move keeps a game in play.
pub proof fn lemma_sound_pushed(game: GameView, d: Actions)
    requires
        sound(game),
    ensures
        sound(pushed(game, d)),
{
    lemma_moved_sums(game.board, d);
}

/// Replacing one cell of the board changes a sum by the difference of the
/// two cells.
pub proof fn lemma_grid_sum_update(
    m: Measure,
    grid: Seq<Seq<TileView>>,
    i: int,
    j: int,
    t: TileView,
)
    requires
        is_grid(grid),
        0 <= i < 4,
        0 <= j < 4,
    ensures
        is_grid(grid.update(i, grid[i].update(j, t))),
        grid_sum(m, grid.update(i, grid[i].update(j, t))) + weigh(m, grid[i][j]) == grid_sum(
            m,
            grid,
        ) + weigh(m, t),
{
    lemma_line_sum_update(m, grid[i], j, t);
}

/// A tile that appears in an empty cell keeps a game in play.
pub proof fn lemma_sound_spawned_at(game: GameView, i: int, j: int, value: nat)
    requires
        is_grid(game.board),
        grid_sum(Measure::Face, game.board) < FACE_LIMIT,
        game.score <= grid_sum(Measure::Worth, game.board),
        2 * game.tiles <= grid_sum(Measure::Face, game.board),
        game.moves <= game.tiles,
        0 <= i < 4,
        0 <= j < 4,
        game.board[i][j].value == 0,
        value == 1 || value == 2,
    ensures
        sound(spawned_at(game, i, j, value)),
{
    let t = TileView { idx: game.tiles + 1, value, new: true, changed: false };
    lemma_grid_sum_update(Measure::Face, game.board, i, j, t);
    lemma_grid_sum_update(Measure::Worth, game.board, i, j, t);
    assert(has_empty_cell(game.board));
    lemma_room_for_spawn(game.board);
    lemma2_to64();
    assert(weigh(Measure::Worth, t) == if value == 1 {
        0nat
    } else {
        4nat
    }) by {
        assert((2 - 1) * 4 == 4);
    }
}

/// A spawn on a board with an empty cell keeps a game in play.
pub proof fn lemma_sound_spawned(before: GameView, after: GameView)
    requires
        sound(before),
        has_empty_cell(before.board),
        spawned(before, after),
    ensures
        sound(after),
{
    let (i, j, value) = choose|i: int, j: int, value: nat|
        {
            &&& 0 <= i < 4 && 0 <= j < 4
            &&& before.board[i][j].value == 0
            &&& (value == 1 || value == 2)
            &&& after == #[trigger] spawned_at(before, i, j, value)
        };
    lemma_sound_spawned_at(before, i, j, value);
}

/// A move that changes the board leaves an empty cell.
pub proof fn lemma_change_leaves_room(grid: Seq<Seq<TileView>>, d: Actions)
    requires
        is_grid(grid),
        move_changes(grid, d),
    ensures
        has_empty_cell(moved(grid, d)),
{
    let k = line_changes_somewhere_witness(grid, d);
    lemma_slid_shape(line_of(grid, d, k));
    lemma_lines_of_moved(grid, d, k);
    let after = moved(grid, d);
    let at = crate::board::cell_at(d, k, 3);
    assert(line_of(after, d, k)[3] == after[at.0][at.1]);
    assert(after[at.0][at.1].value == 0);
}

/// A step keeps a game in play.
pub proof fn lemma_sound_stepped(before: GameView, d: Actions, after: GameView)
    requires
        sound(before),
        stepped(before, d, after),
    ensures
        sound(after),
{
    lemma_sound_pushed(before, d);
    if move_changes(before.board, d) {
        lemma_change_leaves_room(before.board, d);
        lemma_sound_spawned(pushed(before, d), GameView { moves: before.moves, ..after });
    }
}

/// A new game is in play.
pub proof fn lemma_sound_new(first: GameView, game: GameView)
    requires
        spawned(empty_game(), first),
        spawned(first, game),
    ensures
        sound(game),
{
    let start = empty_game();
    lemma_line_sum_of_four(Measure::Face, start.board[0]);
    lemma_line_sum_of_four(Measure::Face, start.board[1]);
    lemma_line_sum_of_four(Measure::Face, start.board[2]);
    lemma_line_sum_of_four(Measure::Face, start.board[3]);
    lemma_line_sum_of_four(Measure::Worth, start.board[0]);
    lemma_line_sum_of_four(Measure::Worth, start.board[1]);
    lemma_line_sum_of_four(Measure::Worth, start.board[2]);
    lemma_line_sum_of_four(Measure::Worth, start.board[3]);
    assert(start.board[0][0].value == 0);
    assert(has_empty_cell(start.board));
    let (i, j, value) = choose|i: int, j: int, value: nat|
        {
            &&& 0 <= i < 4 && 0 <= j < 4
            &&& start.board[i][j].value == 0
            &&& (value == 1 || value == 2)
            &&& first == #[trigger] spawned_at(start, i, j, value)
        };
    lemma_sound_spawned_at(start, i, j, value);
    let (r, c) = if i == 0 && j == 0 {
        (1int, 1int)
    } else {
        (0int, 0int)
    };
    assert(first.board[r][c] == start.board[r][c]);
    assert(first.board[r][c].value == 0);
    assert(has_empty_cell(first.board));
    lemma_sound_spawned(first, game);
}

} // verus!
