//! Sums over the cells of a line and of the board: how many tiles there are,
//! what they show, and what it took to build them.

use vstd::prelude::*;
use vstd::arithmetic::power2::{lemma_pow2_unfold, pow2};
use crate::actions::Actions;
use crate::board::{is_grid, line_of, move_gain, moved, lemma_move_gain_by_lines};
use crate::line::{fused, gain, line_gain, merged, occupied, settled, slid};
use crate::tile::TileView;

verus! {

/// The quantities that are summed over cells.
pub enum Measure {
    /// The face value of a tile: two to its exponent.
    Face,
    /// The score that goes into building a tile from tiles of face value
    /// two: `(e - 1) * 2^e` for exponent `e`.
    Worth,
    /// One for every tile.
    Count,
    /// One for every tile that is marked new.
    Fresh,
}

/// What a cell counts for under a measure; an empty cell counts for nothing.
pub open spec fn weigh(m: Measure, t: TileView) -> nat {
    if t.value == 0 {
        0
    } else {
        match m {
            Measure::Face => pow2(t.value),
            Measure::Worth => ((t.value - 1) * pow2(t.value)) as nat,
            Measure::Count => 1,
            Measure::Fresh => if t.new {
                1
            } else {
                0
            },
        }
    }
}

/// The sum of a measure over the cells of a line.
pub open spec fn line_sum(m: Measure, line: Seq<TileView>) -> nat
    decreases line.len(),
{
    if line.len() == 0 {
        0
    } else {
        weigh(m, line[0]) + line_sum(m, line.skip(1))
    }
}

/// The sum of a measure over the cells of the board.
pub open spec fn grid_sum(m: Measure, grid: Seq<Seq<TileView>>) -> nat {
    line_sum(m, grid[0]) + line_sum(m, grid[1]) + line_sum(m, grid[2]) + line_sum(m, grid[3])
}

/// The sum over a line of four cells, written out.
pub proof fn lemma_line_sum_of_four(m: Measure, line: Seq<TileView>)
    requires
        line.len() == 4,
    ensures
        line_sum(m, line) == weigh(m, line[0]) + weigh(m, line[1]) + weigh(m, line[2]) + weigh(
            m,
            line[3],
        ),
{
    reveal_with_fuel(line_sum, 5);
    assert(line.skip(1)[0] == line[1]);
    assert(line.skip(1).skip(1)[0] == line[2]);
    assert(line.skip(1).skip(1).skip(1)[0] == line[3]);
    assert(line.skip(1).skip(1).skip(1).skip(1).len() == 0);
}

/// The sum over a line of one cell.
pub proof fn lemma_line_sum_of_one(m: Measure, t: TileView)
    ensures
        line_sum(m, seq![t]) == weigh(m, t),
{
    reveal_with_fuel(line_sum, 2);
    assert(seq![t].skip(1).len() == 0);
    assert(seq![t][0] == t);
}

/// The sum over two lines laid end to end.
pub proof fn lemma_line_sum_joined(m: Measure, a: Seq<TileView>, b: Seq<TileView>)
    ensures
        line_sum(m, a + b) == line_sum(m, a) + line_sum(m, b),
    decreases a.len(),
{
    if a.len() == 0 {
        assert(a + b =~= b);
    } else {
        assert((a + b).skip(1) =~= a.skip(1) + b);
        lemma_line_sum_joined(m, a.skip(1), b);
    }
}

/// Empty cells add nothing to a sum.
pub proof fn lemma_line_sum_of_blanks(m: Measure, line: Seq<TileView>)
    requires
        forall|p: int| 0 <= p < line.len() ==> (#[trigger] line[p]).value == 0,
    ensures
        line_sum(m, line) == 0,
    decreases line.len(),
{
    if line.len() > 0 {
        lemma_line_sum_of_blanks(m, line.skip(1));
    }
}

/// The board summed line by line, for any direction of play, is the board
/// summed row by row.
pub proof fn lemma_grid_sum_by_lines(m: Measure, grid: Seq<Seq<TileView>>, d: Actions)
    requires
        is_grid(grid),
    ensures
        grid_sum(m, grid) == line_sum(m, line_of(grid, d, 0)) + line_sum(m, line_of(grid, d, 1))
            + line_sum(m, line_of(grid, d, 2)) + line_sum(m, line_of(grid, d, 3)),
{
    lemma_line_sum_of_four(m, grid[0]);
    lemma_line_sum_of_four(m, grid[1]);
    lemma_line_sum_of_four(m, grid[2]);
    lemma_line_sum_of_four(m, grid[3]);
    lemma_line_sum_of_four(m, line_of(grid, d, 0));
    lemma_line_sum_of_four(m, line_of(grid, d, 1));
    lemma_line_sum_of_four(m, line_of(grid, d, 2));
    lemma_line_sum_of_four(m, line_of(grid, d, 3));
}

/// The tiles of a line are no more than its cells, none of them is empty,
/// and they sum to what the line sums to.
pub proof fn lemma_occupied(m: Measure, line: Seq<TileView>)
    ensures
        occupied(line).len() <= line.len(),
        forall|p: int| 0 <= p < occupied(line).len() ==> (#[trigger] occupied(line)[p]).value != 0,
        line_sum(m, occupied(line)) == line_sum(m, line),
        occupied(line).len() == line_sum(Measure::Count, line),
    decreases line.len(),
{
    if line.len() > 0 {
        lemma_occupied(m, line.skip(1));
        let rest = occupied(line.skip(1));
        if line[0].value != 0 {
            assert(occupied(line).skip(1) =~= rest);
        }
    }
}

/// Merging keeps the face values, adds the gain to the worth, and leaves no
/// more tiles than there were.
pub proof fn lemma_merged(tiles: Seq<TileView>)
    requires
        forall|p: int| 0 <= p < tiles.len() ==> (#[trigger] tiles[p]).value != 0,
    ensures
        merged(tiles).len() <= tiles.len(),
        forall|p: int| 0 <= p < merged(tiles).len() ==> (#[trigger] merged(tiles)[p]).value != 0,
        line_sum(Measure::Face, merged(tiles)) == line_sum(Measure::Face, tiles),
        line_sum(Measure::Worth, merged(tiles)) == line_sum(Measure::Worth, tiles) + gain(tiles),
    decreases tiles.len(),
{
    if tiles.len() == 0 {
    } else if tiles.len() >= 2 && tiles[0].value == tiles[1].value {
        let rest = tiles.skip(2);
        assert forall|p: int| 0 <= p < rest.len() implies (#[trigger] rest[p]).value != 0 by {
            assert(rest[p] == tiles[p + 2]);
        }
        lemma_merged(rest);
        let out = merged(tiles);
        assert(out.skip(1) =~= merged(rest));
        assert(tiles.skip(1).skip(1) =~= rest);
        assert(tiles.skip(1)[0] == tiles[1]);
        let e = tiles[0].value;
        lemma_pow2_unfold(e + 1);
        assert(out[0] == fused(tiles[0]));
        assert(line_sum(Measure::Face, tiles) == weigh(Measure::Face, tiles[0]) + weigh(
            Measure::Face,
            tiles[1],
        ) + line_sum(Measure::Face, rest)) by {
            assert(line_sum(Measure::Face, tiles.skip(1)) == weigh(Measure::Face, tiles[1])
                + line_sum(Measure::Face, rest));
        }
        assert(line_sum(Measure::Worth, tiles) == weigh(Measure::Worth, tiles[0]) + weigh(
            Measure::Worth,
            tiles[1],
        ) + line_sum(Measure::Worth, rest)) by {
            assert(line_sum(Measure::Worth, tiles.skip(1)) == weigh(Measure::Worth, tiles[1])
                + line_sum(Measure::Worth, rest));
        }
        assert(line_sum(Measure::Face, out) == weigh(Measure::Face, out[0]) + line_sum(
            Measure::Face,
            merged(rest),
        ));
        assert(line_sum(Measure::Worth, out) == weigh(Measure::Worth, out[0]) + line_sum(
            Measure::Worth,
            merged(rest),
        ));
        assert(weigh(Measure::Worth, fused(tiles[0])) == 2 * weigh(Measure::Worth, tiles[0]) + pow2(
            e + 1,
        )) by (nonlinear_arith)
            requires
                e >= 1,
                pow2(e + 1) == 2 * pow2(e),
                weigh(Measure::Worth, fused(tiles[0])) == e * pow2(e + 1),
                weigh(Measure::Worth, tiles[0]) == (e - 1) * pow2(e),
        ;
    } else {
        let rest = tiles.skip(1);
        assert forall|p: int| 0 <= p < rest.len() implies (#[trigger] rest[p]).value != 0 by {
            assert(rest[p] == tiles[p + 1]);
        }
        lemma_merged(rest);
        let out = merged(tiles);
        assert(out.skip(1) =~= merged(rest));
        assert(out[0] == settled(tiles[0]));
        assert(line_sum(Measure::Face, out) == weigh(Measure::Face, out[0]) + line_sum(
            Measure::Face,
            merged(rest),
        ));
        assert(line_sum(Measure::Worth, out) == weigh(Measure::Worth, out[0]) + line_sum(
            Measure::Worth,
            merged(rest),
        ));
        assert(gain(tiles) == gain(rest)) by {
            if tiles.len() < 2 {
                assert(rest.len() < 2);
            }
        }
    }
}

/// No tile that comes out of merging is marked new.
pub proof fn lemma_merged_not_fresh(tiles: Seq<TileView>)
    ensures
        line_sum(Measure::Fresh, merged(tiles)) == 0,
    decreases tiles.len(),
{
    if tiles.len() == 0 {
    } else if tiles.len() >= 2 && tiles[0].value == tiles[1].value {
        lemma_merged_not_fresh(tiles.skip(2));
        assert(merged(tiles).skip(1) =~= merged(tiles.skip(2)));
    } else {
        lemma_merged_not_fresh(tiles.skip(1));
        assert(merged(tiles).skip(1) =~= merged(tiles.skip(1)));
    }
}

/// A move keeps the face values of a line and adds its gain to the worth;
/// the tiles of the slid line are the merged tiles, none of them marked new.
pub proof fn lemma_slid(line: Seq<TileView>)
    ensures
        slid(line).len() == line.len(),
        merged(occupied(line)).len() <= line.len(),
        line_sum(Measure::Face, slid(line)) == line_sum(Measure::Face, line),
        line_sum(Measure::Worth, slid(line)) == line_sum(Measure::Worth, line) + line_gain(line),
        line_sum(Measure::Count, slid(line)) == merged(occupied(line)).len(),
        line_sum(Measure::Fresh, slid(line)) == 0,
{
    let tiles = occupied(line);
    let packed = merged(tiles);
    lemma_occupied(Measure::Face, line);
    lemma_occupied(Measure::Worth, line);
    lemma_merged(tiles);
    let blanks = slid(line).skip(packed.len() as int);
    assert(slid(line) =~= packed + blanks);
    lemma_line_sum_joined(Measure::Face, packed, blanks);
    lemma_line_sum_joined(Measure::Worth, packed, blanks);
    lemma_line_sum_joined(Measure::Count, packed, blanks);
    lemma_line_sum_of_blanks(Measure::Face, blanks);
    lemma_line_sum_of_blanks(Measure::Worth, blanks);
    lemma_line_sum_of_blanks(Measure::Count, blanks);
    lemma_line_sum_joined(Measure::Fresh, packed, blanks);
    lemma_line_sum_of_blanks(Measure::Fresh, blanks);
    lemma_merged_not_fresh(tiles);
    lemma_line_sum_of_tiles(packed);
}

/// A line without empty cells counts as many tiles as it has cells.
pub proof fn lemma_line_sum_of_tiles(line: Seq<TileView>)
    requires
        forall|p: int| 0 <= p < line.len() ==> (#[trigger] line[p]).value != 0,
    ensures
        line_sum(Measure::Count, line) == line.len(),
    decreases line.len(),
{
    if line.len() > 0 {
        let rest = line.skip(1);
        assert forall|p: int| 0 <= p < rest.len() implies (#[trigger] rest[p]).value != 0 by {
            assert(rest[p] == line[p + 1]);
        }
        lemma_line_sum_of_tiles(rest);
    }
}

/// The lines of the moved board are the slid lines of the board.
pub proof fn lemma_lines_of_moved(grid: Seq<Seq<TileView>>, d: Actions, k: int)
    requires
        0 <= k < 4,
    ensures
        line_of(moved(grid, d), d, k) == slid(line_of(grid, d, k)),
        is_grid(moved(grid, d)),
{
    assert(line_of(moved(grid, d), d, k) =~= slid(line_of(grid, d, k)));
}

/// A move keeps the face values of the board and adds its gain to the worth.
pub proof fn lemma_moved_sums(grid: Seq<Seq<TileView>>, d: Actions)
    requires
        is_grid(grid),
    ensures
        is_grid(moved(grid, d)),
        grid_sum(Measure::Face, moved(grid, d)) == grid_sum(Measure::Face, grid),
        grid_sum(Measure::Worth, moved(grid, d)) == grid_sum(Measure::Worth, grid) + move_gain(
            grid,
            d,
        ),
        grid_sum(Measure::Count, moved(grid, d)) <= grid_sum(Measure::Count, grid),
        grid_sum(Measure::Fresh, moved(grid, d)) == 0,
{
    let after = moved(grid, d);
    lemma_lines_of_moved(grid, d, 0);
    lemma_lines_of_moved(grid, d, 1);
    lemma_lines_of_moved(grid, d, 2);
    lemma_lines_of_moved(grid, d, 3);
    lemma_grid_sum_by_lines(Measure::Face, grid, d);
    lemma_grid_sum_by_lines(Measure::Worth, grid, d);
    lemma_grid_sum_by_lines(Measure::Count, grid, d);
    lemma_grid_sum_by_lines(Measure::Face, after, d);
    lemma_grid_sum_by_lines(Measure::Worth, after, d);
    lemma_grid_sum_by_lines(Measure::Count, after, d);
    lemma_grid_sum_by_lines(Measure::Fresh, after, d);
    lemma_move_gain_by_lines(grid, d);
    lemma_slid_counts(line_of(grid, d, 0));
    lemma_slid_counts(line_of(grid, d, 1));
    lemma_slid_counts(line_of(grid, d, 2));
    lemma_slid_counts(line_of(grid, d, 3));
}

/// A move keeps the face values of a line, adds its gain to the worth and
/// leaves no more tiles than there were.
pub proof fn lemma_slid_counts(line: Seq<TileView>)
    ensures
        line_sum(Measure::Face, slid(line)) == line_sum(Measure::Face, line),
        line_sum(Measure::Worth, slid(line)) == line_sum(Measure::Worth, line) + line_gain(line),
        line_sum(Measure::Count, slid(line)) <= line_sum(Measure::Count, line),
        line_sum(Measure::Fresh, slid(line)) == 0,
{
    lemma_slid(line);
    lemma_occupied(Measure::Count, line);
    lemma_merged(occupied(line));
}

} // verus!
