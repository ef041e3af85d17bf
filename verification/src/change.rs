//! When a move changes a line and when it leaves it as it is.

use vstd::prelude::*;
use crate::line::{exponents, line_changes, merged, occupied, slid};
use crate::tally::{lemma_merged, lemma_occupied, lemma_slid, line_sum, Measure};
use crate::tile::TileView;

verus! {

/// No empty cell of the line lies before a tile.
pub open spec fn packed(line: Seq<TileView>) -> bool {
    forall|p: int, q: int|
        0 <= p < q < line.len() && (#[trigger] line[p]).value == 0 ==> (#[trigger] line[q]).value
            == 0
}

/// No tile of the line is followed at once by an equal tile.
pub open spec fn no_equal_neighbours(line: Seq<TileView>) -> bool {
    forall|p: int|
        0 <= p < line.len() - 1 && (#[trigger] line[p]).value != 0 ==> line[p].value != line[p
            + 1].value
}

/// A line that a move cannot change: packed and without equal neighbours.
pub open spec fn at_rest(line: Seq<TileView>) -> bool {
    packed(line) && no_equal_neighbours(line)
}

/// Tiles without equal neighbours pass through merging one for one.
pub proof fn lemma_merged_without_pairs(tiles: Seq<TileView>)
    requires
        forall|p: int| 0 <= p < tiles.len() - 1 ==> (#[trigger] tiles[p]).value != tiles[p + 1].value,
    ensures
        merged(tiles).len() == tiles.len(),
        forall|p: int| 0 <= p < tiles.len() ==> (#[trigger] merged(tiles)[p]).value == tiles[p].value,
    decreases tiles.len(),
{
    if tiles.len() > 0 {
        let rest = tiles.skip(1);
        assert(tiles.len() >= 2 ==> tiles[0].value != tiles[1].value);
        assert forall|p: int| 0 <= p < rest.len() - 1 implies (#[trigger] rest[p]).value != rest[p
            + 1].value by {
            assert(rest[p] == tiles[p + 1]);
            assert(rest[p + 1] == tiles[p + 2]);
        }
        lemma_merged_without_pairs(rest);
        let out = merged(tiles);
        assert(out.skip(1) =~= merged(rest));
        assert forall|p: int| 0 <= p < tiles.len() implies (#[trigger] out[p]).value
            == tiles[p].value by {
            if p > 0 {
                assert(out[p] == out.skip(1)[p - 1]);
                assert(rest[p - 1] == tiles[p]);
            }
        }
    }
}

/// Tiles with two equal neighbours among them come out of merging fewer.
pub proof fn lemma_merged_with_pair(tiles: Seq<TileView>, at: int)
    requires
        0 <= at < tiles.len() - 1,
        tiles[at].value == tiles[at + 1].value,
        forall|p: int| 0 <= p < tiles.len() ==> (#[trigger] tiles[p]).value != 0,
    ensures
        merged(tiles).len() < tiles.len(),
    decreases tiles.len(),
{
    lemma_merged(tiles);
    if tiles[0].value == tiles[1].value {
        let rest = tiles.skip(2);
        assert forall|p: int| 0 <= p < rest.len() implies (#[trigger] rest[p]).value != 0 by {
            assert(rest[p] == tiles[p + 2]);
        }
        lemma_merged(rest);
    } else {
        let rest = tiles.skip(1);
        assert forall|p: int| 0 <= p < rest.len() implies (#[trigger] rest[p]).value != 0 by {
            assert(rest[p] == tiles[p + 1]);
        }
        assert(rest[at - 1] == tiles[at]);
        assert(rest[at] == tiles[at + 1]);
        lemma_merged_with_pair(rest, at - 1);
    }
}

/// A line of empty cells holds no tiles.
pub proof fn lemma_occupied_of_blanks(line: Seq<TileView>)
    requires
        forall|p: int| 0 <= p < line.len() ==> (#[trigger] line[p]).value == 0,
    ensures
        occupied(line).len() == 0,
    decreases line.len(),
{
    if line.len() > 0 {
        let rest = line.skip(1);
        assert forall|p: int| 0 <= p < rest.len() implies (#[trigger] rest[p]).value == 0 by {
            assert(rest[p] == line[p + 1]);
        }
        lemma_occupied_of_blanks(rest);
    }
}

/// The tiles of a packed line are its leading cells; the cells behind them
/// are empty.
pub proof fn lemma_occupied_of_packed(line: Seq<TileView>)
    requires
        packed(line),
    ensures
        occupied(line).len() <= line.len(),
        forall|p: int| 0 <= p < occupied(line).len() ==> #[trigger] occupied(line)[p] == line[p],
        forall|p: int| occupied(line).len() <= p < line.len() ==> (#[trigger] line[p]).value == 0,
    decreases line.len(),
{
    if line.len() > 0 {
        let rest = line.skip(1);
        if line[0].value == 0 {
            assert forall|p: int| 0 <= p < line.len() implies (#[trigger] line[p]).value == 0 by {
                if p > 0 {
                    assert(line[0].value == 0);
                }
            }
            lemma_occupied_of_blanks(line);
        } else {
            assert forall|p: int, q: int|
                0 <= p < q < rest.len() && (#[trigger] rest[p]).value == 0 implies (
            #[trigger] rest[q]).value == 0 by {
                assert(rest[p] == line[p + 1]);
                assert(rest[q] == line[q + 1]);
            }
            lemma_occupied_of_packed(rest);
            let tiles = occupied(line);
            assert(tiles.skip(1) =~= occupied(rest));
            assert forall|p: int| 0 <= p < tiles.len() implies #[trigger] tiles[p] == line[p] by {
                if p > 0 {
                    assert(tiles[p] == tiles.skip(1)[p - 1]);
                    assert(rest[p - 1] == line[p]);
                }
            }
            assert forall|p: int| tiles.len() <= p < line.len() implies (#[trigger] line[p]).value
                == 0 by {
                assert(rest[p - 1] == line[p]);
            }
        }
    }
}

/// A line at rest is left as it is by a move.
pub proof fn lemma_at_rest_stays(line: Seq<TileView>)
    requires
        at_rest(line),
    ensures
        !line_changes(line),
        exponents(slid(line)) == exponents(line),
{
    let tiles = occupied(line);
    lemma_occupied_of_packed(line);
    lemma_occupied(Measure::Count, line);
    assert forall|p: int| 0 <= p < tiles.len() - 1 implies (#[trigger] tiles[p]).value != tiles[p
        + 1].value by {
        assert(tiles[p] == line[p]);
        assert(tiles[p + 1] == line[p + 1]);
        assert(tiles[p].value != 0);
    }
    lemma_merged_without_pairs(tiles);
    assert(exponents(slid(line)) =~= exponents(line));
}

/// A line with an empty cell before a tile is changed by a move.
pub proof fn lemma_gap_moves(line: Seq<TileView>, p: int, q: int)
    requires
        0 <= p < q < line.len(),
        line[p].value == 0,
        line[q].value != 0,
    ensures
        line_changes(line),
{
    let tiles = occupied(line);
    lemma_occupied(Measure::Count, line);
    lemma_merged(tiles);
    if !line_changes(line) {
        assert(exponents(slid(line))[p] == exponents(line)[p]);
        assert(exponents(slid(line))[q] == exponents(line)[q]);
    }
}

/// Lines with the same exponents hold equally many tiles.
pub proof fn lemma_count_by_exponents(a: Seq<TileView>, b: Seq<TileView>)
    requires
        exponents(a) == exponents(b),
    ensures
        line_sum(Measure::Count, a) == line_sum(Measure::Count, b),
    decreases a.len(),
{
    assert(a.len() == exponents(a).len());
    assert(b.len() == exponents(b).len());
    if a.len() > 0 {
        assert(a[0].value == exponents(a)[0]);
        assert(b[0].value == exponents(b)[0]);
        assert(exponents(a.skip(1)) =~= exponents(a).skip(1));
        assert(exponents(b.skip(1)) =~= exponents(b).skip(1));
        lemma_count_by_exponents(a.skip(1), b.skip(1));
        assert(line_sum(Measure::Count, a) == crate::tally::weigh(Measure::Count, a[0])
            + line_sum(Measure::Count, a.skip(1)));
        assert(line_sum(Measure::Count, b) == crate::tally::weigh(Measure::Count, b[0])
            + line_sum(Measure::Count, b.skip(1)));
    }
}

/// A line is changed by a move if two of its tiles are equal with nothing
/// but empty cells between them.
pub proof fn lemma_pair_merges(line: Seq<TileView>, at: int)
    requires
        0 <= at < occupied(line).len() - 1,
        occupied(line)[at].value == occupied(line)[at + 1].value,
    ensures
        line_changes(line),
{
    let tiles = occupied(line);
    lemma_occupied(Measure::Count, line);
    lemma_merged_with_pair(tiles, at);
    lemma_slid(line);
    if !line_changes(line) {
        lemma_count_by_exponents(slid(line), line);
    }
}

/// A line without empty cells is its own list of tiles.
pub proof fn lemma_occupied_of_full(line: Seq<TileView>)
    requires
        forall|p: int| 0 <= p < line.len() ==> (#[trigger] line[p]).value != 0,
    ensures
        occupied(line) == line,
{
    assert(packed(line));
    lemma_occupied_of_packed(line);
    lemma_occupied(Measure::Count, line);
    crate::tally::lemma_line_sum_of_tiles(line);
    assert(occupied(line) =~= line);
}

/// A line that holds as many tiles as it has cells has no empty cell.
pub proof fn lemma_full_by_count(line: Seq<TileView>)
    requires
        line_sum(Measure::Count, line) == line.len(),
    ensures
        forall|p: int| 0 <= p < line.len() ==> (#[trigger] line[p]).value != 0,
    decreases line.len(),
{
    if line.len() > 0 {
        let rest = line.skip(1);
        lemma_occupied(Measure::Count, rest);
        lemma_full_by_count(rest);
        assert forall|p: int| 0 <= p < line.len() implies (#[trigger] line[p]).value != 0 by {
            if p > 0 {
                assert(rest[p - 1] == line[p]);
            }
        }
    }
}

/// A slid line is packed, and a move that changes a line leaves its last
/// cell empty.
pub proof fn lemma_slid_shape(line: Seq<TileView>)
    ensures
        packed(slid(line)),
        line_changes(line) && line.len() > 0 ==> slid(line)[line.len() - 1].value == 0,
{
    let tiles = occupied(line);
    let out = merged(tiles);
    lemma_occupied(Measure::Count, line);
    lemma_merged(tiles);
    if line_changes(line) && line.len() > 0 && out.len() == line.len() {
        lemma_full_by_count(line);
        lemma_occupied_of_full(line);
        if exists|at: int| 0 <= at < tiles.len() - 1 && (#[trigger] tiles[at]).value == tiles[at + 1].value {
            let at = choose|at: int| 0 <= at < tiles.len() - 1 && (#[trigger] tiles[at]).value == tiles[at + 1].value;
            lemma_merged_with_pair(tiles, at);
        } else {
            assert(no_equal_neighbours(line));
            lemma_at_rest_stays(line);
        }
    }
}

/// A move changes a line exactly if the line is not at rest, read with its
/// empty cells left out: if an empty cell lies before a tile, or if two
/// successive tiles are equal.
pub proof fn lemma_changes_iff(line: Seq<TileView>)
    ensures
        line_changes(line) <==> !packed(line) || !no_equal_neighbours(occupied(line)),
{
    let tiles = occupied(line);
    lemma_occupied(Measure::Count, line);
    if !packed(line) {
        let (p, q) = choose|p: int, q: int|
            0 <= p < q < line.len() && (#[trigger] line[p]).value == 0 && (#[trigger] line[q]).value
                != 0;
        lemma_gap_moves(line, p, q);
    } else if !no_equal_neighbours(tiles) {
        let at = choose|at: int|
            0 <= at < tiles.len() - 1 && (#[trigger] tiles[at]).value != 0 && tiles[at].value
                == tiles[at + 1].value;
        lemma_pair_merges(line, at);
    } else {
        lemma_occupied_of_packed(line);
        assert forall|p: int|
            0 <= p < line.len() - 1 && (#[trigger] line[p]).value != 0 implies line[p].value
            != line[p + 1].value by {
            if p + 1 < tiles.len() {
                assert(tiles[p] == line[p]);
                assert(tiles[p + 1] == line[p + 1]);
            } else {
                assert(line[p + 1].value == 0);
            }
        }
        lemma_at_rest_stays(line);
    }
}

} // verus!
