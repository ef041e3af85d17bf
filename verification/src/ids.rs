//! The identities of the tiles: no two tiles on a board share one, and play
//! keeps it so.

use vstd::prelude::*;
use vstd::arithmetic::power2::pow2;
use crate::actions::Actions;
use crate::board::{cell_at, is_grid, line_of, move_changes, moved, place_of};
use crate::game::{
    empty_game, has_empty_cell, pushed, spawned, spawned_at, stepped, Game, GameView,
};
use crate::show::listed;
use crate::line::{merged, occupied, slid};
use crate::tally::{lemma_merged, lemma_occupied, Measure};
use crate::tile::TileView;

verus! {

/// No two tiles of the line share an identity.
pub open spec fn distinct_tiles(line: Seq<TileView>) -> bool {
    forall|a: int, b: int|
        0 <= a < b < line.len() && (#[trigger] line[a]).value != 0 && (#[trigger] line[b]).value
            != 0 ==> line[a].idx != line[b].idx
}

/// Every tile of `out` has the identity of a tile of `src`.
pub open spec fn tiles_from(out: Seq<TileView>, src: Seq<TileView>) -> bool {
    forall|p: int|
        0 <= p < out.len() && (#[trigger] out[p]).value != 0 ==> has_tile(src, out[p].idx)
}

/// Some tile of the line has the identity `idx`.
pub open spec fn has_tile(line: Seq<TileView>, idx: nat) -> bool {
    exists|q: int| 0 <= q < line.len() && (#[trigger] line[q]).value != 0 && line[q].idx == idx
}

/// A tile of the rest of a line is a tile of the line.
proof fn lemma_has_tile_behind(line: Seq<TileView>, from: int, idx: nat)
    requires
        0 <= from <= line.len(),
        has_tile(line.skip(from), idx),
    ensures
        exists|q: int|
            from <= q < line.len() && (#[trigger] line[q]).value != 0 && line[q].idx == idx,
        has_tile(line, idx),
{
    let rest = line.skip(from);
    let q = choose|q: int| 0 <= q < rest.len() && (#[trigger] rest[q]).value != 0 && rest[q].idx == idx;
    assert(line[q + from] == rest[q]);
}

/// The tiles of a line have the identities of its occupied cells, and no two
/// of them share one if no two cells do.
pub proof fn lemma_occupied_ids(line: Seq<TileView>)
    ensures
        tiles_from(occupied(line), line),
        distinct_tiles(line) ==> distinct_tiles(occupied(line)),
    decreases line.len(),
{
    if line.len() > 0 {
        let rest = line.skip(1);
        let tiles = occupied(line);
        lemma_occupied_ids(rest);
        lemma_occupied(Measure::Count, rest);
        if distinct_tiles(line) {
            assert forall|a: int, b: int|
                0 <= a < b < rest.len() && (#[trigger] rest[a]).value != 0 && (
                #[trigger] rest[b]).value != 0 implies rest[a].idx != rest[b].idx by {
                assert(rest[a] == line[a + 1]);
                assert(rest[b] == line[b + 1]);
            }
        }
        if line[0].value != 0 {
            assert(tiles.skip(1) =~= occupied(rest));
            assert forall|p: int| 0 <= p < tiles.len() && (#[trigger] tiles[p]).value
                != 0 implies has_tile(line, tiles[p].idx) by {
                if p == 0 {
                    assert(line[0].idx == tiles[0].idx);
                } else {
                    assert(tiles[p] == occupied(rest)[p - 1]);
                    lemma_has_tile_behind(line, 1, tiles[p].idx);
                }
            }
            if distinct_tiles(line) {
                assert forall|a: int, b: int|
                    0 <= a < b < tiles.len() && (#[trigger] tiles[a]).value != 0 && (
                    #[trigger] tiles[b]).value != 0 implies tiles[a].idx != tiles[b].idx by {
                    assert(tiles[b] == occupied(rest)[b - 1]);
                    if a == 0 {
                        lemma_has_tile_behind(line, 1, tiles[b].idx);
                    } else {
                        assert(tiles[a] == occupied(rest)[a - 1]);
                    }
                }
            }
        } else {
            assert forall|p: int| 0 <= p < tiles.len() && (#[trigger] tiles[p]).value
                != 0 implies has_tile(line, tiles[p].idx) by {
                lemma_has_tile_behind(line, 1, tiles[p].idx);
            }
        }
    }
}

/// The merged tiles have identities of the tiles that went in, and no two of
/// them share one if no two of those did.
pub proof fn lemma_merged_ids(tiles: Seq<TileView>)
    requires
        forall|p: int| 0 <= p < tiles.len() ==> (#[trigger] tiles[p]).value != 0,
    ensures
        tiles_from(merged(tiles), tiles),
        distinct_tiles(tiles) ==> distinct_tiles(merged(tiles)),
    decreases tiles.len(),
{
    if tiles.len() > 0 {
        let from: int = if tiles.len() >= 2 && tiles[0].value == tiles[1].value {
            2
        } else {
            1
        };
        let rest = tiles.skip(from);
        let out = merged(tiles);
        assert forall|p: int| 0 <= p < rest.len() implies (#[trigger] rest[p]).value != 0 by {
            assert(rest[p] == tiles[p + from]);
        }
        lemma_merged_ids(rest);
        assert(out.skip(1) =~= merged(rest));
        assert(out[0].idx == tiles[0].idx);
        if distinct_tiles(tiles) {
            assert forall|a: int, b: int|
                0 <= a < b < rest.len() && (#[trigger] rest[a]).value != 0 && (
                #[trigger] rest[b]).value != 0 implies rest[a].idx != rest[b].idx by {
                assert(rest[a] == tiles[a + from]);
                assert(rest[b] == tiles[b + from]);
            }
        }
        assert forall|p: int| 0 <= p < out.len() && (#[trigger] out[p]).value != 0 implies has_tile(
            tiles,
            out[p].idx,
        ) by {
            if p > 0 {
                assert(out[p] == merged(rest)[p - 1]);
                lemma_has_tile_behind(tiles, from, out[p].idx);
            }
        }
        if distinct_tiles(tiles) {
            assert forall|a: int, b: int|
                0 <= a < b < out.len() && (#[trigger] out[a]).value != 0 && (
                #[trigger] out[b]).value != 0 implies out[a].idx != out[b].idx by {
                assert(out[b] == merged(rest)[b - 1]);
                if a == 0 {
                    lemma_has_tile_behind(tiles, from, out[b].idx);
                } else {
                    assert(out[a] == merged(rest)[a - 1]);
                }
            }
        }
    }
}

/// A move brings no identity into a line, and leaves no two tiles of it with
/// the same identity if there were none before.
pub proof fn lemma_slid_ids(line: Seq<TileView>)
    ensures
        tiles_from(slid(line), line),
        distinct_tiles(line) ==> distinct_tiles(slid(line)),
{
    let tiles = occupied(line);
    let packed = merged(tiles);
    let out = slid(line);
    lemma_occupied(Measure::Count, line);
    lemma_occupied_ids(line);
    lemma_merged(tiles);
    lemma_merged_ids(tiles);
    assert forall|p: int| 0 <= p < out.len() && (#[trigger] out[p]).value != 0 implies has_tile(
        line,
        out[p].idx,
    ) by {
        assert(out[p] == packed[p]);
        assert(has_tile(tiles, packed[p].idx));
        let r = choose|r: int|
            0 <= r < tiles.len() && (#[trigger] tiles[r]).value != 0 && tiles[r].idx
                == packed[p].idx;
        assert(has_tile(line, tiles[r].idx));
    }
    if distinct_tiles(line) {
        assert forall|a: int, b: int|
            0 <= a < b < out.len() && (#[trigger] out[a]).value != 0 && (#[trigger] out[b]).value
                != 0 implies out[a].idx != out[b].idx by {
            assert(out[a] == packed[a]);
            assert(out[b] == packed[b]);
        }
    }
}

/// No two tiles on the board share an identity, and none has an identity
/// beyond the count of tiles asked for.
pub open spec fn unique_ids(game: GameView) -> bool {
    &&& forall|i: int, j: int, r: int, c: int|
        0 <= i < 4 && 0 <= j < 4 && 0 <= r < 4 && 0 <= c < 4 && (i != r || j != c) && (
        #[trigger] game.board[i][j]).value != 0 && (#[trigger] game.board[r][c]).value != 0
            ==> game.board[i][j].idx != game.board[r][c].idx
    &&& forall|i: int, j: int|
        0 <= i < 4 && 0 <= j < 4 && (#[trigger] game.board[i][j]).value != 0
            ==> game.board[i][j].idx <= game.tiles
}

/// A move keeps the identities distinct.
pub proof fn lemma_ids_pushed(game: GameView, d: Actions)
    requires
        is_grid(game.board),
        unique_ids(game),
    ensures
        unique_ids(pushed(game, d)),
{
    let grid = game.board;
    let after = moved(grid, d);
    assert forall|k: int| 0 <= k < 4 implies distinct_tiles(#[trigger] line_of(grid, d, k)) by {
        let line = line_of(grid, d, k);
        assert forall|a: int, b: int|
            0 <= a < b < line.len() && (#[trigger] line[a]).value != 0 && (#[trigger] line[b]).value
                != 0 implies line[a].idx != line[b].idx by {
            let x = cell_at(d, k, a);
            let y = cell_at(d, k, b);
            assert(line[a] == grid[x.0][x.1]);
            assert(line[b] == grid[y.0][y.1]);
        }
    }
    assert forall|i: int, j: int|
        0 <= i < 4 && 0 <= j < 4 && (#[trigger] after[i][j]).value != 0 implies has_tile(
        line_of(grid, d, place_of(d, i, j).0),
        after[i][j].idx,
    ) by {
        let at = place_of(d, i, j);
        let line = line_of(grid, d, at.0);
        lemma_slid_ids(line);
        assert(slid(line)[at.1] == after[i][j]);
    }
    assert forall|i: int, j: int|
        0 <= i < 4 && 0 <= j < 4 && (#[trigger] after[i][j]).value != 0 implies after[i][j].idx
        <= game.tiles by {
        let at = place_of(d, i, j);
        let line = line_of(grid, d, at.0);
        let q = choose|q: int|
            0 <= q < line.len() && (#[trigger] line[q]).value != 0 && line[q].idx
                == after[i][j].idx;
        let from = cell_at(d, at.0, q);
        assert(line[q] == grid[from.0][from.1]);
    }
    assert forall|i: int, j: int, r: int, c: int|
        0 <= i < 4 && 0 <= j < 4 && 0 <= r < 4 && 0 <= c < 4 && (i != r || j != c) && (
        #[trigger] after[i][j]).value != 0 && (#[trigger] after[r][c]).value != 0 implies after[i][j].idx
        != after[r][c].idx by {
        let x = place_of(d, i, j);
        let y = place_of(d, r, c);
        if x.0 == y.0 {
            let line = line_of(grid, d, x.0);
            lemma_slid_ids(line);
            assert(distinct_tiles(line));
            assert(slid(line)[x.1] == after[i][j]);
            assert(slid(line)[y.1] == after[r][c]);
        } else {
            let one = line_of(grid, d, x.0);
            let other = line_of(grid, d, y.0);
            assert(has_tile(one, after[i][j].idx));
            assert(has_tile(other, after[r][c].idx));
            let q = choose|q: int|
                0 <= q < one.len() && (#[trigger] one[q]).value != 0 && one[q].idx
                    == after[i][j].idx;
            let s = choose|s: int|
                0 <= s < other.len() && (#[trigger] other[s]).value != 0 && other[s].idx
                    == after[r][c].idx;
            let a = cell_at(d, x.0, q);
            let b = cell_at(d, y.0, s);
            assert(one[q] == grid[a.0][a.1]);
            assert(other[s] == grid[b.0][b.1]);
            assert(a.0 != b.0 || a.1 != b.1);
        }
    }
}

/// A spawn keeps the identities distinct.
pub proof fn lemma_ids_spawned(before: GameView, after: GameView)
    requires
        is_grid(before.board),
        unique_ids(before),
        spawned(before, after),
    ensures
        unique_ids(after),
{
    if has_empty_cell(before.board) {
        let (i, j, value) = choose|i: int, j: int, value: nat|
            {
                &&& 0 <= i < 4 && 0 <= j < 4
                &&& before.board[i][j].value == 0
                &&& (value == 1 || value == 2)
                &&& after == #[trigger] spawned_at(before, i, j, value)
            };
        assert forall|r: int, c: int| 0 <= r < 4 && 0 <= c < 4 && (r != i || c != j) implies (
        #[trigger] after.board[r][c]) == before.board[r][c] by {}
        assert(after.board[i][j].idx == before.tiles + 1);
    }
}

/// A step keeps the identities distinct.
pub proof fn lemma_ids_stepped(before: GameView, d: Actions, after: GameView)
    requires
        is_grid(before.board),
        unique_ids(before),
        stepped(before, d, after),
    ensures
        unique_ids(after),
{
    lemma_ids_pushed(before, d);
    if move_changes(before.board, d) {
        let spawn = GameView { moves: before.moves, ..after };
        lemma_ids_spawned(pushed(before, d), spawn);
        assert(spawn.board == after.board);
    }
}

/// The tiles of a new game have distinct identities.
pub proof fn lemma_ids_new(first: GameView, game: GameView)
    requires
        spawned(empty_game(), first),
        spawned(first, game),
    ensures
        unique_ids(game),
{
    let start = empty_game();
    assert(unique_ids(start));
    lemma_ids_spawned(start, first);
    if has_empty_cell(start.board) {
        let (i, j, value) = choose|i: int, j: int, value: nat|
            {
                &&& 0 <= i < 4 && 0 <= j < 4
                &&& start.board[i][j].value == 0
                &&& (value == 1 || value == 2)
                &&& first == #[trigger] spawned_at(start, i, j, value)
            };
        assert(is_grid(first.board));
    }
    lemma_ids_spawned(first, game);
}

/// On a board without shared identities every tile is listed, under its
/// identity, with its own place, face value and marks.
pub proof fn lemma_every_tile_listed(game: Game, i: int, j: int)
    requires
        unique_ids(game@),
        0 <= i < 4,
        0 <= j < 4,
        game.board[i][j].value != 0,
    ensures
        listed(game.board, 16).contains_key(game.board[i][j].idx),
        listed(game.board, 16)[game.board[i][j].idx] == (
            i as usize,
            j as usize,
            pow2(game.board[i][j].value as nat) as u32,
            game.board[i][j].new,
            game.board[i][j].changed,
        ),
{
    lemma_listed_upto(game, i, j, 16);
}

/// The listing of the first `n` cells holds every tile among them.
proof fn lemma_listed_upto(game: Game, i: int, j: int, n: int)
    requires
        unique_ids(game@),
        0 <= i < 4,
        0 <= j < 4,
        game.board[i][j].value != 0,
        4 * i + j < n <= 16,
    ensures
        listed(game.board, n).contains_key(game.board[i][j].idx),
        listed(game.board, n)[game.board[i][j].idx] == (
            i as usize,
            j as usize,
            pow2(game.board[i][j].value as nat) as u32,
            game.board[i][j].new,
            game.board[i][j].changed,
        ),
    decreases n,
{
    let r = (n - 1) / 4;
    let c = (n - 1) % 4;
    if 4 * i + j == n - 1 {
        assert(r == i && c == j);
    } else {
        lemma_listed_upto(game, i, j, n - 1);
        assert(r != i || c != j);
        assert(game@.board[r][c].value != 0 ==> game@.board[r][c].idx != game@.board[i][j].idx);
    }
}

} // verus!
