//! What holds of every game: the laws that the rules of play obey.

use vstd::prelude::*;
use crate::actions::Actions;
use crate::board::{
    cell_at, is_grid, is_over, legal_among, legal_moves, line_changes_somewhere_witness, line_of,
    move_changes, move_gain, moved, place_of, stuck_at,
};
use crate::change::{
    at_rest, lemma_at_rest_stays, lemma_changes_iff, lemma_gap_moves, lemma_occupied_of_packed,
    lemma_slid_shape, no_equal_neighbours, packed,
};
use crate::game::{has_empty_cell, pushed, spawned, spawned_at, stepped, GameView};
use crate::line::{exponents, line_changes, occupied, slid};
use crate::ids::{lemma_ids_stepped, unique_ids};
use crate::sound::{lemma_change_leaves_room, lemma_grid_sum_update, lemma_sound_stepped, sound};
use crate::tally::{
    grid_sum, lemma_line_sum_of_four, lemma_lines_of_moved, lemma_moved_sums, Measure,
};
use crate::tile::TileView;

verus! {

/// A direction is a legal move exactly if its move changes the board, and a
/// board has no legal move exactly if no move changes it.
pub proof fn lemma_legal_moves(grid: Seq<Seq<TileView>>)
    ensures
        forall|d: Actions| #[trigger] legal_moves(grid).contains(d) <==> move_changes(grid, d),
        legal_moves(grid).len() == 0 <==> forall|d: Actions| !#[trigger] move_changes(grid, d),
        legal_moves(grid).len() <= 4,
{
    reveal_with_fuel(legal_among, 5);
    let legal = legal_moves(grid);
    let l = move_changes(grid, Actions::Left);
    let r = move_changes(grid, Actions::Right);
    let u = move_changes(grid, Actions::Up);
    let w = move_changes(grid, Actions::Down);
    let a0: Seq<Actions> = if l {
        seq![Actions::Left]
    } else {
        Seq::empty()
    };
    let a1 = if r {
        a0.push(Actions::Right)
    } else {
        a0
    };
    let a2 = if u {
        a1.push(Actions::Up)
    } else {
        a1
    };
    let a3 = if w {
        a2.push(Actions::Down)
    } else {
        a2
    };
    assert(legal_among(grid, 1) =~= a0);
    assert(legal_among(grid, 2) =~= a1);
    assert(legal_among(grid, 3) =~= a2);
    assert(legal =~= a3);
    assert forall|d: Actions| #[trigger] legal.contains(d) <==> move_changes(grid, d) by {
        if move_changes(grid, d) {
            match d {
                Actions::Left => {
                    assert(a3[0] == d);
                },
                Actions::Right => {
                    assert(a3[a0.len() as int] == d);
                },
                Actions::Up => {
                    assert(a3[a1.len() as int] == d);
                },
                Actions::Down => {
                    assert(a3[a2.len() as int] == d);
                },
            }
        }
    }
    if legal.len() == 0 {
        assert forall|d: Actions| !#[trigger] move_changes(grid, d) by {
            if move_changes(grid, d) {
                assert(legal.contains(d));
            }
        }
    }
}

/// On a finished board every line is at rest, whichever way it is read.
proof fn lemma_over_rests(grid: Seq<Seq<TileView>>, d: Actions, k: int)
    requires
        is_grid(grid),
        is_over(grid),
        0 <= k < 4,
    ensures
        at_rest(line_of(grid, d, k)),
{
    let line = line_of(grid, d, k);
    assert forall|p: int| 0 <= p < 4 implies (#[trigger] line[p]).value != 0 by {
        let at = cell_at(d, k, p);
        assert(stuck_at(grid, at.0, at.1));
    }
    assert forall|p: int| 0 <= p < line.len() - 1 && (#[trigger] line[p]).value != 0 implies line[p].value
        != line[p + 1].value by {
        match d {
            Actions::Left => {
                assert(stuck_at(grid, k, p));
            },
            Actions::Right => {
                assert(stuck_at(grid, k, 2 - p));
            },
            Actions::Up => {
                assert(stuck_at(grid, p, k));
            },
            Actions::Down => {
                assert(stuck_at(grid, 2 - p, k));
            },
        }
    }
}

/// Two equal tiles next to each other in a line make the move along that
/// line change it.
proof fn lemma_neighbours_merge(line: Seq<TileView>, p: int)
    requires
        0 <= p < line.len() - 1,
        line[p].value != 0,
        line[p].value == line[p + 1].value,
    ensures
        line_changes(line),
{
    lemma_changes_iff(line);
    if packed(line) {
        lemma_occupied_of_packed(line);
        let tiles = occupied(line);
        assert(p + 1 < tiles.len());
        assert(tiles[p] == line[p]);
        assert(tiles[p + 1] == line[p + 1]);
    }
}

/// With a tile and an empty cell on the board, some move changes it.
proof fn lemma_room_to_move(grid: Seq<Seq<TileView>>, i: int, j: int, r: int, c: int) -> (d:
    Actions)
    requires
        is_grid(grid),
        0 <= i < 4 && 0 <= j < 4,
        0 <= r < 4 && 0 <= c < 4,
        grid[i][j].value == 0,
        grid[r][c].value != 0,
    ensures
        move_changes(grid, d),
{
    if exists|x: int| 0 <= x < 4 && (#[trigger] grid[i][x]).value != 0 {
        let x = choose|x: int| 0 <= x < 4 && (#[trigger] grid[i][x]).value != 0;
        if x > j {
            lemma_gap_moves(line_of(grid, Actions::Left, i), j, x);
            Actions::Left
        } else {
            lemma_gap_moves(line_of(grid, Actions::Right, i), 3 - j, 3 - x);
            Actions::Right
        }
    } else {
        assert(grid[i][c].value == 0);
        if r > i {
            lemma_gap_moves(line_of(grid, Actions::Up, c), i, r);
            Actions::Up
        } else {
            lemma_gap_moves(line_of(grid, Actions::Down, c), 3 - i, 3 - r);
            Actions::Down
        }
    }
}

/// The game is over exactly when no move is legal, on every board that holds
/// a tile. (On the board without tiles no move is legal, yet the game is not
/// over.)
pub proof fn lemma_over_iff_no_legal_move(grid: Seq<Seq<TileView>>)
    requires
        is_grid(grid),
        grid_sum(Measure::Count, grid) > 0,
    ensures
        is_over(grid) <==> legal_moves(grid).len() == 0,
{
    lemma_legal_moves(grid);
    if is_over(grid) {
        assert forall|d: Actions| !#[trigger] move_changes(grid, d) by {
            if move_changes(grid, d) {
                let k = line_changes_somewhere_witness(grid, d);
                lemma_over_rests(grid, d, k);
                lemma_at_rest_stays(line_of(grid, d, k));
            }
        }
    } else {
        let (i, j) = choose|i: int, j: int| 0 <= i < 4 && 0 <= j < 4 && !#[trigger] stuck_at(grid, i, j);
        if grid[i][j].value == 0 {
            lemma_line_sum_of_four(Measure::Count, grid[0]);
            lemma_line_sum_of_four(Measure::Count, grid[1]);
            lemma_line_sum_of_four(Measure::Count, grid[2]);
            lemma_line_sum_of_four(Measure::Count, grid[3]);
            let (r, c) = choose|r: int, c: int|
                0 <= r < 4 && 0 <= c < 4 && (#[trigger] grid[r][c]).value != 0;
            let d = lemma_room_to_move(grid, i, j, r, c);
            assert(legal_moves(grid).contains(d));
        } else if i < 3 && grid[i][j].value == grid[i + 1][j].value {
            let line = line_of(grid, Actions::Up, j);
            assert(line[i] == grid[i][j]);
            assert(line[i + 1] == grid[i + 1][j]);
            lemma_neighbours_merge(line, i);
            assert(move_changes(grid, Actions::Up));
            assert(legal_moves(grid).contains(Actions::Up));
        } else {
            let line = line_of(grid, Actions::Left, i);
            assert(line[j] == grid[i][j]);
            assert(line[j + 1] == grid[i][j + 1]);
            lemma_neighbours_merge(line, j);
            assert(move_changes(grid, Actions::Left));
            assert(legal_moves(grid).contains(Actions::Left));
        }
    }
}

/// A move reports a change exactly if some cell of the board shows another
/// exponent after it than before.
pub proof fn lemma_change_is_seen(grid: Seq<Seq<TileView>>, d: Actions)
    requires
        is_grid(grid),
    ensures
        move_changes(grid, d) <==> exists|i: int, j: int|
            0 <= i < 4 && 0 <= j < 4 && (#[trigger] moved(grid, d)[i][j]).value != grid[i][j].value,
{
    let after = moved(grid, d);
    if move_changes(grid, d) {
        let k = line_changes_somewhere_witness(grid, d);
        let line = line_of(grid, d, k);
        lemma_lines_of_moved(grid, d, k);
        let then = exponents(slid(line));
        let now = exponents(line);
        if forall|p: int| 0 <= p < 4 ==> then[p] == now[p] {
            assert(then =~= now);
        }
        let p = choose|p: int| 0 <= p < 4 && then[p] != now[p];
        let at = cell_at(d, k, p);
        assert(line_of(after, d, k)[p] == after[at.0][at.1]);
        assert(line[p] == grid[at.0][at.1]);
        assert(after[at.0][at.1].value != grid[at.0][at.1].value);
    }
    if exists|i: int, j: int|
        0 <= i < 4 && 0 <= j < 4 && (#[trigger] after[i][j]).value != grid[i][j].value {
        let (i, j) = choose|i: int, j: int|
            0 <= i < 4 && 0 <= j < 4 && (#[trigger] after[i][j]).value != grid[i][j].value;
        let at = place_of(d, i, j);
        let line = line_of(grid, d, at.0);
        assert(slid(line)[at.1] == after[i][j]);
        assert(line[at.1] == grid[i][j]);
        assert(exponents(slid(line))[at.1] != exponents(line)[at.1]);
        assert(line_changes(line));
    }
}

/// Whether every line of the board, read for a move in direction `d`, is
/// free of equal neighbours.
pub open spec fn rests_along(grid: Seq<Seq<TileView>>, d: Actions) -> bool {
    forall|k: int| 0 <= k < 4 ==> no_equal_neighbours(#[trigger] line_of(grid, d, k))
}

/// The same move made a second time changes the board exactly if the first
/// move left two equal tiles next to each other along its direction.
pub proof fn lemma_second_move_changes_iff(grid: Seq<Seq<TileView>>, d: Actions)
    requires
        is_grid(grid),
    ensures
        move_changes(moved(grid, d), d) <==> !rests_along(moved(grid, d), d),
{
    let after = moved(grid, d);
    assert forall|k: int| 0 <= k < 4 implies packed(#[trigger] line_of(after, d, k)) by {
        lemma_lines_of_moved(grid, d, k);
        lemma_slid_shape(line_of(grid, d, k));
    }
    if move_changes(after, d) {
        let k = line_changes_somewhere_witness(after, d);
        if no_equal_neighbours(line_of(after, d, k)) {
            lemma_at_rest_stays(line_of(after, d, k));
        }
    }
    if !rests_along(after, d) {
        let k = choose|k: int| 0 <= k < 4 && !no_equal_neighbours(#[trigger] line_of(after, d, k));
        let line = line_of(after, d, k);
        let p = choose|p: int|
            0 <= p < line.len() - 1 && (#[trigger] line[p]).value != 0 && line[p].value == line[p
                + 1].value;
        lemma_neighbours_merge(line, p);
    }
}

/// A move reaches a fixed point: made a second time at once, it reports no
/// change, provided the first move left no two equal tiles next to each
/// other along its direction.
pub proof fn lemma_second_move_changes_nothing(grid: Seq<Seq<TileView>>, d: Actions)
    requires
        is_grid(grid),
        rests_along(moved(grid, d), d),
    ensures
        !move_changes(moved(grid, d), d),
{
    lemma_second_move_changes_iff(grid, d);
}

/// A step adds to the score exactly what its move gains: the face value of
/// every tile that a merge produces.
pub proof fn lemma_step_score(before: GameView, d: Actions, after: GameView)
    requires
        stepped(before, d, after),
    ensures
        after.score == before.score + move_gain(before.board, d),
        after.score >= before.score,
{
}

/// A new game has no score and no move behind it, and two tiles asked for.
pub proof fn lemma_new_game(game: GameView)
    requires
        exists|first: GameView| #[trigger]
            spawned(crate::game::empty_game(), first) && spawned(first, game),
    ensures
        game.score == 0,
        game.moves == 0,
        game.tiles == 2,
{
}

/// A run of play: each game comes from the one before it by a step in the
/// direction of the same position.
pub open spec fn played(games: Seq<GameView>, actions: Seq<Actions>) -> bool {
    &&& games.len() == actions.len() + 1
    &&& forall|n: int| 0 <= n < actions.len() ==> #[trigger] stepped(games[n], actions[n], games[n + 1])
}

/// The score never drops in the course of play.
pub proof fn lemma_score_never_drops(games: Seq<GameView>, actions: Seq<Actions>, a: int, b: int)
    requires
        played(games, actions),
        0 <= a <= b < games.len(),
    ensures
        games[a].score <= games[b].score,
    decreases b - a,
{
    if a < b {
        lemma_score_never_drops(games, actions, a, b - 1);
        let n = b - 1;
        assert(stepped(games[n], actions[n], games[n + 1]));
    }
}

/// Play keeps a game in play, and keeps the identities of its tiles
/// distinct: what holds of the first game of a run holds of every game of it.
pub proof fn lemma_play_stays_sound(games: Seq<GameView>, actions: Seq<Actions>, n: int)
    requires
        played(games, actions),
        0 <= n < games.len(),
    ensures
        sound(games[0]) ==> sound(games[n]),
        is_grid(games[0].board) && unique_ids(games[0]) ==> is_grid(games[n].board) && unique_ids(
            games[n],
        ),
    decreases n,
{
    if n > 0 {
        lemma_play_stays_sound(games, actions, n - 1);
        let m = n - 1;
        assert(stepped(games[m], actions[m], games[m + 1]));
        if sound(games[0]) {
            lemma_sound_stepped(games[m], actions[m], games[n]);
        }
        if is_grid(games[0].board) && unique_ids(games[0]) {
            lemma_ids_stepped(games[m], actions[m], games[n]);
            lemma_step_keeps_grid(games[m], actions[m], games[n]);
        }
    }
}

/// A step leaves a board of four by four cells.
pub proof fn lemma_step_keeps_grid(before: GameView, d: Actions, after: GameView)
    requires
        stepped(before, d, after),
    ensures
        is_grid(after.board),
{
    lemma_lines_of_moved(before.board, d, 0);
    if move_changes(before.board, d) {
        let mid = pushed(before, d);
        if has_empty_cell(mid.board) {
            let (i, j, value) = choose|i: int, j: int, value: nat|
                {
                    &&& 0 <= i < 4 && 0 <= j < 4
                    &&& mid.board[i][j].value == 0
                    &&& (value == 1 || value == 2)
                    &&& (GameView { moves: before.moves, ..after }) == #[trigger] spawned_at(
                        mid,
                        i,
                        j,
                        value,
                    )
                };
        }
    }
}

/// A spawn with room on the board adds one tile, marked new; a spawn on a
/// full board leaves the board as it is.
pub proof fn lemma_spawn_counts(before: GameView, after: GameView)
    requires
        is_grid(before.board),
        spawned(before, after),
    ensures
        has_empty_cell(before.board) ==> grid_sum(Measure::Count, after.board) == grid_sum(
            Measure::Count,
            before.board,
        ) + 1 && grid_sum(Measure::Fresh, after.board) == grid_sum(Measure::Fresh, before.board)
            + 1,
        !has_empty_cell(before.board) ==> after.board == before.board,
        after.tiles == before.tiles + 1,
{
    if has_empty_cell(before.board) {
        let (i, j, value) = choose|i: int, j: int, value: nat|
            {
                &&& 0 <= i < 4 && 0 <= j < 4
                &&& before.board[i][j].value == 0
                &&& (value == 1 || value == 2)
                &&& after == #[trigger] spawned_at(before, i, j, value)
            };
        let t = TileView { idx: before.tiles + 1, value, new: true, changed: false };
        lemma_grid_sum_update(Measure::Count, before.board, i, j, t);
        lemma_grid_sum_update(Measure::Fresh, before.board, i, j, t);
    }
}

/// After a step that reports a change exactly one tile on the board is
/// marked new, and the board holds one tile more than the move left on it.
pub proof fn lemma_step_spawns_one(before: GameView, d: Actions, after: GameView)
    requires
        is_grid(before.board),
        stepped(before, d, after),
        move_changes(before.board, d),
    ensures
        grid_sum(Measure::Fresh, after.board) == 1,
        grid_sum(Measure::Count, after.board) == grid_sum(
            Measure::Count,
            moved(before.board, d),
        ) + 1,
        after.moves == before.moves + 1,
        after.tiles == before.tiles + 1,
{
    lemma_moved_sums(before.board, d);
    lemma_change_leaves_room(before.board, d);
    lemma_spawn_counts(pushed(before, d), GameView { moves: before.moves, ..after });
}

} // verus!
