//! The game: its state, how a game starts, and what a step does to it.

use rand::rngs::StdRng;
use vstd::prelude::*;
use vstd::arithmetic::power2::{lemma2_to64, lemma_pow2_strictly_increases};
pub use crate::actions::Actions;
use crate::actions::all_actions;
use crate::board::{is_over, legal_among, legal_moves, move_changes, move_gain, moved, stuck_at};
use crate::ids::{lemma_ids_new, lemma_ids_spawned, lemma_ids_stepped, unique_ids};
use crate::laws::lemma_over_iff_no_legal_move;
use crate::line::blank;
use crate::random::{below, choose_cell};
pub use crate::show::{Shown, MAX_EXPONENT};
use crate::show::{flattened, lemma_empty_cells_are_empty, lemma_empty_cells_complete};
pub use crate::slide::power_of_two;
use crate::sound::{
    all_cells, lemma_sound_can_move, lemma_sound_has_tile, lemma_sound_new, lemma_sound_spawned,
    lemma_sound_stepped, lemma_sum_of_all_cells, lemma_worth_bounded, sound, FACE_LIMIT,
    SCORE_LIMIT,
};
use crate::tally::{lemma_line_sum_joined, lemma_line_sum_of_one, line_sum, Measure};
pub use crate::tile::Tile;
use crate::tile::TileView;

verus! {

/// Side length of the board.
pub const SIZE: usize = 4;

/// A game in progress: the board, the score, the number of moves made and the
/// number of tiles asked for so far (the source of tile identities).
#[derive(Clone, Copy, PartialEq)]
pub struct Game {
    pub board: [[Tile; SIZE]; SIZE],
    pub score: u32,
    pub moves: usize,
    pub tiles: u32,
}

/// Mathematical value of a [`Game`]: the board as rows of cells, the counters
/// as naturals.
#[verifier::ext_equal]
pub struct GameView {
    pub board: Seq<Seq<TileView>>,
    pub score: nat,
    pub moves: nat,
    pub tiles: nat,
}

/// A row of the board as a line of cells, left to right.
pub open spec fn row_view(row: [Tile; SIZE]) -> Seq<TileView> {
    Seq::new(SIZE as nat, |j: int| row[j]@)
}

/// The board as rows of cells, top to bottom.
pub open spec fn grid_view(board: [[Tile; SIZE]; SIZE]) -> Seq<Seq<TileView>> {
    Seq::new(SIZE as nat, |i: int| row_view(board[i]))
}

impl View for Game {
    type V = GameView;

    open spec fn view(&self) -> GameView {
        GameView {
            board: grid_view(self.board),
            score: self.score as nat,
            moves: self.moves as nat,
            tiles: self.tiles as nat,
        }
    }
}

/// The game after a move in direction `d`, before any tile is spawned.
pub open spec fn pushed(game: GameView, d: Actions) -> GameView {
    GameView {
        board: moved(game.board, d),
        score: game.score + move_gain(game.board, d),
        moves: game.moves,
        tiles: game.tiles,
    }
}

/// The game after a tile of exponent `value` has appeared at row `i`, column
/// `j`: the tile takes the next identity and is marked new.
pub open spec fn spawned_at(game: GameView, i: int, j: int, value: nat) -> GameView {
    GameView {
        board: game.board.update(
            i,
            game.board[i].update(
                j,
                TileView { idx: game.tiles + 1, value, new: true, changed: false },
            ),
        ),
        score: game.score,
        moves: game.moves,
        tiles: game.tiles + 1,
    }
}

/// Whether some cell of the board is empty.
pub open spec fn has_empty_cell(grid: Seq<Seq<TileView>>) -> bool {
    exists|i: int, j: int| 0 <= i < 4 && 0 <= j < 4 && (#[trigger] grid[i][j]).value == 0
}

/// What a spawn may do. With an empty cell on the board, one empty cell gets
/// a tile of exponent 1 or 2; on a full board nothing appears. Either way the
/// count of tiles asked for goes up by one.
pub open spec fn spawned(before: GameView, after: GameView) -> bool {
    if has_empty_cell(before.board) {
        exists|i: int, j: int, value: nat|
            {
                &&& 0 <= i < 4 && 0 <= j < 4
                &&& before.board[i][j].value == 0
                &&& (value == 1 || value == 2)
                &&& after == #[trigger] spawned_at(before, i, j, value)
            }
    } else {
        after == (GameView { tiles: before.tiles + 1, ..before })
    }
}

/// The game before its first tile: an empty board and all counters at zero.
pub open spec fn empty_game() -> GameView {
    GameView {
        board: Seq::new(4, |i: int| Seq::new(4, |j: int| blank(false))),
        score: 0,
        moves: 0,
        tiles: 0,
    }
}

/// What a step in direction `d` may do. If the move changes the board, a
/// tile is spawned on the moved board and the move is counted; if not, the
/// game is left as the move left it, with nothing spawned and nothing
/// counted.
pub open spec fn stepped(before: GameView, d: Actions, after: GameView) -> bool {
    if move_changes(before.board, d) {
        &&& after.moves == before.moves + 1
        &&& spawned(pushed(before, d), GameView { moves: before.moves, ..after })
    } else {
        after == pushed(before, d)
    }
}

impl Game {
    /// The game is one that play can reach: see [`sound`].
    pub open spec fn wf(self) -> bool {
        sound(self@)
    }

    /// A game in play meets every demand that the rules make of the
    /// machine's number types.
    pub proof fn lemma_wf_fits(self)
        requires
            self.wf(),
        ensures
            self.can_move_any(),
            self.displayable(),
            self.score <= SCORE_LIMIT,
            2 * self.tiles < FACE_LIMIT,
            self.moves <= self.tiles,
    {
        assert forall|d: Actions| #[trigger] self.can_move(d) by {
            lemma_sound_can_move(self@, d);
        }
        lemma_sound_can_move(self@, Actions::Left);
        lemma_worth_bounded(self@.board);
        assert forall|i: int, j: int| 0 <= i < 4 && 0 <= j < 4 implies (
        #[trigger] self.board[i][j]).value < 32 by {
            assert(self@.board[i][j].value < 18);
        }
    }

    /// Checks whether the game is one that play can reach.
    pub fn is_wf(&self) -> (ok: bool)
        ensures
            ok == self.wf(),
    {
        let ghost grid = self@.board;
        let ghost cells = all_cells(grid);
        let mut face: u64 = 0;
        let mut worth: u64 = 0;
        let mut i: usize = 0;
        proof {
            lemma2_to64();
            assert(cells.take(0) =~= Seq::<TileView>::empty());
        }
        while i < SIZE
            invariant
                i <= SIZE,
                grid == self@.board,
                cells == all_cells(grid),
                face == line_sum(Measure::Face, cells.take(4 * i)),
                worth == line_sum(Measure::Worth, cells.take(4 * i)),
                face <= 4 * i * 131072,
                worth <= 4 * i * 16 * 131072,
            decreases SIZE - i,
        {
            let mut j: usize = 0;
            while j < SIZE
                invariant
                    i < SIZE,
                    j <= SIZE,
                    grid == self@.board,
                    cells == all_cells(grid),
                    face == line_sum(Measure::Face, cells.take(4 * i + j)),
                    worth == line_sum(Measure::Worth, cells.take(4 * i + j)),
                    face <= (4 * i + j) * 131072,
                    worth <= (4 * i + j) * 16 * 131072,
                decreases SIZE - j,
            {
                let e = self.board[i][j].value;
                let ghost at = 4 * i + j;
                proof {
                    assert(cells[at] == grid[i as int][j as int]);
                    assert(cells.take(at + 1) =~= cells.take(at) + seq![cells[at]]);
                    lemma_line_sum_joined(Measure::Face, cells.take(at), seq![cells[at]]);
                    lemma_line_sum_joined(Measure::Worth, cells.take(at), seq![cells[at]]);
                    lemma_line_sum_of_one(Measure::Face, cells[at]);
                    lemma_line_sum_of_one(Measure::Worth, cells[at]);
                }
                if e >= 18 {
                    proof {
                        if self.wf() {
                            lemma_worth_bounded(grid);
                            assert(grid[i as int][j as int].value < 18);
                        }
                    }
                    return false;
                }
                if e != 0 {
                    let shown = power_of_two(e) as u64;
                    proof {
                        lemma2_to64();
                        if e < 17 {
                            lemma_pow2_strictly_increases(e as nat, 17);
                        }
                        assert((e - 1) * shown <= 16 * 131072) by (nonlinear_arith)
                            requires
                                1 <= e < 18,
                                shown <= 131072,
                        ;
                    }
                    face = face + shown;
                    worth = worth + (e - 1) as u64 * shown;
                }
                j = j + 1;
            }
            i = i + 1;
        }
        proof {
            assert(cells.take(16) =~= cells);
            lemma_sum_of_all_cells(Measure::Face, grid);
            lemma_sum_of_all_cells(Measure::Worth, grid);
        }
        0 < face && face < FACE_LIMIT as u64 && self.score as u64 <= worth && 2 * (
        self.tiles as u64) <= face && self.moves as u64 <= self.tiles as u64
    }

    /// The new score fits in 32 bits whichever way the tiles are pushed.
    pub open spec fn can_move_any(self) -> bool {
        forall|d: Actions| #[trigger] self.can_move(d)
    }

    /// A new game: two tiles spawned on an empty board.
    pub fn new(rng: &mut StdRng) -> (game: Game)
        ensures
            exists|first: GameView| #[trigger]
                spawned(empty_game(), first) && spawned(first, game@),
            game.wf(),
            unique_ids(game@),
    {
        let mut game = Game { board: [[Tile::new(0, 0); SIZE]; SIZE], score: 0, moves: 0, tiles: 0 };
        proof {
            assert forall|r: int| 0 <= r < 4 implies #[trigger] game@.board[r] =~= empty_game().board[r] by {}
            assert(game@.board =~= empty_game().board);
        }
        game.add_tile(rng);
        let ghost first = game@;
        game.add_tile(rng);
        proof {
            assert(spawned(empty_game(), first) && spawned(first, game@));
            lemma_sound_new(first, game@);
            lemma_ids_new(first, game@);
        }
        game
    }

    /// Pushes the tiles in the given direction. Returns whether any exponent
    /// on the board changed.
    pub fn do_move(&mut self, action: Actions) -> (changed: bool)
        requires
            old(self).can_move(action),
        ensures
            final(self)@ == pushed(old(self)@, action),
            changed == move_changes(old(self)@.board, action),
            old(self).wf() ==> final(self).wf(),
            unique_ids(old(self)@) ==> unique_ids(final(self)@),
    {
        match action {
            Actions::Left => self.move_left(),
            Actions::Right => self.move_right(),
            Actions::Up => self.move_up(),
            Actions::Down => self.move_down(),
        }
    }

    /// Plays one move: pushes the tiles and, if that changed the board,
    /// spawns a tile and counts the move. Returns whether the board changed.
    pub fn step(&mut self, action: Actions, rng: &mut StdRng) -> (changed: bool)
        requires
            old(self).can_move(action),
            old(self).tiles < u32::MAX,
            old(self).moves < usize::MAX,
        ensures
            changed == move_changes(old(self)@.board, action),
            stepped(old(self)@, action, final(self)@),
            old(self).wf() ==> final(self).wf(),
            unique_ids(old(self)@) ==> unique_ids(final(self)@),
    {
        let changed = self.do_move(action);
        if changed {
            self.add_tile(rng);
            let ghost spawn = self@;
            self.moves = self.moves + 1;
            proof {
                assert(spawn == (GameView { moves: old(self)@.moves, ..self@ }));
            }
        }
        proof {
            if old(self).wf() {
                lemma_sound_stepped(old(self)@, action, self@);
            }
            if unique_ids(old(self)@) {
                lemma_ids_stepped(old(self)@, action, self@);
            }
        }
        changed
    }

    /// The directions whose move changes the board, in enumeration order.
    /// The game itself is left untouched.
    pub fn valid_moves(&self) -> (moves: Vec<Actions>)
        requires
            self.can_move_any(),
        ensures
            moves@ == legal_moves(self@.board),
    {
        let mut moves: Vec<Actions> = Vec::new();
        let actions = Actions::all();
        let mut n: usize = 0;
        while n < 4
            invariant
                n <= 4,
                actions@ == all_actions(),
                self.can_move_any(),
                moves@ == legal_among(self@.board, n as int),
            decreases 4 - n,
        {
            let action = actions[n];
            let mut current_game = *self;
            proof {
                assert(self.can_move(action));
            }
            let changed = current_game.do_move(action);
            if changed {
                moves.push(action);
            }
            n = n + 1;
        }
        moves
    }

    /// Whether the game is over: no cell is empty and no two neighbouring
    /// tiles are equal.
    pub fn is_game_over(&self) -> (over: bool)
        ensures
            over == is_over(self@.board),
            self.wf() ==> over == (legal_moves(self@.board).len() == 0),
    {
        let ghost grid = self@.board;
        proof {
            if self.wf() {
                lemma_sound_has_tile(self@);
                lemma_over_iff_no_legal_move(self@.board);
            }
        }
        let mut i: usize = 0;
        while i < SIZE
            invariant
                i <= SIZE,
                grid == self@.board,
                self.wf() ==> (is_over(grid) <==> legal_moves(grid).len() == 0),
                forall|r: int, c: int| 0 <= r < i && 0 <= c < 4 ==> #[trigger] stuck_at(grid, r, c),
            decreases SIZE - i,
        {
            let mut j: usize = 0;
            while j < SIZE
                invariant
                    i < SIZE,
                    j <= SIZE,
                    grid == self@.board,
                    self.wf() ==> (is_over(grid) <==> legal_moves(grid).len() == 0),
                    forall|r: int, c: int|
                        0 <= r < i && 0 <= c < 4 ==> #[trigger] stuck_at(grid, r, c),
                    forall|c: int| 0 <= c < j ==> #[trigger] stuck_at(grid, i as int, c),
                decreases SIZE - j,
            {
                if self.board[i][j].value == 0 {
                    assert(!stuck_at(grid, i as int, j as int));
                    return false;
                }
                if i < SIZE - 1 && self.board[i][j].value == self.board[i + 1][j].value {
                    assert(!stuck_at(grid, i as int, j as int));
                    return false;
                }
                if j < SIZE - 1 && self.board[i][j].value == self.board[i][j + 1].value {
                    assert(!stuck_at(grid, i as int, j as int));
                    return false;
                }
                j = j + 1;
            }
            i = i + 1;
        }
        true
    }

    /// Starts the game afresh, as [`Game::new`] does, and returns the
    /// exponents of the new board.
    pub fn reset(&mut self, rng: &mut StdRng) -> (flat: Vec<u32>)
        ensures
            exists|first: GameView| #[trigger]
                spawned(empty_game(), first) && spawned(first, final(self)@),
            final(self).wf(),
            unique_ids(final(self)@),
            flat@ == flattened(final(self)@.board, 16),
    {
        let game = Game::new(rng);
        *self = game;
        self.flatten()
    }

    /// Puts a new tile at row `i`, column `j`: exponent 2 if `roll` is zero,
    /// exponent 1 otherwise.
    pub fn spawn_at(&mut self, i: usize, j: usize, roll: usize)
        requires
            i < SIZE,
            j < SIZE,
            old(self).tiles < u32::MAX,
        ensures
            final(self)@ == spawned_at(
                old(self)@,
                i as int,
                j as int,
                if roll == 0 {
                    2
                } else {
                    1
                },
            ),
    {
        self.tiles = self.tiles + 1;
        let value: u32 = if roll == 0 {
            2
        } else {
            1
        };
        self.board[i][j] = Tile::new(self.tiles, value);
        proof {
            let after = spawned_at(
                old(self)@,
                i as int,
                j as int,
                if roll == 0 {
                    2
                } else {
                    1
                },
            );
            assert forall|r: int| 0 <= r < 4 implies #[trigger] self@.board[r] =~= after.board[r] by {}
            assert(self@.board =~= after.board);
        }
    }

    /// Asks for a new tile: an empty cell chosen at random gets exponent 1
    /// nine times out of ten and exponent 2 otherwise. On a full board no
    /// tile appears, and the request is counted all the same.
    pub fn add_tile(&mut self, rng: &mut StdRng)
        requires
            old(self).tiles < u32::MAX,
        ensures
            spawned(old(self)@, final(self)@),
            old(self).wf() && has_empty_cell(old(self)@.board) ==> final(self).wf(),
            unique_ids(old(self)@) ==> unique_ids(final(self)@),
    {
        let cells = self.empty_tiles();
        proof {
            lemma_empty_cells_are_empty(self@.board, 16);
            if has_empty_cell(self@.board) {
                let (i, j) = choose|i: int, j: int|
                    0 <= i < 4 && 0 <= j < 4 && (#[trigger] self@.board[i][j]).value == 0;
                lemma_empty_cells_complete(self@.board, 16, i, j);
            }
        }
        match choose_cell(&cells, rng) {
            Some((i, j)) => {
                let roll = below(rng, 10);
                self.spawn_at(i, j, roll);
                proof {
                    assert(old(self)@.board[i as int][j as int].value == 0);
                    assert(has_empty_cell(old(self)@.board));
                }
            },
            None => {
                self.tiles = self.tiles + 1;
                proof {
                    if has_empty_cell(self@.board) {
                        assert(cells@.len() > 0);
                    }
                    assert(self@.board =~= old(self)@.board);
                }
            },
        }
        proof {
            if old(self).wf() && has_empty_cell(old(self)@.board) {
                lemma_sound_spawned(old(self)@, self@);
            }
            if unique_ids(old(self)@) {
                lemma_ids_spawned(old(self)@, self@);
            }
        }
    }
}

} // verus!
