//! Pushing the tiles: one row, and the board in each of the four
//! directions.

use vstd::prelude::*;
use vstd::arithmetic::power2::{lemma2_to64, lemma_pow2_strictly_increases, pow2};
use vstd::bits::lemma_u32_shl_is_mul;
use crate::actions::Actions;
use crate::board::{
    gain_of_lines, lemma_gain_of_lines_bounded, lemma_same_lines, line_of, move_changes,
    move_gain, moved,
};
use crate::game::{pushed, row_view, Game, SIZE};
use crate::ids::{lemma_ids_pushed, unique_ids};
use crate::line::{
    blank, ends_fused, exponents, fused, gain, lemma_gain_of_leading_pair, lemma_occupied_from,
    line_changes, line_gain, merged, occupied, settled, slid,
};
use crate::sound::lemma_sound_pushed;
use crate::tile::{Tile, TileView};

verus! {

/// Two to the power `e`.
pub fn power_of_two(e: u32) -> (r: u32)
    requires
        e < 32,
    ensures
        r == pow2(e as nat),
{
    proof {
        lemma2_to64();
        if e < 31 {
            lemma_pow2_strictly_increases(e as nat, 31);
        }
        lemma_u32_shl_is_mul(1, e);
    }
    1u32 << e
}

/// If two to some power fits in 32 bits, the power is below 32.
pub proof fn lemma_small_power(e: nat)
    requires
        pow2(e) <= u32::MAX,
    ensures
        e < 32,
{
    lemma2_to64();
    if e > 32 {
        lemma_pow2_strictly_increases(32, e);
    }
}

/// Slides one row towards its first cell and returns the new row, the new
/// score and whether the exponents of the row changed.
fn slide_row(row: &[Tile; SIZE], score: u32) -> (out: ([Tile; SIZE], u32, bool))
    requires
        score + line_gain(row_view(*row)) <= u32::MAX,
    ensures
        row_view(out.0) == slid(row_view(*row)),
        out.1 == score + line_gain(row_view(*row)),
        out.2 == line_changes(row_view(*row)),
{
    let ghost line = row_view(*row);
    let ghost tiles = occupied(line);
    let ghost mut done: Seq<TileView> = Seq::empty();
    let ghost mut taken: int = 0;
    let ghost mut pending: TileView = blank(false);
    let ghost mut last_fused: bool = false;
    let mut new_row = [Tile::new(0, 0); SIZE];
    let mut pos: usize = 0;
    let mut total: u32 = score;
    let mut k: usize = 0;
    proof {
        assert(line.skip(0) =~= line);
        assert(tiles.skip(0) =~= tiles);
        assert(done + merged(tiles.skip(0)) =~= merged(tiles));
    }
    while k < SIZE
        invariant
            line == row_view(*row),
            tiles == occupied(line),
            k <= SIZE,
            pos < SIZE,
            pos <= k,
            new_row[pos as int].value != 0 ==> pos < k,
            0 <= taken <= tiles.len(),
            tiles.skip(taken) =~= (if new_row[pos as int].value != 0 {
                seq![pending]
            } else {
                Seq::empty()
            }) + occupied(line.skip(k as int)),
            merged(tiles) =~= done + merged(tiles.skip(taken)),
            done.len() == pos,
            forall|p: int| 0 <= p < pos ==> new_row[p]@ == done[p],
            score + gain(tiles) == total + gain(tiles.skip(taken)),
            score + gain(tiles) <= u32::MAX,
            ends_fused(tiles) == if tiles.skip(taken).len() == 0 {
                last_fused
            } else {
                ends_fused(tiles.skip(taken))
            },
            new_row[pos as int].value != 0 ==> new_row[pos as int]@ == settled(pending)
                && pending.value != 0,
            new_row[pos as int].value == 0 ==> new_row[pos as int]@ == blank(last_fused),
            forall|p: int| pos < p < SIZE ==> new_row[p]@ == blank(false),
        decreases SIZE - k,
    {
        let tile = row[k];
        proof {
            lemma_occupied_from(line, k as int);
            assert(line[k as int] == tile@);
        }
        if tile.value != 0 {
            let ghost rest = tiles.skip(taken);
            let ghost behind = occupied(line.skip(k + 1));
            if new_row[pos].value == tile.value {
                proof {
                    assert(rest =~= seq![pending, tile@] + behind);
                    assert(rest.skip(2) =~= behind);
                    assert(rest.skip(2) =~= tiles.skip(taken + 2));
                    lemma_gain_of_leading_pair(rest);
                    lemma_small_power(pending.value + 1);
                    assert(merged(rest) =~= seq![fused(pending)] + merged(rest.skip(2)));
                    assert(taken + 2 <= tiles.len()) by {
                        assert(rest.len() >= 2);
                    }
                }
                let mut cell = new_row[pos];
                cell.value = cell.value + 1;
                cell.changed = true;
                new_row[pos] = cell;
                total = total + power_of_two(cell.value);
                proof {
                    done = done.push(fused(pending));
                    taken = taken + 2;
                    last_fused = true;
                }
                pos = pos + 1;
                let mut next = new_row[pos];
                next.new = false;
                new_row[pos] = next;
                proof {
                    assert(merged(tiles) =~= done + merged(tiles.skip(taken)));
                }
            } else if new_row[pos].value == 0 {
                proof {
                    assert(rest =~= seq![tile@] + behind);
                    pending = tile@;
                    last_fused = false;
                }
                let mut cell = tile;
                cell.changed = false;
                cell.new = false;
                new_row[pos] = cell;
            } else {
                proof {
                    assert(rest =~= seq![pending, tile@] + behind);
                    assert(rest.skip(1) =~= seq![tile@] + behind);
                    assert(rest.skip(1) =~= tiles.skip(taken + 1));
                    assert(merged(rest) =~= seq![settled(pending)] + merged(rest.skip(1)));
                    done = done.push(settled(pending));
                    taken = taken + 1;
                    pending = tile@;
                    last_fused = false;
                }
                pos = pos + 1;
                let mut cell = tile;
                cell.changed = false;
                cell.new = false;
                new_row[pos] = cell;
                proof {
                    assert(merged(tiles) =~= done + merged(tiles.skip(taken)));
                }
            }
        }
        k = k + 1;
    }
    proof {
        assert(line.skip(SIZE as int) =~= Seq::<TileView>::empty());
        let rest = tiles.skip(taken);
        if new_row[pos as int].value != 0 {
            assert(rest =~= seq![pending]);
            assert(merged(rest) =~= seq![settled(pending)]) by {
                assert(rest.skip(1) =~= Seq::<TileView>::empty());
                assert(merged(rest.skip(1)) =~= Seq::<TileView>::empty());
                assert(rest[0] == pending);
            }
            assert(merged(tiles) =~= done.push(settled(pending)));
        } else {
            assert(rest =~= Seq::<TileView>::empty());
            assert(merged(tiles) =~= done);
        }
        assert(row_view(new_row) =~= slid(line));
    }
    let mut changed = false;
    let mut j: usize = 0;
    while j < SIZE
        invariant
            j <= SIZE,
            changed == exists|p: int| 0 <= p < j && new_row[p].value != row[p].value,
        decreases SIZE - j,
    {
        if new_row[j].value != row[j].value {
            changed = true;
        }
        j = j + 1;
    }
    proof {
        let before = exponents(line);
        let after = exponents(row_view(new_row));
        if changed {
            let p = choose|p: int| 0 <= p < SIZE && new_row[p].value != row[p].value;
            assert(after[p] != before[p]);
        } else {
            assert(after =~= before);
        }
    }
    (new_row, total, changed)
}

/// The row with its cells in opposite order.
fn reverse_row(row: &[Tile; SIZE]) -> (out: [Tile; SIZE])
    ensures
        forall|j: int| 0 <= j < SIZE ==> out[j] == row[SIZE - 1 - j],
{
    [row[3], row[2], row[1], row[0]]
}

impl Game {
    /// The new score of a move in direction `d` fits in 32 bits.
    pub open spec fn can_move(self, d: Actions) -> bool {
        self.score + move_gain(self@.board, d) <= u32::MAX
    }

    /// Pushes the tiles to the left. Returns whether any exponent on the
    /// board changed.
    pub fn move_left(&mut self) -> (changed: bool)
        requires
            old(self).can_move(Actions::Left),
        ensures
            final(self)@ == pushed(old(self)@, Actions::Left),
            changed == move_changes(old(self)@.board, Actions::Left),
            old(self).wf() ==> final(self).wf(),
            unique_ids(old(self)@) ==> unique_ids(final(self)@),
    {
        let ghost before = self@.board;
        proof {
            if self.wf() {
                lemma_sound_pushed(self@, Actions::Left);
            }
            if unique_ids(self@) {
                lemma_ids_pushed(self@, Actions::Left);
            }
        }
        let mut changed = false;
        let mut i: usize = 0;
        while i < SIZE
            invariant
                i <= SIZE,
                before == old(self)@.board,
                forall|r: int|
                    0 <= r < i ==> row_view(#[trigger] self.board[r]) == slid(
                        line_of(before, Actions::Left, r),
                    ),
                forall|r: int| i <= r < SIZE ==> self.board[r] == old(self).board[r],
                self.score == old(self).score + gain_of_lines(before, Actions::Left, i as int),
                old(self).score + move_gain(before, Actions::Left) <= u32::MAX,
                self.moves == old(self).moves,
                self.tiles == old(self).tiles,
                changed == exists|r: int|
                    0 <= r < i && #[trigger] line_changes(line_of(before, Actions::Left, r)),
            decreases SIZE - i,
        {
            proof {
                assert(line_of(before, Actions::Left, i as int) =~= row_view(self.board[i as int]));
                lemma_gain_of_lines_bounded(before, Actions::Left, i + 1);
            }
            let (new_row, score, row_changed) = slide_row(&self.board[i], self.score);
            self.board[i] = new_row;
            self.score = score;
            if row_changed {
                changed = true;
            }
            i = i + 1;
        }
        proof {
            let after = moved(before, Actions::Left);
            assert forall|r: int| 0 <= r < 4 implies #[trigger] self@.board[r] =~= after[r] by {
                assert(row_view(self.board[r]) == slid(line_of(before, Actions::Left, r)));
            }
            assert(self@.board =~= after);
        }
        changed
    }

    /// Pushes the tiles to the right. Returns whether any exponent on the
    /// board changed.
    pub fn move_right(&mut self) -> (changed: bool)
        requires
            old(self).can_move(Actions::Right),
        ensures
            final(self)@ == pushed(old(self)@, Actions::Right),
            changed == move_changes(old(self)@.board, Actions::Right),
            old(self).wf() ==> final(self).wf(),
            unique_ids(old(self)@) ==> unique_ids(final(self)@),
    {
        let ghost before = self@.board;
        proof {
            if self.wf() {
                lemma_sound_pushed(self@, Actions::Right);
            }
            if unique_ids(self@) {
                lemma_ids_pushed(self@, Actions::Right);
            }
        }
        self.reverse_rows();
        let ghost mirrored = self@.board;
        proof {
            assert forall|k: int| 0 <= k < 4 implies #[trigger] line_of(
                mirrored,
                Actions::Left,
                k,
            ) == line_of(before, Actions::Right, k) by {
                assert(line_of(mirrored, Actions::Left, k) =~= line_of(before, Actions::Right, k));
            }
            lemma_same_lines(mirrored, Actions::Left, before, Actions::Right);
        }
        let changed = self.move_left();
        let ghost slid_board = self@.board;
        self.reverse_rows();
        proof {
            let after = moved(before, Actions::Right);
            assert forall|r: int| 0 <= r < 4 implies #[trigger] self@.board[r] =~= after[r] by {
                assert(line_of(mirrored, Actions::Left, r) == line_of(before, Actions::Right, r));
                assert forall|c: int| 0 <= c < 4 implies self@.board[r][c] == after[r][c] by {
                    assert(self@.board[r][c] == slid_board[r][3 - c]);
                    assert(slid_board[r][3 - c] == slid(line_of(mirrored, Actions::Left, r))[3
                        - c]);
                }
            }
            assert(self@.board =~= after);
        }
        changed
    }

    /// Pushes the tiles up. Returns whether any exponent on the board
    /// changed.
    pub fn move_up(&mut self) -> (changed: bool)
        requires
            old(self).can_move(Actions::Up),
        ensures
            final(self)@ == pushed(old(self)@, Actions::Up),
            changed == move_changes(old(self)@.board, Actions::Up),
            old(self).wf() ==> final(self).wf(),
            unique_ids(old(self)@) ==> unique_ids(final(self)@),
    {
        let ghost before = self@.board;
        proof {
            if self.wf() {
                lemma_sound_pushed(self@, Actions::Up);
            }
            if unique_ids(self@) {
                lemma_ids_pushed(self@, Actions::Up);
            }
        }
        self.transpose();
        let ghost turned = self@.board;
        proof {
            assert forall|k: int| 0 <= k < 4 implies #[trigger] line_of(
                turned,
                Actions::Left,
                k,
            ) == line_of(before, Actions::Up, k) by {
                assert(line_of(turned, Actions::Left, k) =~= line_of(before, Actions::Up, k));
            }
            lemma_same_lines(turned, Actions::Left, before, Actions::Up);
        }
        let changed = self.move_left();
        let ghost slid_board = self@.board;
        self.transpose();
        proof {
            let after = moved(before, Actions::Up);
            assert forall|r: int| 0 <= r < 4 implies #[trigger] self@.board[r] =~= after[r] by {
                assert forall|c: int| 0 <= c < 4 implies self@.board[r][c] == after[r][c] by {
                    assert(line_of(turned, Actions::Left, c) == line_of(before, Actions::Up, c));
                    assert(self@.board[r][c] == slid_board[c][r]);
                    assert(slid_board[c][r] == slid(line_of(turned, Actions::Left, c))[r]);
                }
            }
            assert(self@.board =~= after);
        }
        changed
    }

    /// Pushes the tiles down. Returns whether any exponent on the board
    /// changed.
    pub fn move_down(&mut self) -> (changed: bool)
        requires
            old(self).can_move(Actions::Down),
        ensures
            final(self)@ == pushed(old(self)@, Actions::Down),
            changed == move_changes(old(self)@.board, Actions::Down),
            old(self).wf() ==> final(self).wf(),
            unique_ids(old(self)@) ==> unique_ids(final(self)@),
    {
        let ghost before = self@.board;
        proof {
            if self.wf() {
                lemma_sound_pushed(self@, Actions::Down);
            }
            if unique_ids(self@) {
                lemma_ids_pushed(self@, Actions::Down);
            }
        }
        self.transpose();
        let ghost turned = self@.board;
        proof {
            assert forall|k: int| 0 <= k < 4 implies #[trigger] line_of(
                turned,
                Actions::Right,
                k,
            ) == line_of(before, Actions::Down, k) by {
                assert(line_of(turned, Actions::Right, k) =~= line_of(before, Actions::Down, k));
            }
            lemma_same_lines(turned, Actions::Right, before, Actions::Down);
        }
        let changed = self.move_right();
        let ghost slid_board = self@.board;
        self.transpose();
        proof {
            let after = moved(before, Actions::Down);
            assert forall|r: int| 0 <= r < 4 implies #[trigger] self@.board[r] =~= after[r] by {
                assert forall|c: int| 0 <= c < 4 implies self@.board[r][c] == after[r][c] by {
                    assert(line_of(turned, Actions::Right, c) == line_of(before, Actions::Down, c));
                    assert(self@.board[r][c] == slid_board[c][r]);
                    assert(slid_board[c][r] == slid(line_of(turned, Actions::Right, c))[3 - r]);
                }
            }
            assert(self@.board =~= after);
        }
        changed
    }

    /// Mirrors the board left to right.
    fn reverse_rows(&mut self)
        ensures
            forall|i: int, j: int|
                0 <= i < SIZE && 0 <= j < SIZE ==> final(self).board[i][j] == old(
                    self,
                ).board[i][SIZE - 1 - j],
            final(self).score == old(self).score,
            final(self).moves == old(self).moves,
            final(self).tiles == old(self).tiles,
    {
        let mut i: usize = 0;
        while i < SIZE
            invariant
                i <= SIZE,
                forall|r: int, j: int|
                    0 <= r < i && 0 <= j < SIZE ==> self.board[r][j] == old(self).board[r][SIZE
                        - 1 - j],
                forall|r: int| i <= r < SIZE ==> self.board[r] == old(self).board[r],
                self.score == old(self).score,
                self.moves == old(self).moves,
                self.tiles == old(self).tiles,
            decreases SIZE - i,
        {
            let row = reverse_row(&self.board[i]);
            self.board[i] = row;
            i = i + 1;
        }
    }

    /// Swaps rows and columns.
    pub fn transpose(&mut self)
        ensures
            forall|i: int, j: int|
                0 <= i < SIZE && 0 <= j < SIZE ==> final(self).board[i][j] == old(
                    self,
                ).board[j][i],
            final(self).score == old(self).score,
            final(self).moves == old(self).moves,
            final(self).tiles == old(self).tiles,
    {
        let b = self.board;
        self.board = [
            [b[0][0], b[1][0], b[2][0], b[3][0]],
            [b[0][1], b[1][1], b[2][1], b[3][1]],
            [b[0][2], b[1][2], b[2][2], b[3][2]],
            [b[0][3], b[1][3], b[2][3], b[3][3]],
        ];
    }
}

} // verus!
