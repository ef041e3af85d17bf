//! One line of the board, read from the wall that the tiles travel towards.
//!
//! Everything here is specification: what sliding a line means, what it adds
//! to the score, and the facts about it that the rest of the crate builds on.

use vstd::prelude::*;
use vstd::arithmetic::power2::pow2;
use crate::tile::TileView;

verus! {

/// The tiles of a line in their order, with the empty cells left out.
pub open spec fn occupied(line: Seq<TileView>) -> Seq<TileView>
    decreases line.len(),
{
    if line.len() == 0 {
        Seq::empty()
    } else if line[0].value != 0 {
        seq![line[0]] + occupied(line.skip(1))
    } else {
        occupied(line.skip(1))
    }
}

/// A tile that has come to rest without merging.
pub open spec fn settled(t: TileView) -> TileView {
    TileView { idx: t.idx, value: t.value, new: false, changed: false }
}

/// The tile that two equal tiles merge into; it keeps the identity of the
/// tile nearer to the wall.
pub open spec fn fused(t: TileView) -> TileView {
    TileView { idx: t.idx, value: t.value + 1, new: false, changed: true }
}

/// An empty cell. A move leaves at most one empty cell per line that is not
/// marked new: the one right behind a closing merge.
pub open spec fn blank(touched: bool) -> TileView {
    TileView { idx: 0, value: 0, new: !touched, changed: false }
}

/// Pairs equal neighbours from the wall outwards; a tile takes part in at
/// most one merge.
pub open spec fn merged(tiles: Seq<TileView>) -> Seq<TileView>
    decreases tiles.len(),
{
    if tiles.len() == 0 {
        Seq::empty()
    } else if tiles.len() >= 2 && tiles[0].value == tiles[1].value {
        seq![fused(tiles[0])] + merged(tiles.skip(2))
    } else {
        seq![settled(tiles[0])] + merged(tiles.skip(1))
    }
}

/// The score that the merges of [`merged`] are worth: the face value of each
/// tile that a merge produces.
pub open spec fn gain(tiles: Seq<TileView>) -> nat
    decreases tiles.len(),
{
    if tiles.len() < 2 {
        0
    } else if tiles[0].value == tiles[1].value {
        pow2(tiles[0].value + 1) + gain(tiles.skip(2))
    } else {
        gain(tiles.skip(1))
    }
}

/// Whether the last tile of [`merged`] comes from a merge.
pub open spec fn ends_fused(tiles: Seq<TileView>) -> bool
    decreases tiles.len(),
{
    if tiles.len() < 2 {
        false
    } else if tiles[0].value == tiles[1].value {
        tiles.len() == 2 || ends_fused(tiles.skip(2))
    } else {
        ends_fused(tiles.skip(1))
    }
}

/// The line after a move: the merged tiles packed against the wall, empty
/// cells behind them.
pub open spec fn slid(line: Seq<TileView>) -> Seq<TileView> {
    let tiles = occupied(line);
    let packed = merged(tiles);
    Seq::new(
        line.len(),
        |p: int|
            if p < packed.len() {
                packed[p]
            } else {
                blank(p == packed.len() && ends_fused(tiles))
            },
    )
}

/// The score that a move adds on this line.
pub open spec fn line_gain(line: Seq<TileView>) -> nat {
    gain(occupied(line))
}

/// The exponents of a line, cell by cell.
pub open spec fn exponents(line: Seq<TileView>) -> Seq<nat> {
    Seq::new(line.len(), |p: int| line[p].value)
}

/// Whether a move alters the exponents of this line.
pub open spec fn line_changes(line: Seq<TileView>) -> bool {
    exponents(slid(line)) != exponents(line)
}

/// Reading the tiles of a line from cell `k` on: cell `k` first if it holds
/// a tile, then the tiles behind it.
pub proof fn lemma_occupied_from(line: Seq<TileView>, k: int)
    requires
        0 <= k < line.len(),
    ensures
        occupied(line.skip(k)) == if line[k].value != 0 {
            seq![line[k]] + occupied(line.skip(k + 1))
        } else {
            occupied(line.skip(k + 1))
        },
{
    assert(line.skip(k).skip(1) =~= line.skip(k + 1));
}

/// A merge is worth no more than the whole line gains.
pub proof fn lemma_gain_of_leading_pair(tiles: Seq<TileView>)
    requires
        tiles.len() >= 2,
        tiles[0].value == tiles[1].value,
    ensures
        pow2(tiles[0].value + 1) <= gain(tiles),
        gain(tiles) == pow2(tiles[0].value + 1) + gain(tiles.skip(2)),
{
}

} // verus!
