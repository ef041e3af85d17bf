use vstd::prelude::*;

verus! {

/// Mathematical value of a [`Tile`]: the same four fields, with unbounded
/// naturals in place of machine integers.
pub struct TileView {
    pub idx: nat,
    pub value: nat,
    pub new: bool,
    pub changed: bool,
}

/// One cell of the board.
///
/// `value` is the exponent of two that the cell shows; zero marks an empty
/// cell. `idx` identifies a tile for as long as it lives on the board. `new`
/// is set on a tile that has just been spawned and `changed` on a tile that
/// has just been produced by a merge; both are meant for display only.
#[derive(Clone, Copy, PartialEq, Eq, Structural, Debug)]
pub struct Tile {
    pub idx: u32,
    pub value: u32,
    pub new: bool,
    pub changed: bool,
}

impl View for Tile {
    type V = TileView;

    open spec fn view(&self) -> TileView {
        TileView {
            idx: self.idx as nat,
            value: self.value as nat,
            new: self.new,
            changed: self.changed,
        }
    }
}

impl Tile {
    /// A freshly spawned tile: marked new, not marked as merged.
    pub fn new(idx: u32, value: u32) -> (tile: Tile)
        ensures
            tile == (Tile { idx, value, new: true, changed: false }),
    {
        Tile { idx, value, new: true, changed: false }
    }
}

} // verus!
