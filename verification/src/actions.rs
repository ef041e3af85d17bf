//! The directions of play.

use vstd::prelude::*;

verus! {

/// The four directions in which the tiles can be pushed, in the order in
/// which they are always enumerated.
#[derive(Debug, Clone, Copy, PartialEq, Eq, Structural)]
pub enum Actions {
    Left,
    Right,
    Up,
    Down,
}

/// Every direction, in enumeration order.
pub open spec fn all_actions() -> Seq<Actions> {
    seq![Actions::Left, Actions::Right, Actions::Up, Actions::Down]
}

/// The direction at position `v` of the enumeration order, if there is one.
pub open spec fn direction_at(v: usize) -> Result<Actions, ()> {
    if v < 4 {
        Ok(all_actions()[v as int])
    } else {
        Err(())
    }
}

impl Actions {
    /// Position of the direction in the enumeration order.
    pub open spec fn index(self) -> int {
        match self {
            Actions::Left => 0,
            Actions::Right => 1,
            Actions::Up => 2,
            Actions::Down => 3,
        }
    }

    /// Every direction, in enumeration order.
    pub fn all() -> (list: [Actions; 4])
        ensures
            list@ == all_actions(),
    {
        let list = [Actions::Left, Actions::Right, Actions::Up, Actions::Down];
        assert(list@ =~= all_actions());
        list
    }
}

impl TryFrom<usize> for Actions {
    type Error = ();

    /// The direction at a position of the enumeration order, if there is
    /// one: see [`direction_at`].
    fn try_from(v: usize) -> (found: Result<Actions, ()>) {
        match v {
            0 => Ok(Actions::Left),
            1 => Ok(Actions::Right),
            2 => Ok(Actions::Up),
            3 => Ok(Actions::Down),
            _ => Err(()),
        }
    }
}

impl vstd::std_specs::convert::TryFromSpecImpl<usize> for Actions {
    open spec fn obeys_try_from_spec() -> bool {
        true
    }

    open spec fn try_from_spec(v: usize) -> Result<Actions, ()> {
        direction_at(v)
    }
}

} // verus!
