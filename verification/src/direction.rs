//! The four directions of a push.

use vstd::prelude::*;
use vstd::std_specs::convert::TryFromSpecImpl;

verus! {

/// The direction of a push: up moves every tile toward row 0, down toward the
/// last row, left toward column 0 and right toward the last column.
#[derive(Clone, Copy, Debug)]
pub enum Direction {
    U,
    R,
    L,
    D,
}

/// The direction that a letter stands for, in either case; `None` for any
/// other character.
pub open spec fn direction_of(letter: char) -> Option<Direction> {
    if letter == 'U' || letter == 'u' {
        Some(Direction::U)
    } else if letter == 'R' || letter == 'r' {
        Some(Direction::R)
    } else if letter == 'L' || letter == 'l' {
        Some(Direction::L)
    } else if letter == 'D' || letter == 'd' {
        Some(Direction::D)
    } else {
        None
    }
}

impl TryFrom<char> for Direction {
    type Error = ();

    /// Reads a direction from its letter; any other character is rejected.
    fn try_from(value: char) -> (direction: Result<Direction, ()>) {
        match value {
            'U' | 'u' => Ok(Direction::U),
            'R' | 'r' => Ok(Direction::R),
            'L' | 'l' => Ok(Direction::L),
            'D' | 'd' => Ok(Direction::D),
            _ => Err(()),
        }
    }
}

impl TryFromSpecImpl<char> for Direction {
    open spec fn obeys_try_from_spec() -> bool {
        true
    }

    open spec fn try_from_spec(value: char) -> Result<Direction, ()> {
        match direction_of(value) {
            Some(direction) => Ok(direction),
            None => Err(()),
        }
    }
}

} // verus!
