//! The input relay: turns one sampling pass over the four movement keys
//! into the single Direction the observer forwards to the authority.

use vstd::prelude::*;

use crate::protocol::ClientMessage;
use crate::protocol::Direction;

verus! {

/// The direction one sampling pass settles on: a fixed, deterministic
/// priority where a later key in the up/down/left/right order wins when
/// several are held at once, and no key at all means `Idle`.
pub open spec fn chosen_direction(up: bool, down: bool, left: bool, right: bool) -> Direction {
    if right {
        Direction::Right
    } else if left {
        Direction::Left
    } else if down {
        Direction::Down
    } else if up {
        Direction::Up
    } else {
        Direction::Idle
    }
}

/// Sample the four movement keys into one Direction.
pub fn sample_direction(up: bool, down: bool, left: bool, right: bool) -> (d: Direction)
    ensures
        d == chosen_direction(up, down, left, right),
{
    let mut d = Direction::Idle;
    if up {
        d = Direction::Up;
    }
    if down {
        d = Direction::Down;
    }
    if left {
        d = Direction::Left;
    }
    if right {
        d = Direction::Right;
    }
    d
}

/// The message the relay owes the authority for one sampling pass; it is
/// sent every pass, since Direction is last-write-wins.
pub fn direction_message(up: bool, down: bool, left: bool, right: bool) -> (m: ClientMessage)
    ensures
        m == (ClientMessage::Direction { direction: chosen_direction(up, down, left, right) }),
{
    ClientMessage::Direction { direction: sample_direction(up, down, left, right) }
}

} // verus!
