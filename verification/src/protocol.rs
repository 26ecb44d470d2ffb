//! Wire vocabulary exchanged between the authority and its observers.
//!
//! All coordinates are integer distance units; an outside presentation
//! layer may scale them however it likes. Every message refers to
//! entities by the authority-assigned `u64` identifier, which is never
//! reused while the authority process lives.

use vstd::prelude::*;

verus! {

/// The latched input intent of one controller: at most one axis at a
/// time, `Idle` when no key is held.
#[derive(Clone, Copy, Debug, PartialEq, Eq)]
pub enum Direction {
    Idle,
    Up,
    Down,
    Left,
    Right,
}

/// A 2-component position in integer distance units.
#[derive(Clone, Copy, Debug, PartialEq, Eq)]
pub struct Position {
    pub x: i64,
    pub y: i64,
}

impl Default for Direction {
    /// A controller starts idle, until its first input arrives.
    fn default() -> (d: Direction)
        ensures
            d == Direction::Idle,
    {
        Direction::Idle
    }
}

/// Observer-to-authority messages.
#[derive(Clone, Copy, Debug, PartialEq, Eq)]
pub enum ClientMessage {
    Direction { direction: Direction },
}

/// Authority-to-observer messages.
#[derive(Clone, Copy, Debug, PartialEq, Eq)]
pub enum ServerMessage {
    InitClient { client_id: u64 },
    SpawnRect { entity: u64, pos: Position },
    RectMove { entity: u64, pos: Position },
    DespawnRect { entity: u64 },
}

/// The audience of one outbound authority message: a single endpoint,
/// or every endpoint connected at the moment of sending.
#[derive(Clone, Copy, Debug, PartialEq, Eq)]
pub enum Dest {
    To(u64),
    All,
}

/// One message the authority hands to the transport, with its audience.
#[derive(Clone, Copy, Debug, PartialEq, Eq)]
pub struct Outbound {
    pub dest: Dest,
    pub msg: ServerMessage,
}

} // verus!
