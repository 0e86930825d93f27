//! The direction in which messages pass through the proxy.

use vstd::prelude::*;

verus! {

/// Which way a message travels through the proxy.
#[derive(Clone, Copy, Debug, PartialEq, Eq, Structural)]
pub enum Direction {
    ToServer,
    FromServer,
}

/// The direction opposite to `d`.
pub open spec fn opposite(d: Direction) -> Direction {
    match d {
        Direction::ToServer => Direction::FromServer,
        Direction::FromServer => Direction::ToServer,
    }
}

impl Direction {
    /// The opposite direction.
    pub fn reverse(&self) -> (r: Direction)
        ensures
            r != *self,
            r == opposite(*self),
    {
        match self {
            Direction::ToServer => Direction::FromServer,
            Direction::FromServer => Direction::ToServer,
        }
    }

    /// The numeric direction tag used by the websocket log protocol.
    pub fn to_lsp_log(&self) -> (r: u32)
        ensures
            r == (match *self {
                Direction::ToServer => 1u32,
                Direction::FromServer => 2u32,
            }),
    {
        match self {
            Direction::ToServer => 1,
            Direction::FromServer => 2,
        }
    }
}

/// Reversing twice gives back the direction reversed.
pub proof fn lemma_reverse_involutive(d: Direction)
    ensures
        opposite(opposite(d)) == d,
{
}

} // verus!
