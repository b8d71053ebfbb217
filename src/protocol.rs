//! Values exchanged between clients and the server.

use vstd::prelude::*;

verus! {

/// One control message from a client: which keys are held this frame.
#[derive(Clone, Copy, Debug, PartialEq, Eq, Structural, Default)]
pub struct CarInput {
    pub forward: bool,
    pub backward: bool,
    pub left: bool,
    pub right: bool,
}

/// 1 for a held key, 0 otherwise.
pub open spec fn key(held: bool) -> int {
    if held {
        1
    } else {
        0
    }
}

impl CarInput {
    /// Direction of the thrust along the car's forward vector: `+1` forward,
    /// `-1` backward, `0` when neither or both are held.
    pub fn thrust(&self) -> (r: i8)
        ensures
            r as int == key(self.forward) - key(self.backward),
    {
        let mut r: i8 = 0;
        if self.forward {
            r = r + 1;
        }
        if self.backward {
            r = r - 1;
        }
        r
    }

    /// Direction of the change of angular velocity: `+1` to the left,
    /// `-1` to the right, `0` when neither or both are held.
    pub fn steering(&self) -> (r: i8)
        ensures
            r as int == key(self.left) - key(self.right),
    {
        let mut r: i8 = 0;
        if self.left {
            r = r + 1;
        }
        if self.right {
            r = r - 1;
        }
        r
    }
}

/// A client's request to enter the game under a name.
#[derive(Clone, Debug, PartialEq, Eq, Default)]
pub struct JoinRequest {
    pub username: String,
}

/// The ordered, reliable channel that carries inputs and join requests
/// from clients to the server.
#[derive(Clone, Copy, Debug, PartialEq, Eq)]
pub struct InputChannel;

/// The player that drives a car: the connection it belongs to, the name it
/// joined with and its colour's hue in thousandths of a degree.
#[derive(Clone, Debug, PartialEq, Eq)]
pub struct Player {
    pub client_id: u64,
    pub username: String,
    pub hue: u32,
}

} // verus!
