use vstd::prelude::*;

verus! {

/// Identifier of an entity: the 128-bit value of its UUID.
pub type EntityId = u128;

/// Identifier of a player: the 128-bit value of its UUID.
pub type PlayerId = u128;

/// A position in world space, held as the IEEE-754 bit patterns of its three
/// single-precision coordinates.
#[derive(Clone, Copy, Debug, Default, PartialEq, Eq, Hash, Structural)]
pub struct PrecisePosition {
    pub x: u32,
    pub y: u32,
    pub z: u32,
}

/// A view direction, held as the IEEE-754 bit patterns of its two
/// single-precision angles.
#[derive(Clone, Copy, Debug, Default, PartialEq, Eq, Hash, Structural)]
pub struct Look {
    pub yaw: u32,
    pub pitch: u32,
}

/// A dynamic object that lives in a region.
#[derive(Clone, Copy, Debug, PartialEq, Eq, Hash, Structural)]
pub enum Entity {
    Player { player_id: PlayerId, position: PrecisePosition, look: Look },
}

} // verus!
