//! Identities and kinds of the actors and items of the game.

use vstd::prelude::*;

verus! {

/// Identifier of an actor (hero or rat).
#[derive(Clone, Copy, Debug, PartialEq, Eq, Hash, Default, Structural)]
pub struct EntityId(pub u32);

/// Identifier of an item lying on the ground.
#[derive(Clone, Copy, Debug, PartialEq, Eq, Hash, Default, Structural)]
pub struct ItemId(pub u32);

/// Integer coordinates of a tile.
#[derive(Clone, Copy, Debug, PartialEq, Eq, Hash, Structural)]
pub struct TileCoord {
    pub x: i32,
    pub y: i32,
}

impl TileCoord {
    pub fn new(x: i32, y: i32) -> (r: Self)
        ensures
            r.x == x,
            r.y == y,
    {
        Self { x, y }
    }
}

#[derive(Clone, Copy, Debug, PartialEq, Eq, Structural)]
pub enum EntityKind {
    Hero,
    Rat,
}

#[derive(Clone, Copy, Debug, PartialEq, Eq, Structural)]
pub enum Faction {
    Player,
    Enemy,
}

/// The behaviour a rat is in.
#[derive(Clone, Copy, Debug, PartialEq, Eq, Structural)]
pub enum RatState {
    Idle,
    ChasingHero,
    AttackingHero,
    Dead,
}

} // verus!
