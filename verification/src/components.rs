use vstd::prelude::*;

verus! {

/// Identifier of a simulated actor. The simulation core never interprets it;
/// it is only a key into the world state.
pub type EntityId = u64;

/// Largest coordinate magnitude the simulation accepts; keeps every tile
/// arithmetic comfortably inside `i32`.
pub const MAX_COORD: i32 = 1000000;

/// Position in the world, measured in whole tiles.
#[derive(Copy, Clone, Eq, PartialEq, Structural, Hash, Debug)]
pub struct WorldPos {
    pub x: i32,
    pub y: i32,
}

pub open spec fn abs_spec(v: int) -> int {
    if v >= 0 {
        v
    } else {
        -v
    }
}

/// A position whose coordinates are small enough for neighbour arithmetic.
pub open spec fn pos_ok(p: WorldPos) -> bool {
    -MAX_COORD <= p.x <= MAX_COORD && -MAX_COORD <= p.y <= MAX_COORD
}

/// A position that still has workable coordinates on every side of it.
pub open spec fn pos_ok_strict(p: WorldPos) -> bool {
    -MAX_COORD < p.x < MAX_COORD && -MAX_COORD < p.y < MAX_COORD
}

impl WorldPos {
    /// Manhattan distance between two positions.
    pub fn dist(&self, other: WorldPos) -> (r: i32)
        requires
            pos_ok(*self),
            pos_ok(other),
        ensures
            r == abs_spec(self.x - other.x) + abs_spec(self.y - other.y),
    {
        let dx = if self.x >= other.x {
            self.x - other.x
        } else {
            other.x - self.x
        };
        let dy = if self.y >= other.y {
            self.y - other.y
        } else {
            other.y - self.y
        };
        dx + dy
    }
}

/// Per-actor field of view: the tiles the actor currently sees, its sight
/// radius, and whether the set must be recomputed.
#[derive(Clone, Debug)]
pub struct Viewshed {
    pub visible_tiles: Vec<WorldPos>,
    pub range: i32,
    pub dirty: bool,
}

impl Viewshed {
    pub fn new() -> (r: Viewshed)
        ensures
            r.visible_tiles@ == Seq::<WorldPos>::empty(),
            r.range == 7,
            r.dirty,
    {
        Viewshed { visible_tiles: Vec::new(), range: 7, dirty: true }
    }
}

/// Hit points and melee parameters of a combat-capable actor.
#[derive(Copy, Clone, Eq, PartialEq, Structural, Debug)]
pub struct CombatStats {
    pub max_hp: i32,
    pub hp: i32,
    pub defense: i32,
    pub power: i32,
}

/// Event: the map's seen/visible sets changed, so any cached presentation
/// must be rebuilt.
#[derive(Copy, Clone, Eq, PartialEq, Structural, Hash, Debug)]
pub struct MapChangedEvent;

/// Event: some actor's viewshed was recomputed.
#[derive(Copy, Clone, Eq, PartialEq, Structural, Hash, Debug)]
pub struct VisibilityChangedEvent;

/// Event: an actor finished its turn.
#[derive(Copy, Clone, Eq, PartialEq, Structural, Debug)]
pub struct EntityFinishedTurn {
    pub entity: EntityId,
}

/// Event: an actor initiates a melee attack on another.
#[derive(Copy, Clone, Eq, PartialEq, Structural, Debug)]
pub struct EntityMeleeAttacks {
    pub attacker: EntityId,
    pub defender: EntityId,
}

/// Event: an actor suffers a quantity of damage.
#[derive(Copy, Clone, Eq, PartialEq, Structural, Debug)]
pub struct EntitySuffersDamage {
    pub entity: EntityId,
    pub damage: i32,
}

/// Event: an actor moved from one tile to another.
#[derive(Copy, Clone, Eq, PartialEq, Structural, Debug)]
pub struct EntityMovedEvent {
    pub old_pos: WorldPos,
    pub new_pos: WorldPos,
    pub entity: EntityId,
}

/// Event: an actor's hit points fell to zero or below.
#[derive(Copy, Clone, Eq, PartialEq, Structural, Debug)]
pub struct EntityDies {
    pub entity: EntityId,
}

} // verus!
