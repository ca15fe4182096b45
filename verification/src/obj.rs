//! Plain-data records of the simulated bodies.

use vstd::prelude::*;

verus! {

/// A scalar, held as the bit pattern of an IEEE-754 single.
pub type Scalar = u32;

/// Health of a freshly created planet or player.
pub const FULL_HEALTH: u8 = 5;

/// A two-dimensional vector of scalars.
#[derive(Clone, Copy, Debug, PartialEq, Eq, Structural)]
pub struct Vect {
    pub x: Scalar,
    pub y: Scalar,
}

/// A body that moves: where it is, how fast, and how the speed changes.
#[derive(Clone, Copy, Debug, PartialEq, Eq, Structural)]
pub struct PhysicsObject {
    pub position: Vect,
    pub velocity: Vect,
    pub acceleration: Vect,
}

/// A moving body that also faces a direction, in radians.
#[derive(Clone, Copy, Debug, PartialEq, Eq, Structural)]
pub struct RotatableObject {
    pub physics_obj: PhysicsObject,
    pub rotation: Scalar,
}

/// A gravity body that projectiles wear down.
#[derive(Clone, Copy, Debug, PartialEq, Eq, Structural)]
pub struct Planet {
    pub obj: PhysicsObject,
    pub health: u8,
}

/// The ship of one connected session.
#[derive(Clone, Copy, Debug, PartialEq, Eq, Structural)]
pub struct Player {
    pub obj: RotatableObject,
    pub health: u8,
}

/// What one hit leaves of a health value: one less, and zero stays zero.
pub open spec fn spec_worn(health: u8) -> u8 {
    if health == 0 {
        0
    } else {
        (health - 1) as u8
    }
}

/// What `hits` hits in a row leave of a health value.
pub open spec fn spec_worn_by(health: u8, hits: nat) -> u8 {
    if hits >= health {
        0
    } else {
        (health - hits) as u8
    }
}

/// One hit: the health drops by one and never below zero.
pub fn worn(health: u8) -> (left: u8)
    ensures
        left == spec_worn(health),
        left <= health,
{
    if health == 0 {
        0
    } else {
        health - 1
    }
}

/// Hitting `hits` times and then once more is hitting `hits + 1` times.
pub proof fn lemma_worn_step(health: u8, hits: nat)
    ensures
        spec_worn(spec_worn_by(health, hits)) == spec_worn_by(health, hits + 1),
        spec_worn_by(health, 0) == health,
{
}

/// Health never underflows: a hit on zero health leaves zero, and a hit on
/// anything else takes exactly one.
pub proof fn lemma_health_never_underflows(health: u8)
    ensures
        health == 0 ==> spec_worn(health) == 0,
        health > 0 ==> spec_worn(health) == health - 1,
        spec_worn(health) <= health,
{
}

impl Vect {
    /// The vector whose two components are zero.
    pub open spec fn spec_zero() -> Vect {
        Vect { x: 0, y: 0 }
    }

    pub fn new(x: Scalar, y: Scalar) -> (v: Vect)
        ensures
            v == (Vect { x, y }),
    {
        Vect { x, y }
    }

    #[verifier::when_used_as_spec(spec_zero)]
    pub fn zero() -> (v: Vect)
        ensures
            v == Vect::spec_zero(),
    {
        Vect { x: 0, y: 0 }
    }
}

impl PhysicsObject {
    /// A body at rest at the origin.
    pub open spec fn spec_rest() -> PhysicsObject {
        PhysicsObject {
            position: Vect::spec_zero(),
            velocity: Vect::spec_zero(),
            acceleration: Vect::spec_zero(),
        }
    }

    /// A body at `(x, y)` moving with `(vx, vy)` and no acceleration.
    pub fn new(x: Scalar, y: Scalar, vx: Scalar, vy: Scalar) -> (o: PhysicsObject)
        ensures
            o.position == (Vect { x, y }),
            o.velocity == (Vect { x: vx, y: vy }),
            o.acceleration == Vect::spec_zero(),
    {
        PhysicsObject {
            position: Vect { x, y },
            velocity: Vect { x: vx, y: vy },
            acceleration: Vect { x: 0, y: 0 },
        }
    }

    pub fn pos(&self) -> (p: Vect)
        ensures
            p == self.position,
    {
        self.position
    }

    pub fn vel(&self) -> (v: Vect)
        ensures
            v == self.velocity,
    {
        self.velocity
    }
}

impl RotatableObject {
    /// A body at rest at the origin that faces along the x axis.
    pub open spec fn spec_rest() -> RotatableObject {
        RotatableObject { physics_obj: PhysicsObject::spec_rest(), rotation: 0 }
    }

    /// A body at `s` moving with `v`, facing `rot`, with no acceleration.
    pub fn new(s: Vect, v: Vect, rot: Scalar) -> (o: RotatableObject)
        ensures
            o.physics_obj.position == s,
            o.physics_obj.velocity == v,
            o.physics_obj.acceleration == Vect::spec_zero(),
            o.rotation == rot,
    {
        RotatableObject {
            physics_obj: PhysicsObject {
                position: s,
                velocity: v,
                acceleration: Vect { x: 0, y: 0 },
            },
            rotation: rot,
        }
    }

    pub fn pos(&self) -> (p: Vect)
        ensures
            p == self.physics_obj.position,
    {
        self.physics_obj.position
    }

    pub fn vel(&self) -> (v: Vect)
        ensures
            v == self.physics_obj.velocity,
    {
        self.physics_obj.velocity
    }
}

impl Planet {
    /// A planet at full health at `(x, y)` moving with `(vx, vy)`.
    pub fn new(x: Scalar, y: Scalar, vx: Scalar, vy: Scalar) -> (p: Planet)
        ensures
            p.health == FULL_HEALTH,
            p.obj.position == (Vect { x, y }),
            p.obj.velocity == (Vect { x: vx, y: vy }),
            p.obj.acceleration == Vect::spec_zero(),
    {
        Planet { obj: PhysicsObject::new(x, y, vx, vy), health: FULL_HEALTH }
    }
}

impl Player {
    /// The player that a new session starts with.
    pub open spec fn spec_fresh() -> Player {
        Player { obj: RotatableObject::spec_rest(), health: FULL_HEALTH }
    }
}

impl Default for Player {
    /// A player at rest at the origin, at full health.
    fn default() -> (p: Player)
        ensures
            p == Player::spec_fresh(),
    {
        Player {
            obj: RotatableObject {
                physics_obj: PhysicsObject {
                    position: Vect { x: 0, y: 0 },
                    velocity: Vect { x: 0, y: 0 },
                    acceleration: Vect { x: 0, y: 0 },
                },
                rotation: 0,
            },
            health: FULL_HEALTH,
        }
    }
}

} // verus!
