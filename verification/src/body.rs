//! The plain values that the rules work on: fruit bodies, the pit, contacts
//! between bodies, and the few spec functions that say how a table of fruits
//! is read.

use vstd::prelude::*;
use crate::tier::Fruit;

verus! {

/// One fruit in the pit. Positions are whole world units, with `y` growing
/// upwards.
#[derive(Debug, Clone, Copy, PartialEq, Eq, Structural, Hash)]
pub struct FruitBody {
    /// Identity of the fruit, never given to another fruit again.
    pub id: u64,
    /// Tier of the fruit, fixed for its lifetime.
    pub tier: Fruit,
    /// Horizontal position of the centre.
    pub x: i32,
    /// Vertical position of the centre.
    pub y: i32,
    /// True from the drop until the fruit first touches another body.
    pub unsettled: bool,
}

/// One end of a contact: a fruit, named by its identity, or a fixed part of
/// the pit (a wall or the floor).
#[derive(Debug, Clone, Copy, PartialEq, Eq, Structural, Hash)]
pub enum Body {
    Fruit(u64),
    Fixture,
}

/// Two bodies that touched during one simulation step. The pair has no
/// order: `a` and `b` may be swapped.
#[derive(Debug, Clone, Copy, PartialEq, Eq, Structural, Hash)]
pub struct Contact {
    pub a: Body,
    pub b: Body,
}

/// The pit: its horizontal bounds, the height from which fruits are dropped
/// and the height that no settled fruit may pass.
#[derive(Debug, Clone, Copy, PartialEq, Eq, Structural, Hash)]
pub struct Pit {
    /// Leftmost position at which a fruit may be dropped.
    pub min_x: i32,
    /// Rightmost position at which a fruit may be dropped.
    pub max_x: i32,
    /// Height at which a dropped fruit appears.
    pub drop_y: i32,
    /// Height above which a settled fruit ends the game.
    pub limit_y: i32,
}

/// One merge made during a step: the two fruits that left, smaller identity
/// first, and the fruit that took their place.
#[derive(Debug, Clone, Copy, PartialEq, Eq, Structural, Hash)]
pub struct Merge {
    pub first: u64,
    pub second: u64,
    pub created: FruitBody,
}

/// Whether a fruit with identity `id` is in the table.
pub open spec fn live(fruits: Seq<FruitBody>, id: u64) -> bool {
    exists|k: int| 0 <= k < fruits.len() && (#[trigger] fruits[k]).id == id
}

/// Place in the table of the fruit with identity `id`, where there is one.
pub open spec fn slot(fruits: Seq<FruitBody>, id: u64) -> int {
    choose|k: int| 0 <= k < fruits.len() && (#[trigger] fruits[k]).id == id
}

/// The fruit with identity `id`, where there is one.
pub open spec fn fruit_of(fruits: Seq<FruitBody>, id: u64) -> FruitBody {
    fruits[slot(fruits, id)]
}

/// Identities grow along the table, so no two fruits share one.
pub open spec fn ids_ascending(fruits: Seq<FruitBody>) -> bool {
    forall|i: int, j: int|
        0 <= i < j < fruits.len() ==> (#[trigger] fruits[i]).id < (#[trigger] fruits[j]).id
}

/// Whether some fruit in the table has not yet touched anything.
pub open spec fn any_unsettled(fruits: Seq<FruitBody>) -> bool {
    exists|k: int| 0 <= k < fruits.len() && (#[trigger] fruits[k]).unsettled
}

/// At most one fruit of the table has not yet touched anything.
pub open spec fn at_most_one_unsettled(fruits: Seq<FruitBody>) -> bool {
    forall|i: int, j: int|
        0 <= i < fruits.len() && 0 <= j < fruits.len() && (#[trigger] fruits[i]).unsettled && (
        #[trigger] fruits[j]).unsettled ==> i == j
}

/// `x` brought into the range from `min` to `max`: values below `min` become
/// `min`, others above `max` become `max`.
pub open spec fn clamped(x: int, min: int, max: int) -> int {
    if x < min {
        min
    } else if x > max {
        max
    } else {
        x
    }
}

/// The point halfway between `a` and `b`; where that lies between two whole
/// units, the lower one.
pub open spec fn midpoint(a: int, b: int) -> int {
    (a + b) / 2
}

/// In a table with ascending identities, the place of a fruit is found from
/// its identity.
pub proof fn lemma_slot_of(fruits: Seq<FruitBody>, k: int)
    requires
        ids_ascending(fruits),
        0 <= k < fruits.len(),
    ensures
        live(fruits, fruits[k].id),
        slot(fruits, fruits[k].id) == k,
        fruit_of(fruits, fruits[k].id) == fruits[k],
{
    let id = fruits[k].id;
    let s = slot(fruits, id);
    assert(0 <= s < fruits.len() && fruits[s].id == id);
    if s < k {
        assert(fruits[s].id < fruits[k].id);
    }
    if k < s {
        assert(fruits[k].id < fruits[s].id);
    }
}

/// A live identity has a place in the table, and the fruit there bears it.
pub proof fn lemma_live_slot(fruits: Seq<FruitBody>, id: u64)
    requires
        live(fruits, id),
    ensures
        0 <= slot(fruits, id) < fruits.len(),
        fruit_of(fruits, id).id == id,
{
}

impl Pit {
    /// Horizontal position at which a fruit aimed at `x` is dropped.
    pub fn clamp_x(&self, x: i32) -> (cx: i32)
        ensures
            cx == clamped(x as int, self.min_x as int, self.max_x as int),
    {
        if x < self.min_x {
            self.min_x
        } else if x > self.max_x {
            self.max_x
        } else {
            x
        }
    }
}

/// The whole unit halfway between `a` and `b`, rounded down.
pub fn halfway(a: i32, b: i32) -> (m: i32)
    ensures
        m == midpoint(a as int, b as int),
        2 * m <= a + b <= 2 * m + 1,
{
    let sum: i64 = a as i64 + b as i64;
    let half: i64 = if sum >= 0 {
        sum / 2
    } else {
        -((1 - sum) / 2)
    };
    half as i32
}

} // verus!
