//! The ladder of fruit tiers: an ordered, fixed catalogue with a radius and a
//! score for every rung, and a successor for every rung but the last.

use vstd::prelude::*;

verus! {

/// Number of tiers on the ladder.
pub const TIER_COUNT: usize = 11;

/// Number of tiers, counted from the smallest, that may be handed out as a
/// fruit to drop. Larger tiers arise from merges only.
pub const DROP_TIER_COUNT: usize = 5;

/// Score of the largest tier, and so the most that one merge can award.
pub const MAX_TIER_SCORE: u32 = 66;

/// One rung of the ladder, smallest first.
#[derive(Debug, Clone, Copy, PartialEq, Eq, Structural, PartialOrd, Ord, Hash)]
pub enum Fruit {
    Cherry,
    Strawberry,
    Grapes,
    Dekopon,
    Persimmon,
    Apple,
    Pear,
    Peach,
    Pineapple,
    Melon,
    Watermelon,
}

/// What the catalogue says of one tier.
#[derive(Debug, Clone, Copy, PartialEq, Eq, Structural, Hash)]
pub struct TierInfo {
    /// Collision radius, in world units.
    pub radius: u32,
    /// Points that a fruit of the tier is worth.
    pub score: u32,
    /// The tier one rung up, or `None` for the largest.
    pub successor: Option<Fruit>,
}

/// Number of tiers on the ladder.
pub fn tier_count() -> (n: usize)
    ensures
        n == TIER_COUNT,
{
    TIER_COUNT
}

impl Default for Fruit {
    fn default() -> (fruit: Fruit)
        ensures
            fruit == Fruit::Cherry,
    {
        Fruit::Cherry
    }
}

/// The tier whose ordinal is `i` modulo the number of tiers.
pub open spec fn tier_at(i: int) -> Fruit {
    let r = i % 11;
    if r == 0 {
        Fruit::Cherry
    } else if r == 1 {
        Fruit::Strawberry
    } else if r == 2 {
        Fruit::Grapes
    } else if r == 3 {
        Fruit::Dekopon
    } else if r == 4 {
        Fruit::Persimmon
    } else if r == 5 {
        Fruit::Apple
    } else if r == 6 {
        Fruit::Pear
    } else if r == 7 {
        Fruit::Peach
    } else if r == 8 {
        Fruit::Pineapple
    } else if r == 9 {
        Fruit::Melon
    } else {
        Fruit::Watermelon
    }
}

impl Fruit {
    /// Position on the ladder, counted from zero.
    pub open spec fn ordinal(self) -> nat {
        match self {
            Fruit::Cherry => 0,
            Fruit::Strawberry => 1,
            Fruit::Grapes => 2,
            Fruit::Dekopon => 3,
            Fruit::Persimmon => 4,
            Fruit::Apple => 5,
            Fruit::Pear => 6,
            Fruit::Peach => 7,
            Fruit::Pineapple => 8,
            Fruit::Melon => 9,
            Fruit::Watermelon => 10,
        }
    }

    /// Whether a merge of two fruits of this tier yields a fruit: true of
    /// every tier but the largest.
    pub open spec fn has_successor(self) -> bool {
        self.ordinal() + 1 < TIER_COUNT
    }

    /// The tier one rung up; on the largest tier the value is of no meaning.
    pub open spec fn successor(self) -> Fruit {
        tier_at(self.ordinal() + 1 as int)
    }

    /// Points that the catalogue gives for a fruit of this tier.
    pub open spec fn score_value(self) -> nat {
        match self {
            Fruit::Cherry => 1,
            Fruit::Strawberry => 3,
            Fruit::Grapes => 6,
            Fruit::Dekopon => 10,
            Fruit::Persimmon => 15,
            Fruit::Apple => 21,
            Fruit::Pear => 28,
            Fruit::Peach => 36,
            Fruit::Pineapple => 45,
            Fruit::Melon => 55,
            Fruit::Watermelon => 66,
        }
    }

    /// Collision radius of a tier: four units for the smallest, two more for
    /// each rung.
    pub open spec fn radius_value(self) -> nat {
        4 + 2 * self.ordinal()
    }

    /// Position on the ladder, which is also the tier's cell in the sprite
    /// sheet.
    pub fn index(self) -> (i: usize)
        ensures
            i == self.ordinal(),
            i < TIER_COUNT,
    {
        match self {
            Fruit::Cherry => 0,
            Fruit::Strawberry => 1,
            Fruit::Grapes => 2,
            Fruit::Dekopon => 3,
            Fruit::Persimmon => 4,
            Fruit::Apple => 5,
            Fruit::Pear => 6,
            Fruit::Peach => 7,
            Fruit::Pineapple => 8,
            Fruit::Melon => 9,
            Fruit::Watermelon => 10,
        }
    }

    /// The tier that two merged fruits of this tier become, or `None` for the
    /// largest tier, which merges no further.
    pub fn next(self) -> (up: Option<Fruit>)
        ensures
            up.is_some() == self.has_successor(),
            self.has_successor() ==> up == Some(self.successor()),
    {
        match self {
            Fruit::Cherry => Some(Fruit::Strawberry),
            Fruit::Strawberry => Some(Fruit::Grapes),
            Fruit::Grapes => Some(Fruit::Dekopon),
            Fruit::Dekopon => Some(Fruit::Persimmon),
            Fruit::Persimmon => Some(Fruit::Apple),
            Fruit::Apple => Some(Fruit::Pear),
            Fruit::Pear => Some(Fruit::Peach),
            Fruit::Peach => Some(Fruit::Pineapple),
            Fruit::Pineapple => Some(Fruit::Melon),
            Fruit::Melon => Some(Fruit::Watermelon),
            Fruit::Watermelon => None,
        }
    }

    /// The tier at `index`, counted round the ladder: an index past the last
    /// tier starts again at the smallest.
    pub fn from_index(index: usize) -> (fruit: Fruit)
        ensures
            fruit == tier_at(index as int),
            fruit.ordinal() == index % TIER_COUNT,
    {
        let index: usize = index % TIER_COUNT;
        if index == 0 {
            Fruit::Cherry
        } else if index == 1 {
            Fruit::Strawberry
        } else if index == 2 {
            Fruit::Grapes
        } else if index == 3 {
            Fruit::Dekopon
        } else if index == 4 {
            Fruit::Persimmon
        } else if index == 5 {
            Fruit::Apple
        } else if index == 6 {
            Fruit::Pear
        } else if index == 7 {
            Fruit::Peach
        } else if index == 8 {
            Fruit::Pineapple
        } else if index == 9 {
            Fruit::Melon
        } else {
            Fruit::Watermelon
        }
    }

    /// Points that a fruit of this tier is worth.
    pub fn score(self) -> (points: u32)
        ensures
            points == self.score_value(),
            1 <= points <= MAX_TIER_SCORE,
    {
        match self {
            Fruit::Cherry => 1,
            Fruit::Strawberry => 3,
            Fruit::Grapes => 6,
            Fruit::Dekopon => 10,
            Fruit::Persimmon => 15,
            Fruit::Apple => 21,
            Fruit::Pear => 28,
            Fruit::Peach => 36,
            Fruit::Pineapple => 45,
            Fruit::Melon => 55,
            Fruit::Watermelon => 66,
        }
    }

    /// Collision radius of a fruit of this tier, in world units.
    pub fn radius(self) -> (r: u32)
        ensures
            r == self.radius_value(),
    {
        4 + 2 * (self.index() as u32)
    }

    /// The catalogue's entry for this tier.
    pub fn info(self) -> (entry: TierInfo)
        ensures
            entry.radius == self.radius_value(),
            entry.score == self.score_value(),
            entry.successor.is_some() == self.has_successor(),
            self.has_successor() ==> entry.successor == Some(self.successor()),
    {
        TierInfo { radius: self.radius(), score: self.score(), successor: self.next() }
    }
}

/// The catalogue is strictly ordered: a tier higher on the ladder has the
/// larger radius and the larger score.
pub proof fn lemma_catalogue_strictly_increasing(low: Fruit, high: Fruit)
    requires
        low.ordinal() < high.ordinal(),
    ensures
        low.radius_value() < high.radius_value(),
        low.score_value() < high.score_value(),
{
}

/// Exactly one tier has no successor: the last one.
pub proof fn lemma_single_top(fruit: Fruit)
    ensures
        !fruit.has_successor() <==> fruit == Fruit::Watermelon,
        fruit.has_successor() ==> fruit.successor().ordinal() == fruit.ordinal() + 1,
{
}

/// Ordinals name tiers one to one, and the lookup by index undoes `ordinal`.
pub proof fn lemma_ordinal_round_trip(fruit: Fruit)
    ensures
        tier_at(fruit.ordinal() as int) == fruit,
        fruit.ordinal() < TIER_COUNT,
{
}

/// The lookup by index goes round the ladder: an index and the same index
/// plus the number of tiers name the same tier, so the count itself names the
/// smallest tier.
pub proof fn lemma_index_wraps(i: int)
    ensures
        tier_at(i + TIER_COUNT) == tier_at(i),
        tier_at(TIER_COUNT as int) == tier_at(0),
{
}

} // verus!
