//! The spawn queue: the tier of the next fruit to drop, and the generator
//! that picks the tier after it.

use vstd::prelude::*;
use crate::tier::{tier_at, Fruit, DROP_TIER_COUNT};

verus! {

/// Multiplier of the generator's linear step.
pub const STEP_MULTIPLIER: u64 = 6364136223846793005;

/// Increment of the generator's linear step.
pub const STEP_INCREMENT: u64 = 1442695040888963407;

/// Low bits of a generator state that are left out of a draw: the high bits
/// of a linear generator are the better mixed.
pub const DRAW_SHIFT: u64 = 33;

/// The generator state that follows `state`: one linear step, modulo two to
/// the sixty-fourth.
pub open spec fn next_state(state: u64) -> u64 {
    state.wrapping_mul(STEP_MULTIPLIER).wrapping_add(STEP_INCREMENT)
}

/// The tier drawn from a generator state: its high bits, reduced to the
/// tiers that may be dropped.
pub open spec fn drawn_tier(state: u64) -> Fruit {
    tier_at(((state >> DRAW_SHIFT) % (DROP_TIER_COUNT as u64)) as int)
}

/// What a spawn queue holds.
pub struct QueueView {
    /// Tier of the next fruit to drop.
    pub pending: Fruit,
    /// State of the generator.
    pub rng: u64,
}

impl QueueView {
    /// The queue after one draw: the generator has made a step, and the
    /// pending tier is the one drawn from its new state.
    pub open spec fn advanced(self) -> QueueView {
        QueueView { pending: drawn_tier(next_state(self.rng)), rng: next_state(self.rng) }
    }

    /// The pending tier is one of those that may be dropped.
    pub open spec fn wf(self) -> bool {
        self.pending.ordinal() < DROP_TIER_COUNT
    }
}

/// Holder of the tier that the next drop will use.
#[derive(Debug, Clone, Copy)]
pub struct SpawnQueue {
    pending: Fruit,
    rng: u64,
}

impl View for SpawnQueue {
    type V = QueueView;

    closed spec fn view(&self) -> QueueView {
        QueueView { pending: self.pending, rng: self.rng }
    }
}

impl SpawnQueue {
    /// Well-formedness: see [`QueueView::wf`].
    pub open spec fn wf(&self) -> bool {
        self@.wf()
    }

    /// A queue whose pending tier is the smallest and whose generator starts
    /// from `seed`.
    pub fn new(seed: u64) -> (queue: SpawnQueue)
        ensures
            queue@ == (QueueView { pending: Fruit::Cherry, rng: seed }),
            queue.wf(),
    {
        SpawnQueue { pending: Fruit::Cherry, rng: seed }
    }

    /// The pending tier; the queue stays as it is.
    pub fn peek(&self) -> (tier: Fruit)
        ensures
            tier == self@.pending,
    {
        self.pending
    }

    /// State of the generator, from which every later draw follows.
    pub fn rng_state(&self) -> (state: u64)
        ensures
            state == self@.rng,
    {
        self.rng
    }

    /// Draws the tier after the pending one and puts it in its place.
    pub fn advance(&mut self)
        ensures
            final(self)@ == old(self)@.advanced(),
            final(self).wf(),
    {
        let state: u64 = self.rng.wrapping_mul(STEP_MULTIPLIER).wrapping_add(STEP_INCREMENT);
        let pick: u64 = (state >> DRAW_SHIFT) % (DROP_TIER_COUNT as u64);
        self.rng = state;
        self.pending = Fruit::from_index(pick as usize);
    }
}

/// Whatever the generator's state, the tier drawn from it may be dropped.
pub proof fn lemma_draw_in_range(state: u64)
    ensures
        drawn_tier(state).ordinal() < DROP_TIER_COUNT,
        drawn_tier(state).has_successor(),
{
}

/// A draw keeps a queue well formed, whether or not it was so before.
pub proof fn lemma_advance_stays_in_range(queue: QueueView)
    ensures
        queue.advanced().wf(),
{
}

} // verus!
