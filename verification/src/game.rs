//! The game: the pit with its fruits, the spawn queue, the score, and the
//! rules that change them: dropping a fruit, stepping the contacts of the
//! simulation, pausing and resuming, and watching for the pit to overflow.

use vstd::prelude::*;
use crate::body::{
    any_unsettled, at_most_one_unsettled, clamped, fruit_of, ids_ascending, lemma_slot_of, live,
    Contact, FruitBody, Merge, Pit,
};
use crate::merge::{find_slot, resolves, settled};
use crate::queue::{QueueView, SpawnQueue};
use crate::resolve::{
    ids_below, lemma_step_keeps_one_unsettled, resolve_contacts, table_after,
};
use crate::tier::{Fruit, MAX_TIER_SCORE};

verus! {

/// Number of identities that a game can hand out. With it the score, which
/// grows by at most the largest tier's score for each identity handed out,
/// stays within its type.
pub const ID_LIMIT: u64 = 72057594037927936;

/// Whether the game is still loading, halted by the player, or running.
#[derive(Debug, Clone, Copy, PartialEq, Eq, Structural, Hash)]
pub enum AppState {
    Loading,
    Paused,
    Running,
}

impl Default for AppState {
    fn default() -> (state: AppState)
        ensures
            state == AppState::Loading,
    {
        AppState::Loading
    }
}

/// Sum of the scores of the fruits that the merges created.
pub open spec fn awarded(merges: Seq<Merge>) -> nat
    decreases merges.len(),
{
    if merges.len() == 0 {
        0
    } else {
        awarded(merges.drop_last()) + merges.last().created.tier.score_value()
    }
}

/// Whether some settled fruit of the table lies above `limit_y`.
pub open spec fn overflows(fruits: Seq<FruitBody>, limit_y: int) -> bool {
    exists|k: int|
        0 <= k < fruits.len() && !(#[trigger] fruits[k]).unsettled && fruits[k].y > limit_y
}

/// What a game holds.
pub struct GameView {
    pub state: AppState,
    pub pit: Pit,
    /// The fruits in the pit, by ascending identity.
    pub fruits: Seq<FruitBody>,
    pub queue: QueueView,
    /// Sum of the scores awarded for all merges so far.
    pub score: nat,
    /// The identity that the next new fruit gets.
    pub next_id: nat,
}

impl GameView {
    /// Well-formedness: identities ascend along the table and lie below the
    /// next free one, at most one fruit is unsettled, enough identities are
    /// left for every merge that the fruits in the pit can still make, the
    /// score is within what the merges so far can have awarded, and the queue
    /// is well formed.
    pub open spec fn wf(self) -> bool {
        &&& ids_ascending(self.fruits)
        &&& at_most_one_unsettled(self.fruits)
        &&& ids_below(self.fruits, self.next_id as int)
        &&& self.next_id + self.fruits.len() <= ID_LIMIT
        &&& self.score <= MAX_TIER_SCORE * self.next_id
        &&& self.queue.wf()
    }

    /// Whether a drop is accepted: the game is running, no fruit is still
    /// unsettled, and an identity is left for the fruit and for every merge
    /// it can take part in.
    pub open spec fn can_drop(self) -> bool {
        &&& self.state == AppState::Running
        &&& !any_unsettled(self.fruits)
        &&& self.next_id + self.fruits.len() + 2 <= ID_LIMIT
    }

    /// The fruit that a drop aimed at `x` creates: of the pending tier, at
    /// the drop height, within the pit's bounds, unsettled.
    pub open spec fn dropped(self, x: int) -> FruitBody {
        FruitBody {
            id: self.next_id as u64,
            tier: self.queue.pending,
            x: clamped(x, self.pit.min_x as int, self.pit.max_x as int) as i32,
            y: self.pit.drop_y,
            unsettled: true,
        }
    }

    /// The game after an accepted drop aimed at `x`.
    pub open spec fn after_drop(self, x: int) -> GameView {
        GameView {
            fruits: self.fruits.push(self.dropped(x)),
            queue: self.queue.advanced(),
            next_id: self.next_id + 1,
            ..self
        }
    }

    /// The game after loading has finished: a loading game runs, any other
    /// stays as it is.
    pub open spec fn started(self) -> GameView {
        if self.state == AppState::Loading {
            GameView { state: AppState::Running, ..self }
        } else {
            self
        }
    }

    /// The game after a request to pause: a running game is paused, any
    /// other stays as it is.
    pub open spec fn paused(self) -> GameView {
        if self.state == AppState::Running {
            GameView { state: AppState::Paused, ..self }
        } else {
            self
        }
    }

    /// The game after a request to resume: a paused game runs, any other
    /// stays as it is.
    pub open spec fn resumed(self) -> GameView {
        if self.state == AppState::Paused {
            GameView { state: AppState::Running, ..self }
        } else {
            self
        }
    }

    /// The game with the fruit `id`, where there is one, moved to `x`, `y`.
    pub open spec fn moved(self, id: u64, x: i32, y: i32) -> GameView {
        GameView {
            fruits: Seq::new(
                self.fruits.len(),
                |k: int|
                    if self.fruits[k].id == id {
                        FruitBody { x, y, ..self.fruits[k] }
                    } else {
                        self.fruits[k]
                    },
            ),
            ..self
        }
    }

    /// Whether the pit overflows: some settled fruit lies above the limit.
    pub open spec fn game_over(self) -> bool {
        overflows(self.fruits, self.pit.limit_y as int)
    }

    /// Whether one step on the contacts `batch` leads from this game to
    /// `next`, with `merges` made on the way. A game that is not running
    /// stays as it is. In a running game the fruits that touched settle,
    /// the merges are those that [`resolves`] fixes, each created fruit
    /// takes the next free identity, and the score grows by what the
    /// created fruits are worth. The queue is never touched.
    pub open spec fn steps_to(self, batch: Seq<Contact>, merges: Seq<Merge>, next: GameView) -> bool {
        if self.state != AppState::Running {
            next == self && merges.len() == 0
        } else {
            &&& next.state == self.state
            &&& next.pit == self.pit
            &&& next.queue == self.queue
            &&& resolves(self.fruits, batch, self.next_id, merges)
            &&& table_after(settled(self.fruits, batch), merges, next.fruits)
            &&& next.next_id == self.next_id + merges.len()
            &&& next.score == self.score + awarded(merges)
        }
    }
}

/// Whether some settled fruit of the table lies above `limit_y`. Fruits that
/// are still unsettled are passed over, however high they are: a fruit on
/// its way down ends no game.
pub fn check_game_over(fruits: &Vec<FruitBody>, limit_y: i32) -> (over: bool)
    ensures
        over == overflows(fruits@, limit_y as int),
{
    let mut k: usize = 0;
    while k < fruits.len()
        invariant
            0 <= k <= fruits.len(),
            forall|n: int| 0 <= n < k ==> (#[trigger] fruits[n]).unsettled || fruits[n].y <= limit_y,
        decreases fruits.len() - k,
    {
        let fruit: FruitBody = fruits[k];
        if !fruit.unsettled && fruit.y > limit_y {
            return true;
        }
        k += 1;
    }
    false
}

/// Whether some fruit of the table has not yet touched anything.
pub fn has_unsettled(fruits: &Vec<FruitBody>) -> (some: bool)
    ensures
        some == any_unsettled(fruits@),
{
    let mut k: usize = 0;
    while k < fruits.len()
        invariant
            0 <= k <= fruits.len(),
            forall|n: int| 0 <= n < k ==> !(#[trigger] fruits[n]).unsettled,
        decreases fruits.len() - k,
    {
        if fruits[k].unsettled {
            return true;
        }
        k += 1;
    }
    false
}

/// Sum of the scores of the fruits that the merges created.
pub fn tally(merges: &Vec<Merge>) -> (points: u64)
    requires
        merges.len() <= ID_LIMIT,
    ensures
        points == awarded(merges@),
        points <= MAX_TIER_SCORE * merges.len(),
{
    let mut points: u64 = 0;
    let mut k: usize = 0;
    while k < merges.len()
        invariant
            0 <= k <= merges.len(),
            merges.len() <= ID_LIMIT,
            points == awarded(merges@.take(k as int)),
            points <= MAX_TIER_SCORE * k,
        decreases merges.len() - k,
    {
        proof {
            assert(merges@.take(k + 1).drop_last() =~= merges@.take(k as int));
        }
        points = points + merges[k].created.tier.score() as u64;
        k += 1;
    }
    proof {
        assert(merges@.take(k as int) =~= merges@);
    }
    points
}

/// The game: the pit, the fruits in it, the spawn queue and the score.
#[derive(Debug)]
pub struct Game {
    state: AppState,
    pit: Pit,
    fruits: Vec<FruitBody>,
    queue: SpawnQueue,
    score: u64,
    next_id: u64,
}

impl View for Game {
    type V = GameView;

    closed spec fn view(&self) -> GameView {
        GameView {
            state: self.state,
            pit: self.pit,
            fruits: self.fruits@,
            queue: self.queue@,
            score: self.score as nat,
            next_id: self.next_id as nat,
        }
    }
}

impl Game {
    /// Well-formedness: see [`GameView::wf`].
    pub open spec fn wf(&self) -> bool {
        self@.wf()
    }

    /// A game that is still loading, with an empty pit, no score, the
    /// smallest tier pending and the queue's generator started from `seed`.
    pub fn new(pit: Pit, seed: u64) -> (game: Game)
        ensures
            game@ == (GameView {
                state: AppState::Loading,
                pit,
                fruits: Seq::empty(),
                queue: QueueView { pending: Fruit::Cherry, rng: seed },
                score: 0,
                next_id: 0,
            }),
            game.wf(),
    {
        Game {
            state: AppState::Loading,
            pit,
            fruits: Vec::new(),
            queue: SpawnQueue::new(seed),
            score: 0,
            next_id: 0,
        }
    }

    /// Ends loading: a loading game runs from now on.
    pub fn start(&mut self)
        requires
            old(self).wf(),
        ensures
            final(self)@ == old(self)@.started(),
            final(self).wf(),
    {
        if self.state == AppState::Loading {
            self.state = AppState::Running;
        }
    }

    /// Pauses a running game. Nothing but the state changes.
    pub fn pause(&mut self)
        requires
            old(self).wf(),
        ensures
            final(self)@ == old(self)@.paused(),
            final(self).wf(),
    {
        if self.state == AppState::Running {
            self.state = AppState::Paused;
        }
    }

    /// Resumes a paused game. Nothing but the state changes.
    pub fn resume(&mut self)
        requires
            old(self).wf(),
        ensures
            final(self)@ == old(self)@.resumed(),
            final(self).wf(),
    {
        if self.state == AppState::Paused {
            self.state = AppState::Running;
        }
    }

    /// Whether the game is loading, paused or running.
    pub fn state(&self) -> (state: AppState)
        ensures
            state == self@.state,
    {
        self.state
    }

    /// The pit that the game is played in.
    pub fn pit(&self) -> (pit: Pit)
        ensures
            pit == self@.pit,
    {
        self.pit
    }

    /// Sum of the scores awarded for all merges so far.
    pub fn score(&self) -> (score: u64)
        ensures
            score == self@.score,
    {
        self.score
    }

    /// Tier of the fruit that the next drop creates.
    pub fn pending(&self) -> (tier: Fruit)
        ensures
            tier == self@.queue.pending,
    {
        self.queue.peek()
    }

    /// The spawn queue.
    pub fn queue(&self) -> (queue: SpawnQueue)
        ensures
            queue@ == self@.queue,
    {
        self.queue
    }

    /// The fruits in the pit, by ascending identity.
    pub fn fruits(&self) -> (table: &Vec<FruitBody>)
        ensures
            table@ == self@.fruits,
    {
        &self.fruits
    }

    /// The fruit with identity `id`, or `None` where the pit holds no such
    /// fruit.
    pub fn fruit(&self, id: u64) -> (found: Option<FruitBody>)
        requires
            self.wf(),
        ensures
            found.is_some() == live(self@.fruits, id),
            found.is_some() ==> found.unwrap() == fruit_of(self@.fruits, id),
    {
        match find_slot(&self.fruits, id) {
            Some(k) => Some(self.fruits[k]),
            None => None,
        }
    }

    /// Whether the pit overflows: some settled fruit lies above the pit's
    /// limit. The game itself goes on; what follows is the caller's to say.
    pub fn check_game_over(&self) -> (over: bool)
        ensures
            over == self@.game_over(),
    {
        check_game_over(&self.fruits, self.pit.limit_y)
    }

    /// Drops a fruit of the pending tier, aimed at `x`. The drop is accepted
    /// only in a running game in which no fruit is still unsettled. The new
    /// fruit appears at the drop height, at `x` brought within the pit's
    /// bounds, and is unsettled; the queue draws the tier after it. Returns
    /// the identity of the new fruit, or `None` where the drop was not
    /// accepted: then nothing changes, and nothing is kept for later.
    pub fn try_drop(&mut self, x: i32) -> (dropped: Option<u64>)
        requires
            old(self).wf(),
        ensures
            final(self).wf(),
            dropped.is_some() == old(self)@.can_drop(),
            old(self)@.can_drop() ==> final(self)@ == old(self)@.after_drop(x as int) && dropped
                == Some(old(self)@.next_id as u64),
            !old(self)@.can_drop() ==> final(self)@ == old(self)@,
    {
        if self.state != AppState::Running {
            return None;
        }
        if has_unsettled(&self.fruits) {
            return None;
        }
        if self.fruits.len() as u64 + 2 > ID_LIMIT - self.next_id {
            return None;
        }
        let id: u64 = self.next_id;
        let fruit = FruitBody {
            id,
            tier: self.queue.peek(),
            x: self.pit.clamp_x(x),
            y: self.pit.drop_y,
            unsettled: true,
        };
        self.fruits.push(fruit);
        self.queue.advance();
        self.next_id = id + 1;
        Some(id)
    }

    /// Takes the position of the fruit `id` from the simulation. Returns
    /// whether a fruit was moved: none is where the game is not running or
    /// the pit holds no such fruit.
    pub fn set_position(&mut self, id: u64, x: i32, y: i32) -> (moved: bool)
        requires
            old(self).wf(),
        ensures
            final(self).wf(),
            moved == (old(self)@.state == AppState::Running && live(
                old(self)@.fruits,
                id,
            )),
            final(self)@ == if old(self)@.state == AppState::Running {
                old(self)@.moved(id, x, y)
            } else {
                old(self)@
            },
    {
        if self.state != AppState::Running {
            return false;
        }
        match find_slot(&self.fruits, id) {
            Some(k) => {
                let fruit: FruitBody = self.fruits[k];
                self.fruits.set(k, FruitBody { x, y, ..fruit });
                proof {
                    assert forall|n: int| 0 <= n < self.fruits.len() implies self.fruits@[n] == old(
                        self,
                    )@.moved(id, x, y).fruits[n] by {
                        if n != k {
                            lemma_slot_of(old(self).fruits@, n);
                        }
                    }
                    assert(self.fruits@ =~= old(self)@.moved(id, x, y).fruits);
                }
                true
            },
            None => {
                proof {
                    assert(self.fruits@ =~= old(self)@.moved(id, x, y).fruits);
                }
                false
            },
        }
    }

    /// Takes the contacts that the simulation reported for one step. A game
    /// that is not running ignores them. In a running game every fruit that
    /// touched another body settles, the touching pairs merge as
    /// [`resolve_contacts`] says, and the score grows by what the created
    /// fruits are worth. Returns the merges in the order in which they were
    /// made.
    pub fn step(&mut self, batch: &Vec<Contact>) -> (merges: Vec<Merge>)
        requires
            old(self).wf(),
        ensures
            final(self).wf(),
            old(self)@.steps_to(batch@, merges@, final(self)@),
    {
        if self.state != AppState::Running {
            return Vec::new();
        }
        let (after, merges) = resolve_contacts(&self.fruits, batch, self.next_id);
        proof {
            lemma_step_keeps_one_unsettled(
                self.fruits@,
                batch@,
                self.next_id as nat,
                merges@,
                after@,
            );
        }
        let gained: u64 = tally(&merges);
        self.fruits = after;
        self.next_id = self.next_id + merges.len() as u64;
        self.score = self.score + gained;
        merges
    }
}

} // verus!
