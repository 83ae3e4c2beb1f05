//! The game as a sequence of events: what each event does to the game, and
//! the laws that hold of every game however it was played.

use vstd::prelude::*;
use crate::body::{
    any_unsettled, fruit_of, lemma_live_slot, lemma_slot_of, live, slot, Contact, FruitBody, Merge,
};
use crate::game::{awarded, overflows, AppState, GameView};
use crate::merge::{entry_sound, settled};
use crate::merge_laws::{lemma_merges_are_determined, lemma_table_is_determined};
use crate::queue::{lemma_draw_in_range, next_state};
use crate::resolve::{created_by, lemma_step_keeps_one_unsettled};
use crate::tier::{DROP_TIER_COUNT, MAX_TIER_SCORE};

verus! {

/// What can happen to a game.
pub enum Event {
    /// Loading has finished.
    Start,
    /// The player asks for a pause.
    Pause,
    /// The player asks to go on.
    Resume,
    /// The player asks for a drop aimed at `x`.
    Drop { x: i32 },
    /// The simulation reports where the fruit `id` is.
    Move { id: u64, x: i32, y: i32 },
    /// The simulation reports the contacts of one step, and the resolver
    /// makes `merges`.
    Step { batch: Seq<Contact>, merges: Seq<Merge> },
}

/// Points that an event awards: what its merges are worth for a step,
/// nothing for any other event.
pub open spec fn gained(event: Event) -> nat {
    match event {
        Event::Step { batch, merges } => awarded(merges),
        _ => 0,
    }
}

/// Points that a sequence of events awards.
pub open spec fn total_gained(events: Seq<Event>) -> nat
    decreases events.len(),
{
    if events.len() == 0 {
        0
    } else {
        total_gained(events.drop_last()) + gained(events.last())
    }
}

impl GameView {
    /// Whether the event leads from this game to `next`.
    #[verifier::opaque]
    pub open spec fn moves_to(self, event: Event, next: GameView) -> bool {
        match event {
            Event::Start => next == self.started(),
            Event::Pause => next == self.paused(),
            Event::Resume => next == self.resumed(),
            Event::Drop { x } => next == if self.can_drop() {
                self.after_drop(x as int)
            } else {
                self
            },
            Event::Move { id, x, y } => next == if self.state == AppState::Running {
                self.moved(id, x, y)
            } else {
                self
            },
            Event::Step { batch, merges } => self.steps_to(batch, merges, next),
        }
    }
}

/// Whether `games` are the states that a game goes through under `events`,
/// one after the other.
pub open spec fn is_run(games: Seq<GameView>, events: Seq<Event>) -> bool {
    &&& games.len() == events.len() + 1
    &&& forall|i: int|
        0 <= i < events.len() ==> (#[trigger] games[i]).moves_to(events[i], games[i + 1])
}

/// The merges of a list award at most the largest tier's score each.
pub proof fn lemma_awarded_bound(merges: Seq<Merge>)
    ensures
        awarded(merges) <= MAX_TIER_SCORE * merges.len(),
    decreases merges.len(),
{
    if merges.len() > 0 {
        lemma_awarded_bound(merges.drop_last());
    }
}

/// A step keeps a game well formed.
pub proof fn lemma_step_keeps_wf(
    game: GameView,
    batch: Seq<Contact>,
    merges: Seq<Merge>,
    next: GameView,
)
    requires
        game.wf(),
        game.steps_to(batch, merges, next),
    ensures
        next.wf(),
{
    if game.state == AppState::Running {
        lemma_awarded_bound(merges);
        lemma_step_keeps_one_unsettled(game.fruits, batch, game.next_id, merges, next.fruits);
        let table = settled(game.fruits, batch);
        assert forall|n: int| 0 <= n < next.fruits.len() implies (#[trigger] next.fruits[n]).id
            < next.next_id by {
            let f = next.fruits[n];
            assert(next.fruits.contains(f));
            if created_by(merges, f) {
                let c = choose|c: int| 0 <= c < merges.len() && (#[trigger] merges[c]).created == f;
                assert(entry_sound(game.fruits, batch, game.next_id, merges, c));
            } else {
                let x = choose|x: int| 0 <= x < table.len() && table[x] == f;
                assert(game.fruits[x].id < game.next_id);
            }
        }
    }
}

/// Every event keeps a game well formed: what holds of a new game holds of
/// every game that is reached from it.
pub proof fn lemma_event_keeps_wf(game: GameView, event: Event, next: GameView)
    requires
        game.wf(),
        game.moves_to(event, next),
    ensures
        next.wf(),
{
    reveal(GameView::moves_to);
    match event {
        Event::Step { batch, merges } => {
            lemma_step_keeps_wf(game, batch, merges, next);
        },
        Event::Drop { x } => {
            if game.can_drop() {
                lemma_draw_in_range(next_state(game.queue.rng));
            }
        },
        _ => {},
    }
}

/// The score never falls: an event adds to it what its merges are worth,
/// and nothing where it made none.
pub proof fn lemma_score_never_falls(game: GameView, event: Event, next: GameView)
    requires
        game.moves_to(event, next),
    ensures
        next.score == game.score + gained(event),
        next.score >= game.score,
{
    reveal(GameView::moves_to);
}

/// Over any sequence of events the score is what it was at the start plus
/// what all merges since were worth, and it is at no time less than it was
/// at an earlier time.
pub proof fn lemma_score_over_run(games: Seq<GameView>, events: Seq<Event>)
    requires
        is_run(games, events),
    ensures
        games.last().score == games[0].score + total_gained(events),
        forall|i: int, j: int|
            0 <= i <= j < games.len() ==> (#[trigger] games[i]).score <= (#[trigger] games[j]).score,
    decreases events.len(),
{
    if events.len() > 0 {
        let n = events.len() as int;
        let earlier = games.drop_last();
        let before = events.drop_last();
        assert forall|i: int| 0 <= i < before.len() implies (#[trigger] earlier[i]).moves_to(
            before[i],
            earlier[i + 1],
        ) by {
            assert(games[i].moves_to(events[i], games[i + 1]));
        }
        lemma_score_over_run(earlier, before);
        assert(games[n - 1].moves_to(events[n - 1], games[n]));
        lemma_score_never_falls(games[n - 1], events[n - 1], games[n]);
        assert(earlier.last() == games[n - 1]);
        assert forall|i: int, j: int| 0 <= i <= j < games.len() implies (#[trigger] games[i]).score
            <= (#[trigger] games[j]).score by {
            if j < n {
                assert(earlier[i].score <= earlier[j].score);
            } else if i < n {
                assert(earlier[i].score <= earlier[n - 1].score);
            }
        }
    }
}

/// Pausing a running game and resuming it gives the game back as it was:
/// fruits, positions, pending tier, generator and score.
pub proof fn lemma_pause_then_resume(game: GameView)
    requires
        game.state == AppState::Running,
    ensures
        game.paused().state == AppState::Paused,
        game.paused().resumed() == game,
{
}

/// A paused game is frozen: whatever happens but a request to resume, it
/// stays as it is.
pub proof fn lemma_paused_game_is_frozen(game: GameView, event: Event, next: GameView)
    requires
        game.state == AppState::Paused,
        event != Event::Resume,
        game.moves_to(event, next),
    ensures
        next == game,
{
    reveal(GameView::moves_to);
}

/// A running game that is paused, goes through any number of events that
/// are no request to resume, and is then resumed, is the game that was
/// paused.
pub proof fn lemma_pause_resume_over_run(game: GameView, games: Seq<GameView>, events: Seq<Event>)
    requires
        game.state == AppState::Running,
        is_run(games, events),
        games[0] == game.paused(),
        forall|i: int| 0 <= i < events.len() ==> #[trigger] events[i] != Event::Resume,
    ensures
        forall|i: int| 0 <= i < games.len() ==> #[trigger] games[i] == game.paused(),
        games.last().resumed() == game,
    decreases events.len(),
{
    if events.len() > 0 {
        let n = events.len() as int;
        let earlier = games.drop_last();
        let before = events.drop_last();
        assert forall|i: int| 0 <= i < before.len() implies (#[trigger] earlier[i]).moves_to(
            before[i],
            earlier[i + 1],
        ) by {
            assert(games[i].moves_to(events[i], games[i + 1]));
        }
        assert forall|i: int| 0 <= i < before.len() implies #[trigger] before[i]
            != Event::Resume by {
            assert(events[i] != Event::Resume);
        }
        lemma_pause_resume_over_run(game, earlier, before);
        assert(games[n - 1] == earlier[n - 1]);
        assert(games[n - 1].moves_to(events[n - 1], games[n]));
        assert(events[n - 1] != Event::Resume);
        lemma_paused_game_is_frozen(games[n - 1], events[n - 1], games[n]);
        assert forall|i: int| 0 <= i < games.len() implies #[trigger] games[i]
            == game.paused() by {
            if i < n {
                assert(earlier[i] == game.paused());
            }
        }
    }
}

/// A game that is loading or paused takes no drop and no step.
pub proof fn lemma_idle_game_ignores_play(game: GameView, event: Event, next: GameView)
    requires
        game.state != AppState::Running,
        event is Drop || event is Step || event is Move,
        game.moves_to(event, next),
    ensures
        next == game,
        gained(event) == 0,
{
    reveal(GameView::moves_to);
}

/// A drop that is asked for while a fruit is unsettled creates no fruit and
/// leaves the queue as it is.
pub proof fn lemma_drop_is_rejected_while_unsettled(game: GameView, x: i32, next: GameView)
    requires
        any_unsettled(game.fruits),
        game.moves_to(Event::Drop { x }, next),
    ensures
        !game.can_drop(),
        next == game,
{
    reveal(GameView::moves_to);
}

/// An accepted drop adds one fruit: of the tier that was pending, unsettled,
/// at the drop height, and within the pit's bounds where the left bound is
/// not right of the right one. After it the queue holds a tier that may be
/// dropped, and no further drop is accepted until that fruit has settled.
pub proof fn lemma_accepted_drop(game: GameView, x: i32)
    requires
        game.wf(),
        game.can_drop(),
    ensures
        ({
            let next = game.after_drop(x as int);
            let fruit = next.fruits.last();
            &&& next.fruits.len() == game.fruits.len() + 1
            &&& next.fruits.drop_last() == game.fruits
            &&& fruit.id == game.next_id
            &&& fruit.tier == game.queue.pending
            &&& fruit.unsettled
            &&& fruit.y == game.pit.drop_y
            &&& game.pit.min_x <= game.pit.max_x ==> game.pit.min_x <= fruit.x <= game.pit.max_x
            &&& game.pit.min_x <= x <= game.pit.max_x ==> fruit.x == x
            &&& next.queue.pending.ordinal() < DROP_TIER_COUNT
            &&& next.score == game.score
            &&& !next.can_drop()
        }),
{
    let next = game.after_drop(x as int);
    lemma_draw_in_range(next_state(game.queue.rng));
    assert(next.fruits.drop_last() =~= game.fruits);
    assert(next.fruits[game.fruits.len() as int].unsettled);
}

/// The pit does not overflow while every settled fruit is at or below the
/// limit, and overflows as soon as one settled fruit is above it. Fruits
/// that are still unsettled do not count, wherever they are.
pub proof fn lemma_overflow_is_of_settled_fruits(fruits: Seq<FruitBody>, limit_y: int)
    ensures
        (forall|k: int|
            0 <= k < fruits.len() && !(#[trigger] fruits[k]).unsettled ==> fruits[k].y <= limit_y)
            ==> !overflows(fruits, limit_y),
        (exists|k: int|
            0 <= k < fruits.len() && !(#[trigger] fruits[k]).unsettled && fruits[k].y > limit_y)
            ==> overflows(fruits, limit_y),
        (forall|k: int| 0 <= k < fruits.len() ==> (#[trigger] fruits[k]).unsettled) ==> !overflows(
            fruits,
            limit_y,
        ),
{
}

/// A fruit keeps its tier for as long as it is in the pit, and once settled
/// it stays settled: no event changes the tier of a fruit that is there
/// before and after it, nor unsettles it.
pub proof fn lemma_fruit_keeps_tier_and_stays_settled(
    game: GameView,
    event: Event,
    next: GameView,
    id: u64,
)
    requires
        game.wf(),
        game.moves_to(event, next),
        live(game.fruits, id),
        live(next.fruits, id),
    ensures
        fruit_of(next.fruits, id).tier == fruit_of(game.fruits, id).tier,
        !fruit_of(game.fruits, id).unsettled ==> !fruit_of(next.fruits, id).unsettled,
{
    reveal(GameView::moves_to);
    lemma_event_keeps_wf(game, event, next);
    lemma_live_slot(game.fruits, id);
    lemma_live_slot(next.fruits, id);
    let s = slot(game.fruits, id);
    lemma_slot_of(game.fruits, s);
    match event {
        Event::Step { batch, merges } => {
            if game.state == AppState::Running {
                let table = settled(game.fruits, batch);
                let f = fruit_of(next.fruits, id);
                assert(next.fruits.contains(f));
                if created_by(merges, f) {
                    let c = choose|c: int|
                        0 <= c < merges.len() && (#[trigger] merges[c]).created == f;
                    assert(entry_sound(game.fruits, batch, game.next_id, merges, c));
                    assert(f.id == game.next_id + c);
                    assert(game.fruits[s].id < game.next_id);
                    assert(false);
                } else {
                    let x = choose|x: int| 0 <= x < table.len() && table[x] == f;
                    lemma_slot_of(game.fruits, x);
                }
            }
        },
        Event::Drop { x } => {
            if game.can_drop() {
                lemma_slot_of(next.fruits, s);
                assert(next.fruits[s] == game.fruits[s]);
            }
        },
        Event::Move { id: moved, x, y } => {
            if game.state == AppState::Running {
                lemma_slot_of(next.fruits, s);
            }
        },
        _ => {},
    }
}

/// A step is fixed by the game and the contacts: there is one list of
/// merges and one game that it can lead to.
pub proof fn lemma_step_is_determined(
    game: GameView,
    batch: Seq<Contact>,
    merges: Seq<Merge>,
    next: GameView,
    other_merges: Seq<Merge>,
    other_next: GameView,
)
    requires
        game.steps_to(batch, merges, next),
        game.steps_to(batch, other_merges, other_next),
    ensures
        merges == other_merges,
        next == other_next,
{
    if game.state == AppState::Running {
        lemma_merges_are_determined(game.fruits, batch, game.next_id, merges, other_merges);
        lemma_table_is_determined(
            settled(game.fruits, batch),
            merges,
            next.fruits,
            other_next.fruits,
        );
    } else {
        assert(merges =~= other_merges);
    }
}

} // verus!
