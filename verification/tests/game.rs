use fruit_pit::body::{Body, Contact, FruitBody, Merge, Pit};
use fruit_pit::game::{check_game_over, has_unsettled, tally, AppState, Game};
use fruit_pit::tier::Fruit;

const CHERRY_SEED: u64 = 9108;

fn pit() -> Pit {
    Pit { min_x: -100, max_x: 100, drop_y: 300, limit_y: 200 }
}

fn running(seed: u64) -> Game {
    let mut game = Game::new(pit(), seed);
    game.start();
    game
}

fn touch(a: u64, b: u64) -> Contact {
    Contact { a: Body::Fruit(a), b: Body::Fruit(b) }
}

fn floor(a: u64) -> Contact {
    Contact { a: Body::Fruit(a), b: Body::Fixture }
}

fn drop_and_land(game: &mut Game, x: i32, y: i32) -> u64 {
    let id: u64 = game.try_drop(x).unwrap();
    assert!(game.set_position(id, x, y));
    let merges = game.step(&vec![floor(id)]);
    assert!(merges.is_empty());
    id
}

#[test]
fn new_game_is_loading_and_empty() {
    let game = Game::new(pit(), 5);
    assert_eq!(game.state(), AppState::Loading);
    assert_eq!(game.score(), 0);
    assert_eq!(game.pending(), Fruit::Cherry);
    assert!(game.fruits().is_empty());
    assert_eq!(game.pit(), pit());
    assert!(!game.check_game_over());
    assert_eq!(AppState::default(), AppState::Loading);
}

#[test]
fn start_runs_a_loading_game_only() {
    let mut game = Game::new(pit(), 5);
    game.start();
    assert_eq!(game.state(), AppState::Running);
    game.pause();
    game.start();
    assert_eq!(game.state(), AppState::Paused);
}

#[test]
fn drop_while_settled_creates_the_pending_fruit() {
    let mut game = running(0);
    let pending = game.pending();
    let id = game.try_drop(17);
    assert_eq!(id, Some(0));
    assert_eq!(
        game.fruits().clone(),
        vec![FruitBody { id: 0, tier: pending, x: 17, y: 300, unsettled: true }]
    );
    assert_eq!(game.pending(), Fruit::Grapes);
    assert_eq!(game.queue().rng_state(), 1442695040888963407);
}

#[test]
fn drop_while_unsettled_is_rejected() {
    let mut game = running(0);
    assert_eq!(game.try_drop(0), Some(0));
    let pending = game.pending();
    let state: u64 = game.queue().rng_state();
    let table = game.fruits().clone();
    assert_eq!(game.try_drop(5), None);
    assert_eq!(game.pending(), pending);
    assert_eq!(game.queue().rng_state(), state);
    assert_eq!(game.fruits().clone(), table);
}

#[test]
fn rejected_drop_is_not_kept_for_later() {
    let mut game = running(0);
    assert_eq!(game.try_drop(0), Some(0));
    assert_eq!(game.try_drop(5), None);
    let merges = game.step(&vec![floor(0)]);
    assert!(merges.is_empty());
    assert_eq!(game.fruits().len(), 1);
    assert!(!game.fruits()[0].unsettled);
}

#[test]
fn next_drop_is_accepted_after_the_first_contact() {
    let mut game = running(0);
    assert_eq!(game.try_drop(0), Some(0));
    assert_eq!(game.try_drop(0), None);
    game.step(&Vec::new());
    assert_eq!(game.try_drop(0), None);
    game.step(&vec![floor(0)]);
    assert_eq!(game.try_drop(50), Some(1));
    assert_eq!(game.fruits()[1].tier, Fruit::Grapes);
    assert_eq!(game.pending(), Fruit::Persimmon);
}

#[test]
fn settled_fruit_stays_settled() {
    let mut game = running(0);
    let id: u64 = drop_and_land(&mut game, 0, 4);
    game.step(&Vec::new());
    game.step(&vec![floor(id)]);
    assert!(!game.fruit(id).unwrap().unsettled);
}

#[test]
fn drop_is_a_no_op_while_loading_or_paused() {
    let mut game = Game::new(pit(), 0);
    assert_eq!(game.try_drop(0), None);
    assert!(game.fruits().is_empty());
    assert_eq!(game.pending(), Fruit::Cherry);
    game.start();
    game.pause();
    assert_eq!(game.try_drop(0), None);
    assert!(game.fruits().is_empty());
    assert_eq!(game.queue().rng_state(), 0);
    game.resume();
    assert_eq!(game.try_drop(0), Some(0));
}

#[test]
fn drop_is_clamped_to_the_pit() {
    let mut game = running(CHERRY_SEED);
    let left: u64 = game.try_drop(-5000).unwrap();
    assert_eq!(game.fruit(left).unwrap().x, -100);
    game.step(&vec![floor(left)]);
    let right: u64 = game.try_drop(5000).unwrap();
    assert_eq!(game.fruit(right).unwrap().x, 100);
    assert_eq!(game.fruit(right).unwrap().y, 300);
}

#[test]
fn two_cherries_merge_into_a_strawberry() {
    let mut game = running(CHERRY_SEED);
    let a: u64 = drop_and_land(&mut game, -10, 4);
    let b: u64 = game.try_drop(10).unwrap();
    assert!(game.set_position(b, -4, 6));
    let merges = game.step(&vec![touch(b, a)]);
    let made = FruitBody { id: 2, tier: Fruit::Strawberry, x: -7, y: 5, unsettled: false };
    assert_eq!(merges, vec![Merge { first: a, second: b, created: made }]);
    assert_eq!(game.fruits().clone(), vec![made]);
    assert_eq!(game.score(), 3);
    assert_eq!(game.fruit(a), None);
    assert_eq!(game.fruit(b), None);
}

#[test]
fn merge_does_not_advance_the_queue() {
    let mut game = running(CHERRY_SEED);
    let a: u64 = drop_and_land(&mut game, -10, 4);
    let b: u64 = game.try_drop(10).unwrap();
    let pending = game.pending();
    let state: u64 = game.queue().rng_state();
    assert_eq!(game.step(&vec![touch(a, b)]).len(), 1);
    assert_eq!(game.pending(), pending);
    assert_eq!(game.queue().rng_state(), state);
}

#[test]
fn score_adds_up_over_merges() {
    let mut game = running(CHERRY_SEED);
    let a: u64 = drop_and_land(&mut game, -40, 4);
    let b: u64 = drop_and_land(&mut game, -30, 4);
    assert_eq!(game.step(&vec![touch(a, b)]).len(), 1);
    assert_eq!(game.score(), 3);
    let c: u64 = drop_and_land(&mut game, 30, 4);
    let d: u64 = drop_and_land(&mut game, 40, 4);
    assert_eq!(game.step(&vec![touch(c, d)]).len(), 1);
    assert_eq!(game.score(), 6);
    let merges = game.step(&vec![touch(2, 5)]);
    assert_eq!(merges.len(), 1);
    assert_eq!(merges[0].created.tier, Fruit::Grapes);
    assert_eq!(merges[0].created.x, 0);
    assert_eq!(game.score(), 12);
    assert_eq!(game.fruits().len(), 1);
}

#[test]
fn score_never_goes_down() {
    let mut game = running(3);
    let mut last: u64 = 0;
    let mut landed: Vec<u64> = Vec::new();
    for round in 0..60i32 {
        if let Some(id) = game.try_drop(round * 7 - 200) {
            landed.push(id);
        }
        let mut batch: Vec<Contact> = Vec::new();
        for id in landed.iter() {
            batch.push(floor(*id));
        }
        for i in 0..landed.len() {
            for j in 0..i {
                batch.push(touch(landed[i], landed[j]));
            }
        }
        let merges = game.step(&batch);
        for merge in merges.iter() {
            landed.retain(|id| *id != merge.first && *id != merge.second);
            landed.push(merge.created.id);
        }
        assert_eq!(game.score(), last + tally(&merges));
        assert!(game.score() >= last);
        last = game.score();
        assert_eq!(game.fruits().len(), landed.len());
    }
    assert!(last > 0);
}

#[test]
fn tally_sums_the_created_tiers() {
    let cherry = FruitBody { id: 0, tier: Fruit::Cherry, x: 0, y: 0, unsettled: false };
    let merges = vec![
        Merge { first: 0, second: 1, created: FruitBody { tier: Fruit::Strawberry, ..cherry } },
        Merge { first: 2, second: 3, created: FruitBody { tier: Fruit::Watermelon, ..cherry } },
        Merge { first: 4, second: 5, created: FruitBody { tier: Fruit::Grapes, ..cherry } },
    ];
    assert_eq!(tally(&merges), 3 + 66 + 6);
    assert_eq!(tally(&Vec::new()), 0);
}

#[test]
fn step_is_ignored_unless_running() {
    let mut game = running(CHERRY_SEED);
    let a: u64 = drop_and_land(&mut game, -10, 4);
    let b: u64 = game.try_drop(10).unwrap();
    game.pause();
    let table = game.fruits().clone();
    assert!(game.step(&vec![touch(a, b)]).is_empty());
    assert_eq!(game.fruits().clone(), table);
    assert_eq!(game.score(), 0);
    assert!(!game.set_position(a, 1, 1));
    assert_eq!(game.fruits().clone(), table);
    game.resume();
    assert_eq!(game.step(&vec![touch(a, b)]).len(), 1);
}

#[test]
fn pause_and_resume_change_nothing_but_the_state() {
    let mut game = running(77);
    drop_and_land(&mut game, -10, 4);
    drop_and_land(&mut game, 30, 4);
    game.try_drop(0);
    let table = game.fruits().clone();
    let pending = game.pending();
    let state: u64 = game.queue().rng_state();
    let score: u64 = game.score();
    game.pause();
    assert_eq!(game.state(), AppState::Paused);
    game.pause();
    assert_eq!(game.state(), AppState::Paused);
    game.resume();
    assert_eq!(game.state(), AppState::Running);
    assert_eq!(game.fruits().clone(), table);
    assert_eq!(game.pending(), pending);
    assert_eq!(game.queue().rng_state(), state);
    assert_eq!(game.score(), score);
}

#[test]
fn resume_does_not_start_a_loading_game() {
    let mut game = Game::new(pit(), 1);
    game.resume();
    assert_eq!(game.state(), AppState::Loading);
    game.pause();
    assert_eq!(game.state(), AppState::Loading);
}

#[test]
fn game_is_over_when_a_settled_fruit_is_above_the_limit() {
    let mut game = running(0);
    let id: u64 = drop_and_land(&mut game, 0, 150);
    assert!(!game.check_game_over());
    assert!(game.set_position(id, 0, 200));
    assert!(!game.check_game_over());
    assert!(game.set_position(id, 0, 201));
    assert!(game.check_game_over());
}

#[test]
fn falling_fruit_above_the_limit_ends_no_game() {
    let mut game = running(0);
    let id: u64 = game.try_drop(0).unwrap();
    assert_eq!(game.fruit(id).unwrap().y, 300);
    assert!(!game.check_game_over());
    game.step(&vec![floor(id)]);
    assert!(game.check_game_over());
}

#[test]
fn check_game_over_on_a_table() {
    let low = FruitBody { id: 0, tier: Fruit::Cherry, x: 0, y: 10, unsettled: false };
    let high = FruitBody { id: 1, tier: Fruit::Cherry, x: 0, y: 90, unsettled: false };
    let falling = FruitBody { id: 2, tier: Fruit::Cherry, x: 0, y: 90, unsettled: true };
    assert!(!check_game_over(&Vec::new(), 50));
    assert!(!check_game_over(&vec![low], 50));
    assert!(!check_game_over(&vec![low, falling], 50));
    assert!(check_game_over(&vec![low, falling, high], 50));
    assert!(check_game_over(&vec![high, low], 50));
    assert!(!check_game_over(&vec![high], 90));
    assert!(check_game_over(&vec![high], 89));
}

#[test]
fn has_unsettled_finds_a_falling_fruit() {
    let low = FruitBody { id: 0, tier: Fruit::Cherry, x: 0, y: 10, unsettled: false };
    let falling = FruitBody { id: 2, tier: Fruit::Cherry, x: 0, y: 90, unsettled: true };
    assert!(!has_unsettled(&Vec::new()));
    assert!(!has_unsettled(&vec![low]));
    assert!(has_unsettled(&vec![low, falling]));
}

#[test]
fn set_position_moves_one_fruit() {
    let mut game = running(CHERRY_SEED);
    let a: u64 = drop_and_land(&mut game, -10, 4);
    let b: u64 = drop_and_land(&mut game, 10, 4);
    assert!(game.set_position(b, 33, 44));
    assert_eq!(game.fruit(b).unwrap().x, 33);
    assert_eq!(game.fruit(b).unwrap().y, 44);
    assert_eq!(game.fruit(a).unwrap().x, -10);
    assert!(!game.set_position(99, 1, 1));
    assert_eq!(game.fruits().len(), 2);
}

#[test]
fn identities_are_never_given_twice() {
    let mut game = running(CHERRY_SEED);
    let a: u64 = drop_and_land(&mut game, -10, 4);
    let b: u64 = drop_and_land(&mut game, 10, 4);
    let merges = game.step(&vec![touch(a, b)]);
    assert_eq!(merges[0].created.id, 2);
    let c: u64 = game.try_drop(0).unwrap();
    assert_eq!(c, 3);
}

#[test]
fn paused_game_stays_as_it_is_whatever_is_asked() {
    let mut game = running(CHERRY_SEED);
    let a: u64 = drop_and_land(&mut game, -10, 4);
    let b: u64 = drop_and_land(&mut game, 10, 4);
    game.pause();
    let table = game.fruits().clone();
    let state: u64 = game.queue().rng_state();
    for round in 0..10i32 {
        assert_eq!(game.try_drop(round), None);
        assert!(game.step(&vec![touch(a, b), floor(a)]).is_empty());
        assert!(!game.set_position(a, round, round));
        game.pause();
        game.start();
    }
    game.resume();
    assert_eq!(game.state(), AppState::Running);
    assert_eq!(game.fruits().clone(), table);
    assert_eq!(game.queue().rng_state(), state);
    assert_eq!(game.pending(), Fruit::Cherry);
    assert_eq!(game.score(), 0);
}

#[test]
fn only_one_fruit_falls_at_a_time() {
    let mut game = running(11);
    for round in 0..40i32 {
        let dropped = game.try_drop(round);
        let falling: usize = game.fruits().iter().filter(|f| f.unsettled).count();
        assert!(falling <= 1);
        if round % 3 == 0 {
            if let Some(id) = dropped {
                game.step(&vec![floor(id)]);
            }
        }
    }
}

#[test]
fn table_stays_sorted_by_identity() {
    let mut game = running(CHERRY_SEED);
    let a: u64 = drop_and_land(&mut game, -40, 4);
    let b: u64 = drop_and_land(&mut game, -30, 4);
    let c: u64 = drop_and_land(&mut game, 30, 4);
    assert_eq!(game.step(&vec![touch(a, b)]).len(), 1);
    let ids: Vec<u64> = game.fruits().iter().map(|f| f.id).collect();
    assert_eq!(ids, vec![c, 3]);
}

#[test]
fn rounded_midpoint_of_an_odd_sum() {
    let mut game = running(CHERRY_SEED);
    let a: u64 = drop_and_land(&mut game, 1, -3);
    let b: u64 = drop_and_land(&mut game, 2, -4);
    let merges = game.step(&vec![touch(a, b)]);
    assert_eq!(merges[0].created.x, 1);
    assert_eq!(merges[0].created.y, -4);
}
