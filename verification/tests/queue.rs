use fruit_pit::queue::SpawnQueue;
use fruit_pit::tier::{Fruit, DROP_TIER_COUNT};

#[test]
fn new_queue_holds_the_smallest_tier() {
    let queue = SpawnQueue::new(12345);
    assert_eq!(queue.peek(), Fruit::Cherry);
    assert_eq!(queue.rng_state(), 12345);
}

#[test]
fn peek_leaves_the_queue_alone() {
    let queue = SpawnQueue::new(7);
    assert_eq!(queue.peek(), queue.peek());
    assert_eq!(queue.rng_state(), 7);
}

#[test]
fn advance_makes_one_step_of_the_generator() {
    let mut queue = SpawnQueue::new(0);
    queue.advance();
    assert_eq!(queue.rng_state(), 1442695040888963407);
    assert_eq!(queue.peek(), Fruit::Grapes);
}

#[test]
fn advance_follows_the_seed() {
    let expected: Vec<usize> = vec![2, 4, 2, 1, 0, 1];
    let mut queue = SpawnQueue::new(0);
    for want in expected {
        queue.advance();
        assert_eq!(queue.peek().index(), want);
    }
    assert_eq!(queue.rng_state(), 10346034117385188870);
}

#[test]
fn advance_follows_another_seed() {
    let expected: Vec<usize> = vec![4, 1, 3, 3, 4, 1];
    let mut queue = SpawnQueue::new(42);
    for want in expected {
        queue.advance();
        assert_eq!(queue.peek().index(), want);
    }
    assert_eq!(queue.rng_state(), 483838003013946848);
}

#[test]
fn same_seed_gives_the_same_tiers() {
    let mut one = SpawnQueue::new(987654321);
    let mut two = SpawnQueue::new(987654321);
    for _ in 0..200 {
        one.advance();
        two.advance();
        assert_eq!(one.peek(), two.peek());
        assert_eq!(one.rng_state(), two.rng_state());
    }
}

#[test]
fn pending_tier_is_always_a_low_one() {
    for seed in 0..50u64 {
        let mut queue = SpawnQueue::new(seed * 7919);
        for _ in 0..200 {
            queue.advance();
            assert!(queue.peek().index() < DROP_TIER_COUNT);
        }
    }
}

#[test]
fn every_low_tier_is_drawn() {
    let mut seen: Vec<bool> = vec![false; DROP_TIER_COUNT];
    let mut queue = SpawnQueue::new(1);
    for _ in 0..500 {
        queue.advance();
        seen[queue.peek().index()] = true;
    }
    assert!(seen.iter().all(|s| *s));
}

#[test]
fn generator_wraps_at_the_top_of_its_range() {
    let mut queue = SpawnQueue::new(u64::MAX);
    queue.advance();
    let want: u64 = 1442695040888963407u64.wrapping_sub(6364136223846793005);
    assert_eq!(queue.rng_state(), want);
    assert_eq!(queue.peek().index(), ((want >> 33) % 5) as usize);
}
