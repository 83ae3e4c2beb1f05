use fruit_pit::body::{halfway, Body, Contact, FruitBody, Merge, Pit};
use fruit_pit::merge::{contact_between, find_slot, pair_up, touched_flags};
use fruit_pit::resolve::resolve_contacts;
use fruit_pit::tier::Fruit;

fn fruit(id: u64, tier: Fruit, x: i32, y: i32) -> FruitBody {
    FruitBody { id, tier, x, y, unsettled: false }
}

fn falling(id: u64, tier: Fruit, x: i32, y: i32) -> FruitBody {
    FruitBody { id, tier, x, y, unsettled: true }
}

fn touch(a: u64, b: u64) -> Contact {
    Contact { a: Body::Fruit(a), b: Body::Fruit(b) }
}

fn floor(a: u64) -> Contact {
    Contact { a: Body::Fruit(a), b: Body::Fixture }
}

#[test]
fn two_equal_fruits_become_one_of_the_next_tier() {
    let tiers: Vec<Fruit> = vec![
        Fruit::Cherry,
        Fruit::Strawberry,
        Fruit::Grapes,
        Fruit::Dekopon,
        Fruit::Persimmon,
        Fruit::Apple,
        Fruit::Pear,
        Fruit::Peach,
        Fruit::Pineapple,
        Fruit::Melon,
    ];
    for tier in tiers {
        let table = vec![fruit(3, tier, 10, 40), fruit(8, tier, 30, 20)];
        let (after, merges) = resolve_contacts(&table, &vec![touch(3, 8)], 9);
        let made = fruit(9, tier.next().unwrap(), 20, 30);
        assert_eq!(merges, vec![Merge { first: 3, second: 8, created: made }]);
        assert_eq!(after, vec![made]);
    }
}

#[test]
fn contact_may_name_the_pair_in_either_order() {
    let table = vec![fruit(1, Fruit::Grapes, 0, 0), fruit(2, Fruit::Grapes, 8, 4)];
    let (after, merges) = resolve_contacts(&table, &vec![touch(2, 1)], 3);
    assert_eq!(merges.len(), 1);
    assert_eq!(merges[0].first, 1);
    assert_eq!(merges[0].second, 2);
    assert_eq!(after, vec![fruit(3, Fruit::Dekopon, 4, 2)]);
}

#[test]
fn largest_tier_does_not_merge() {
    let table = vec![fruit(0, Fruit::Watermelon, 0, 0), fruit(1, Fruit::Watermelon, 40, 0)];
    let (after, merges) = resolve_contacts(&table, &vec![touch(0, 1)], 2);
    assert!(merges.is_empty());
    assert_eq!(after, table);
}

#[test]
fn different_tiers_do_not_merge() {
    let table = vec![fruit(0, Fruit::Cherry, 0, 0), fruit(1, Fruit::Strawberry, 9, 0)];
    let (after, merges) = resolve_contacts(&table, &vec![touch(0, 1)], 2);
    assert!(merges.is_empty());
    assert_eq!(after, table);
}

#[test]
fn three_touching_fruits_make_one_merge() {
    let table = vec![
        fruit(4, Fruit::Cherry, 0, 0),
        fruit(5, Fruit::Cherry, 8, 0),
        fruit(6, Fruit::Cherry, 4, 6),
    ];
    let batch = vec![touch(4, 5), touch(5, 6), touch(4, 6)];
    let (after, merges) = resolve_contacts(&table, &batch, 7);
    let made = fruit(7, Fruit::Strawberry, 4, 0);
    assert_eq!(merges, vec![Merge { first: 4, second: 5, created: made }]);
    assert_eq!(after, vec![fruit(6, Fruit::Cherry, 4, 6), made]);
}

#[test]
fn order_of_the_batch_does_not_matter() {
    let table = vec![
        fruit(4, Fruit::Cherry, 0, 0),
        fruit(5, Fruit::Cherry, 8, 0),
        fruit(6, Fruit::Cherry, 4, 6),
    ];
    let one = resolve_contacts(&table, &vec![touch(4, 5), touch(5, 6), touch(4, 6)], 7);
    let two = resolve_contacts(&table, &vec![touch(6, 4), touch(6, 5), touch(5, 4)], 7);
    assert_eq!(one, two);
}

#[test]
fn smaller_partner_is_taken_first() {
    let table = vec![
        fruit(1, Fruit::Apple, 0, 0),
        fruit(2, Fruit::Apple, 10, 0),
        fruit(3, Fruit::Apple, 20, 0),
    ];
    let (after, merges) = resolve_contacts(&table, &vec![touch(1, 3), touch(2, 3)], 4);
    let made = fruit(4, Fruit::Pear, 10, 0);
    assert_eq!(merges, vec![Merge { first: 1, second: 3, created: made }]);
    assert_eq!(after, vec![fruit(2, Fruit::Apple, 10, 0), made]);
}

#[test]
fn four_fruits_in_a_row_make_two_merges() {
    let table = vec![
        fruit(0, Fruit::Cherry, 0, 0),
        fruit(1, Fruit::Cherry, 8, 0),
        fruit(2, Fruit::Cherry, 16, 0),
        fruit(3, Fruit::Cherry, 24, 0),
    ];
    let batch = vec![touch(2, 3), touch(1, 2), touch(0, 1)];
    let (after, merges) = resolve_contacts(&table, &batch, 10);
    let left = fruit(10, Fruit::Strawberry, 4, 0);
    let right = fruit(11, Fruit::Strawberry, 20, 0);
    assert_eq!(
        merges,
        vec![
            Merge { first: 0, second: 1, created: left },
            Merge { first: 2, second: 3, created: right },
        ]
    );
    assert_eq!(after, vec![left, right]);
}

#[test]
fn created_fruit_does_not_merge_in_the_same_step() {
    let table = vec![
        fruit(0, Fruit::Cherry, 0, 0),
        fruit(1, Fruit::Cherry, 8, 0),
        fruit(2, Fruit::Strawberry, 4, 6),
    ];
    let batch = vec![touch(0, 1), touch(3, 2), touch(2, 3)];
    let (after, merges) = resolve_contacts(&table, &batch, 3);
    let made = fruit(3, Fruit::Strawberry, 4, 0);
    assert_eq!(merges, vec![Merge { first: 0, second: 1, created: made }]);
    assert_eq!(after, vec![fruit(2, Fruit::Strawberry, 4, 6), made]);
}

#[test]
fn stale_contact_is_dropped() {
    let table = vec![falling(5, Fruit::Cherry, 0, 90), fruit(6, Fruit::Cherry, 0, 0)];
    let (after, merges) = resolve_contacts(&table, &vec![touch(5, 2), touch(9, 6)], 10);
    assert!(merges.is_empty());
    assert_eq!(after, table);
}

#[test]
fn contact_of_a_fruit_with_itself_is_dropped() {
    let table = vec![falling(5, Fruit::Cherry, 0, 90)];
    let (after, merges) = resolve_contacts(&table, &vec![touch(5, 5)], 10);
    assert!(merges.is_empty());
    assert_eq!(after, table);
}

#[test]
fn empty_batch_changes_nothing() {
    let table = vec![falling(5, Fruit::Cherry, 0, 90), fruit(6, Fruit::Cherry, 0, 0)];
    let (after, merges) = resolve_contacts(&table, &Vec::new(), 10);
    assert!(merges.is_empty());
    assert_eq!(after, table);
}

#[test]
fn empty_table_takes_any_batch() {
    let (after, merges) = resolve_contacts(&Vec::new(), &vec![touch(1, 2), floor(3)], 0);
    assert!(merges.is_empty());
    assert!(after.is_empty());
}

#[test]
fn fruit_settles_on_the_floor() {
    let table = vec![falling(5, Fruit::Grapes, 0, 8)];
    let (after, merges) = resolve_contacts(&table, &vec![floor(5)], 6);
    assert!(merges.is_empty());
    assert_eq!(after, vec![fruit(5, Fruit::Grapes, 0, 8)]);
}

#[test]
fn fruit_settles_on_another_fruit_of_any_tier() {
    let table = vec![fruit(2, Fruit::Melon, 0, 22), falling(5, Fruit::Grapes, 0, 52)];
    let (after, merges) = resolve_contacts(&table, &vec![touch(5, 2)], 6);
    assert!(merges.is_empty());
    assert_eq!(after, vec![fruit(2, Fruit::Melon, 0, 22), fruit(5, Fruit::Grapes, 0, 52)]);
}

#[test]
fn untouched_fruit_stays_unsettled() {
    let table = vec![fruit(2, Fruit::Melon, 0, 22), falling(5, Fruit::Grapes, 0, 90)];
    let (after, _) = resolve_contacts(&table, &vec![floor(2)], 6);
    assert_eq!(after, table);
}

#[test]
fn merged_fruit_is_settled_even_if_a_parent_was_not() {
    let table = vec![fruit(2, Fruit::Cherry, 0, 4), falling(5, Fruit::Cherry, 0, 12)];
    let (after, merges) = resolve_contacts(&table, &vec![touch(2, 5)], 6);
    assert_eq!(merges.len(), 1);
    assert_eq!(after, vec![fruit(6, Fruit::Strawberry, 0, 8)]);
    assert!(!after[0].unsettled);
}

#[test]
fn midpoint_rounds_down() {
    assert_eq!(halfway(1, 2), 1);
    assert_eq!(halfway(2, 1), 1);
    assert_eq!(halfway(-1, -2), -2);
    assert_eq!(halfway(-1, 2), 0);
    assert_eq!(halfway(-2, 1), -1);
    assert_eq!(halfway(-3, -3), -3);
    assert_eq!(halfway(0, 0), 0);
    assert_eq!(halfway(10, 30), 20);
}

#[test]
fn midpoint_of_extreme_positions() {
    assert_eq!(halfway(i32::MAX, i32::MAX), i32::MAX);
    assert_eq!(halfway(i32::MIN, i32::MIN), i32::MIN);
    assert_eq!(halfway(i32::MIN, i32::MAX), -1);
    assert_eq!(halfway(i32::MAX, i32::MAX - 1), i32::MAX - 1);
}

#[test]
fn find_slot_finds_each_fruit() {
    let table = vec![
        fruit(1, Fruit::Cherry, 0, 0),
        fruit(4, Fruit::Cherry, 0, 0),
        fruit(9, Fruit::Cherry, 0, 0),
        fruit(12, Fruit::Cherry, 0, 0),
    ];
    assert_eq!(find_slot(&table, 1), Some(0));
    assert_eq!(find_slot(&table, 4), Some(1));
    assert_eq!(find_slot(&table, 9), Some(2));
    assert_eq!(find_slot(&table, 12), Some(3));
    assert_eq!(find_slot(&table, 0), None);
    assert_eq!(find_slot(&table, 5), None);
    assert_eq!(find_slot(&table, 13), None);
    assert_eq!(find_slot(&Vec::new(), 0), None);
}

#[test]
fn contact_between_reads_both_orders() {
    let batch = vec![touch(1, 2), floor(3), touch(5, 4)];
    assert!(contact_between(&batch, 1, 2));
    assert!(contact_between(&batch, 2, 1));
    assert!(contact_between(&batch, 4, 5));
    assert!(!contact_between(&batch, 1, 3));
    assert!(!contact_between(&batch, 3, 3));
    assert!(!contact_between(&Vec::new(), 1, 2));
}

#[test]
fn touched_flags_mark_both_ends() {
    let table = vec![
        falling(1, Fruit::Cherry, 0, 0),
        falling(2, Fruit::Cherry, 0, 0),
        falling(3, Fruit::Cherry, 0, 0),
        falling(4, Fruit::Cherry, 0, 0),
    ];
    let batch = vec![touch(1, 2), floor(4), touch(3, 7), touch(3, 3)];
    assert_eq!(touched_flags(&table, &batch), vec![true, true, false, true]);
}

#[test]
fn fixture_on_the_first_side_counts_too() {
    let table = vec![falling(1, Fruit::Cherry, 0, 0)];
    let batch = vec![Contact { a: Body::Fixture, b: Body::Fruit(1) }];
    assert_eq!(touched_flags(&table, &batch), vec![true]);
    let walls = vec![Contact { a: Body::Fixture, b: Body::Fixture }];
    assert_eq!(touched_flags(&table, &walls), vec![false]);
}

#[test]
fn pair_up_flags_the_fruits_it_used() {
    let table = vec![
        fruit(4, Fruit::Cherry, 0, 0),
        fruit(5, Fruit::Peach, 8, 0),
        fruit(6, Fruit::Cherry, 4, 6),
    ];
    let (merges, used) = pair_up(&table, &vec![touch(6, 4), touch(5, 6)], 7);
    assert_eq!(merges.len(), 1);
    assert_eq!(merges[0].created, fruit(7, Fruit::Strawberry, 2, 3));
    assert_eq!(used, vec![true, false, true]);
}

#[test]
fn clamp_keeps_a_drop_within_the_pit() {
    let pit = Pit { min_x: -100, max_x: 100, drop_y: 300, limit_y: 200 };
    assert_eq!(pit.clamp_x(0), 0);
    assert_eq!(pit.clamp_x(-100), -100);
    assert_eq!(pit.clamp_x(100), 100);
    assert_eq!(pit.clamp_x(-101), -100);
    assert_eq!(pit.clamp_x(101), 100);
    assert_eq!(pit.clamp_x(i32::MIN), -100);
    assert_eq!(pit.clamp_x(i32::MAX), 100);
}
