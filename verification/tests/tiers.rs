use fruit_pit::tier::{tier_count, Fruit, TierInfo, DROP_TIER_COUNT, MAX_TIER_SCORE, TIER_COUNT};

fn ladder() -> Vec<Fruit> {
    vec![
        Fruit::Cherry,
        Fruit::Strawberry,
        Fruit::Grapes,
        Fruit::Dekopon,
        Fruit::Persimmon,
        Fruit::Apple,
        Fruit::Pear,
        Fruit::Peach,
        Fruit::Pineapple,
        Fruit::Melon,
        Fruit::Watermelon,
    ]
}

#[test]
fn ladder_has_eleven_tiers() {
    assert_eq!(TIER_COUNT, 11);
    assert_eq!(ladder().len(), TIER_COUNT);
    assert_eq!(DROP_TIER_COUNT, 5);
}

#[test]
fn index_counts_from_the_smallest() {
    let tiers = ladder();
    for (i, tier) in tiers.iter().enumerate() {
        assert_eq!(tier.index(), i);
    }
}

#[test]
fn from_index_names_each_tier() {
    let tiers = ladder();
    for (i, tier) in tiers.iter().enumerate() {
        assert_eq!(Fruit::from_index(i), *tier);
    }
}

#[test]
fn from_index_wraps_at_the_count() {
    assert_eq!(Fruit::from_index(TIER_COUNT), Fruit::from_index(0));
    assert_eq!(Fruit::from_index(11), Fruit::Cherry);
    assert_eq!(Fruit::from_index(12), Fruit::Strawberry);
    assert_eq!(Fruit::from_index(21), Fruit::Watermelon);
    assert_eq!(Fruit::from_index(22), Fruit::Cherry);
    assert_eq!(Fruit::from_index(11 * 1000 + 7), Fruit::Peach);
}

#[test]
fn from_index_takes_the_largest_index() {
    let last: usize = usize::MAX;
    assert_eq!(Fruit::from_index(last).index(), last % 11);
}

#[test]
fn next_climbs_one_rung() {
    let tiers = ladder();
    for i in 0..10usize {
        assert_eq!(tiers[i].next(), Some(tiers[i + 1]));
    }
}

#[test]
fn largest_tier_has_no_successor() {
    assert_eq!(Fruit::Watermelon.next(), None);
    let without: usize = ladder().iter().filter(|t| t.next().is_none()).count();
    assert_eq!(without, 1);
}

#[test]
fn scores_are_the_catalogue_values() {
    let expected: Vec<u32> = vec![1, 3, 6, 10, 15, 21, 28, 36, 45, 55, 66];
    let tiers = ladder();
    for i in 0..11usize {
        assert_eq!(tiers[i].score(), expected[i]);
    }
    assert_eq!(Fruit::Watermelon.score(), MAX_TIER_SCORE);
}

#[test]
fn radii_are_the_catalogue_values() {
    let expected: Vec<u32> = vec![4, 6, 8, 10, 12, 14, 16, 18, 20, 22, 24];
    let tiers = ladder();
    for i in 0..11usize {
        assert_eq!(tiers[i].radius(), expected[i]);
    }
}

#[test]
fn radius_and_score_grow_with_the_tier() {
    let tiers = ladder();
    for i in 0..10usize {
        assert!(tiers[i].radius() < tiers[i + 1].radius());
        assert!(tiers[i].score() < tiers[i + 1].score());
        assert!(tiers[i] < tiers[i + 1]);
    }
}

#[test]
fn default_tier_is_the_smallest() {
    assert_eq!(Fruit::default(), Fruit::Cherry);
}

#[test]
fn tier_count_is_the_length_of_the_ladder() {
    assert_eq!(tier_count(), 11);
    assert_eq!(Fruit::from_index(tier_count()), Fruit::from_index(0));
}

#[test]
fn info_gathers_the_catalogue_entry() {
    assert_eq!(
        Fruit::Cherry.info(),
        TierInfo { radius: 4, score: 1, successor: Some(Fruit::Strawberry) }
    );
    assert_eq!(
        Fruit::Melon.info(),
        TierInfo { radius: 22, score: 55, successor: Some(Fruit::Watermelon) }
    );
    assert_eq!(Fruit::Watermelon.info(), TierInfo { radius: 24, score: 66, successor: None });
}
