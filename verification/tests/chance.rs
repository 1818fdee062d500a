use rand::rngs::StdRng;
use rand::SeedableRng;
use sentence_puzzle::chance::{pick_other_than, random_range_other_than};

#[test]
fn picks_by_the_remainder_and_steps_over_the_excluded() {
    assert_eq!(pick_other_than(0, 1, 4, 2), 1);
    assert_eq!(pick_other_than(1, 1, 4, 2), 3);
    assert_eq!(pick_other_than(2, 1, 4, 2), 4);
    assert_eq!(pick_other_than(3, 1, 4, 2), 1);
    assert_eq!(pick_other_than(5, 1, 4, 2), 4);
    assert_eq!(pick_other_than(u32::MAX, 1, 4, 2), 1);
}

#[test]
fn picks_from_a_range_that_starts_at_nothing() {
    assert_eq!(pick_other_than(0, 0, 2, 0), 1);
    assert_eq!(pick_other_than(1, 0, 2, 0), 2);
    assert_eq!(pick_other_than(0, 0, 2, 1), 0);
    assert_eq!(pick_other_than(1, 0, 2, 1), 2);
    assert_eq!(pick_other_than(0, 0, 2, 2), 0);
    assert_eq!(pick_other_than(1, 0, 2, 2), 1);
}

#[test]
fn an_excluded_number_below_the_range_moves_every_pick_up() {
    assert_eq!(pick_other_than(0, 1, 3, 0), 2);
    assert_eq!(pick_other_than(1, 1, 3, 0), 3);
}

#[test]
fn an_excluded_number_above_the_range_moves_no_pick() {
    assert_eq!(pick_other_than(0, 1, 3, 9), 1);
    assert_eq!(pick_other_than(1, 1, 3, 9), 2);
}

#[test]
fn picks_at_the_top_of_the_numbers() {
    assert_eq!(pick_other_than(0, u32::MAX - 1, u32::MAX, u32::MAX - 1), u32::MAX);
    assert_eq!(pick_other_than(7, u32::MAX - 1, u32::MAX, u32::MAX), u32::MAX - 1);
}

#[test]
fn random_excluding_never_returns_the_excluded() {
    let mut rng = StdRng::seed_from_u64(2024);
    let mut seen = [0usize; 5];
    for _ in 0..3000 {
        let picked = random_range_other_than(1, 4, 2, &mut rng);
        assert!(picked == 1 || picked == 3 || picked == 4);
        seen[picked as usize] += 1;
    }
    assert_eq!(seen[2], 0);
    assert_eq!(seen[1] + seen[3] + seen[4], 3000);
    for number in [1, 3, 4] {
        assert!(seen[number] > 850, "{} came {} times", number, seen[number]);
        assert!(seen[number] < 1150, "{} came {} times", number, seen[number]);
    }
}

#[test]
fn random_excluding_covers_the_whole_range() {
    let mut rng = StdRng::seed_from_u64(5);
    let mut seen = [false; 7];
    for _ in 0..500 {
        let picked = random_range_other_than(0, 6, 3, &mut rng);
        assert!(picked <= 6);
        assert_ne!(picked, 3);
        seen[picked as usize] = true;
    }
    assert_eq!(seen, [true, true, true, false, true, true, true]);
}

#[test]
fn a_seed_gives_the_same_picks_again() {
    let mut first = StdRng::seed_from_u64(11);
    let mut second = StdRng::seed_from_u64(11);
    for _ in 0..50 {
        assert_eq!(
            random_range_other_than(1, 6, 4, &mut first),
            random_range_other_than(1, 6, 4, &mut second)
        );
    }
}
