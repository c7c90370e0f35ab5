use dice_board::board::Board;
use dice_board::dice::{Dice, DiceError};

fn die(value: u8) -> Dice {
    Dice { value }
}

#[test]
fn new_board_is_empty() {
    let b = Board::<4>::new();
    assert_eq!(b.score(), 0);
    assert!(!b.is_full());
}

#[test]
fn five_column_scenario() {
    let mut b = Board::<5>::new();
    assert_eq!(b.insert(0, die(3)), Ok(()));
    assert_eq!(b.insert(0, die(5)), Err(DiceError::ColumnOccupied));
    assert_eq!(b.insert(4, die(2)), Ok(()));
    assert_eq!(b.score(), 5);
    // the clamped range 0..5 reaches column 4 as well
    assert_eq!(b.strike_multi(0, 10), vec![die(3), die(2)]);
    assert_eq!(b.score(), 0);
    assert!(!b.is_full());
}

#[test]
fn five_column_scenario_short_strike() {
    let mut b = Board::<5>::new();
    assert_eq!(b.insert(0, die(3)), Ok(()));
    assert_eq!(b.insert(0, die(5)), Err(DiceError::ColumnOccupied));
    assert_eq!(b.insert(4, die(2)), Ok(()));
    assert_eq!(b.score(), 5);
    assert_eq!(b.strike_multi(0, 4), vec![die(3)]);
    assert_eq!(b.score(), 2);
    assert!(!b.is_full());
}

#[test]
fn second_insert_is_refused_and_keeps_first_die() {
    let mut b = Board::<3>::new();
    assert_eq!(b.insert(1, die(4)), Ok(()));
    assert_eq!(b.insert(1, die(6)), Err(DiceError::ColumnOccupied));
    assert_eq!(b.score(), 4);
    assert_eq!(b.strike_multi(1, 1), vec![die(4)]);
}

#[test]
fn insert_past_end_is_refused_and_changes_nothing() {
    let mut b = Board::<3>::new();
    assert_eq!(b.insert(0, die(2)), Ok(()));
    assert_eq!(b.insert(3, die(6)), Err(DiceError::InvalidColumn));
    assert_eq!(b.insert(usize::MAX, die(6)), Err(DiceError::InvalidColumn));
    assert_eq!(b.score(), 2);
    assert!(!b.is_full());
    assert_eq!(b.strike_multi(0, 3), vec![die(2)]);
}

#[test]
fn strike_returns_at_most_count() {
    let mut b = Board::<5>::new();
    for c in 0..5 {
        assert_eq!(b.insert(c, die(c as u8 + 1)), Ok(()));
    }
    assert_eq!(b.strike_multi(1, 2), vec![die(2), die(3)]);
    assert_eq!(b.strike_multi(0, 0), vec![]);
    assert_eq!(b.score(), 1 + 4 + 5);
}

#[test]
fn strike_is_clamped_to_board_end() {
    let mut b = Board::<5>::new();
    for c in 0..5 {
        assert_eq!(b.insert(c, die(6)), Ok(()));
    }
    let got = b.strike_multi(3, usize::MAX);
    assert_eq!(got, vec![die(6), die(6)]);
    assert_eq!(b.score(), 18);
}

#[test]
fn strike_past_end_returns_nothing() {
    let mut b = Board::<2>::new();
    assert_eq!(b.insert(0, die(1)), Ok(()));
    assert_eq!(b.insert(1, die(2)), Ok(()));
    assert_eq!(b.strike_multi(2, 5), vec![]);
    assert_eq!(b.strike_multi(7, 1), vec![]);
    assert!(b.is_full());
    assert_eq!(b.score(), 3);
}

#[test]
fn strike_skips_empty_columns() {
    let mut b = Board::<6>::new();
    assert_eq!(b.insert(1, die(5)), Ok(()));
    assert_eq!(b.insert(4, die(3)), Ok(()));
    assert_eq!(b.strike_multi(0, 6), vec![die(5), die(3)]);
    assert_eq!(b.strike_multi(0, 6), vec![]);
    assert_eq!(b.score(), 0);
}

#[test]
fn insert_then_strike_one_round_trip() {
    let mut b = Board::<3>::new();
    assert_eq!(b.insert(2, die(5)), Ok(()));
    assert_eq!(b.strike_multi(2, 1), vec![die(5)]);
    assert_eq!(b.score(), 0);
    assert_eq!(b.insert(2, die(1)), Ok(()));
    assert_eq!(b.score(), 1);
}

#[test]
fn score_follows_inserts_and_strikes() {
    let mut b = Board::<4>::new();
    assert_eq!(b.insert(0, die(2)), Ok(()));
    assert_eq!(b.score(), 2);
    assert_eq!(b.insert(3, die(6)), Ok(()));
    assert_eq!(b.score(), 8);
    assert_eq!(b.strike_multi(3, 1), vec![die(6)]);
    assert_eq!(b.score(), 2);
}

#[test]
fn score_of_largest_faces() {
    let mut b = Board::<3>::new();
    for c in 0..3 {
        assert_eq!(b.insert(c, die(u8::MAX)), Ok(()));
    }
    assert_eq!(b.score(), 765);
}

#[test]
fn full_after_every_column_placed() {
    let mut b = Board::<3>::new();
    assert_eq!(b.insert(2, die(1)), Ok(()));
    assert!(!b.is_full());
    assert_eq!(b.insert(0, die(1)), Ok(()));
    assert!(!b.is_full());
    assert_eq!(b.insert(1, die(1)), Ok(()));
    assert!(b.is_full());
    assert_eq!(b.strike_multi(1, 1), vec![die(1)]);
    assert!(!b.is_full());
}

#[test]
fn zero_column_board() {
    let mut b = Board::<0>::new();
    assert!(b.is_full());
    assert_eq!(b.score(), 0);
    assert_eq!(b.insert(0, die(1)), Err(DiceError::InvalidColumn));
    assert_eq!(b.strike_multi(0, 3), vec![]);
}
