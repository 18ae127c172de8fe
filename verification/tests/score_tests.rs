use blackjack_ev::hand::{hand_expectation, hand_value, min_hand_value, score, Score};
use blackjack_ev::rat::Rat;

fn r2f(r: &Rat) -> f64 {
    let v = r.num as f64 / r.den as f64;
    if r.neg {
        -v
    } else {
        v
    }
}

#[test]
fn two_naturals_equal() {
    assert!(Score::Natural == Score::Natural);
}

#[test]
fn greater_five_card_charlie_wins() {
    assert!(Score::SixCardCharlie(18) > Score::SixCardCharlie(17));
}

#[test]
fn greater_value_wins() {
    assert!(Score::Value(18) > Score::Value(17));
}

#[test]
fn value_beats_bust() {
    assert!(Score::Value(8) > Score::Bust);
}

#[test]
fn five_card_charlie_beats_value() {
    assert!(Score::SixCardCharlie(12) > Score::Value(15));
}

#[test]
fn natural_beats_five_card_charlie() {
    assert!(Score::Natural > Score::SixCardCharlie(21));
}

#[test]
fn five_card_charlie_loses_to_natural() {
    assert!(Score::SixCardCharlie(21) < Score::Natural);
}

#[test]
fn equal_values_are_equal() {
    assert!(Score::Value(16) == Score::Value(16));
}

#[test]
fn hard_hand_values() {
    assert!(20 == hand_value(&vec![10, 10]));
    assert!(21 == hand_value(&vec![10, 10, 1]));
    assert!(30 == hand_value(&vec![10, 10, 10]));
    assert!(12 == hand_value(&vec![10, 1, 1]));
    assert!(0 == hand_value(&vec![]));
}

#[test]
fn soft_hand_values() {
    assert!(11 == hand_value(&vec![1]));
    assert!(12 == hand_value(&vec![1, 1]));
    assert!(21 == hand_value(&vec![10, 1]))
}

#[test]
fn min_hand_values() {
    assert!(1 == min_hand_value(&vec![1]));
    assert!(0 == min_hand_value(&vec![]));
    assert!(15 == min_hand_value(&vec![10, 5]));
    assert!(11 == min_hand_value(&vec![10, 1]));
}

#[test]
fn test_score() {
    assert!(Score::Natural == score(&vec![1, 10]));
    assert!(Score::Natural == score(&vec![10, 1]));
    assert!(Score::SixCardCharlie(20) == score(&vec![2, 2, 2, 2, 1, 1]));
    assert!(Score::SixCardCharlie(19) == score(&vec![2, 3, 3, 3, 3, 5]));
    assert!(Score::Bust == score(&vec![10, 10, 2]));
    assert!(Score::Value(21) == score(&vec![10, 10, 1]));
    assert!(Score::Value(16) == score(&vec![4, 4, 4, 4]));
}

#[test]
fn test_hand_expectation() {
    assert!(-1.0 == r2f(&hand_expectation(Score::Bust, Score::Bust)));
    assert!(-1.0 == r2f(&hand_expectation(Score::Bust, Score::Natural)));
    assert!(-1.0 == r2f(&hand_expectation(Score::Value(10), Score::Value(11))));
    assert!(0.0 == r2f(&hand_expectation(Score::Value(10), Score::Value(10))));
    assert!(1.0 == r2f(&hand_expectation(Score::Value(11), Score::Value(10))));
    assert!(-1.0 == r2f(&hand_expectation(Score::Value(21), Score::SixCardCharlie(16))));
    assert!(-1.0 == r2f(&hand_expectation(Score::SixCardCharlie(10), Score::SixCardCharlie(11))));
    assert!(0.0 == r2f(&hand_expectation(Score::SixCardCharlie(10), Score::SixCardCharlie(10))));
    assert!(1.0 == r2f(&hand_expectation(Score::SixCardCharlie(11), Score::SixCardCharlie(10))));
    assert!(1.5 == r2f(&hand_expectation(Score::Natural, Score::SixCardCharlie(21))));
    assert!(0.0 == r2f(&hand_expectation(Score::Natural, Score::Natural)));
}
