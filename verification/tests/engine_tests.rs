use blackjack_ev::deck::{full_shoe, Deck};
use blackjack_ev::dealer_dist::dealer_scores;
use blackjack_ev::engine::{
    best_action, double_expectation, expectation, hit_expectation, insurance_expectation,
    split_expectation, stand_expectation,
};
use blackjack_ev::hand::Score;
use blackjack_ev::rat::Rat;
use blackjack_ev::state::GameState;

fn r2f(r: &Rat) -> f64 {
    let v = r.num as f64 / r.den as f64;
    if r.neg {
        -v
    } else {
        v
    }
}

fn assert_dist(actual: &Vec<(Score, Rat)>, expected: &[(Score, f64)]) {
    assert_eq!(expected.len(), actual.len());
    for (sc, p) in expected {
        let found = actual.iter().find(|e| e.0 == *sc);
        assert!(found.is_some(), "missing score {:?}", sc);
        assert!(*p == r2f(&found.unwrap().1));
    }
}

#[test]
fn test_dealer_scores() {
    assert_dist(
        &dealer_scores(&mut full_shoe(), &mut vec![1, 10], false).unwrap(),
        &[(Score::Natural, 1.0)],
    );

    assert_dist(
        &dealer_scores(&mut full_shoe(), &mut vec![1, 1, 1, 1, 2, 2], false).unwrap(),
        &[(Score::SixCardCharlie(18), 1.0)],
    );

    assert_dist(
        &dealer_scores(&mut full_shoe(), &mut vec![10, 7], false).unwrap(),
        &[(Score::Value(17), 1.0)],
    );

    assert_dist(
        &dealer_scores(
            &mut Deck { cards: [0, 0, 0, 0, 0, 0, 0, 0, 0, 10], size: 10 },
            &mut vec![10, 6],
            false,
        )
        .unwrap(),
        &[(Score::Bust, 1.0)],
    );

    assert_dist(
        &dealer_scores(
            &mut Deck { cards: [0, 0, 0, 0, 1, 0, 0, 0, 0, 1], size: 2 },
            &mut vec![10, 5],
            false,
        )
        .unwrap(),
        &[(Score::Bust, 0.5), (Score::Value(20), 0.5)],
    );

    assert_dist(
        &dealer_scores(
            &mut Deck { cards: [0, 0, 0, 0, 0, 0, 0, 0, 1, 1], size: 2 },
            &mut vec![10],
            true,
        )
        .unwrap(),
        &[(Score::Value(19), 1.0)],
    );

    assert_dist(
        &dealer_scores(
            &mut Deck { cards: [0, 0, 0, 0, 0, 0, 0, 0, 1, 0], size: 1 },
            &mut vec![10],
            true,
        )
        .unwrap(),
        &[(Score::Value(19), 1.0)],
    );
}

#[test]
fn dealer_scores_sum_to_one() {
    let dist = dealer_scores(&mut full_shoe(), &mut vec![10, 6], false).unwrap();
    let mut total = Rat::zero();
    for (_, p) in dist.iter() {
        total = total.add(p).unwrap();
    }
    assert!(!total.neg);
    assert_eq!(total.num, total.den);
}

#[test]
fn test_stand_expectation() {
    let mut state = GameState {
        player: vec![1, 10],
        dealer: vec![10, 10],
        deck: full_shoe(),
        failed_insurance: false,
        is_split: false,
        first_split_hand: false,
    };
    assert!(1.5 == r2f(&stand_expectation(&mut state).unwrap()));

    state = GameState {
        player: vec![10, 10],
        dealer: vec![10, 10],
        deck: full_shoe(),
        failed_insurance: false,
        is_split: false,
        first_split_hand: false,
    };
    assert!(0.0 == r2f(&stand_expectation(&mut state).unwrap()));

    state = GameState {
        player: vec![10, 10, 10],
        dealer: vec![10, 10],
        deck: full_shoe(),
        failed_insurance: false,
        is_split: false,
        first_split_hand: false,
    };
    assert!(-1.0 == r2f(&stand_expectation(&mut state).unwrap()));

    state = GameState {
        player: vec![1, 10],
        dealer: vec![10],
        deck: Deck { cards: [0, 0, 0, 0, 0, 0, 0, 0, 0, 1], size: 1 },
        failed_insurance: false,
        is_split: false,
        first_split_hand: false,
    };
    assert!(1.5 == r2f(&stand_expectation(&mut state).unwrap()));

    state = GameState {
        player: vec![10, 10],
        dealer: vec![10],
        deck: Deck { cards: [0, 0, 0, 0, 0, 0, 0, 0, 1, 1], size: 2 },
        failed_insurance: false,
        is_split: false,
        first_split_hand: false,
    };
    assert!(0.5 == r2f(&stand_expectation(&mut state).unwrap()));

    state = GameState {
        player: vec![10, 10],
        dealer: vec![10, 5],
        deck: Deck { cards: [0, 0, 0, 0, 3, 0, 0, 0, 0, 1], size: 4 },
        failed_insurance: false,
        is_split: false,
        first_split_hand: false,
    };
    assert!(0.25 == r2f(&stand_expectation(&mut state).unwrap()));

    state = GameState {
        player: vec![10, 10],
        dealer: vec![1],
        deck: Deck { cards: [4, 1, 0, 0, 0, 0, 0, 0, 0, 0], size: 5 },
        failed_insurance: false,
        is_split: false,
        first_split_hand: false,
    };
    println!("Stand expectation: {}", r2f(&stand_expectation(&mut state).unwrap()));
    assert!(-1.0 == r2f(&stand_expectation(&mut state).unwrap()));

    state = GameState {
        player: vec![10, 10],
        dealer: vec![1],
        deck: Deck { cards: [0, 0, 0, 0, 0, 0, 0, 1, 0, 1], size: 2 },
        failed_insurance: true,
        is_split: false,
        first_split_hand: false,
    };
    assert!(1.0 == r2f(&stand_expectation(&mut state).unwrap()));
}

#[test]
fn test_double_expectation() {
    let mut state = GameState {
        player: vec![10, 10],
        dealer: vec![10, 10],
        deck: Deck { cards: [0, 0, 0, 0, 0, 0, 0, 0, 0, 1], size: 1 },
        failed_insurance: false,
        is_split: false,
        first_split_hand: false,
    };
    assert!(-2.0 == r2f(&double_expectation(&mut state).unwrap()));

    state = GameState {
        player: vec![5, 5],
        dealer: vec![10, 9],
        deck: Deck { cards: [0, 0, 0, 0, 0, 0, 0, 0, 0, 1], size: 1 },
        failed_insurance: false,
        is_split: false,
        first_split_hand: false,
    };
    assert!(2.0 == r2f(&double_expectation(&mut state).unwrap()));

    state = GameState {
        player: vec![5, 5],
        dealer: vec![10],
        deck: Deck { cards: [0, 0, 0, 0, 0, 0, 0, 0, 1, 1], size: 2 },
        failed_insurance: false,
        is_split: false,
        first_split_hand: false,
    };
    assert!(0.0 == r2f(&double_expectation(&mut state).unwrap()));
}

#[test]
fn test_hit_expectation() {
    let mut state = GameState {
        player: vec![10, 10],
        dealer: vec![10, 10],
        deck: Deck { cards: [0, 0, 0, 0, 0, 0, 0, 0, 0, 1], size: 1 },
        failed_insurance: false,
        is_split: false,
        first_split_hand: false,
    };
    assert!(-1.0 == r2f(&hit_expectation(&mut state).unwrap()));

    state = GameState {
        player: vec![5, 5],
        dealer: vec![10, 9],
        deck: Deck { cards: [0, 0, 0, 0, 0, 0, 0, 0, 0, 10], size: 10 },
        failed_insurance: false,
        is_split: false,
        first_split_hand: false,
    };
    assert!(1.0 == r2f(&hit_expectation(&mut state).unwrap()));

    state = GameState {
        player: vec![5, 5],
        dealer: vec![10, 7],
        deck: Deck { cards: [0, 0, 0, 0, 3, 0, 0, 0, 0, 0], size: 3 },
        failed_insurance: false,
        is_split: false,
        first_split_hand: false,
    };
    assert!(1.0 == r2f(&hit_expectation(&mut state).unwrap()));

    state = GameState {
        player: vec![1],
        dealer: vec![10],
        deck: Deck { cards: [2, 4, 4, 4, 4, 4, 4, 4, 4, 15], size: 49 },
        failed_insurance: false,
        is_split: true,
        first_split_hand: true,
    };
    assert!(3.5 > r2f(&hit_expectation(&mut state).unwrap()));
}

#[test]
fn test_insurance_expectation() {
    let mut state = GameState {
        player: vec![10, 10],
        dealer: vec![1],
        deck: Deck { cards: [0, 0, 0, 0, 0, 0, 0, 0, 0, 10], size: 10 },
        failed_insurance: false,
        is_split: false,
        first_split_hand: false,
    };
    assert!(0.0 == r2f(&insurance_expectation(&mut state).unwrap()));

    state = GameState {
        player: vec![1, 10],
        dealer: vec![1],
        deck: full_shoe(),
        failed_insurance: false,
        is_split: false,
        first_split_hand: false,
    };
    assert!(1.0 == r2f(&insurance_expectation(&mut state).unwrap()));

    state = GameState {
        player: vec![10, 6],
        dealer: vec![1],
        deck: Deck { cards: [0, 0, 0, 0, 0, 0, 0, 0, 4, 0], size: 4 },
        failed_insurance: false,
        is_split: false,
        first_split_hand: false,
    };
    assert!(-1.5 == r2f(&insurance_expectation(&mut state).unwrap()));

    state = GameState {
        player: vec![5, 5],
        dealer: vec![1],
        deck: Deck { cards: [0, 0, 0, 0, 0, 0, 0, 2, 0, 2], size: 4 },
        failed_insurance: false,
        is_split: false,
        first_split_hand: false,
    };
    assert!(-0.25 == r2f(&insurance_expectation(&mut state).unwrap()));
}

#[test]
fn split_restores_state() {
    let mut state = GameState {
        player: vec![1, 1],
        dealer: vec![10, 7],
        deck: Deck { cards: [0, 0, 0, 0, 0, 0, 0, 0, 0, 2], size: 2 },
        failed_insurance: false,
        is_split: false,
        first_split_hand: false,
    };
    let v = split_expectation(&mut state).unwrap();
    assert!(r2f(&v) > -1.0);
    assert_eq!(vec![1, 1], state.player);
    assert_eq!([0, 0, 0, 0, 0, 0, 0, 0, 0, 2], state.deck.cards);
    assert!(!state.is_split);
}

#[test]
fn expectation_prefers_the_best_action() {
    // Stand on 20 against a standing dealer 19 wins outright; hitting can
    // only bust here (only tens remain), so the best value is the stand value.
    let mut state = GameState {
        player: vec![10, 10],
        dealer: vec![10, 9],
        deck: Deck { cards: [0, 0, 0, 0, 0, 0, 0, 0, 0, 4], size: 4 },
        failed_insurance: false,
        is_split: false,
        first_split_hand: false,
    };
    let e = expectation(&mut state).unwrap();
    assert!(1.0 == r2f(&e));
}

#[test]
fn best_action_stand() {
    let mut state = GameState {
        player: vec![10, 7],
        dealer: vec![10, 10],
        deck: Deck { cards: [0, 0, 0, 0, 0, 0, 0, 0, 0, 3], size: 3 },
        failed_insurance: false,
        is_split: false,
        first_split_hand: false,
    };
    assert_eq!("Stand", best_action(&mut state).unwrap());
}

#[test]
fn best_action_hit() {
    let mut state = GameState {
        player: vec![2, 2, 5],
        dealer: vec![10, 9],
        deck: Deck { cards: [0, 0, 0, 0, 0, 0, 0, 0, 0, 3], size: 3 },
        failed_insurance: false,
        is_split: false,
        first_split_hand: false,
    };
    assert_eq!("Hit", best_action(&mut state).unwrap());
}

#[test]
fn best_action_double() {
    let mut state = GameState {
        player: vec![5, 6],
        dealer: vec![10, 9],
        deck: Deck { cards: [0, 0, 0, 0, 0, 0, 0, 0, 0, 3], size: 3 },
        failed_insurance: false,
        is_split: false,
        first_split_hand: false,
    };
    assert_eq!("Double", best_action(&mut state).unwrap());
}

#[test]
fn best_action_split() {
    let mut state = GameState {
        player: vec![1, 1],
        dealer: vec![10, 7],
        deck: Deck { cards: [0, 0, 0, 0, 0, 0, 0, 0, 0, 2], size: 2 },
        failed_insurance: false,
        is_split: false,
        first_split_hand: false,
    };
    assert_eq!("Split", best_action(&mut state).unwrap());
}
