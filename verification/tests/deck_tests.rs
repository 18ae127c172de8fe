use blackjack_ev::deck::{from_counts, full_shoe, Deck};
use blackjack_ev::hand::dealer_stands;
use blackjack_ev::parse::{parse_deck, parse_hand};
use blackjack_ev::rat::Rat;
use blackjack_ev::state::{reshuffle_deck, will_reshuffle, GameState};

fn r2f(r: &Rat) -> f64 {
    let v = r.num as f64 / r.den as f64;
    if r.neg {
        -v
    } else {
        v
    }
}

#[test]
fn test_valid_draw() {
    let mut deck = Deck { cards: [1, 4, 4, 4, 4, 4, 4, 4, 4, 16], size: 49 };
    deck.draw(1);
    assert!(0 == deck.cards[0]);
    assert!(48 == deck.size);
}

#[test]
fn test_replace() {
    let mut deck = Deck { cards: [0, 4, 4, 4, 4, 4, 4, 4, 4, 16], size: 48 };
    deck.replace(1);
    assert!(1 == deck.cards[0]);
    assert!(49 == deck.size);
}

#[test]
fn test_valid_draw_to() {
    let mut hand = vec![];
    let mut deck = Deck { cards: [1, 4, 4, 4, 4, 4, 4, 4, 4, 16], size: 49 };
    deck.draw_to(&mut hand, 1);
    assert!(0 == deck.cards[0]);
    assert!(48 == deck.size);
    assert!(vec![1] == hand);
}

#[test]
fn test_valid_replace_from() {
    let mut hand = vec![1, 1];
    let mut deck = Deck { cards: [0, 4, 4, 4, 4, 4, 4, 4, 4, 16], size: 48 };
    deck.replace_from(&mut hand, 1);
    assert!(1 == deck.cards[0]);
    assert!(49 == deck.size);
    assert!(vec![1] == hand);
    deck.replace_from(&mut hand, 1);
    assert!(2 == deck.cards[0]);
    assert!(50 == deck.size);
    assert!(Vec::<u16>::new() == hand);
}

#[test]
fn test_card_prob() {
    let deck = Deck { cards: [0, 4, 4, 4, 4, 4, 4, 4, 4, 16], size: 48 };
    assert!(0.0 == r2f(&deck.card_prob(1, false)));
    assert!(4.0 / 48.0 == r2f(&deck.card_prob(2, false)));
    assert!(4.0 / 32.0 == r2f(&deck.card_prob(2, true)));
    assert!(0.0 == r2f(&deck.card_prob(10, true)));
    assert!(16.0 / 48.0 == r2f(&deck.card_prob(10, false)));
}

#[test]
fn test_dealer_stands() {
    assert!(dealer_stands(&vec![10, 7]));
    assert!(dealer_stands(&vec![10, 6, 6]));
    assert!(dealer_stands(&vec![6, 1]));
    assert!(dealer_stands(&vec![1, 1, 1, 1, 2, 2]));
    assert!(!dealer_stands(&vec![10, 6]));
}

#[test]
fn test_reshuffle_deck() {
    let mut state = GameState {
        player: vec![10, 3],
        dealer: vec![1],
        deck: Deck { cards: [0, 0, 0, 0, 0, 0, 0, 0, 0, 10], size: 10 },
        failed_insurance: false,
        is_split: false,
        first_split_hand: false,
    };
    reshuffle_deck(&mut state);
    assert!(413 == state.deck.size);
    assert!(31 == state.deck.cards[0]);
    assert!(126 == state.deck.cards[9]);

    state = GameState {
        player: vec![10, 3],
        dealer: vec![1, 4],
        deck: Deck { cards: [0, 0, 0, 0, 0, 0, 0, 0, 0, 10], size: 10 },
        failed_insurance: false,
        is_split: false,
        first_split_hand: false,
    };
    reshuffle_deck(&mut state);
    assert!(412 == state.deck.size);
    assert!(31 == state.deck.cards[0]);
    assert!(31 == state.deck.cards[3])
}

#[test]
fn draw_replace_restores_deck() {
    let start = Deck { cards: [2, 4, 4, 4, 4, 4, 4, 4, 4, 16], size: 50 };
    let mut deck = start;
    deck.draw(5);
    deck.replace(5);
    assert_eq!(start.cards, deck.cards);
    assert_eq!(start.size, deck.size);
}

#[test]
fn full_shoe_composition() {
    let d = full_shoe();
    assert_eq!(d.cards, [32, 32, 32, 32, 32, 32, 32, 32, 32, 128]);
    assert_eq!(416, d.size);
}

#[test]
fn from_counts_sums() {
    let d = from_counts([1, 2, 3, 4, 5, 6, 7, 8, 9, 10]).unwrap();
    assert_eq!(55, d.size);
}

#[test]
fn no_mid_hand_reshuffle() {
    let deck = Deck { cards: [0, 0, 0, 0, 0, 0, 0, 0, 0, 1], size: 1 };
    assert!(!will_reshuffle(&deck));
}

#[test]
fn parse_deck_ten_digits() {
    let d = parse_deck("1234567891");
    assert_eq!([1, 2, 3, 4, 5, 6, 7, 8, 9, 1], d.cards);
    assert_eq!(46, d.size);
}

#[test]
fn parse_deck_eleven_digits_merges_tens() {
    let d = parse_deck("12345678912");
    assert_eq!([1, 2, 3, 4, 5, 6, 7, 8, 9, 3], d.cards);
    assert_eq!(48, d.size);
}

#[test]
fn parse_hand_digits() {
    assert_eq!(vec![1, 10, 5], parse_hand("105"));
    assert_eq!(vec![10, 10], parse_hand("00"));
    assert_eq!(Vec::<u16>::new(), parse_hand(""));
}

#[test]
fn ordered_deck_draws_in_order() {
    let mut od = blackjack_ev::deck::OrderedDeck {
        cards: vec![5, 10],
        deck: Deck { cards: [0, 0, 0, 0, 1, 0, 0, 0, 0, 1], size: 2 },
    };
    assert_eq!(10, od.draw());
    assert_eq!(1, od.deck.size);
    assert_eq!(5, od.draw());
    assert_eq!(0, od.deck.size);
    assert!(od.cards.is_empty());
}
