use holdem::card::{Card, Deck, Rank, Suit};

const ALL_SUITS: [Suit; 4] = [Suit::Hearts, Suit::Diamonds, Suit::Clubs, Suit::Spades];

const ALL_RANKS: [Rank; 13] = [
    Rank::Two,
    Rank::Three,
    Rank::Four,
    Rank::Five,
    Rank::Six,
    Rank::Seven,
    Rank::Eight,
    Rank::Nine,
    Rank::Ten,
    Rank::Jack,
    Rank::Queen,
    Rank::King,
    Rank::Ace,
];

#[test]
fn fresh_deck_holds_every_card_once() {
    let deck = Deck::new();
    assert_eq!(deck.cards.len(), 52);
    for suit in ALL_SUITS {
        for rank in ALL_RANKS {
            let n = deck.cards.iter().filter(|c| c.rank == rank && c.suit == suit).count();
            assert_eq!(n, 1);
        }
    }
}

#[test]
fn deal_takes_from_the_back() {
    let mut deck = Deck::new();
    let first = deck.deal().unwrap();
    assert_eq!(first, Card::new(Rank::Ace, Suit::Spades));
    assert_eq!(deck.cards.len(), 51);
}

#[test]
fn deal_on_empty_deck_fails() {
    let mut deck = Deck::new();
    for _ in 0..52 {
        assert!(deck.deal().is_some());
    }
    assert!(deck.deal().is_none());
}

#[test]
fn shuffle_keeps_exactly_the_same_cards() {
    let mut deck = Deck::new();
    deck.shuffle();
    assert_eq!(deck.cards.len(), 52);
    for suit in ALL_SUITS {
        for rank in ALL_RANKS {
            let n = deck.cards.iter().filter(|c| c.rank == rank && c.suit == suit).count();
            assert_eq!(n, 1);
        }
    }
}

#[test]
fn card_display_joins_rank_and_suit() {
    assert_eq!(Card::new(Rank::Ace, Suit::Spades).to_string(), "A\u{2660}");
    assert_eq!(Card::new(Rank::Ten, Suit::Hearts).to_string(), "10\u{2665}");
    assert_eq!(Card::new(Rank::Two, Suit::Clubs).to_string(), "2\u{2663}");
}

#[test]
fn rank_values_run_two_to_fourteen() {
    assert_eq!(Rank::Two.value(), 2);
    assert_eq!(Rank::Ten.value(), 10);
    assert_eq!(Rank::Jack.value(), 11);
    assert_eq!(Rank::Ace.value(), 14);
    assert_eq!(Rank::Queen.symbol(), "Q");
    assert_eq!(Suit::Diamonds.symbol(), "\u{2666}");
}
