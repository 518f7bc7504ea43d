use holdem::card::{Card, Rank, Suit};
use holdem::hand::{evaluate_hand, find_best_hand, hand_value_lt, HandError, HandRank};

fn c(rank: Rank, suit: Suit) -> Card {
    Card::new(rank, suit)
}

#[test]
fn royal_flush_is_recognised() {
    let cards = vec![
        c(Rank::Ace, Suit::Spades),
        c(Rank::King, Suit::Spades),
        c(Rank::Queen, Suit::Spades),
        c(Rank::Jack, Suit::Spades),
        c(Rank::Ten, Suit::Spades),
    ];
    let hv = evaluate_hand(&cards);
    assert_eq!(hv.rank, HandRank::RoyalFlush);
    assert_eq!(hv.values, vec![14]);
}

#[test]
fn wheel_straight_flush_counts_as_five_high() {
    let cards = vec![
        c(Rank::Ace, Suit::Hearts),
        c(Rank::Five, Suit::Hearts),
        c(Rank::Four, Suit::Hearts),
        c(Rank::Three, Suit::Hearts),
        c(Rank::Two, Suit::Hearts),
    ];
    let hv = evaluate_hand(&cards);
    assert_eq!(hv.rank, HandRank::StraightFlush);
    assert_eq!(hv.values, vec![5]);
}

#[test]
fn full_house_orders_triple_then_pair() {
    let cards = vec![
        c(Rank::Seven, Suit::Clubs),
        c(Rank::Seven, Suit::Diamonds),
        c(Rank::Seven, Suit::Hearts),
        c(Rank::Two, Suit::Spades),
        c(Rank::Two, Suit::Clubs),
    ];
    let hv = evaluate_hand(&cards);
    assert_eq!(hv.rank, HandRank::FullHouse);
    assert_eq!(hv.values, vec![7, 2]);
}

#[test]
fn four_of_a_kind_with_kicker() {
    let cards = vec![
        c(Rank::Nine, Suit::Clubs),
        c(Rank::Nine, Suit::Diamonds),
        c(Rank::Nine, Suit::Hearts),
        c(Rank::Nine, Suit::Spades),
        c(Rank::King, Suit::Clubs),
    ];
    let hv = evaluate_hand(&cards);
    assert_eq!(hv.rank, HandRank::FourOfAKind);
    assert_eq!(hv.values, vec![9, 13]);
}

#[test]
fn flush_lists_all_ranks_descending() {
    let cards = vec![
        c(Rank::Two, Suit::Diamonds),
        c(Rank::Nine, Suit::Diamonds),
        c(Rank::King, Suit::Diamonds),
        c(Rank::Four, Suit::Diamonds),
        c(Rank::Jack, Suit::Diamonds),
    ];
    let hv = evaluate_hand(&cards);
    assert_eq!(hv.rank, HandRank::Flush);
    assert_eq!(hv.values, vec![13, 11, 9, 4, 2]);
}

#[test]
fn straight_takes_its_high_card() {
    let cards = vec![
        c(Rank::Ten, Suit::Clubs),
        c(Rank::Nine, Suit::Diamonds),
        c(Rank::Eight, Suit::Hearts),
        c(Rank::Seven, Suit::Spades),
        c(Rank::Six, Suit::Clubs),
    ];
    let hv = evaluate_hand(&cards);
    assert_eq!(hv.rank, HandRank::Straight);
    assert_eq!(hv.values, vec![10]);
}

#[test]
fn wheel_straight_without_flush() {
    let cards = vec![
        c(Rank::Ace, Suit::Clubs),
        c(Rank::Five, Suit::Diamonds),
        c(Rank::Four, Suit::Hearts),
        c(Rank::Three, Suit::Spades),
        c(Rank::Two, Suit::Clubs),
    ];
    let hv = evaluate_hand(&cards);
    assert_eq!(hv.rank, HandRank::Straight);
    assert_eq!(hv.values, vec![5]);
}

#[test]
fn three_of_a_kind_keeps_kickers_descending() {
    let cards = vec![
        c(Rank::Queen, Suit::Clubs),
        c(Rank::Queen, Suit::Diamonds),
        c(Rank::Queen, Suit::Hearts),
        c(Rank::Five, Suit::Spades),
        c(Rank::Nine, Suit::Clubs),
    ];
    let hv = evaluate_hand(&cards);
    assert_eq!(hv.rank, HandRank::ThreeOfAKind);
    assert_eq!(hv.values, vec![12, 9, 5]);
}

#[test]
fn two_pair_orders_high_low_kicker() {
    let cards = vec![
        c(Rank::Four, Suit::Clubs),
        c(Rank::Jack, Suit::Diamonds),
        c(Rank::Four, Suit::Hearts),
        c(Rank::Jack, Suit::Spades),
        c(Rank::Nine, Suit::Clubs),
    ];
    let hv = evaluate_hand(&cards);
    assert_eq!(hv.rank, HandRank::TwoPair);
    assert_eq!(hv.values, vec![11, 4, 9]);
}

#[test]
fn one_pair_keeps_kickers_descending() {
    let cards = vec![
        c(Rank::Eight, Suit::Clubs),
        c(Rank::Ace, Suit::Diamonds),
        c(Rank::Eight, Suit::Hearts),
        c(Rank::Seven, Suit::Spades),
        c(Rank::Three, Suit::Clubs),
    ];
    let hv = evaluate_hand(&cards);
    assert_eq!(hv.rank, HandRank::OnePair);
    assert_eq!(hv.values, vec![8, 14, 7, 3]);
}

#[test]
fn high_card_lists_all_ranks_descending() {
    let cards = vec![
        c(Rank::Ace, Suit::Clubs),
        c(Rank::Queen, Suit::Diamonds),
        c(Rank::Nine, Suit::Hearts),
        c(Rank::Six, Suit::Spades),
        c(Rank::Three, Suit::Clubs),
    ];
    let hv = evaluate_hand(&cards);
    assert_eq!(hv.rank, HandRank::HighCard);
    assert_eq!(hv.values, vec![14, 12, 9, 6, 3]);
}

#[test]
fn categories_order_by_priority() {
    let pair = evaluate_hand(&vec![
        c(Rank::Ace, Suit::Clubs),
        c(Rank::Ace, Suit::Diamonds),
        c(Rank::Nine, Suit::Hearts),
        c(Rank::Six, Suit::Spades),
        c(Rank::Three, Suit::Clubs),
    ]);
    let two_pair = evaluate_hand(&vec![
        c(Rank::Two, Suit::Clubs),
        c(Rank::Two, Suit::Diamonds),
        c(Rank::Three, Suit::Hearts),
        c(Rank::Three, Suit::Spades),
        c(Rank::Four, Suit::Clubs),
    ]);
    // the lowest two pair still beats the highest one pair
    assert!(hand_value_lt(&pair, &two_pair));
    assert!(!hand_value_lt(&two_pair, &pair));
}

#[test]
fn equal_category_breaks_ties_lexicographically() {
    let low = evaluate_hand(&vec![
        c(Rank::Eight, Suit::Clubs),
        c(Rank::Eight, Suit::Diamonds),
        c(Rank::King, Suit::Hearts),
        c(Rank::Seven, Suit::Spades),
        c(Rank::Three, Suit::Clubs),
    ]);
    let high = evaluate_hand(&vec![
        c(Rank::Eight, Suit::Hearts),
        c(Rank::Eight, Suit::Spades),
        c(Rank::Ace, Suit::Clubs),
        c(Rank::Four, Suit::Diamonds),
        c(Rank::Two, Suit::Hearts),
    ]);
    // both are a pair of eights; the ace kicker decides
    assert!(hand_value_lt(&low, &high));
}

#[test]
fn find_best_hand_picks_the_flush() {
    let seven = vec![
        c(Rank::Two, Suit::Spades),
        c(Rank::Six, Suit::Spades),
        c(Rank::Nine, Suit::Spades),
        c(Rank::Queen, Suit::Spades),
        c(Rank::Ace, Suit::Spades),
        c(Rank::Ace, Suit::Hearts),
        c(Rank::Ace, Suit::Diamonds),
    ];
    let (best, value) = find_best_hand(&seven).unwrap();
    assert_eq!(value.rank, HandRank::Flush);
    assert_eq!(value.values, vec![14, 12, 9, 6, 2]);
    // the reported cards score to the reported value
    let again = evaluate_hand(&best);
    assert_eq!(again.rank, value.rank);
    assert_eq!(again.values, value.values);
    // and no tested subset beats it
    let trips = evaluate_hand(&vec![seven[4], seven[5], seven[6], seven[3], seven[2]]);
    assert!(!hand_value_lt(&value, &trips));
}

#[test]
fn find_best_hand_needs_five_cards() {
    let four = vec![
        c(Rank::Two, Suit::Spades),
        c(Rank::Six, Suit::Spades),
        c(Rank::Nine, Suit::Spades),
        c(Rank::Queen, Suit::Spades),
    ];
    assert_eq!(find_best_hand(&four), Err(HandError::InsufficientCards));
}

#[test]
fn rank_names_and_ordinals() {
    assert_eq!(HandRank::RoyalFlush.name(), "Royal Flush");
    assert_eq!(HandRank::HighCard.name(), "High Card");
    assert!(HandRank::Flush.ord() > HandRank::Straight.ord());
}
