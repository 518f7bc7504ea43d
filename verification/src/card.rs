use vstd::prelude::*;

verus! {

use vstd::string::StringExecFns;
use vstd::arithmetic::div_mod::lemma_fundamental_div_mod;

/// One of the four card suits.
#[derive(Debug, Clone, Copy, PartialEq, Eq, Structural)]
pub enum Suit {
    Hearts,
    Diamonds,
    Clubs,
    Spades,
}

/// A card rank, from Two up to Ace.
#[derive(Debug, Clone, Copy, PartialEq, Eq, Structural)]
pub enum Rank {
    Two,
    Three,
    Four,
    Five,
    Six,
    Seven,
    Eight,
    Nine,
    Ten,
    Jack,
    Queen,
    King,
    Ace,
}

/// The numeric value of a rank, used for ordering and tiebreaks: Two is 2,
/// Ten is 10, Jack 11, Queen 12, King 13 and Ace 14.
pub open spec fn rank_value(r: Rank) -> u8 {
    match r {
        Rank::Two => 2,
        Rank::Three => 3,
        Rank::Four => 4,
        Rank::Five => 5,
        Rank::Six => 6,
        Rank::Seven => 7,
        Rank::Eight => 8,
        Rank::Nine => 9,
        Rank::Ten => 10,
        Rank::Jack => 11,
        Rank::Queen => 12,
        Rank::King => 13,
        Rank::Ace => 14,
    }
}

/// The characters of a rank's display symbol.
pub open spec fn rank_chars(r: Rank) -> Seq<char> {
    match r {
        Rank::Two => seq!['2'],
        Rank::Three => seq!['3'],
        Rank::Four => seq!['4'],
        Rank::Five => seq!['5'],
        Rank::Six => seq!['6'],
        Rank::Seven => seq!['7'],
        Rank::Eight => seq!['8'],
        Rank::Nine => seq!['9'],
        Rank::Ten => seq!['1', '0'],
        Rank::Jack => seq!['J'],
        Rank::Queen => seq!['Q'],
        Rank::King => seq!['K'],
        Rank::Ace => seq!['A'],
    }
}

/// The characters of a suit's display symbol.
pub open spec fn suit_chars(s: Suit) -> Seq<char> {
    match s {
        Suit::Hearts => seq!['\u{2665}'],
        Suit::Diamonds => seq!['\u{2666}'],
        Suit::Clubs => seq!['\u{2663}'],
        Suit::Spades => seq!['\u{2660}'],
    }
}

impl Rank {
    /// The numeric value of this rank.
    pub fn value(&self) -> (v: u8)
        ensures
            v == rank_value(*self),
    {
        match self {
            Rank::Two => 2,
            Rank::Three => 3,
            Rank::Four => 4,
            Rank::Five => 5,
            Rank::Six => 6,
            Rank::Seven => 7,
            Rank::Eight => 8,
            Rank::Nine => 9,
            Rank::Ten => 10,
            Rank::Jack => 11,
            Rank::Queen => 12,
            Rank::King => 13,
            Rank::Ace => 14,
        }
    }

    /// The display symbol of this rank.
    pub fn symbol(&self) -> (s: &str)
        ensures
            s@ == rank_chars(*self),
    {
        match self {
            Rank::Two => {
                proof { reveal_strlit("2"); }
                "2"
            },
            Rank::Three => {
                proof { reveal_strlit("3"); }
                "3"
            },
            Rank::Four => {
                proof { reveal_strlit("4"); }
                "4"
            },
            Rank::Five => {
                proof { reveal_strlit("5"); }
                "5"
            },
            Rank::Six => {
                proof { reveal_strlit("6"); }
                "6"
            },
            Rank::Seven => {
                proof { reveal_strlit("7"); }
                "7"
            },
            Rank::Eight => {
                proof { reveal_strlit("8"); }
                "8"
            },
            Rank::Nine => {
                proof { reveal_strlit("9"); }
                "9"
            },
            Rank::Ten => {
                proof { reveal_strlit("10"); }
                "10"
            },
            Rank::Jack => {
                proof { reveal_strlit("J"); }
                "J"
            },
            Rank::Queen => {
                proof { reveal_strlit("Q"); }
                "Q"
            },
            Rank::King => {
                proof { reveal_strlit("K"); }
                "K"
            },
            Rank::Ace => {
                proof { reveal_strlit("A"); }
                "A"
            },
        }
    }
}

impl Suit {
    /// The display symbol of this suit.
    pub fn symbol(&self) -> (s: &str)
        ensures
            s@ == suit_chars(*self),
    {
        match self {
            Suit::Hearts => {
                proof { reveal_strlit("\u{2665}"); }
                "\u{2665}"
            },
            Suit::Diamonds => {
                proof { reveal_strlit("\u{2666}"); }
                "\u{2666}"
            },
            Suit::Clubs => {
                proof { reveal_strlit("\u{2663}"); }
                "\u{2663}"
            },
            Suit::Spades => {
                proof { reveal_strlit("\u{2660}"); }
                "\u{2660}"
            },
        }
    }
}

/// A playing card: a rank and a suit, equal exactly when both agree.
#[derive(Debug, Clone, Copy, PartialEq, Eq, Structural)]
pub struct Card {
    pub rank: Rank,
    pub suit: Suit,
}

impl Card {
    pub fn new(rank: Rank, suit: Suit) -> (c: Card)
        ensures
            c == (Card { rank, suit }),
    {
        Card { rank, suit }
    }

    /// The display form of the card: its rank symbol followed by its suit symbol.
    pub fn to_string(&self) -> (s: String)
        ensures
            s@ == rank_chars(self.rank) + suit_chars(self.suit),
    {
        let mut s = String::from_str(self.rank.symbol());
        s.append(self.suit.symbol());
        s
    }
}

/// The suit a fresh deck places at block `i` (blocks of 13 consecutive cards).
pub open spec fn spec_suit_at(i: int) -> Suit {
    if i == 0 {
        Suit::Hearts
    } else if i == 1 {
        Suit::Diamonds
    } else if i == 2 {
        Suit::Clubs
    } else {
        Suit::Spades
    }
}

/// The rank a fresh deck places at offset `j` inside a suit block.
pub open spec fn spec_rank_at(j: int) -> Rank {
    if j == 0 {
        Rank::Two
    } else if j == 1 {
        Rank::Three
    } else if j == 2 {
        Rank::Four
    } else if j == 3 {
        Rank::Five
    } else if j == 4 {
        Rank::Six
    } else if j == 5 {
        Rank::Seven
    } else if j == 6 {
        Rank::Eight
    } else if j == 7 {
        Rank::Nine
    } else if j == 8 {
        Rank::Ten
    } else if j == 9 {
        Rank::Jack
    } else if j == 10 {
        Rank::Queen
    } else if j == 11 {
        Rank::King
    } else {
        Rank::Ace
    }
}

fn suit_at(i: usize) -> (s: Suit)
    requires
        i < 4,
    ensures
        s == spec_suit_at(i as int),
{
    if i == 0 {
        Suit::Hearts
    } else if i == 1 {
        Suit::Diamonds
    } else if i == 2 {
        Suit::Clubs
    } else {
        Suit::Spades
    }
}

fn rank_at(j: usize) -> (r: Rank)
    requires
        j < 13,
    ensures
        r == spec_rank_at(j as int),
{
    if j == 0 {
        Rank::Two
    } else if j == 1 {
        Rank::Three
    } else if j == 2 {
        Rank::Four
    } else if j == 3 {
        Rank::Five
    } else if j == 4 {
        Rank::Six
    } else if j == 5 {
        Rank::Seven
    } else if j == 6 {
        Rank::Eight
    } else if j == 7 {
        Rank::Nine
    } else if j == 8 {
        Rank::Ten
    } else if j == 9 {
        Rank::Jack
    } else if j == 10 {
        Rank::Queen
    } else if j == 11 {
        Rank::King
    } else {
        Rank::Ace
    }
}

/// An ordered deck of cards. A fresh deck holds the 52 distinct cards;
/// `deal` removes cards from the back.
pub struct Deck {
    pub cards: Vec<Card>,
}

impl Deck {
    /// A fresh deck: all 52 distinct cards, grouped in suit blocks of
    /// ascending rank.
    pub fn new() -> (d: Deck)
        ensures
            d.cards@.len() == 52,
            forall|s: int, r: int|
                0 <= s < 4 && 0 <= r < 13 ==> d.cards@[13 * s + r] == (Card {
                    rank: spec_rank_at(r),
                    suit: spec_suit_at(s),
                }),
            d.cards@.no_duplicates(),
    {
        let mut cards: Vec<Card> = Vec::new();
        let mut i: usize = 0;
        while i < 4
            invariant
                i <= 4,
                cards@.len() == 13 * i,
                forall|s: int, r: int|
                    0 <= s < i && 0 <= r < 13 ==> cards@[13 * s + r] == (Card {
                        rank: spec_rank_at(r),
                        suit: spec_suit_at(s),
                    }),
            decreases 4 - i,
        {
            let mut j: usize = 0;
            while j < 13
                invariant
                    i < 4,
                    j <= 13,
                    cards@.len() == 13 * i + j,
                    forall|s: int, r: int|
                        0 <= s < i && 0 <= r < 13 ==> cards@[13 * s + r] == (Card {
                            rank: spec_rank_at(r),
                            suit: spec_suit_at(s),
                        }),
                    forall|r: int|
                        0 <= r < j ==> cards@[13 * (i as int) + r] == (Card {
                            rank: spec_rank_at(r),
                            suit: spec_suit_at(i as int),
                        }),
                decreases 13 - j,
            {
                cards.push(Card { rank: rank_at(j), suit: suit_at(i) });
                j = j + 1;
            }
            i = i + 1;
        }
        proof {
            assert forall|k1: int, k2: int| 0 <= k1 < k2 < 52 implies cards@[k1] != cards@[k2] by {
                lemma_fundamental_div_mod(k1, 13);
                lemma_fundamental_div_mod(k2, 13);
                let s1 = k1 / 13;
                let r1 = k1 % 13;
                let s2 = k2 / 13;
                let r2 = k2 % 13;
                assert(cards@[13 * s1 + r1] == (Card {
                    rank: spec_rank_at(r1),
                    suit: spec_suit_at(s1),
                }));
                assert(cards@[13 * s2 + r2] == (Card {
                    rank: spec_rank_at(r2),
                    suit: spec_suit_at(s2),
                }));
            }
        }
        Deck { cards }
    }

    /// Relies on rand's `SliceRandom::shuffle` (Fisher-Yates over the slice):
    /// it rearranges the cards in place by swapping elements, so the cards
    /// after the call are exactly the cards before it, in some order.
    #[verifier::external_body]
    pub fn shuffle(&mut self)
        ensures
            final(self).cards@.len() == old(self).cards@.len(),
            final(self).cards@.to_multiset() == old(self).cards@.to_multiset(),
    {
        let mut rng = rand::thread_rng();
        rand::seq::SliceRandom::shuffle(self.cards.as_mut_slice(), &mut rng);
    }

    /// Deal one card off the back of a deck known to be nonempty.
    pub fn deal_sure(&mut self) -> (c: Card)
        requires
            old(self).cards@.len() > 0,
        ensures
            c == old(self).cards@.last(),
            final(self).cards@ == old(self).cards@.drop_last(),
    {
        match self.deal() {
            Some(c) => c,
            None => vstd::pervasive::unreached(),
        }
    }

    /// Deal one card off the back of the deck; `None` only when the deck is empty.
    pub fn deal(&mut self) -> (c: Option<Card>)
        ensures
            old(self).cards@.len() == 0 ==> c is None && final(self).cards@ == old(self).cards@,
            old(self).cards@.len() > 0 ==> c == Some(old(self).cards@.last())
                && final(self).cards@ == old(self).cards@.drop_last(),
    {
        self.cards.pop()
    }
}

/// Copy a card list.
pub fn clone_cards(v: &Vec<Card>) -> (r: Vec<Card>)
    ensures
        r@ == v@,
{
    let mut r: Vec<Card> = Vec::new();
    let mut i: usize = 0;
    while i < v.len()
        invariant
            i <= v@.len(),
            r@ == v@.take(i as int),
        decreases v@.len() - i,
    {
        r.push(v[i]);
        proof {
            assert(v@.take(i as int + 1) =~= v@.take(i as int).push(v@[i as int]));
        }
        i = i + 1;
    }
    proof {
        assert(v@.take(v@.len() as int) =~= v@);
    }
    r
}

/// Two sequences holding the same cards with the same multiplicities either
/// both repeat a card or neither does.
pub proof fn lemma_no_duplicates_from_multiset(a: Seq<Card>, b: Seq<Card>)
    requires
        a.no_duplicates(),
        a.to_multiset() == b.to_multiset(),
    ensures
        b.no_duplicates(),
{
    a.lemma_multiset_has_no_duplicates();
    b.lemma_multiset_has_no_duplicates_conv();
}

} // verus!
