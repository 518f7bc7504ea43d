use vstd::prelude::*;

verus! {

use crate::card::{Card, rank_value};

/// The category of a five-card hand, weakest first.
#[derive(Debug, Clone, Copy, PartialEq, Eq, Structural)]
pub enum HandRank {
    HighCard,
    OnePair,
    TwoPair,
    ThreeOfAKind,
    Straight,
    Flush,
    FullHouse,
    FourOfAKind,
    StraightFlush,
    RoyalFlush,
}

/// The ordinal of a category: a category beats every category with a
/// smaller ordinal, whatever the tiebreaks.
pub open spec fn rank_ord(r: HandRank) -> int {
    match r {
        HandRank::HighCard => 1,
        HandRank::OnePair => 2,
        HandRank::TwoPair => 3,
        HandRank::ThreeOfAKind => 4,
        HandRank::Straight => 5,
        HandRank::Flush => 6,
        HandRank::FullHouse => 7,
        HandRank::FourOfAKind => 8,
        HandRank::StraightFlush => 9,
        HandRank::RoyalFlush => 10,
    }
}

/// The display name of a category.
pub open spec fn rank_name_chars(r: HandRank) -> Seq<char> {
    match r {
        HandRank::HighCard => "High Card"@,
        HandRank::OnePair => "One Pair"@,
        HandRank::TwoPair => "Two Pair"@,
        HandRank::ThreeOfAKind => "Three of a Kind"@,
        HandRank::Straight => "Straight"@,
        HandRank::Flush => "Flush"@,
        HandRank::FullHouse => "Full House"@,
        HandRank::FourOfAKind => "Four of a Kind"@,
        HandRank::StraightFlush => "Straight Flush"@,
        HandRank::RoyalFlush => "Royal Flush"@,
    }
}

impl HandRank {
    /// The ordinal of this category.
    pub fn ord(&self) -> (o: u8)
        ensures
            o as int == rank_ord(*self),
    {
        match self {
            HandRank::HighCard => 1,
            HandRank::OnePair => 2,
            HandRank::TwoPair => 3,
            HandRank::ThreeOfAKind => 4,
            HandRank::Straight => 5,
            HandRank::Flush => 6,
            HandRank::FullHouse => 7,
            HandRank::FourOfAKind => 8,
            HandRank::StraightFlush => 9,
            HandRank::RoyalFlush => 10,
        }
    }

    /// The display name of this category.
    pub fn name(&self) -> (s: &str)
        ensures
            s@ == rank_name_chars(*self),
    {
        match self {
            HandRank::HighCard => "High Card",
            HandRank::OnePair => "One Pair",
            HandRank::TwoPair => "Two Pair",
            HandRank::ThreeOfAKind => "Three of a Kind",
            HandRank::Straight => "Straight",
            HandRank::Flush => "Flush",
            HandRank::FullHouse => "Full House",
            HandRank::FourOfAKind => "Four of a Kind",
            HandRank::StraightFlush => "Straight Flush",
            HandRank::RoyalFlush => "Royal Flush",
        }
    }
}

/// The score of a hand: its category, then rank values breaking ties within
/// the category, most significant first. Ordered by `hv_lt`.
#[derive(Debug, Clone, PartialEq, Eq)]
pub struct HandValue {
    pub rank: HandRank,
    pub values: Vec<u8>,
}

/// How many of the cards have rank value `v`.
pub open spec fn count_rank(cs: Seq<Card>, v: int) -> int
    decreases cs.len(),
{
    if cs.len() == 0 {
        0
    } else {
        count_rank(cs.drop_last(), v) + if rank_value(cs.last().rank) == v {
            1int
        } else {
            0int
        }
    }
}

/// All cards share the first card's suit.
pub open spec fn is_flush(cs: Seq<Card>) -> bool {
    forall|i: int| 0 <= i < cs.len() ==> #[trigger] cs[i].suit == cs[0].suit
}

/// The five ranks `h-4` up to `h` each occur exactly once.
pub open spec fn straight_to(cs: Seq<Card>, h: int) -> bool {
    &&& 6 <= h <= 14
    &&& forall|v: int| h - 4 <= v <= h ==> count_rank(cs, v) == 1
}

/// The wheel: Ace, Five, Four, Three, Two, each exactly once.
pub open spec fn is_wheel(cs: Seq<Card>) -> bool {
    &&& count_rank(cs, 14) == 1
    &&& count_rank(cs, 5) == 1
    &&& count_rank(cs, 4) == 1
    &&& count_rank(cs, 3) == 1
    &&& count_rank(cs, 2) == 1
}

/// The highest `h' <= h` such that the hand is a run of five ending at `h'`,
/// or 0 when there is none.
pub open spec fn normal_straight_high_from(cs: Seq<Card>, h: int) -> int
    decreases h,
{
    if h < 6 {
        0
    } else if straight_to(cs, h) {
        h
    } else {
        normal_straight_high_from(cs, h - 1)
    }
}

/// The high card of the hand's straight, counting the wheel as 5-high;
/// 0 when the hand is no straight.
pub open spec fn straight_high(cs: Seq<Card>) -> int {
    if normal_straight_high_from(cs, 14) != 0 {
        normal_straight_high_from(cs, 14)
    } else if is_wheel(cs) {
        5
    } else {
        0
    }
}

pub open spec fn is_straight(cs: Seq<Card>) -> bool {
    straight_high(cs) != 0
}

/// The highest rank value `v' <= v` whose count is exactly `n`, or 0 when
/// there is none.
pub open spec fn top_with_count_from(cs: Seq<Card>, n: int, v: int) -> int
    decreases v,
{
    if v < 2 {
        0
    } else if count_rank(cs, v) == n {
        v
    } else {
        top_with_count_from(cs, n, v - 1)
    }
}

pub open spec fn top_with_count(cs: Seq<Card>, n: int) -> int {
    top_with_count_from(cs, n, 14)
}

/// The category of a five-card hand, tested in strict priority order.
pub open spec fn category(cs: Seq<Card>) -> HandRank {
    if is_flush(cs) && is_straight(cs) {
        if straight_high(cs) == 14 {
            HandRank::RoyalFlush
        } else {
            HandRank::StraightFlush
        }
    } else if top_with_count(cs, 4) != 0 {
        HandRank::FourOfAKind
    } else if top_with_count(cs, 3) != 0 && top_with_count(cs, 2) != 0 {
        HandRank::FullHouse
    } else if is_flush(cs) {
        HandRank::Flush
    } else if is_straight(cs) {
        HandRank::Straight
    } else if top_with_count(cs, 3) != 0 {
        HandRank::ThreeOfAKind
    } else if top_with_count(cs, 2) != 0 && top_with_count_from(cs, 2, top_with_count(cs, 2) - 1)
        != 0 {
        HandRank::TwoPair
    } else if top_with_count(cs, 2) != 0 {
        HandRank::OnePair
    } else {
        HandRank::HighCard
    }
}

/// All rank values of the hand, highest first, with multiplicity, walking
/// `v` down to 2.
pub open spec fn ranks_desc_from(cs: Seq<Card>, v: int) -> Seq<u8>
    decreases v,
{
    if v < 2 {
        Seq::empty()
    } else {
        Seq::new(count_rank(cs, v) as nat, |i: int| v as u8) + ranks_desc_from(cs, v - 1)
    }
}

/// The rank values present in the hand other than `e1` and `e2`, highest
/// first, each once, walking `v` down to 2.
pub open spec fn kickers_desc_from(cs: Seq<Card>, v: int, e1: int, e2: int) -> Seq<u8>
    decreases v,
{
    if v < 2 {
        Seq::empty()
    } else {
        (if count_rank(cs, v) >= 1 && v != e1 && v != e2 {
            seq![v as u8]
        } else {
            Seq::empty()
        }) + kickers_desc_from(cs, v - 1, e1, e2)
    }
}

/// The tiebreak list of a five-card hand, as its category calls for.
pub open spec fn tiebreak(cs: Seq<Card>) -> Seq<u8> {
    let cat = category(cs);
    if cat == HandRank::RoyalFlush {
        seq![14u8]
    } else if cat == HandRank::StraightFlush || cat == HandRank::Straight {
        seq![straight_high(cs) as u8]
    } else if cat == HandRank::FourOfAKind {
        seq![top_with_count(cs, 4) as u8] + kickers_desc_from(cs, 14, top_with_count(cs, 4), 0)
    } else if cat == HandRank::FullHouse {
        seq![top_with_count(cs, 3) as u8, top_with_count(cs, 2) as u8]
    } else if cat == HandRank::Flush || cat == HandRank::HighCard {
        ranks_desc_from(cs, 14)
    } else if cat == HandRank::ThreeOfAKind {
        seq![top_with_count(cs, 3) as u8] + kickers_desc_from(cs, 14, top_with_count(cs, 3), 0)
    } else if cat == HandRank::TwoPair {
        seq![
            top_with_count(cs, 2) as u8,
            top_with_count_from(cs, 2, top_with_count(cs, 2) - 1) as u8,
        ] + kickers_desc_from(
            cs,
            14,
            top_with_count(cs, 2),
            top_with_count_from(cs, 2, top_with_count(cs, 2) - 1),
        )
    } else {
        seq![top_with_count(cs, 2) as u8] + kickers_desc_from(cs, 14, top_with_count(cs, 2), 0)
    }
}

/// Strict lexicographic order on tiebreak lists; a strict prefix is smaller.
pub open spec fn seq_lt(a: Seq<u8>, b: Seq<u8>) -> bool
    decreases a.len(),
{
    if b.len() == 0 {
        false
    } else if a.len() == 0 {
        true
    } else if a[0] < b[0] {
        true
    } else if a[0] > b[0] {
        false
    } else {
        seq_lt(a.drop_first(), b.drop_first())
    }
}

/// The total order on hand values: category first, then tiebreaks
/// lexicographically.
pub open spec fn hv_lt(ra: HandRank, va: Seq<u8>, rb: HandRank, vb: Seq<u8>) -> bool {
    rank_ord(ra) < rank_ord(rb) || (rank_ord(ra) == rank_ord(rb) && seq_lt(va, vb))
}

/// `seq_lt` is a strict total order: of two lists exactly one of
/// `a < b`, `b < a`, `a == b` holds.
pub proof fn lemma_seq_lt_trichotomy(a: Seq<u8>, b: Seq<u8>)
    ensures
        seq_lt(a, b) || seq_lt(b, a) || a == b,
        !(seq_lt(a, b) && seq_lt(b, a)),
        !(seq_lt(a, b) && a == b),
    decreases a.len(),
{
    if a.len() != 0 && b.len() != 0 && a[0] == b[0] {
        lemma_seq_lt_trichotomy(a.drop_first(), b.drop_first());
        if !seq_lt(a, b) && !seq_lt(b, a) {
            assert(a.drop_first() == b.drop_first());
            assert forall|i: int| 0 <= i < a.len() implies a[i] == b[i] by {
                if i > 0 {
                    assert(a[i] == a.drop_first()[i - 1]);
                    assert(b[i] == b.drop_first()[i - 1]);
                }
            }
            assert(a =~= b);
        }
        if a == b {
            assert(a.drop_first() == b.drop_first());
        }
    } else {
        if a.len() == 0 && b.len() == 0 {
            assert(a =~= b);
        } else if a.len() == 0 {
            assert(seq_lt(a, b));
        } else if b.len() == 0 {
            assert(seq_lt(b, a));
        } else {
            assert(a[0] != b[0]);
            assert(seq_lt(a, b) || seq_lt(b, a));
        }
    }
}

/// `seq_lt` is transitive.
pub proof fn lemma_seq_lt_trans(a: Seq<u8>, b: Seq<u8>, c: Seq<u8>)
    requires
        seq_lt(a, b),
        seq_lt(b, c),
    ensures
        seq_lt(a, c),
    decreases a.len(),
{
    if a.len() != 0 && b.len() != 0 && c.len() != 0 && a[0] == b[0] && b[0] == c[0] {
        lemma_seq_lt_trans(a.drop_first(), b.drop_first(), c.drop_first());
    }
}

/// `hv_lt` is a strict total order on hand values: exactly one of
/// `a < b`, `b < a`, `a == b` holds, and the order is transitive.
pub proof fn lemma_hv_lt_trichotomy(ra: HandRank, va: Seq<u8>, rb: HandRank, vb: Seq<u8>)
    ensures
        hv_lt(ra, va, rb, vb) || hv_lt(rb, vb, ra, va) || (ra == rb && va == vb),
        !(hv_lt(ra, va, rb, vb) && hv_lt(rb, vb, ra, va)),
        !(hv_lt(ra, va, rb, vb) && ra == rb && va == vb),
{
    lemma_seq_lt_trichotomy(va, vb);
}

/// `hv_lt` is transitive.
pub proof fn lemma_hv_lt_trans(
    ra: HandRank,
    va: Seq<u8>,
    rb: HandRank,
    vb: Seq<u8>,
    rc: HandRank,
    vc: Seq<u8>,
)
    requires
        hv_lt(ra, va, rb, vb),
        hv_lt(rb, vb, rc, vc),
    ensures
        hv_lt(ra, va, rc, vc),
{
    if rank_ord(ra) == rank_ord(rb) && rank_ord(rb) == rank_ord(rc) {
        lemma_seq_lt_trans(va, vb, vc);
    }
}

/// Two hands of different category order by category alone: the higher
/// category wins, whatever the tiebreak lists hold.
pub proof fn lemma_category_order(a: Seq<Card>, b: Seq<Card>)
    requires
        a.len() == 5,
        b.len() == 5,
        category(a) != category(b),
    ensures
        hv_lt(category(a), tiebreak(a), category(b), tiebreak(b)) <==> rank_ord(category(a))
            < rank_ord(category(b)),
{
    let ca = category(a);
    let cb = category(b);
    assert(rank_ord(ca) != rank_ord(cb));
}

/// Compare two tiebreak vectors lexicographically.
fn values_lt(a: &Vec<u8>, b: &Vec<u8>) -> (r: bool)
    ensures
        r == seq_lt(a@, b@),
{
    let mut i: usize = 0;
    proof {
        assert(a@.skip(0) =~= a@);
        assert(b@.skip(0) =~= b@);
    }
    while i < a.len() && i < b.len()
        invariant
            i <= a.len(),
            i <= b.len(),
            seq_lt(a@, b@) == seq_lt(a@.skip(i as int), b@.skip(i as int)),
            seq_lt(b@, a@) == seq_lt(b@.skip(i as int), a@.skip(i as int)),
        decreases a.len() - i,
    {
        let x = a[i];
        let y = b[i];
        if x < y {
            return true;
        }
        if y < x {
            return false;
        }
        proof {
            assert(a@.skip(i as int).drop_first() =~= a@.skip(i as int + 1));
            assert(b@.skip(i as int).drop_first() =~= b@.skip(i as int + 1));
        }
        i = i + 1;
    }
    proof {
        assert(a@.skip(i as int).len() == a@.len() - i);
        assert(b@.skip(i as int).len() == b@.len() - i);
    }
    i < b.len()
}

/// No rank can occur more often than the hand has cards.
pub proof fn lemma_count_rank_le_len(cs: Seq<Card>, v: int)
    ensures
        0 <= count_rank(cs, v) <= cs.len(),
    decreases cs.len(),
{
    if cs.len() > 0 {
        lemma_count_rank_le_len(cs.drop_last(), v);
    }
}

/// Tally how many cards carry each rank value; slot `v` of the result holds
/// the count of rank value `v`.
fn rank_counts(cards: &Vec<Card>) -> (cnt: Vec<u8>)
    requires
        cards@.len() == 5,
    ensures
        cnt@.len() == 15,
        forall|v: int| 0 <= v < 15 ==> cnt@[v] as int == count_rank(cards@, v),
{
    let mut cnt: Vec<u8> = vec![0u8; 15];
    let mut k: usize = 0;
    proof {
        assert(cards@.subrange(0, 0) =~= Seq::<Card>::empty());
    }
    while k < 5
        invariant
            k <= 5,
            cards@.len() == 5,
            cnt@.len() == 15,
            forall|v: int| 0 <= v < 15 ==> cnt@[v] as int == count_rank(cards@.subrange(0, k as int), v),
        decreases 5 - k,
    {
        let vi = cards[k].rank.value() as usize;
        proof {
            assert(cards@.subrange(0, k as int + 1).drop_last() =~= cards@.subrange(0, k as int));
            assert(cards@.subrange(0, k as int + 1).last() == cards@[k as int]);
            lemma_count_rank_le_len(cards@.subrange(0, k as int), vi as int);
        }
        let c = cnt[vi];
        cnt.set(vi, c + 1);
        k = k + 1;
    }
    proof {
        assert(cards@.subrange(0, 5) =~= cards@);
    }
    cnt
}

/// Whether all five cards share one suit.
fn flush_check(cards: &Vec<Card>) -> (f: bool)
    requires
        cards@.len() >= 1,
    ensures
        f == is_flush(cards@),
{
    let s0 = cards[0].suit;
    let mut i: usize = 1;
    while i < cards.len()
        invariant
            1 <= i <= cards@.len(),
            s0 == cards@[0].suit,
            forall|j: int| 0 <= j < i ==> #[trigger] cards@[j].suit == s0,
        decreases cards@.len() - i,
    {
        if !(cards[i].suit == s0) {
            return false;
        }
        i = i + 1;
    }
    true
}

/// Scan down from 14 for a run of five ranks that each occur exactly once.
fn straight_scan(cnt: &Vec<u8>, Ghost(cs): Ghost<Seq<Card>>) -> (sh: u8)
    requires
        cnt@.len() == 15,
        forall|v: int| 0 <= v < 15 ==> cnt@[v] as int == count_rank(cs, v),
    ensures
        sh as int == normal_straight_high_from(cs, 14),
{
    let mut h: usize = 14;
    while h >= 6
        invariant
            5 <= h <= 14,
            cnt@.len() == 15,
            forall|v: int| 0 <= v < 15 ==> cnt@[v] as int == count_rank(cs, v),
            normal_straight_high_from(cs, 14) == normal_straight_high_from(cs, h as int),
        decreases h,
    {
        let hit = cnt[h] == 1 && cnt[h - 1] == 1 && cnt[h - 2] == 1 && cnt[h - 3] == 1 && cnt[h
            - 4] == 1;
        if hit {
            proof {
                assert forall|v: int| h - 4 <= v <= h implies count_rank(cs, v) == 1 by {
                    assert(v == h || v == h - 1 || v == h - 2 || v == h - 3 || v == h - 4);
                }
                assert(straight_to(cs, h as int));
            }
            return h as u8;
        }
        proof {
            if straight_to(cs, h as int) {
                assert(count_rank(cs, h as int) == 1);
                assert(count_rank(cs, h as int - 1) == 1);
                assert(count_rank(cs, h as int - 2) == 1);
                assert(count_rank(cs, h as int - 3) == 1);
                assert(count_rank(cs, h as int - 4) == 1);
                assert(false);
            }
        }
        h = h - 1;
    }
    0
}

/// Scan down from `start` for the highest rank value occurring exactly `n`
/// times.
fn top_scan(cnt: &Vec<u8>, n: u8, start: u8, Ghost(cs): Ghost<Seq<Card>>) -> (t: u8)
    requires
        cnt@.len() == 15,
        forall|v: int| 0 <= v < 15 ==> cnt@[v] as int == count_rank(cs, v),
        1 <= start <= 14,
    ensures
        t as int == top_with_count_from(cs, n as int, start as int),
        t == 0 || (2 <= t && t <= start),
{
    let mut h: usize = start as usize;
    while h >= 2
        invariant
            1 <= h <= start <= 14,
            cnt@.len() == 15,
            forall|v: int| 0 <= v < 15 ==> cnt@[v] as int == count_rank(cs, v),
            top_with_count_from(cs, n as int, start as int) == top_with_count_from(
                cs,
                n as int,
                h as int,
            ),
        decreases h,
    {
        if cnt[h] == n {
            return h as u8;
        }
        h = h - 1;
    }
    0
}

/// The rank values present other than `e1` and `e2`, highest first.
fn kickers_vec(cnt: &Vec<u8>, e1: u8, e2: u8, Ghost(cs): Ghost<Seq<Card>>) -> (ks: Vec<u8>)
    requires
        cnt@.len() == 15,
        forall|v: int| 0 <= v < 15 ==> cnt@[v] as int == count_rank(cs, v),
    ensures
        ks@ == kickers_desc_from(cs, 14, e1 as int, e2 as int),
{
    let mut ks: Vec<u8> = Vec::new();
    let mut h: usize = 14;
    while h >= 2
        invariant
            1 <= h <= 14,
            cnt@.len() == 15,
            forall|v: int| 0 <= v < 15 ==> cnt@[v] as int == count_rank(cs, v),
            ks@ + kickers_desc_from(cs, h as int, e1 as int, e2 as int) == kickers_desc_from(
                cs,
                14,
                e1 as int,
                e2 as int,
            ),
        decreases h,
    {
        let ghost pre = ks@;
        if cnt[h] >= 1 && h as u8 != e1 && h as u8 != e2 {
            ks.push(h as u8);
            proof {
                assert(ks@ =~= pre + seq![h as u8]);
                assert(pre + (seq![h as u8] + kickers_desc_from(
                    cs,
                    h as int - 1,
                    e1 as int,
                    e2 as int,
                )) =~= (pre + seq![h as u8]) + kickers_desc_from(
                    cs,
                    h as int - 1,
                    e1 as int,
                    e2 as int,
                ));
            }
        } else {
            proof {
                assert(Seq::<u8>::empty() + kickers_desc_from(cs, h as int - 1, e1 as int, e2 as int)
                    =~= kickers_desc_from(cs, h as int - 1, e1 as int, e2 as int));
            }
        }
        h = h - 1;
    }
    proof {
        assert(ks@ + kickers_desc_from(cs, 1, e1 as int, e2 as int) =~= ks@);
    }
    ks
}

/// All five rank values, highest first, with multiplicity.
fn all_ranks_desc(cnt: &Vec<u8>, Ghost(cs): Ghost<Seq<Card>>) -> (rs: Vec<u8>)
    requires
        cnt@.len() == 15,
        forall|v: int| 0 <= v < 15 ==> cnt@[v] as int == count_rank(cs, v),
    ensures
        rs@ == ranks_desc_from(cs, 14),
{
    let mut rs: Vec<u8> = Vec::new();
    let mut h: usize = 14;
    while h >= 2
        invariant
            1 <= h <= 14,
            cnt@.len() == 15,
            forall|v: int| 0 <= v < 15 ==> cnt@[v] as int == count_rank(cs, v),
            rs@ + ranks_desc_from(cs, h as int) == ranks_desc_from(cs, 14),
        decreases h,
    {
        let ghost pre = rs@;
        let c = cnt[h];
        let mut t: u8 = 0;
        while t < c
            invariant
                t <= c,
                cnt@.len() == 15,
                c as int == count_rank(cs, h as int),
                rs@ == pre + Seq::new(t as nat, |i: int| h as u8),
            decreases c - t,
        {
            rs.push(h as u8);
            proof {
                assert(pre + Seq::new((t + 1) as nat, |i: int| h as u8) =~= (pre + Seq::new(
                    t as nat,
                    |i: int| h as u8,
                )).push(h as u8));
            }
            t = t + 1;
        }
        proof {
            assert(pre + (Seq::new(count_rank(cs, h as int) as nat, |i: int| h as u8)
                + ranks_desc_from(cs, h as int - 1)) =~= (pre + Seq::new(
                count_rank(cs, h as int) as nat,
                |i: int| h as u8,
            )) + ranks_desc_from(cs, h as int - 1));
        }
        h = h - 1;
    }
    proof {
        assert(rs@ + ranks_desc_from(cs, 1) =~= rs@);
    }
    rs
}

/// Score a five-card hand: classify it in strict priority order and attach
/// the tiebreak ranks its category calls for.
pub fn evaluate_hand(cards: &Vec<Card>) -> (hv: HandValue)
    requires
        cards@.len() == 5,
    ensures
        hv.rank == category(cards@),
        hv.values@ == tiebreak(cards@),
{
    let ghost cs = cards@;
    let cnt = rank_counts(cards);
    let flush = flush_check(cards);
    let sh_normal = straight_scan(&cnt, Ghost(cs));
    let wheel = cnt[14] == 1 && cnt[5] == 1 && cnt[4] == 1 && cnt[3] == 1 && cnt[2] == 1;
    proof {
        assert(wheel == is_wheel(cs));
    }
    let shigh: u8 = if sh_normal != 0 {
        sh_normal
    } else if wheel {
        5
    } else {
        0
    };
    proof {
        assert(shigh as int == straight_high(cs));
        assert((shigh != 0) == is_straight(cs));
    }
    if flush && shigh != 0 {
        if shigh == 14 {
            let hv = HandValue { rank: HandRank::RoyalFlush, values: vec![14u8] };
            proof {
                assert(hv.values@ =~= seq![14u8]);
            }
            return hv;
        }
        let hv = HandValue { rank: HandRank::StraightFlush, values: vec![shigh] };
        proof {
            assert(hv.values@ =~= seq![straight_high(cs) as u8]);
        }
        return hv;
    }
    let quad = top_scan(&cnt, 4, 14, Ghost(cs));
    if quad != 0 {
        let mut vals: Vec<u8> = Vec::new();
        vals.push(quad);
        let mut ks = kickers_vec(&cnt, quad, 0, Ghost(cs));
        vals.append(&mut ks);
        proof {
            assert(vals@ =~= seq![top_with_count(cs, 4) as u8] + kickers_desc_from(
                cs,
                14,
                top_with_count(cs, 4),
                0,
            ));
        }
        return HandValue { rank: HandRank::FourOfAKind, values: vals };
    }
    let trips = top_scan(&cnt, 3, 14, Ghost(cs));
    let pair = top_scan(&cnt, 2, 14, Ghost(cs));
    if trips != 0 && pair != 0 {
        let mut vals: Vec<u8> = Vec::new();
        vals.push(trips);
        vals.push(pair);
        proof {
            assert(vals@ =~= seq![top_with_count(cs, 3) as u8, top_with_count(cs, 2) as u8]);
        }
        return HandValue { rank: HandRank::FullHouse, values: vals };
    }
    if flush {
        let vals = all_ranks_desc(&cnt, Ghost(cs));
        return HandValue { rank: HandRank::Flush, values: vals };
    }
    if shigh != 0 {
        let hv = HandValue { rank: HandRank::Straight, values: vec![shigh] };
        proof {
            assert(hv.values@ =~= seq![straight_high(cs) as u8]);
        }
        return hv;
    }
    if trips != 0 {
        let mut vals: Vec<u8> = Vec::new();
        vals.push(trips);
        let mut ks = kickers_vec(&cnt, trips, 0, Ghost(cs));
        vals.append(&mut ks);
        proof {
            assert(vals@ =~= seq![top_with_count(cs, 3) as u8] + kickers_desc_from(
                cs,
                14,
                top_with_count(cs, 3),
                0,
            ));
        }
        return HandValue { rank: HandRank::ThreeOfAKind, values: vals };
    }
    if pair != 0 {
        let lo = top_scan(&cnt, 2, pair - 1, Ghost(cs));
        if lo != 0 {
            let mut vals: Vec<u8> = Vec::new();
            vals.push(pair);
            vals.push(lo);
            let mut ks = kickers_vec(&cnt, pair, lo, Ghost(cs));
            vals.append(&mut ks);
            proof {
                assert(vals@ =~= seq![
                    top_with_count(cs, 2) as u8,
                    top_with_count_from(cs, 2, top_with_count(cs, 2) - 1) as u8,
                ] + kickers_desc_from(
                    cs,
                    14,
                    top_with_count(cs, 2),
                    top_with_count_from(cs, 2, top_with_count(cs, 2) - 1),
                ));
            }
            return HandValue { rank: HandRank::TwoPair, values: vals };
        }
        let mut vals: Vec<u8> = Vec::new();
        vals.push(pair);
        let mut ks = kickers_vec(&cnt, pair, 0, Ghost(cs));
        vals.append(&mut ks);
        proof {
            assert(vals@ =~= seq![top_with_count(cs, 2) as u8] + kickers_desc_from(
                cs,
                14,
                top_with_count(cs, 2),
                0,
            ));
        }
        return HandValue { rank: HandRank::OnePair, values: vals };
    }
    let vals = all_ranks_desc(&cnt, Ghost(cs));
    HandValue { rank: HandRank::HighCard, values: vals }
}

/// Whether hand value `a` is strictly weaker than `b` in the total order.
pub fn hand_value_lt(a: &HandValue, b: &HandValue) -> (r: bool)
    ensures
        r == hv_lt(a.rank, a.values@, b.rank, b.values@),
{
    let ao = a.rank.ord();
    let bo = b.rank.ord();
    if ao < bo {
        true
    } else if bo < ao {
        false
    } else {
        values_lt(&a.values, &b.values)
    }
}

/// Failure of the seven-card search: fewer than five cards were given.
#[derive(Debug, Clone, Copy, PartialEq, Eq, Structural)]
pub enum HandError {
    InsufficientCards,
}

/// Five index positions in strictly ascending order, all below `n`.
pub open spec fn idx5_ok(n: int, a: int, b: int, c: int, d: int, e: int) -> bool {
    0 <= a && a < b && b < c && c < d && d < e && e < n
}

/// The five-card hand drawn from positions `a` to `e` of `cs`.
pub open spec fn pick5(cs: Seq<Card>, a: int, b: int, c: int, d: int, e: int) -> Seq<Card> {
    seq![cs[a], cs[b], cs[c], cs[d], cs[e]]
}

/// A rank carried by some card of the hand has a positive count.
pub proof fn lemma_count_rank_member(cs: Seq<Card>, i: int)
    requires
        0 <= i < cs.len(),
    ensures
        count_rank(cs, rank_value(cs[i].rank) as int) >= 1,
    decreases cs.len(),
{
    lemma_count_rank_le_len(cs.drop_last(), rank_value(cs[i].rank) as int);
    if i < cs.len() - 1 {
        lemma_count_rank_member(cs.drop_last(), i);
    }
}

/// A nonempty descending rank list starts with a value between 2 and `v`.
proof fn lemma_ranks_desc_first(cs: Seq<Card>, v: int)
    requires
        v <= 14,
        ranks_desc_from(cs, v).len() > 0,
    ensures
        2 <= ranks_desc_from(cs, v)[0] <= v,
    decreases v,
{
    if v >= 2 {
        lemma_count_rank_le_len(cs, v);
        if count_rank(cs, v) == 0 {
            assert(Seq::new(0nat, |i: int| v as u8) + ranks_desc_from(cs, v - 1) =~= ranks_desc_from(
                cs,
                v - 1,
            ));
            lemma_ranks_desc_first(cs, v - 1);
        } else {
            let block = Seq::new(count_rank(cs, v) as nat, |i: int| v as u8);
            assert(block.len() > 0);
            assert(block[0] == v as u8);
            assert(ranks_desc_from(cs, v)[0] == v as u8);
        }
    }
}

/// A rank with a positive count keeps the descending rank list nonempty.
proof fn lemma_ranks_desc_nonempty(cs: Seq<Card>, v: int, w: int)
    requires
        2 <= w <= v,
        count_rank(cs, w) >= 1,
    ensures
        ranks_desc_from(cs, v).len() >= 1,
    decreases v,
{
    lemma_count_rank_le_len(cs, v);
    if count_rank(cs, v) == 0 {
        lemma_ranks_desc_nonempty(cs, v - 1, w);
    }
}

/// Every five-card hand scores strictly above the placeholder value
/// (`HighCard` with tiebreak list `[0]`).
pub proof fn lemma_sentinel_lt(cs: Seq<Card>)
    requires
        cs.len() == 5,
    ensures
        hv_lt(HandRank::HighCard, seq![0u8], category(cs), tiebreak(cs)),
{
    let cat = category(cs);
    if cat == HandRank::HighCard {
        let v0 = rank_value(cs[0].rank) as int;
        lemma_count_rank_member(cs, 0);
        lemma_ranks_desc_nonempty(cs, 14, v0);
        lemma_ranks_desc_first(cs, 14);
        assert(seq![0u8][0] == 0u8);
        assert(seq_lt(seq![0u8], tiebreak(cs)));
    } else {
        assert(rank_ord(cat) > 1);
    }
}

/// Improving the running best keeps it at or above every hand it already
/// covered.
pub proof fn lemma_best_improves(
    nr: HandRank,
    nv: Seq<u8>,
    br: HandRank,
    bv: Seq<u8>,
    cr: HandRank,
    cv: Seq<u8>,
)
    requires
        !hv_lt(br, bv, cr, cv),
        hv_lt(br, bv, nr, nv),
    ensures
        !hv_lt(nr, nv, cr, cv),
{
    if hv_lt(nr, nv, cr, cv) {
        lemma_hv_lt_trans(br, bv, nr, nv, cr, cv);
    }
}

/// A value at or below the running best scores at or below everything the
/// best already covers.
pub proof fn lemma_hv_not_lt_compose(
    rb: HandRank,
    vb: Seq<u8>,
    rn: HandRank,
    vn: Seq<u8>,
    rs: HandRank,
    vs: Seq<u8>,
)
    requires
        !hv_lt(rb, vb, rn, vn),
        !hv_lt(rn, vn, rs, vs),
    ensures
        !hv_lt(rb, vb, rs, vs),
{
    lemma_hv_lt_trichotomy(rn, vn, rs, vs);
    if hv_lt(rb, vb, rs, vs) {
        if hv_lt(rs, vs, rn, vn) {
            lemma_hv_lt_trans(rb, vb, rs, vs, rn, vn);
        }
    }
}

/// Search all five-card subsets of the given cards (at least five) for the
/// strongest hand; the returned cards are such a subset, they score to the
/// returned value, and no subset scores higher. On fewer than five cards the
/// search fails.
pub fn find_best_hand(cards: &Vec<Card>) -> (res: Result<(Vec<Card>, HandValue), HandError>)
    ensures
        cards@.len() < 5 ==> res == Err::<(Vec<Card>, HandValue), HandError>(
            HandError::InsufficientCards,
        ),
        cards@.len() >= 5 ==> (res matches Ok(p) && {
            &&& p.1.rank == category(p.0@)
            &&& p.1.values@ == tiebreak(p.0@)
            &&& exists|a: int, b: int, c: int, d: int, e: int|
                #![trigger pick5(cards@, a, b, c, d, e)]
                idx5_ok(cards@.len() as int, a, b, c, d, e) && p.0@ == pick5(cards@, a, b, c, d, e)
            &&& forall|a: int, b: int, c: int, d: int, e: int|
                #![trigger pick5(cards@, a, b, c, d, e)]
                idx5_ok(cards@.len() as int, a, b, c, d, e) ==> !hv_lt(
                    p.1.rank,
                    p.1.values@,
                    category(pick5(cards@, a, b, c, d, e)),
                    tiebreak(pick5(cards@, a, b, c, d, e)),
                )
        }),
{
    let n = cards.len();
    if n < 5 {
        return Err(HandError::InsufficientCards);
    }
    let mut best_hand: Vec<Card> = Vec::new();
    let mut best = HandValue { rank: HandRank::HighCard, values: vec![0u8] };
    proof {
        assert(best.values@ =~= seq![0u8]);
    }
    let ghost mut found: bool = false;
    let ghost mut ga: int = 0;
    let ghost mut gb: int = 0;
    let ghost mut gc: int = 0;
    let ghost mut gd: int = 0;
    let ghost mut ge: int = 0;
    let mut i: usize = 0;
    while i < n
        invariant
            n == cards@.len(),
            5 <= n,
            i <= n,
            !found ==> best.rank == HandRank::HighCard && best.values@ == seq![0u8],
            found ==> idx5_ok(n as int, ga, gb, gc, gd, ge) && best_hand@ == pick5(
                cards@,
                ga,
                gb,
                gc,
                gd,
                ge,
            ) && best.rank == category(best_hand@) && best.values@ == tiebreak(best_hand@),
            forall|a: int, b: int, c: int, d: int, e: int|
                #![trigger pick5(cards@, a, b, c, d, e)]
                idx5_ok(n as int, a, b, c, d, e) && a < i ==> !hv_lt(
                    best.rank,
                    best.values@,
                    category(pick5(cards@, a, b, c, d, e)),
                    tiebreak(pick5(cards@, a, b, c, d, e)),
                ),
        decreases n - i,
    {
        let mut j: usize = i + 1;
        while j < n
            invariant
                n == cards@.len(),
                5 <= n,
                i < n,
                i < j <= n,
                !found ==> best.rank == HandRank::HighCard && best.values@ == seq![0u8],
                found ==> idx5_ok(n as int, ga, gb, gc, gd, ge) && best_hand@ == pick5(
                    cards@,
                    ga,
                    gb,
                    gc,
                    gd,
                    ge,
                ) && best.rank == category(best_hand@) && best.values@ == tiebreak(best_hand@),
                forall|a: int, b: int, c: int, d: int, e: int|
                    #![trigger pick5(cards@, a, b, c, d, e)]
                    idx5_ok(n as int, a, b, c, d, e) && a < i ==> !hv_lt(
                        best.rank,
                        best.values@,
                        category(pick5(cards@, a, b, c, d, e)),
                        tiebreak(pick5(cards@, a, b, c, d, e)),
                    ),
                forall|a: int, b: int, c: int, d: int, e: int|
                    #![trigger pick5(cards@, a, b, c, d, e)]
                    idx5_ok(n as int, a, b, c, d, e) && a == i && b < j ==> !hv_lt(
                        best.rank,
                        best.values@,
                        category(pick5(cards@, a, b, c, d, e)),
                        tiebreak(pick5(cards@, a, b, c, d, e)),
                    ),
            decreases n - j,
        {
            let mut k: usize = j + 1;
            while k < n
                invariant
                    n == cards@.len(),
                    5 <= n,
                    i < j,
                    j < n,
                    j < k <= n,
                    !found ==> best.rank == HandRank::HighCard && best.values@ == seq![0u8],
                    found ==> idx5_ok(n as int, ga, gb, gc, gd, ge) && best_hand@ == pick5(
                        cards@,
                        ga,
                        gb,
                        gc,
                        gd,
                        ge,
                    ) && best.rank == category(best_hand@) && best.values@ == tiebreak(best_hand@),
                    forall|a: int, b: int, c: int, d: int, e: int|
                        #![trigger pick5(cards@, a, b, c, d, e)]
                        idx5_ok(n as int, a, b, c, d, e) && a < i ==> !hv_lt(
                            best.rank,
                            best.values@,
                            category(pick5(cards@, a, b, c, d, e)),
                            tiebreak(pick5(cards@, a, b, c, d, e)),
                        ),
                    forall|a: int, b: int, c: int, d: int, e: int|
                        #![trigger pick5(cards@, a, b, c, d, e)]
                        idx5_ok(n as int, a, b, c, d, e) && a == i && b < j ==> !hv_lt(
                            best.rank,
                            best.values@,
                            category(pick5(cards@, a, b, c, d, e)),
                            tiebreak(pick5(cards@, a, b, c, d, e)),
                        ),
                    forall|a: int, b: int, c: int, d: int, e: int|
                        #![trigger pick5(cards@, a, b, c, d, e)]
                        idx5_ok(n as int, a, b, c, d, e) && a == i && b == j && c < k ==> !hv_lt(
                            best.rank,
                            best.values@,
                            category(pick5(cards@, a, b, c, d, e)),
                            tiebreak(pick5(cards@, a, b, c, d, e)),
                        ),
                decreases n - k,
            {
                let mut l: usize = k + 1;
                while l < n
                    invariant
                        n == cards@.len(),
                        5 <= n,
                        i < j,
                        j < k,
                        k < n,
                        k < l <= n,
                        !found ==> best.rank == HandRank::HighCard && best.values@ == seq![0u8],
                        found ==> idx5_ok(n as int, ga, gb, gc, gd, ge) && best_hand@ == pick5(
                            cards@,
                            ga,
                            gb,
                            gc,
                            gd,
                            ge,
                        ) && best.rank == category(best_hand@) && best.values@ == tiebreak(
                            best_hand@,
                        ),
                        forall|a: int, b: int, c: int, d: int, e: int|
                            #![trigger pick5(cards@, a, b, c, d, e)]
                            idx5_ok(n as int, a, b, c, d, e) && a < i ==> !hv_lt(
                                best.rank,
                                best.values@,
                                category(pick5(cards@, a, b, c, d, e)),
                                tiebreak(pick5(cards@, a, b, c, d, e)),
                            ),
                        forall|a: int, b: int, c: int, d: int, e: int|
                            #![trigger pick5(cards@, a, b, c, d, e)]
                            idx5_ok(n as int, a, b, c, d, e) && a == i && b < j ==> !hv_lt(
                                best.rank,
                                best.values@,
                                category(pick5(cards@, a, b, c, d, e)),
                                tiebreak(pick5(cards@, a, b, c, d, e)),
                            ),
                        forall|a: int, b: int, c: int, d: int, e: int|
                            #![trigger pick5(cards@, a, b, c, d, e)]
                            idx5_ok(n as int, a, b, c, d, e) && a == i && b == j && c < k
                                ==> !hv_lt(
                                best.rank,
                                best.values@,
                                category(pick5(cards@, a, b, c, d, e)),
                                tiebreak(pick5(cards@, a, b, c, d, e)),
                            ),
                        forall|a: int, b: int, c: int, d: int, e: int|
                            #![trigger pick5(cards@, a, b, c, d, e)]
                            idx5_ok(n as int, a, b, c, d, e) && a == i && b == j && c == k && d < l
                                ==> !hv_lt(
                                best.rank,
                                best.values@,
                                category(pick5(cards@, a, b, c, d, e)),
                                tiebreak(pick5(cards@, a, b, c, d, e)),
                            ),
                    decreases n - l,
                {
                    let mut m: usize = l + 1;
                    while m < n
                        invariant
                            n == cards@.len(),
                            5 <= n,
                            i < j,
                            j < k,
                            k < l,
                            l < n,
                            l < m <= n,
                            !found ==> best.rank == HandRank::HighCard && best.values@ == seq![0u8],
                            found ==> idx5_ok(n as int, ga, gb, gc, gd, ge) && best_hand@ == pick5(
                                cards@,
                                ga,
                                gb,
                                gc,
                                gd,
                                ge,
                            ) && best.rank == category(best_hand@) && best.values@ == tiebreak(
                                best_hand@,
                            ),
                            forall|a: int, b: int, c: int, d: int, e: int|
                                #![trigger pick5(cards@, a, b, c, d, e)]
                                idx5_ok(n as int, a, b, c, d, e) && a < i ==> !hv_lt(
                                    best.rank,
                                    best.values@,
                                    category(pick5(cards@, a, b, c, d, e)),
                                    tiebreak(pick5(cards@, a, b, c, d, e)),
                                ),
                            forall|a: int, b: int, c: int, d: int, e: int|
                                #![trigger pick5(cards@, a, b, c, d, e)]
                                idx5_ok(n as int, a, b, c, d, e) && a == i && b < j ==> !hv_lt(
                                    best.rank,
                                    best.values@,
                                    category(pick5(cards@, a, b, c, d, e)),
                                    tiebreak(pick5(cards@, a, b, c, d, e)),
                                ),
                            forall|a: int, b: int, c: int, d: int, e: int|
                                #![trigger pick5(cards@, a, b, c, d, e)]
                                idx5_ok(n as int, a, b, c, d, e) && a == i && b == j && c < k
                                    ==> !hv_lt(
                                    best.rank,
                                    best.values@,
                                    category(pick5(cards@, a, b, c, d, e)),
                                    tiebreak(pick5(cards@, a, b, c, d, e)),
                                ),
                            forall|a: int, b: int, c: int, d: int, e: int|
                                #![trigger pick5(cards@, a, b, c, d, e)]
                                idx5_ok(n as int, a, b, c, d, e) && a == i && b == j && c == k && d
                                    < l ==> !hv_lt(
                                    best.rank,
                                    best.values@,
                                    category(pick5(cards@, a, b, c, d, e)),
                                    tiebreak(pick5(cards@, a, b, c, d, e)),
                                ),
                            forall|a: int, b: int, c: int, d: int, e: int|
                                #![trigger pick5(cards@, a, b, c, d, e)]
                                idx5_ok(n as int, a, b, c, d, e) && a == i && b == j && c == k && d
                                    == l && e < m ==> !hv_lt(
                                    best.rank,
                                    best.values@,
                                    category(pick5(cards@, a, b, c, d, e)),
                                    tiebreak(pick5(cards@, a, b, c, d, e)),
                                ),
                        decreases n - m,
                    {
                        let hand: Vec<Card> = vec![cards[i], cards[j], cards[k], cards[l], cards[m]];
                        proof {
                            assert(hand@ =~= pick5(
                                cards@,
                                i as int,
                                j as int,
                                k as int,
                                l as int,
                                m as int,
                            ));
                        }
                        let v = evaluate_hand(&hand);
                        let ghost obr = best.rank;
                        let ghost obv = best.values@;
                        if hand_value_lt(&best, &v) {
                            best = v;
                            best_hand = hand;
                            proof {
                                found = true;
                                ga = i as int;
                                gb = j as int;
                                gc = k as int;
                                gd = l as int;
                                ge = m as int;
                                assert forall|a: int, b: int, c: int, d: int, e: int|
                                    idx5_ok(n as int, a, b, c, d, e) && (a < i || (a == i && b < j)
                                        || (a == i && b == j && c < k) || (a == i && b == j && c
                                        == k && d < l) || (a == i && b == j && c == k && d == l && e
                                        < m)) implies !hv_lt(
                                    best.rank,
                                    best.values@,
                                    category(#[trigger] pick5(cards@, a, b, c, d, e)),
                                    tiebreak(pick5(cards@, a, b, c, d, e)),
                                ) by {
                                    lemma_best_improves(
                                        best.rank,
                                        best.values@,
                                        obr,
                                        obv,
                                        category(pick5(cards@, a, b, c, d, e)),
                                        tiebreak(pick5(cards@, a, b, c, d, e)),
                                    );
                                }
                                lemma_hv_lt_trichotomy(
                                    best.rank,
                                    best.values@,
                                    best.rank,
                                    best.values@,
                                );
                            }
                        }
                        m = m + 1;
                    }
                    l = l + 1;
                }
                k = k + 1;
            }
            j = j + 1;
        }
        i = i + 1;
    }
    proof {
        if !found {
            assert(pick5(cards@, 0, 1, 2, 3, 4).len() == 5);
            lemma_sentinel_lt(pick5(cards@, 0, 1, 2, 3, 4));
            assert(idx5_ok(n as int, 0, 1, 2, 3, 4));
            assert(false);
        }
    }
    Ok((best_hand, best))
}

} // verus!
