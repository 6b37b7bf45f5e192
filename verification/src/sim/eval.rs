//! The hand evaluator: the score of five cards, and the best score that five
//! of up to seven cards reach.

use vstd::prelude::*;
use vstd::slice::slice_subrange;
use crate::sim::card::Card;

verus! {

/// The nine categories of poker hands, weakest first.
#[derive(Copy, Clone, Debug, PartialEq, Eq, Structural)]
pub enum HandRank {
    HighCard,
    OnePair,
    TwoPair,
    ThreeOfKind,
    Straight,
    Flush,
    FullHouse,
    FourOfKind,
    StraightFlush,
}

impl HandRank {
    /// The place of the category in the order of strength, from 0 to 8.
    pub open spec fn ord(self) -> nat {
        match self {
            HandRank::HighCard => 0,
            HandRank::OnePair => 1,
            HandRank::TwoPair => 2,
            HandRank::ThreeOfKind => 3,
            HandRank::Straight => 4,
            HandRank::Flush => 5,
            HandRank::FullHouse => 6,
            HandRank::FourOfKind => 7,
            HandRank::StraightFlush => 8,
        }
    }

    /// The place of the category in the order of strength, from 0 to 8.
    pub fn index(self) -> (i: u32)
        ensures
            i == self.ord(),
            i <= 8,
    {
        match self {
            HandRank::HighCard => 0,
            HandRank::OnePair => 1,
            HandRank::TwoPair => 2,
            HandRank::ThreeOfKind => 3,
            HandRank::Straight => 4,
            HandRank::Flush => 5,
            HandRank::FullHouse => 6,
            HandRank::FourOfKind => 7,
            HandRank::StraightFlush => 8,
        }
    }
}

/// The score of a hand: its category, up to five ranks that break ties within
/// the category (most significant first), and one number that orders scores.
#[derive(Copy, Clone, Debug, PartialEq, Eq)]
pub struct HandScore {
    pub rank: HandRank,
    pub kickers: [u8; 5],
    pub encoded: u32,
}

/// A score as a mathematical value.
pub struct ScoreView {
    pub rank: HandRank,
    pub kickers: Seq<u8>,
    pub encoded: u32,
}

impl View for HandScore {
    type V = ScoreView;

    open spec fn view(&self) -> ScoreView {
        ScoreView { rank: self.rank, kickers: self.kickers@, encoded: self.encoded }
    }
}

/// 1 where `b` holds, 0 where it does not.
pub open spec fn ind(b: bool) -> nat {
    if b {
        1
    } else {
        0
    }
}

/// How many of the first `n` cards of a hand have rank `r`.
#[verifier::opaque]
pub open spec fn rank_count_upto(hand: Seq<Card>, r: int, n: int) -> nat {
    ind(n > 0 && hand[0].rank == r) + ind(n > 1 && hand[1].rank == r) + ind(
        n > 2 && hand[2].rank == r,
    ) + ind(n > 3 && hand[3].rank == r) + ind(n > 4 && hand[4].rank == r)
}

/// How many of the first `n` cards of a hand have suit `s`.
#[verifier::opaque]
pub open spec fn suit_count_upto(hand: Seq<Card>, s: int, n: int) -> nat {
    ind(n > 0 && hand[0].suit == s) + ind(n > 1 && hand[1].suit == s) + ind(
        n > 2 && hand[2].suit == s,
    ) + ind(n > 3 && hand[3].suit == s) + ind(n > 4 && hand[4].suit == s)
}

/// How many of the five cards of a hand have rank `r`.
pub open spec fn rank_count(hand: Seq<Card>, r: int) -> nat {
    rank_count_upto(hand, r, 5)
}

/// How many of the five cards of a hand have suit `s`.
pub open spec fn suit_count(hand: Seq<Card>, s: int) -> nat {
    suit_count_upto(hand, s, 5)
}

/// The five cards share one suit.
pub open spec fn is_flush(hand: Seq<Card>) -> bool {
    suit_count(hand, 0) == 5 || suit_count(hand, 1) == 5 || suit_count(hand, 2) == 5
        || suit_count(hand, 3) == 5
}

/// The five ranks that end at `high` are all there.
pub open spec fn run_at(has: spec_fn(int) -> bool, high: int) -> bool {
    has(high) && has(high - 1) && has(high - 2) && has(high - 3) && has(high - 4)
}

/// Ace, deuce, three, four and five are all there.
pub open spec fn wheel(has: spec_fn(int) -> bool) -> bool {
    has(12) && has(0) && has(1) && has(2) && has(3)
}

/// The highest rank, from `high` down to the six (rank 4), at which a run of
/// five ranks ends; failing that, the five (rank 3) where the wheel is there.
pub open spec fn straight_top(has: spec_fn(int) -> bool, high: int) -> Option<u8>
    decreases high,
{
    if high < 4 {
        if wheel(has) {
            Some(3u8)
        } else {
            None
        }
    } else if run_at(has, high) {
        Some(high as u8)
    } else {
        straight_top(has, high - 1)
    }
}

/// Whether bit `r` of a mask of ranks is set.
pub open spec fn mask_has(mask: u16, r: int) -> bool {
    0 <= r < 16 && (mask >> (r as u16)) & 1 == 1
}

/// The high rank of the straight that a mask of ranks holds, if it holds one.
pub open spec fn straight_high_of(mask: u16) -> Option<u8> {
    straight_top(|r: int| mask_has(mask, r), 12)
}

/// The high rank of the straight that a hand makes, if it makes one; the
/// wheel counts as five-high.
pub open spec fn hand_straight(hand: Seq<Card>) -> Option<u8> {
    straight_top(|r: int| rank_count(hand, r) > 0, 12)
}

/// The ranks below `below` that occur exactly `n` times in a table of counts, highest first.
pub open spec fn ranks_with_count(table: Seq<u8>, n: int, below: int) -> Seq<u8>
    decreases below,
{
    if below <= 0 {
        Seq::empty()
    } else {
        let rest = ranks_with_count(table, n, below - 1);
        if table[below - 1] == n {
            seq![(below - 1) as u8] + rest
        } else {
            rest
        }
    }
}

/// The ranks that occur at least `low` and at most five times, those that
/// occur more often first, and among equals the higher rank first.
pub open spec fn by_count_above(table: Seq<u8>, low: int) -> Seq<u8>
    decreases 6 - low,
{
    if low > 5 {
        Seq::empty()
    } else {
        by_count_above(table, low + 1) + ranks_with_count(table, low, 13)
    }
}

/// The ranks that occur, by count descending and then by rank descending.
pub open spec fn by_count(table: Seq<u8>) -> Seq<u8> {
    by_count_above(table, 1)
}

/// How often each of the thirteen ranks occurs in a hand.
pub open spec fn count_table(hand: Seq<Card>) -> Seq<u8> {
    Seq::new(13, |r: int| rank_count(hand, r) as u8)
}

/// How often the `i`-th rank of `by_count` occurs; 0 where there is none.
pub open spec fn nth_count(table: Seq<u8>, i: int) -> int {
    if 0 <= i < by_count(table).len() {
        table[by_count(table)[i] as int] as int
    } else {
        0
    }
}

/// The category of a hand of five cards. The first that fits, in this
/// order: straight flush; a rank four times; a rank three times and the
/// next twice; flush; straight; a rank three times; two ranks twice; a rank
/// twice; high card.
#[verifier::opaque]
pub open spec fn category_of(hand: Seq<Card>) -> HandRank {
    let table = count_table(hand);
    let top = nth_count(table, 0);
    let second = nth_count(table, 1);
    if is_flush(hand) && hand_straight(hand) is Some {
        HandRank::StraightFlush
    } else if top == 4 {
        HandRank::FourOfKind
    } else if top == 3 && second == 2 {
        HandRank::FullHouse
    } else if is_flush(hand) {
        HandRank::Flush
    } else if hand_straight(hand) is Some {
        HandRank::Straight
    } else if top == 3 {
        HandRank::ThreeOfKind
    } else if top == 2 && second == 2 {
        HandRank::TwoPair
    } else if top == 2 {
        HandRank::OnePair
    } else {
        HandRank::HighCard
    }
}

/// The first five ranks of `ranks`, with zeros after them where there are fewer.
pub open spec fn pad5(ranks: Seq<u8>) -> Seq<u8> {
    Seq::new(
        5,
        |i: int|
            if i < ranks.len() {
                ranks[i]
            } else {
                0u8
            },
    )
}

/// The tie-breaking ranks of a hand: for a straight or a straight flush its
/// high rank alone; for every other category the ranks by count and then by
/// rank, so that the ranks that make the category come first.
#[verifier::opaque]
pub open spec fn kickers_of(hand: Seq<Card>) -> Seq<u8> {
    match category_of(hand) {
        HandRank::StraightFlush | HandRank::Straight => pad5(seq![hand_straight(hand)->0]),
        _ => pad5(by_count(count_table(hand))),
    }
}

/// The number that orders scores: the category in the top four bits, then
/// the five tie-breaking ranks in four bits each, the low eight bits empty.
pub open spec fn score_code(rank: HandRank, kickers: Seq<u8>) -> nat {
    (rank.ord() * 0x1000_0000 + kickers[0] as nat * 0x100_0000 + kickers[1] as nat * 0x10_0000
        + kickers[2] as nat * 0x1_0000 + kickers[3] as nat * 0x1000 + kickers[4] as nat * 0x100) as nat
}

/// The score of a hand of five cards.
pub open spec fn hand_score(hand: Seq<Card>) -> ScoreView {
    ScoreView {
        rank: category_of(hand),
        kickers: kickers_of(hand),
        encoded: score_code(category_of(hand), kickers_of(hand)) as u32,
    }
}

/// Five cards of the deck.
pub open spec fn valid_hand(hand: Seq<Card>) -> bool {
    hand.len() == 5 && forall|i: int| 0 <= i < 5 ==> (#[trigger] hand[i]).valid()
}

/// Each of five tie-breaking ranks fits in four bits.
pub open spec fn small_kickers(kickers: Seq<u8>) -> bool {
    kickers.len() == 5 && forall|i: int| 0 <= i < 5 ==> #[trigger] kickers[i] < 16
}


/// Setting bit `k` of a mask sets that bit and changes no other.
proof fn lemma_mask_insert(mask: u16, k: u16, r: u16)
    by (bit_vector)
    requires
        k < 16,
        r < 16,
    ensures
        (((mask | (1u16 << k)) >> r) & 1 == 1) == (((mask >> r) & 1 == 1) || r == k),
{
}

/// The empty mask has no bit set.
proof fn lemma_mask_empty(r: u16)
    by (bit_vector)
    requires
        r < 16,
    ensures
        (0u16 >> r) & 1 == 0,
{
}

/// A mask holds a window of five bits where each of the five bits is set.
proof fn lemma_mask_window(mask: u16, lo: u16)
    by (bit_vector)
    requires
        lo <= 8,
    ensures
        (mask & (31u16 << lo) == (31u16 << lo)) == ((mask >> lo) & 1 == 1 && (mask >> (lo + 1) as u16) & 1 == 1
            && (mask >> (lo + 2) as u16) & 1 == 1 && (mask >> (lo + 3) as u16) & 1 == 1 && (mask >> (lo + 4) as u16) & 1
            == 1),
{
}

/// A mask holds the wheel where the bits of ace, deuce, three, four and five are set.
proof fn lemma_mask_wheel(mask: u16)
    by (bit_vector)
    ensures
        (mask & 0x100fu16 == 0x100fu16) == ((mask >> 12u16) & 1 == 1 && (mask >> 0u16) & 1 == 1 && (mask
            >> 1u16) & 1 == 1 && (mask >> 2u16) & 1 == 1 && (mask >> 3u16) & 1 == 1),
{
}

/// Two ways to tell which ranks are there give the same straight where they
/// agree on the thirteen ranks.
pub proof fn lemma_straight_top_agree(f: spec_fn(int) -> bool, g: spec_fn(int) -> bool, high: int)
    requires
        high <= 12,
        forall|r: int| 0 <= r < 13 ==> #[trigger] f(r) == g(r),
    ensures
        straight_top(f, high) == straight_top(g, high),
    decreases high,
{
    if high >= 4 {
        lemma_straight_top_agree(f, g, high - 1);
    }
}

/// A straight's high rank is a rank from the five to the ace.
pub proof fn lemma_straight_top_range(has: spec_fn(int) -> bool, high: int)
    requires
        high <= 12,
    ensures
        straight_top(has, high) matches Some(h) ==> 3 <= h <= 12,
    decreases high,
{
    if high >= 4 {
        lemma_straight_top_range(has, high - 1);
    }
}

/// The high rank of the straight in a mask of ranks: the highest rank from
/// the ace down to the six at which five set bits in a row end, else the five
/// where ace, deuce, three, four and five are set.
pub fn straight_high(mask: u16) -> (r: Option<u8>)
    ensures
        r == straight_high_of(mask),
        r matches Some(h) ==> 3 <= h <= 12,
{
    let ghost has = |r: int| mask_has(mask, r);
    proof {
        lemma_straight_top_range(has, 12);
    }
    let mut high: u8 = 12;
    while high >= 4
        invariant
            3 <= high <= 12,
            has == (|r: int| mask_has(mask, r)),
            straight_top(has, high as int) == straight_top(has, 12),
        decreases high,
    {
        let lo: u16 = (high - 4) as u16;
        let window: u16 = 31u16 << lo;
        proof {
            lemma_mask_window(mask, lo);
            assert(run_at(has, high as int) == (mask & window == window)) by {
                assert(has(high as int) == mask_has(mask, high as int));
                assert(has(high - 1) == mask_has(mask, high - 1));
                assert(has(high - 2) == mask_has(mask, high - 2));
                assert(has(high - 3) == mask_has(mask, high - 3));
                assert(has(high - 4) == mask_has(mask, high - 4));
            }
        }
        if mask & window == window {
            return Some(high);
        }
        high -= 1;
    }
    proof {
        lemma_mask_wheel(mask);
        assert(wheel(has) == (mask & 0x100fu16 == 0x100fu16)) by {
            assert(has(12) == mask_has(mask, 12));
            assert(has(0) == mask_has(mask, 0));
            assert(has(1) == mask_has(mask, 1));
            assert(has(2) == mask_has(mask, 2));
            assert(has(3) == mask_has(mask, 3));
        }
    }
    let wheel_mask: u16 = 0x100f;
    if mask & wheel_mask == wheel_mask {
        return Some(3);
    }
    None
}

/// Six numbers of four bits each, shifted to their places and joined, add up.
proof fn lemma_pack(c: u32, k0: u32, k1: u32, k2: u32, k3: u32, k4: u32)
    by (bit_vector)
    requires
        c < 16,
        k0 < 16,
        k1 < 16,
        k2 < 16,
        k3 < 16,
        k4 < 16,
    ensures
        ((c << 28) | (k0 << 24) | (k1 << 20) | (k2 << 16) | (k3 << 12) | (k4 << 8)) == c * 0x1000_0000
            + k0 * 0x100_0000 + k1 * 0x10_0000 + k2 * 0x1_0000 + k3 * 0x1000 + k4 * 0x100,
{
}

/// Packs a category and five tie-breaking ranks into the number that orders scores.
pub fn encode_score(rank: HandRank, kickers: &[u8; 5]) -> (value: u32)
    requires
        small_kickers(kickers@),
    ensures
        value == score_code(rank, kickers@),
{
    let c = rank.index();
    let k0 = kickers[0] as u32;
    let k1 = kickers[1] as u32;
    let k2 = kickers[2] as u32;
    let k3 = kickers[3] as u32;
    let k4 = kickers[4] as u32;
    proof {
        assert(kickers@[0] < 16 && kickers@[1] < 16 && kickers@[2] < 16 && kickers@[3] < 16
            && kickers@[4] < 16);
        lemma_pack(c, k0, k1, k2, k3, k4);
    }
    (c << 28) | (k0 << 24) | (k1 << 20) | (k2 << 16) | (k3 << 12) | (k4 << 8)
}


/// The ranks that a table of counts holds one to five times, each with its
/// count, by count descending and then by rank descending.
fn ranks_by_count(table: &[u8; 13]) -> (out: Vec<(u8, u8)>)
    ensures
        out@.len() == by_count(table@).len(),
        forall|i: int|
            0 <= i < out@.len() ==> {
                let e = #[trigger] out@[i];
                e.1 == by_count(table@)[i] && e.1 < 13 && e.0 == table@[e.1 as int]
            },
{
    let mut out: Vec<(u8, u8)> = Vec::new();
    let ghost mut ranks: Seq<u8> = Seq::empty();
    let mut n: u8 = 5;
    while n > 0
        invariant
            n <= 5,
            ranks == by_count_above(table@, n + 1),
            out@.len() == ranks.len(),
            forall|i: int|
                0 <= i < out@.len() ==> {
                    let e = #[trigger] out@[i];
                    e.1 == ranks[i] && e.1 < 13 && e.0 == table@[e.1 as int]
                },
        decreases n,
    {
        let mut below: u8 = 13;
        while below > 0
            invariant
                below <= 13,
                1 <= n <= 5,
                ranks + ranks_with_count(table@, n as int, below as int) == by_count_above(
                    table@,
                    n as int,
                ),
                out@.len() == ranks.len(),
                forall|i: int|
                    0 <= i < out@.len() ==> {
                        let e = #[trigger] out@[i];
                        e.1 == ranks[i] && e.1 < 13 && e.0 == table@[e.1 as int]
                    },
            decreases below,
        {
            let r: u8 = below - 1;
            if table[r as usize] == n {
                out.push((n, r));
                proof {
                    let rest = ranks_with_count(table@, n as int, below - 1);
                    assert(ranks.push(r) + rest =~= ranks + (seq![r] + rest));
                    ranks = ranks.push(r);
                }
            }
            below -= 1;
        }
        proof {
            assert(ranks + Seq::<u8>::empty() =~= ranks);
        }
        n -= 1;
    }
    out
}

/// The ranks that occur in a hand are ranks of the deck.
pub proof fn lemma_by_count_ranks(table: Seq<u8>)
    ensures
        forall|i: int| 0 <= i < by_count(table).len() ==> #[trigger] by_count(table)[i] < 13,
{
    lemma_by_count_above_ranks(table, 1);
}

/// The ranks that occur at least `low` times are ranks of the deck.
proof fn lemma_by_count_above_ranks(table: Seq<u8>, low: int)
    ensures
        forall|i: int|
            0 <= i < by_count_above(table, low).len() ==> #[trigger] by_count_above(table, low)[i]
                < 13,
    decreases 6 - low,
{
    if low <= 5 {
        lemma_by_count_above_ranks(table, low + 1);
        lemma_ranks_with_count_ranks(table, low, 13);
        let front = by_count_above(table, low + 1);
        let back = ranks_with_count(table, low, 13);
        assert forall|i: int| 0 <= i < (front + back).len() implies #[trigger] (front + back)[i]
            < 13 by {
            if i >= front.len() {
                assert((front + back)[i] == back[i - front.len()]);
            } else {
                assert((front + back)[i] == front[i]);
            }
        }
    }
}

/// The ranks below `below` that occur `n` times are below `below`.
proof fn lemma_ranks_with_count_ranks(table: Seq<u8>, n: int, below: int)
    requires
        below <= 13,
    ensures
        forall|i: int|
            0 <= i < ranks_with_count(table, n, below).len() ==> #[trigger] ranks_with_count(
                table,
                n,
                below,
            )[i] < below,
    decreases below,
{
    if below > 0 {
        lemma_ranks_with_count_ranks(table, n, below - 1);
        let rest = ranks_with_count(table, n, below - 1);
        let all = ranks_with_count(table, n, below);
        assert forall|i: int| 0 <= i < all.len() implies #[trigger] all[i] < below by {
            if table[below - 1] == n {
                if i > 0 {
                    assert(all[i] == rest[i - 1]);
                }
            } else {
                assert(all[i] == rest[i]);
            }
        }
    }
}

/// What the mask of a hand's ranks says of a straight is what the hand makes.
proof fn lemma_mask_straight(mask: u16, hand: Seq<Card>)
    requires
        forall|r: int| 0 <= r < 13 ==> #[trigger] mask_has(mask, r) == (rank_count(hand, r) > 0),
    ensures
        straight_high_of(mask) == hand_straight(hand),
{
    let f = |r: int| mask_has(mask, r);
    let g = |r: int| rank_count(hand, r) > 0;
    assert forall|r: int| 0 <= r < 13 implies #[trigger] f(r) == g(r) by {
        assert(f(r) == mask_has(mask, r));
    }
    lemma_straight_top_agree(f, g, 12);
}

/// Counting one card further adds the card where it has the rank or the suit.
proof fn lemma_count_step(hand: Seq<Card>, i: int)
    requires
        0 <= i < 5,
    ensures
        forall|r: int| #[trigger]
            rank_count_upto(hand, r, i + 1) == rank_count_upto(hand, r, i) + ind(
                hand[i].rank == r,
            ),
        forall|s: int| #[trigger]
            suit_count_upto(hand, s, i + 1) == suit_count_upto(hand, s, i) + ind(
                hand[i].suit == s,
            ),
        forall|r: int| #[trigger] rank_count_upto(hand, r, i) <= i,
        forall|s: int| #[trigger] suit_count_upto(hand, s, i) <= i,
{
    reveal(rank_count_upto);
    reveal(suit_count_upto);
}

/// Before any card is counted every count is zero.
proof fn lemma_count_start(hand: Seq<Card>)
    ensures
        forall|r: int| #[trigger] rank_count_upto(hand, r, 0) == 0,
        forall|s: int| #[trigger] suit_count_upto(hand, s, 0) == 0,
{
    reveal(rank_count_upto);
    reveal(suit_count_upto);
}

/// Scores a hand of five cards.
pub fn evaluate_five(cards: &[Card]) -> (score: HandScore)
    requires
        valid_hand(cards@),
    ensures
        score@ == hand_score(cards@),
        score.rank == category_by_rules(cards@),
        score@.encoded == score_code(score@.rank, score@.kickers),
        forall|i: int| 0 <= i < 5 ==> #[trigger] score@.kickers[i] < 13,
{
    proof {
        lemma_category_by_rules(cards@);
    }
    let mut rank_counts = [0u8;13];
    let mut suit_counts = [0u8;4];
    let mut mask: u16 = 0;
    let mut i: usize = 0;
    proof {
        reveal(category_of);
        reveal(kickers_of);
        lemma_count_start(cards@);
        assert forall|r: int| 0 <= r < 13 implies #[trigger] mask_has(mask, r) == false by {
            lemma_mask_empty(r as u16);
        }
    }
    while i < 5
        invariant
            i <= 5,
            valid_hand(cards@),
            forall|r: int|
                0 <= r < 13 ==> #[trigger] rank_counts@[r] == rank_count_upto(cards@, r, i as int),
            forall|s: int|
                0 <= s < 4 ==> #[trigger] suit_counts@[s] == suit_count_upto(cards@, s, i as int),
            forall|r: int|
                0 <= r < 13 ==> #[trigger] mask_has(mask, r) == (rank_count_upto(
                    cards@,
                    r,
                    i as int,
                ) > 0),
        decreases 5 - i,
    {
        let c = cards[i];
        assert(c.valid());
        proof {
            lemma_count_step(cards@, i as int);
        }
        let ri = c.rank as usize;
        let si = c.suit as usize;
        rank_counts[ri] = rank_counts[ri] + 1;
        suit_counts[si] = suit_counts[si] + 1;
        let ghost before = mask;
        mask = mask | (1u16 << (c.rank as u16));
        proof {
            assert forall|r: int| 0 <= r < 13 implies #[trigger] mask_has(mask, r) == (
            rank_count_upto(cards@, r, i + 1) > 0) by {
                lemma_mask_insert(before, c.rank as u16, r as u16);
                assert(mask_has(before, r) == (rank_count_upto(cards@, r, i as int) > 0));
            }
        }
        i += 1;
    }
    let is_flush = suit_counts[0] == 5 || suit_counts[1] == 5 || suit_counts[2] == 5
        || suit_counts[3] == 5;
    let straight = straight_high(mask);
    let ordered = ranks_by_count(&rank_counts);
    proof {
        lemma_mask_straight(mask, cards@);
        assert(rank_counts@ =~= count_table(cards@));
        lemma_by_count_ranks(count_table(cards@));
        assert(suit_counts@[0] == suit_count(cards@, 0));
        assert(suit_counts@[1] == suit_count(cards@, 1));
        assert(suit_counts@[2] == suit_count(cards@, 2));
        assert(suit_counts@[3] == suit_count(cards@, 3));
    }
    let top: u8 = if ordered.len() > 0 {
        ordered[0].0
    } else {
        0
    };
    let second: u8 = if ordered.len() > 1 {
        ordered[1].0
    } else {
        0
    };
    assert(top == nth_count(count_table(cards@), 0));
    assert(second == nth_count(count_table(cards@), 1));

    let mut kickers = [0u8;5];
    let rank = if is_flush && straight.is_some() {
        HandRank::StraightFlush
    } else if top == 4 {
        HandRank::FourOfKind
    } else if top == 3 && second == 2 {
        HandRank::FullHouse
    } else if is_flush {
        HandRank::Flush
    } else if straight.is_some() {
        HandRank::Straight
    } else if top == 3 {
        HandRank::ThreeOfKind
    } else if top == 2 && second == 2 {
        HandRank::TwoPair
    } else if top == 2 {
        HandRank::OnePair
    } else {
        HandRank::HighCard
    };
    assert(rank == category_of(cards@));
    match rank {
        HandRank::StraightFlush | HandRank::Straight => {
            kickers[0] = straight.unwrap();
            assert(kickers@ =~= kickers_of(cards@));
        },
        _ => {
            let mut fill: usize = 0;
            while fill < ordered.len() && fill < 5
                invariant
                    fill <= 5,
                    fill <= ordered@.len(),
                    ordered@.len() == by_count(count_table(cards@)).len(),
                    forall|i: int|
                        0 <= i < ordered@.len() ==> (#[trigger] ordered@[i]).1 == by_count(
                            count_table(cards@),
                        )[i],
                    forall|i: int|
                        0 <= i < fill ==> #[trigger] kickers@[i] == by_count(
                            count_table(cards@),
                        )[i],
                    forall|i: int| fill <= i < 5 ==> #[trigger] kickers@[i] == 0,
                decreases 5 - fill,
            {
                kickers[fill] = ordered[fill].1;
                fill += 1;
            }
            assert(kickers@ =~= kickers_of(cards@));
        },
    }
    let encoded = encode_score(rank, &kickers);
    HandScore { rank, kickers, encoded }
}


/// Five to seven cards of the deck.
pub open spec fn valid_cards(cards: Seq<Card>) -> bool {
    5 <= cards.len() <= 7 && forall|i: int| 0 <= i < cards.len() ==> (#[trigger] cards[i]).valid()
}

/// The hand made of the cards at five places.
pub open spec fn pick5(cards: Seq<Card>, a: int, b: int, c: int, d: int, e: int) -> Seq<Card> {
    seq![cards[a], cards[b], cards[c], cards[d], cards[e]]
}

/// Five places among the first `n`, in rising order.
pub open spec fn rising(n: int, a: int, b: int, c: int, d: int, e: int) -> bool {
    0 <= a < b < c < d < e < n
}

/// `score` is the score of five of the cards, and no five of the cards score higher.
pub open spec fn is_best_of(cards: Seq<Card>, score: ScoreView) -> bool {
    &&& exists|a: int, b: int, c: int, d: int, e: int|
        rising(cards.len() as int, a, b, c, d, e) && score == hand_score(
            #[trigger] pick5(cards, a, b, c, d, e),
        )
    &&& forall|a: int, b: int, c: int, d: int, e: int|
        rising(cards.len() as int, a, b, c, d, e) ==> hand_score(
            #[trigger] pick5(cards, a, b, c, d, e),
        ).encoded <= score.encoded
}

/// The best score that five of the cards reach.
pub open spec fn best_score(cards: Seq<Card>) -> ScoreView {
    choose|score: ScoreView| is_best_of(cards, score)
}

/// The places `(a, b, c, d, e)` come before `(i, j, k, l, m)` where the
/// places are run through in rising order, the last moving fastest.
pub open spec fn places_before(
    a: int,
    b: int,
    c: int,
    d: int,
    e: int,
    i: int,
    j: int,
    k: int,
    l: int,
    m: int,
) -> bool {
    a < i || (a == i && (b < j || (b == j && (c < k || (c == k && (d < l || (d == l && e < m)))))))
}

/// No hand at places before `(i, j, k, l, m)` scores above `limit`.
pub open spec fn none_above(
    cards: Seq<Card>,
    limit: u32,
    i: int,
    j: int,
    k: int,
    l: int,
    m: int,
) -> bool {
    forall|a: int, b: int, c: int, d: int, e: int|
        rising(cards.len() as int, a, b, c, d, e) && places_before(a, b, c, d, e, i, j, k, l, m)
            ==> hand_score(#[trigger] pick5(cards, a, b, c, d, e)).encoded <= limit
}

/// The tie-breaking ranks of a hand's score are ranks of the deck.
pub proof fn lemma_hand_score_kickers(hand: Seq<Card>)
    requires
        valid_hand(hand),
    ensures
        hand_score(hand).kickers.len() == 5,
        forall|i: int| 0 <= i < 5 ==> #[trigger] hand_score(hand).kickers[i] < 13,
        hand_score(hand).encoded == score_code(hand_score(hand).rank, hand_score(hand).kickers),
{
    reveal(category_of);
    reveal(kickers_of);
    lemma_by_count_ranks(count_table(hand));
    lemma_straight_top_range(|r: int| rank_count(hand, r) > 0, 12);
    let ks = kickers_of(hand);
    assert forall|i: int| 0 <= i < 5 implies #[trigger] ks[i] < 13 by {}
}

/// Where two numbers split the same way at `m`, the parts are the same.
proof fn lemma_same_split(a1: int, b1: int, a2: int, b2: int, m: int)
    requires
        m > 0,
        0 <= b1 < m,
        0 <= b2 < m,
        a1 * m + b1 == a2 * m + b2,
    ensures
        a1 == a2,
        b1 == b2,
{
    assert(a1 == a2) by (nonlinear_arith)
        requires
            m > 0,
            0 <= b1 < m,
            0 <= b2 < m,
            a1 * m + b1 == a2 * m + b2,
    ;
}

/// A category and five ranks that fit in four bits can be read back from
/// the number that they are packed into.
pub proof fn lemma_score_code_injective(r1: HandRank, k1: Seq<u8>, r2: HandRank, k2: Seq<u8>)
    requires
        small_kickers(k1),
        small_kickers(k2),
        score_code(r1, k1) == score_code(r2, k2),
    ensures
        r1 == r2,
        k1 == k2,
{
    assert(k1[0] < 16 && k1[1] < 16 && k1[2] < 16 && k1[3] < 16 && k1[4] < 16);
    assert(k2[0] < 16 && k2[1] < 16 && k2[2] < 16 && k2[3] < 16 && k2[4] < 16);
    let t4a = k1[4] as int * 0x100;
    let t4b = k2[4] as int * 0x100;
    let t3a = k1[3] as int * 0x1000 + t4a;
    let t3b = k2[3] as int * 0x1000 + t4b;
    let t2a = k1[2] as int * 0x1_0000 + t3a;
    let t2b = k2[2] as int * 0x1_0000 + t3b;
    let t1a = k1[1] as int * 0x10_0000 + t2a;
    let t1b = k2[1] as int * 0x10_0000 + t2b;
    let t0a = k1[0] as int * 0x100_0000 + t1a;
    let t0b = k2[0] as int * 0x100_0000 + t1b;
    lemma_same_split(r1.ord() as int, t0a, r2.ord() as int, t0b, 0x1000_0000);
    lemma_same_split(k1[0] as int, t1a, k2[0] as int, t1b, 0x100_0000);
    lemma_same_split(k1[1] as int, t2a, k2[1] as int, t2b, 0x10_0000);
    lemma_same_split(k1[2] as int, t3a, k2[2] as int, t3b, 0x1_0000);
    lemma_same_split(k1[3] as int, t4a, k2[3] as int, t4b, 0x1000);
    assert(k1 =~= k2);
}

/// Of a stronger category, every score's number is the greater, whatever the
/// tie-breaking ranks.
pub proof fn lemma_category_orders_scores(r1: HandRank, k1: Seq<u8>, r2: HandRank, k2: Seq<u8>)
    requires
        small_kickers(k1),
        small_kickers(k2),
        r1.ord() < r2.ord(),
    ensures
        score_code(r1, k1) < score_code(r2, k2),
        score_code(r2, k2) < 0x1_0000_0000,
{
    assert(k1[0] < 16 && k1[1] < 16 && k1[2] < 16 && k1[3] < 16 && k1[4] < 16);
    assert(k2[0] < 16 && k2[1] < 16 && k2[2] < 16 && k2[3] < 16 && k2[4] < 16);
}

/// The first of two rows of five ranks is the smaller where they first differ.
pub open spec fn kickers_below(a: Seq<u8>, b: Seq<u8>) -> bool {
    a[0] < b[0] || (a[0] == b[0] && (a[1] < b[1] || (a[1] == b[1] && (a[2] < b[2] || (a[2] == b[2]
        && (a[3] < b[3] || (a[3] == b[3] && a[4] < b[4])))))))
}

/// Within a category the numbers of scores go by the tie-breaking ranks,
/// the first rank that differs deciding.
pub proof fn lemma_kickers_order_scores(rank: HandRank, k1: Seq<u8>, k2: Seq<u8>)
    requires
        small_kickers(k1),
        small_kickers(k2),
    ensures
        score_code(rank, k1) < score_code(rank, k2) <==> kickers_below(k1, k2),
        score_code(rank, k1) == score_code(rank, k2) <==> k1 == k2,
{
    assert(k1[0] < 16 && k1[1] < 16 && k1[2] < 16 && k1[3] < 16 && k1[4] < 16);
    assert(k2[0] < 16 && k2[1] < 16 && k2[2] < 16 && k2[3] < 16 && k2[4] < 16);
    if score_code(rank, k1) == score_code(rank, k2) {
        lemma_score_code_injective(rank, k1, rank, k2);
    }
    if k1 == k2 {
    } else if kickers_below(k1, k2) {
    } else {
        assert(k1 =~= k2 || kickers_below(k2, k1));
    }
}

/// The number of a score goes up and down with its category: of two scores
/// the one with the greater number is of no weaker a category.
pub proof fn lemma_score_order_respects_category(
    r1: HandRank,
    k1: Seq<u8>,
    r2: HandRank,
    k2: Seq<u8>,
)
    requires
        small_kickers(k1),
        small_kickers(k2),
        score_code(r1, k1) <= score_code(r2, k2),
    ensures
        r1.ord() <= r2.ord(),
{
    if r1.ord() > r2.ord() {
        lemma_category_orders_scores(r2, k2, r1, k1);
    }
}

/// Any two hands of five cards of the deck: the one of the stronger category
/// has the greater number.
pub proof fn lemma_stronger_category_wins(weak: Seq<Card>, strong: Seq<Card>)
    requires
        valid_hand(weak),
        valid_hand(strong),
        category_of(weak).ord() < category_of(strong).ord(),
    ensures
        hand_score(weak).encoded < hand_score(strong).encoded,
{
    lemma_hand_score_kickers(weak);
    lemma_hand_score_kickers(strong);
    lemma_category_orders_scores(
        category_of(weak),
        kickers_of(weak),
        category_of(strong),
        kickers_of(strong),
    );
    lemma_category_orders_scores(
        HandRank::HighCard,
        kickers_of(weak),
        category_of(strong),
        kickers_of(strong),
    );
}

/// Five cards of the cards, at rising places, are a hand of the deck.
pub proof fn lemma_pick5_valid(cards: Seq<Card>, a: int, b: int, c: int, d: int, e: int)
    requires
        valid_cards(cards),
        rising(cards.len() as int, a, b, c, d, e),
    ensures
        valid_hand(pick5(cards, a, b, c, d, e)),
{
}

/// Only one score is the best of the cards.
pub proof fn lemma_best_unique(cards: Seq<Card>, s1: ScoreView, s2: ScoreView)
    requires
        valid_cards(cards),
        is_best_of(cards, s1),
        is_best_of(cards, s2),
    ensures
        s1 == s2,
{
    let (a1, b1, c1, d1, e1) = choose|a: int, b: int, c: int, d: int, e: int|
        rising(cards.len() as int, a, b, c, d, e) && s1 == hand_score(
            #[trigger] pick5(cards, a, b, c, d, e),
        );
    let (a2, b2, c2, d2, e2) = choose|a: int, b: int, c: int, d: int, e: int|
        rising(cards.len() as int, a, b, c, d, e) && s2 == hand_score(
            #[trigger] pick5(cards, a, b, c, d, e),
        );
    let h1 = pick5(cards, a1, b1, c1, d1, e1);
    let h2 = pick5(cards, a2, b2, c2, d2, e2);
    lemma_pick5_valid(cards, a1, b1, c1, d1, e1);
    lemma_pick5_valid(cards, a2, b2, c2, d2, e2);
    lemma_hand_score_kickers(h1);
    lemma_hand_score_kickers(h2);
    assert(s1.encoded <= s2.encoded);
    assert(s2.encoded <= s1.encoded);
    lemma_category_orders_scores(HandRank::HighCard, s1.kickers, HandRank::OnePair, s1.kickers);
    lemma_category_orders_scores(HandRank::HighCard, s2.kickers, HandRank::OnePair, s2.kickers);
    lemma_score_code_injective(s1.rank, s1.kickers, s2.rank, s2.kickers);
}

/// The best score is of a category no weaker than that of any five of the cards.
pub proof fn lemma_best_category_maximal(
    cards: Seq<Card>,
    best: ScoreView,
    a: int,
    b: int,
    c: int,
    d: int,
    e: int,
)
    requires
        valid_cards(cards),
        is_best_of(cards, best),
        rising(cards.len() as int, a, b, c, d, e),
    ensures
        category_of(pick5(cards, a, b, c, d, e)).ord() <= best.rank.ord(),
{
    let (a1, b1, c1, d1, e1) = choose|a: int, b: int, c: int, d: int, e: int|
        rising(cards.len() as int, a, b, c, d, e) && best == hand_score(
            #[trigger] pick5(cards, a, b, c, d, e),
        );
    let top = pick5(cards, a1, b1, c1, d1, e1);
    let other = pick5(cards, a, b, c, d, e);
    lemma_pick5_valid(cards, a1, b1, c1, d1, e1);
    lemma_pick5_valid(cards, a, b, c, d, e);
    lemma_hand_score_kickers(top);
    lemma_hand_score_kickers(other);
    assert(hand_score(other).encoded <= best.encoded);
    lemma_category_orders_scores(
        HandRank::HighCard,
        kickers_of(top),
        HandRank::OnePair,
        kickers_of(top),
    );
    lemma_category_orders_scores(
        HandRank::HighCard,
        kickers_of(other),
        HandRank::OnePair,
        kickers_of(other),
    );
    lemma_score_order_respects_category(
        category_of(other),
        kickers_of(other),
        category_of(top),
        kickers_of(top),
    );
}

/// The best score of the cards: the highest that any five of them reach.
#[verifier::rlimit(50)]
pub fn best_of(cards: &[Card]) -> (best: HandScore)
    requires
        valid_cards(cards@),
    ensures
        is_best_of(cards@, best@),
        best@ == best_score(cards@),
        forall|a: int, b: int, c: int, d: int, e: int|
            rising(cards@.len() as int, a, b, c, d, e) ==> category_of(
                #[trigger] pick5(cards@, a, b, c, d, e),
            ).ord() <= best@.rank.ord(),
        best@.encoded == score_code(best@.rank, best@.kickers),
        forall|i: int| 0 <= i < 5 ==> #[trigger] best@.kickers[i] < 13,
{
    let n = cards.len();
    let mut best = evaluate_five(slice_subrange(cards, 0, 5));
    let ghost mut w: (int, int, int, int, int) = (0, 1, 2, 3, 4);
    proof {
        assert(cards@.subrange(0, 5) =~= pick5(cards@, 0, 1, 2, 3, 4));
    }
    for i in 0..(n - 4)
        invariant
            n == cards@.len(),
            valid_cards(cards@),
            rising(n as int, w.0, w.1, w.2, w.3, w.4),
            best@ == hand_score(pick5(cards@, w.0, w.1, w.2, w.3, w.4)),
            none_above(cards@, best@.encoded, i as int, 0, 0, 0, 0),
    {
        for j in (i + 1)..(n - 3)
            invariant
                n == cards@.len(),
                valid_cards(cards@),
                i < n - 4,
                rising(n as int, w.0, w.1, w.2, w.3, w.4),
                best@ == hand_score(pick5(cards@, w.0, w.1, w.2, w.3, w.4)),
                none_above(cards@, best@.encoded, i as int, j as int, 0, 0, 0),
        {
            for k in (j + 1)..(n - 2)
                invariant
                    n == cards@.len(),
                    valid_cards(cards@),
                    i < j < n - 3,
                    rising(n as int, w.0, w.1, w.2, w.3, w.4),
                    best@ == hand_score(pick5(cards@, w.0, w.1, w.2, w.3, w.4)),
                    none_above(cards@, best@.encoded, i as int, j as int, k as int, 0, 0),
            {
                for l in (k + 1)..(n - 1)
                    invariant
                        n == cards@.len(),
                        valid_cards(cards@),
                        i < j < k < n - 2,
                        rising(n as int, w.0, w.1, w.2, w.3, w.4),
                        best@ == hand_score(pick5(cards@, w.0, w.1, w.2, w.3, w.4)),
                        none_above(cards@, best@.encoded, i as int, j as int, k as int, l as int, 0),
                {
                    for m in (l + 1)..n
                        invariant
                            n == cards@.len(),
                            valid_cards(cards@),
                            i < j < k < l < n - 1,
                            rising(n as int, w.0, w.1, w.2, w.3, w.4),
                            best@ == hand_score(pick5(cards@, w.0, w.1, w.2, w.3, w.4)),
                            none_above(
                                cards@,
                                best@.encoded,
                                i as int,
                                j as int,
                                k as int,
                                l as int,
                                m as int,
                            ),
                    {
                        let subset = [cards[i], cards[j], cards[k], cards[l], cards[m]];
                        proof {
                            assert(subset@ =~= pick5(
                                cards@,
                                i as int,
                                j as int,
                                k as int,
                                l as int,
                                m as int,
                            ));
                        }
                        let score = evaluate_five(subset.as_slice());
                        if score.encoded > best.encoded {
                            best = score;
                            proof {
                                w = (i as int, j as int, k as int, l as int, m as int);
                            }
                        }
                    }
                }
            }
        }
    }
    proof {
        assert(is_best_of(cards@, best@));
        let chosen = best_score(cards@);
        assert(is_best_of(cards@, chosen));
        lemma_best_unique(cards@, best@, chosen);
        assert forall|a: int, b: int, c: int, d: int, e: int|
            rising(cards@.len() as int, a, b, c, d, e) implies category_of(
            #[trigger] pick5(cards@, a, b, c, d, e),
        ).ord() <= best@.rank.ord() by {
            lemma_best_category_maximal(cards@, best@, a, b, c, d, e);
        }
        lemma_pick5_valid(cards@, w.0, w.1, w.2, w.3, w.4);
        lemma_hand_score_kickers(pick5(cards@, w.0, w.1, w.2, w.3, w.4));
    }
    best
}


/// Some rank occurs exactly `n` times in the hand.
pub open spec fn has_count(hand: Seq<Card>, n: nat) -> bool {
    exists|r: int| 0 <= r < 13 && #[trigger] rank_count(hand, r) == n
}

/// Two ranks occur exactly twice each in the hand.
pub open spec fn has_two_pairs(hand: Seq<Card>) -> bool {
    exists|a: int, b: int|
        0 <= a < b < 13 && #[trigger] rank_count(hand, a) == 2 && #[trigger] rank_count(hand, b)
            == 2
}

/// The category of a hand as the rules of poker tell it: the first that
/// fits of straight flush, four of a kind (a rank four times), full house
/// (a rank three times and another twice), flush, straight, three of a kind,
/// two pair, one pair, high card.
pub open spec fn category_by_rules(hand: Seq<Card>) -> HandRank {
    if is_flush(hand) && hand_straight(hand) is Some {
        HandRank::StraightFlush
    } else if has_count(hand, 4) {
        HandRank::FourOfKind
    } else if has_count(hand, 3) && has_count(hand, 2) {
        HandRank::FullHouse
    } else if is_flush(hand) {
        HandRank::Flush
    } else if hand_straight(hand) is Some {
        HandRank::Straight
    } else if has_count(hand, 3) {
        HandRank::ThreeOfKind
    } else if has_two_pairs(hand) {
        HandRank::TwoPair
    } else if has_count(hand, 2) {
        HandRank::OnePair
    } else {
        HandRank::HighCard
    }
}

/// Two different ranks do not occur more than five times together.
proof fn lemma_two_ranks(hand: Seq<Card>, a: int, b: int)
    requires
        a != b,
    ensures
        rank_count(hand, a) + rank_count(hand, b) <= 5,
        rank_count(hand, a) <= 5,
{
    reveal(rank_count_upto);
}

/// Some rank occurs in a hand.
proof fn lemma_some_rank(hand: Seq<Card>)
    requires
        valid_hand(hand),
    ensures
        rank_count(hand, hand[0].rank as int) >= 1,
        0 <= hand[0].rank < 13,
{
    reveal(rank_count_upto);
    assert(hand[0].valid());
}

/// The ranks that occur `n` times: each of them does, each rank that does
/// is among them, and they stand in falling order.
proof fn lemma_group(table: Seq<u8>, n: int, below: int)
    requires
        0 <= below <= 13,
        table.len() == 13,
    ensures
        forall|i: int|
            0 <= i < ranks_with_count(table, n, below).len() ==> {
                let e = #[trigger] ranks_with_count(table, n, below)[i];
                e < below && table[e as int] == n
            },
        forall|i: int, j: int|
            0 <= i < j < ranks_with_count(table, n, below).len() ==> #[trigger] ranks_with_count(
                table,
                n,
                below,
            )[i] > #[trigger] ranks_with_count(table, n, below)[j],
        forall|r: int|
            0 <= r < below && #[trigger] table[r] == n ==> ranks_with_count(
                table,
                n,
                below,
            ).contains(r as u8),
    decreases below,
{
    if below > 0 {
        lemma_group(table, n, below - 1);
        let rest = ranks_with_count(table, n, below - 1);
        let all = ranks_with_count(table, n, below);
        if table[below - 1] == n {
            assert(all =~= seq![(below - 1) as u8] + rest);
            assert forall|i: int| 0 <= i < all.len() implies {
                let e = #[trigger] all[i];
                e < below && table[e as int] == n
            } by {
                if i > 0 {
                    assert(all[i] == rest[i - 1]);
                }
            }
            assert forall|i: int, j: int| 0 <= i < j < all.len() implies #[trigger] all[i]
                > #[trigger] all[j] by {
                assert(all[j] == rest[j - 1]);
                if i > 0 {
                    assert(all[i] == rest[i - 1]);
                }
            }
            assert forall|r: int| 0 <= r < below && #[trigger] table[r] == n implies all.contains(
                r as u8,
            ) by {
                if r == below - 1 {
                    assert(all[0] == r as u8);
                } else {
                    assert(rest.contains(r as u8));
                    let k = choose|k: int| 0 <= k < rest.len() && rest[k] == r as u8;
                    assert(all[k + 1] == r as u8);
                }
            }
        } else {
            assert(all =~= rest);
        }
    }
}

/// The category that the evaluator finds is the category that the rules of
/// poker tell.
pub proof fn lemma_category_by_rules(hand: Seq<Card>)
    requires
        valid_hand(hand),
    ensures
        category_of(hand) == category_by_rules(hand),
{
    reveal(category_of);
    reveal_with_fuel(by_count_above, 6);
    let table = count_table(hand);
    let g5 = ranks_with_count(table, 5, 13);
    let g4 = ranks_with_count(table, 4, 13);
    let g3 = ranks_with_count(table, 3, 13);
    let g2 = ranks_with_count(table, 2, 13);
    let g1 = ranks_with_count(table, 1, 13);
    lemma_group(table, 5, 13);
    lemma_group(table, 4, 13);
    lemma_group(table, 3, 13);
    lemma_group(table, 2, 13);
    lemma_group(table, 1, 13);
    let all = by_count(table);
    assert(all =~= g5 + g4 + g3 + g2 + g1);
    assert forall|r: int| 0 <= r < 13 implies #[trigger] table[r] == rank_count(hand, r) by {
        lemma_two_ranks(hand, r, r + 1);
    }
    assert forall|a: int, b: int| 0 <= a < 13 && 0 <= b < 13 && a != b implies #[trigger] table[a]
        + #[trigger] table[b] <= 5 by {
        lemma_two_ranks(hand, a, b);
    }
    lemma_some_rank(hand);
    let top = nth_count(table, 0);
    let second = nth_count(table, 1);
    let first = hand[0].rank as int;
    assert(table[first] >= 1);
    // the groups tell which counts occur
    assert(has_count(hand, 4) <==> g4.len() > 0) by {
        if g4.len() > 0 {
            assert(rank_count(hand, g4[0] as int) == 4);
        }
        if has_count(hand, 4) {
            let r = choose|r: int| 0 <= r < 13 && #[trigger] rank_count(hand, r) == 4;
            assert(table[r] == 4);
            assert(g4.contains(r as u8));
        }
    }
    assert(has_count(hand, 3) <==> g3.len() > 0) by {
        if g3.len() > 0 {
            assert(rank_count(hand, g3[0] as int) == 3);
        }
        if has_count(hand, 3) {
            let r = choose|r: int| 0 <= r < 13 && #[trigger] rank_count(hand, r) == 3;
            assert(table[r] == 3);
            assert(g3.contains(r as u8));
        }
    }
    assert(has_count(hand, 2) <==> g2.len() > 0) by {
        if g2.len() > 0 {
            assert(rank_count(hand, g2[0] as int) == 2);
        }
        if has_count(hand, 2) {
            let r = choose|r: int| 0 <= r < 13 && #[trigger] rank_count(hand, r) == 2;
            assert(table[r] == 2);
            assert(g2.contains(r as u8));
        }
    }
    assert(has_two_pairs(hand) <==> g2.len() > 1) by {
        if g2.len() > 1 {
            let b = g2[0] as int;
            let a = g2[1] as int;
            assert(a < b);
            assert(rank_count(hand, a) == 2 && rank_count(hand, b) == 2);
        }
        if has_two_pairs(hand) {
            let (a, b) = choose|a: int, b: int|
                0 <= a < b < 13 && #[trigger] rank_count(hand, a) == 2 && #[trigger] rank_count(
                    hand,
                    b,
                ) == 2;
            assert(table[a] == 2 && table[b] == 2);
            assert(g2.contains(a as u8));
            assert(g2.contains(b as u8));
            let i = choose|i: int| 0 <= i < g2.len() && g2[i] == a as u8;
            let j = choose|j: int| 0 <= j < g2.len() && g2[j] == b as u8;
            assert(i != j);
        }
    }
    // five cards leave room for little beside a rank that occurs often
    if g5.len() > 0 {
        let r = g5[0] as int;
        assert(table[r] == 5);
        assert(g4.len() == 0) by {
            if g4.len() > 0 {
                assert(table[g4[0] as int] == 4);
            }
        }
        assert(g3.len() == 0) by {
            if g3.len() > 0 {
                assert(table[g3[0] as int] == 3);
            }
        }
        assert(g2.len() == 0) by {
            if g2.len() > 0 {
                assert(table[g2[0] as int] == 2);
            }
        }
        assert(all[0] == g5[0]);
        assert(top == 5);
    } else if g4.len() > 0 {
        assert(all[0] == g4[0]);
        assert(top == 4);
    } else if g3.len() > 0 {
        let r = g3[0] as int;
        assert(table[r] == 3);
        assert(g3.len() == 1) by {
            if g3.len() > 1 {
                assert(table[g3[1] as int] == 3);
                assert(g3[0] > g3[1]);
            }
        }
        assert(all[0] == g3[0]);
        assert(top == 3);
        if g2.len() > 0 {
            assert(all[1] == g2[0]);
            assert(second == 2);
        } else if g1.len() > 0 {
            assert(all[1] == g1[0]);
            assert(second == 1);
        } else {
            assert(second == 0);
        }
    } else if g2.len() > 0 {
        assert(all[0] == g2[0]);
        assert(top == 2);
        if g2.len() > 1 {
            assert(all[1] == g2[1]);
            assert(second == 2);
        } else if g1.len() > 0 {
            assert(all[1] == g1[0]);
            assert(second == 1);
        } else {
            assert(second == 0);
        }
    } else {
        lemma_two_ranks(hand, first, first + 1);
        if table[first] == 5 {
            assert(g5.contains(first as u8));
        } else if table[first] == 4 {
            assert(g4.contains(first as u8));
        } else if table[first] == 3 {
            assert(g3.contains(first as u8));
        } else if table[first] == 2 {
            assert(g2.contains(first as u8));
        }
        assert(table[first] == 1);
        assert(g1.contains(first as u8));
        assert(all[0] == g1[0]);
        assert(top == 1);
    }
}

} // verus!
