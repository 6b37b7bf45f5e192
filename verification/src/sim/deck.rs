//! The deck that is left once the known cards are taken out, its shuffle, and
//! the compact number that stands for a card in results.

use vstd::prelude::*;
use crate::sim::card::Card;
use crate::sim::rng::{lcg_advance, lcg_output, lcg_step, lemma_advance_front, Lcg64};

verus! {

/// The `i`-th card of the full deck: ranks ascending, the four suits of a rank together.
pub open spec fn card_at(i: int) -> Card {
    Card { rank: (i / 4) as u8, suit: (i % 4) as u8 }
}

/// The place of a card in the full deck.
pub open spec fn card_index(c: Card) -> int {
    c.rank as int * 4 + c.suit as int
}

/// Of the first `n` cards of the full deck, in order, those that `exclude` does not hold.
pub open spec fn deck_prefix(exclude: Seq<Card>, n: nat) -> Seq<Card>
    decreases n,
{
    if n == 0 {
        Seq::empty()
    } else {
        let rest = deck_prefix(exclude, (n - 1) as nat);
        if exclude.contains(card_at(n - 1)) {
            rest
        } else {
            rest.push(card_at(n - 1))
        }
    }
}

/// The full deck, in order, without the cards of `exclude`.
pub open spec fn deck_without(exclude: Seq<Card>) -> Seq<Card> {
    deck_prefix(exclude, 52)
}

/// How many of the first `n` cards of the full deck `exclude` holds.
pub open spec fn excluded_count(exclude: Seq<Card>, n: nat) -> nat
    decreases n,
{
    if n == 0 {
        0
    } else {
        excluded_count(exclude, (n - 1) as nat) + if exclude.contains(card_at(n - 1)) {
            1nat
        } else {
            0nat
        }
    }
}

/// The deck that is left and the cards taken out make up the first `n` cards.
pub proof fn lemma_deck_prefix_len(exclude: Seq<Card>, n: nat)
    ensures
        deck_prefix(exclude, n).len() + excluded_count(exclude, n) == n,
    decreases n,
{
    if n > 0 {
        lemma_deck_prefix_len(exclude, (n - 1) as nat);
    }
}

/// One more excluded card takes at most one more card out of the deck.
proof fn lemma_excluded_count_push(exclude: Seq<Card>, c: Card, n: nat)
    requires
        n <= 52,
    ensures
        excluded_count(exclude.push(c), n) <= excluded_count(exclude, n) + if c.valid()
            && card_index(c) < n {
            1nat
        } else {
            0nat
        },
    decreases n,
{
    if n > 0 {
        lemma_excluded_count_push(exclude, c, (n - 1) as nat);
        let k = card_at(n - 1);
        assert(exclude.push(c).contains(k) ==> exclude.contains(k) || k == c) by {
            if exclude.push(c).contains(k) {
                let i = choose|i: int| 0 <= i < exclude.push(c).len() && exclude.push(c)[i] == k;
                if i < exclude.len() {
                    assert(exclude[i] == k);
                }
            }
        }
        if k == c {
            assert(card_index(c) == n - 1);
        }
    }
}

/// No more cards leave the deck than were excluded.
pub proof fn lemma_excluded_count_bound(exclude: Seq<Card>, n: nat)
    requires
        n <= 52,
    ensures
        excluded_count(exclude, n) <= exclude.len(),
    decreases exclude.len(),
{
    if exclude.len() == 0 {
        lemma_excluded_count_empty(exclude, n);
    } else {
        let front = exclude.drop_last();
        assert(front.push(exclude.last()) =~= exclude);
        lemma_excluded_count_bound(front, n);
        lemma_excluded_count_push(front, exclude.last(), n);
    }
}

/// Where nothing is excluded nothing leaves the deck.
proof fn lemma_excluded_count_empty(exclude: Seq<Card>, n: nat)
    requires
        exclude.len() == 0,
    ensures
        excluded_count(exclude, n) == 0,
    decreases n,
{
    if n > 0 {
        lemma_excluded_count_empty(exclude, (n - 1) as nat);
    }
}

/// What the deck holds: every card of the full deck that was not excluded,
/// each once, in the order of the full deck.
pub proof fn lemma_deck_prefix_contents(exclude: Seq<Card>, n: nat)
    requires
        n <= 52,
    ensures
        forall|k: int|
            0 <= k < deck_prefix(exclude, n).len() ==> {
                let c = #[trigger] deck_prefix(exclude, n)[k];
                c.valid() && card_index(c) < n && !exclude.contains(c)
            },
        forall|j: int, k: int|
            0 <= j < k < deck_prefix(exclude, n).len() ==> card_index(
                #[trigger] deck_prefix(exclude, n)[j],
            ) < card_index(#[trigger] deck_prefix(exclude, n)[k]),
        forall|c: Card|
            c.valid() && card_index(c) < n && !exclude.contains(c) ==> deck_prefix(
                exclude,
                n,
            ).contains(c),
    decreases n,
{
    if n > 0 {
        let rest = deck_prefix(exclude, (n - 1) as nat);
        let last = card_at(n - 1);
        lemma_deck_prefix_contents(exclude, (n - 1) as nat);
        let d = deck_prefix(exclude, n);
        assert(last.valid() && card_index(last) == n - 1);
        assert forall|c: Card|
            c.valid() && card_index(c) < n && !exclude.contains(c) implies d.contains(c) by {
            if card_index(c) == n - 1 {
                assert(c == last);
                assert(d[d.len() - 1] == c);
            } else {
                assert(rest.contains(c));
                let i = choose|i: int| 0 <= i < rest.len() && rest[i] == c;
                assert(d[i] == c);
            }
        }
    }
}

/// The deck that is left when `exclude` is taken out of the 52 cards.
pub fn build_deck(exclude: &[Card]) -> (deck: Vec<Card>)
    ensures
        deck@ == deck_without(exclude@),
        deck@.len() + exclude@.len() >= 52,
        deck@.len() <= 52,
        forall|k: int| 0 <= k < deck@.len() ==> (#[trigger] deck@[k]).valid(),
        forall|k: int| 0 <= k < deck@.len() ==> !exclude@.contains(#[trigger] deck@[k]),
        forall|j: int, k: int| 0 <= j < k < deck@.len() ==> deck@[j] != deck@[k],
        deck@.no_duplicates(),
        forall|c: Card| c.valid() && !exclude@.contains(c) ==> deck@.contains(c),
{
    let mut deck: Vec<Card> = Vec::new();
    let mut r: u8 = 0;
    while r < 13
        invariant
            r <= 13,
            deck@ == deck_prefix(exclude@, (r as nat) * 4),
        decreases 13 - r,
    {
        let mut s: u8 = 0;
        while s < 4
            invariant
                r < 13,
                s <= 4,
                deck@ == deck_prefix(exclude@, (r as nat) * 4 + s as nat),
            decreases 4 - s,
        {
            let c = Card { rank: r, suit: s };
            assert(c == card_at(r as int * 4 + s as int));
            if !holds_card(exclude, c) {
                deck.push(c);
            }
            s += 1;
        }
        r += 1;
    }
    proof {
        lemma_deck_prefix_len(exclude@, 52);
        lemma_excluded_count_bound(exclude@, 52);
        lemma_deck_prefix_contents(exclude@, 52);
        assert forall|c: Card| c.valid() && !exclude@.contains(c) implies deck@.contains(c) by {
            assert(card_index(c) < 52);
        }
    }
    deck
}

/// Whether `cards` holds `c`.
pub fn holds_card(cards: &[Card], c: Card) -> (found: bool)
    ensures
        found == cards@.contains(c),
{
    let mut i: usize = 0;
    while i < cards.len()
        invariant
            i <= cards@.len(),
            forall|k: int| 0 <= k < i ==> cards@[k] != c,
        decreases cards@.len() - i,
    {
        if cards[i].rank == c.rank && cards[i].suit == c.suit {
            return true;
        }
        i += 1;
    }
    false
}

/// `s` with the items at `i` and `j` exchanged.
pub open spec fn swapped(s: Seq<Card>, i: int, j: int) -> Seq<Card> {
    s.update(i, s[j]).update(j, s[i])
}

/// The deck and the generator's state after the exchanges for the places
/// `i`, `i - 1`, .., 1: each place is exchanged with one drawn from the
/// places up to and including itself.
pub open spec fn shuffle_from(deck: Seq<Card>, state: u64, i: nat) -> (Seq<Card>, u64)
    decreases i,
{
    if i == 0 {
        (deck, state)
    } else {
        let drawn = lcg_step(state);
        let j = lcg_output(drawn) as int % (i as int + 1);
        shuffle_from(swapped(deck, i as int, j), drawn, (i - 1) as nat)
    }
}

/// The deck and the generator's state after a full shuffle.
pub open spec fn shuffled(deck: Seq<Card>, state: u64) -> (Seq<Card>, u64) {
    if deck.len() == 0 {
        (deck, state)
    } else {
        shuffle_from(deck, state, (deck.len() - 1) as nat)
    }
}

/// A shuffle keeps the cards and their number, and draws one number for each
/// place but the first.
pub proof fn lemma_shuffle_from_permutes(deck: Seq<Card>, state: u64, i: nat)
    requires
        i < deck.len(),
    ensures
        shuffle_from(deck, state, i).0.len() == deck.len(),
        shuffle_from(deck, state, i).0.to_multiset() == deck.to_multiset(),
        shuffle_from(deck, state, i).1 == lcg_advance(state, i),
    decreases i,
{
    if i > 0 {
        let drawn = lcg_step(state);
        let j = lcg_output(drawn) as int % (i as int + 1);
        let next = swapped(deck, i as int, j);
        lemma_swapped_permutes(deck, i as int, j);
        lemma_shuffle_from_permutes(next, drawn, (i - 1) as nat);
        lemma_advance_front(state, (i - 1) as nat);
    }
}

/// Exchanging two items keeps the items.
pub proof fn lemma_swapped_permutes(s: Seq<Card>, i: int, j: int)
    requires
        0 <= i < s.len(),
        0 <= j < s.len(),
    ensures
        swapped(s, i, j).len() == s.len(),
        swapped(s, i, j).to_multiset() == s.to_multiset(),
{
    broadcast use vstd::seq_lib::group_to_multiset_ensures;

    let a = s.update(i, s[j]);
    vstd::seq_lib::to_multiset_update(s, i, s[j]);
    vstd::seq_lib::to_multiset_update(a, j, s[i]);
    assert(swapped(s, i, j).to_multiset() =~= s.to_multiset());
}

/// Two rows of the same cards hold the same cards, and where no card is
/// twice in the one, none is twice in the other.
pub proof fn lemma_same_cards(a: Seq<Card>, b: Seq<Card>)
    requires
        a.to_multiset() == b.to_multiset(),
    ensures
        a.no_duplicates() ==> b.no_duplicates(),
        forall|c: Card| b.contains(c) <==> a.contains(c),
{
    broadcast use vstd::seq_lib::group_to_multiset_ensures;

    assert forall|c: Card| b.contains(c) <==> a.contains(c) by {
        assert(b.contains(c) <==> b.to_multiset().count(c) > 0);
        assert(a.contains(c) <==> a.to_multiset().count(c) > 0);
    }
    if a.no_duplicates() {
        a.lemma_multiset_has_no_duplicates();
        b.lemma_multiset_has_no_duplicates_conv();
    }
}

/// Shuffles `deck` in place: for each place from the last down to the second,
/// the generator draws a place up to and including it, and the two are exchanged.
pub fn shuffle_slice(deck: &mut [Card], rng: &mut Lcg64)
    ensures
        final(deck)@ == shuffled(old(deck)@, old(rng).state()).0,
        final(rng).state() == shuffled(old(deck)@, old(rng).state()).1,
        final(deck)@.len() == old(deck)@.len(),
        final(deck)@.to_multiset() == old(deck)@.to_multiset(),
        old(deck)@.no_duplicates() ==> final(deck)@.no_duplicates(),
        forall|c: Card| final(deck)@.contains(c) <==> old(deck)@.contains(c),
{
    let n = deck.len();
    if n == 0 {
        return ;
    }
    proof {
        lemma_shuffle_from_permutes(deck@, rng.state(), (n - 1) as nat);
        lemma_same_cards(deck@, shuffled(deck@, rng.state()).0);
    }
    let mut i: usize = n - 1;
    while i > 0
        invariant
            i < n,
            n == deck@.len(),
            shuffle_from(deck@, rng.state(), i as nat) == shuffled(old(deck)@, old(rng).state()),
        decreases i,
    {
        let j = (rng.next_u32() as usize) % (i + 1);
        let a = deck[i];
        let b = deck[j];
        deck[i] = b;
        deck[j] = a;
        i -= 1;
    }
}

/// The number that stands for a card in results: `(rank << 2) | suit`.
pub open spec fn card_code(c: Card) -> u32 {
    ((c.rank as u32) << 2) | (c.suit as u32)
}

/// The card that a number stands for.
pub open spec fn card_of_code(v: u32) -> Card {
    Card { rank: (v >> 2) as u8, suit: (v & 3) as u8 }
}

/// For a card of the deck the number is its place in the full deck.
pub proof fn lemma_card_code_index(c: Card)
    requires
        c.suit < 4,
    ensures
        card_code(c) == card_index(c),
        card_code(c) <= 1023,
{
    let r = c.rank as u32;
    let s = c.suit as u32;
    assert(s < 4 && r < 256 ==> ((r << 2) | s) == r * 4 + s) by (bit_vector);
}

/// The number that stands for a card in results.
pub fn encode_card(c: Card) -> (v: u32)
    ensures
        v == card_code(c),
        c.suit < 4 ==> v == card_index(c),
{
    proof {
        if c.suit < 4 {
            lemma_card_code_index(c);
        }
    }
    ((c.rank as u32) << 2) | (c.suit as u32)
}

/// The card that `v` stands for, where it stands for a card of the deck.
pub fn decode_card(v: u32) -> (r: Option<Card>)
    ensures
        v < 52 ==> r == Some(card_of_code(v)),
        v >= 52 ==> r is None,
        r matches Some(c) ==> c.valid() && card_code(c) == v,
{
    if v >= 52 {
        return None;
    }
    assert(v < 52 ==> (v >> 2) < 13 && (v & 3) < 4 && (((v >> 2) << 2) | (v & 3)) == v)
        by (bit_vector);
    let rank = (v >> 2) as u8;
    let suit = (v & 3) as u8;
    Some(Card { rank, suit })
}

/// Decoding undoes encoding, for every card whose suit is one of the four.
pub proof fn lemma_decode_encode(c: Card)
    requires
        c.suit < 4,
    ensures
        card_of_code(card_code(c)) == c,
{
    let r = c.rank as u32;
    let s = c.suit as u32;
    assert(s < 4 && r < 256 ==> (((r << 2) | s) >> 2) == r && (((r << 2) | s) & 3) == s)
        by (bit_vector);
}

/// The numbers of the two cards of a hand, the smaller first.
pub open spec fn code_pair(hand: (Card, Card)) -> (u32, u32) {
    if card_code(hand.0) <= card_code(hand.1) {
        (card_code(hand.0), card_code(hand.1))
    } else {
        (card_code(hand.1), card_code(hand.0))
    }
}

/// The numbers of the two cards of a hand, the smaller first.
pub fn decode_hand_pair(hand: &[Card; 2]) -> (pair: (u32, u32))
    ensures
        pair == code_pair((hand@[0], hand@[1])),
        pair.0 <= pair.1,
{
    let a = encode_card(hand[0]);
    let b = encode_card(hand[1]);
    if a <= b {
        (a, b)
    } else {
        (b, a)
    }
}

} // verus!
