//! How often each of several hands ends in each category, the board being
//! completed anew for every hand in every trial.

use vstd::prelude::*;
use vstd::slice::slice_to_vec;
use crate::sim::card::{chars_of, Card};
use crate::sim::deck::{build_deck, deck_without, holds_card, shuffled};
use crate::sim::eval::{best_score, HandScore, ScoreView};
use crate::sim::inputs::{any_duplicate, has_duplicate, lemma_no_duplicate, same_card, SimError};
use crate::sim::parse::{
    board_of, hand_list_of, hand_pair, hand_pairs, hands_from_chars, parse_board,
};
use crate::sim::rng::{seeded, Lcg64};
use crate::sim::trial::{all_valid, best_hand, deal_board, full_board, seven};

verus! {

/// Hands that share a board.
pub struct Lineup {
    pub hands: Seq<(Card, Card)>,
    pub board: Seq<Card>,
}

/// What is wrong with a hand on a board, if anything: first its two cards
/// being one card, then one of them being on the board.
pub open spec fn hand_error(board: Seq<Card>, hand: (Card, Card)) -> Option<SimError> {
    if hand.0 == hand.1 {
        Some(SimError::DuplicateHand)
    } else if board.contains(hand.0) || board.contains(hand.1) {
        Some(SimError::HandOverlapsBoard)
    } else {
        None
    }
}

/// What is wrong with the first hand from place `k` on that has anything wrong.
pub open spec fn hands_error(board: Seq<Card>, hands: Seq<(Card, Card)>, k: int) -> Option<SimError>
    decreases hands.len() - k,
{
    if 0 <= k < hands.len() {
        match hand_error(board, hands[k]) {
            Some(e) => Some(e),
            None => hands_error(board, hands, k + 1),
        }
    } else {
        None
    }
}

/// Where nothing is wrong with any hand from place `k` on, nothing is wrong with hand `i`.
pub proof fn lemma_hands_fit(board: Seq<Card>, hands: Seq<(Card, Card)>, k: int, i: int)
    requires
        0 <= k <= i < hands.len(),
        hands_error(board, hands, k) is None,
    ensures
        hand_error(board, hands[i]) is None,
    decreases i - k,
{
    if k < i {
        lemma_hands_fit(board, hands, k + 1, i);
    }
}

/// The lineup that two texts spell, or why they spell none. The board has
/// to hold at least `min_board` cards.
pub open spec fn lineup_of(hands: Seq<char>, board: Seq<char>, min_board: nat) -> Result<
    Lineup,
    SimError,
> {
    if hand_list_of(hands) is None || hand_list_of(hands)->0.len() == 0 {
        Err(SimError::Hands)
    } else if board_of(board) is None {
        Err(SimError::Board)
    } else if board_of(board)->0.len() < min_board {
        Err(SimError::BoardTooShort)
    } else if has_duplicate(board_of(board)->0) {
        Err(SimError::DuplicateBoard)
    } else {
        match hands_error(board_of(board)->0, hand_list_of(hands)->0, 0) {
            Some(e) => Err(e),
            None => Ok(Lineup { hands: hand_list_of(hands)->0, board: board_of(board)->0 }),
        }
    }
}

/// Every card of the lineup is a card of the deck, the board has at most
/// five cards, and there is a hand.
pub open spec fn lineup_cards_valid(l: Lineup) -> bool {
    &&& l.board.len() <= 5
    &&& all_valid(l.board)
    &&& l.hands.len() >= 1
    &&& forall|i: int|
        0 <= i < l.hands.len() ==> (#[trigger] l.hands[i]).0.valid() && l.hands[i].1.valid()
}

/// The deck that is left for a hand: the 52 cards without the board and the hand.
pub open spec fn hand_deck(board: Seq<Card>, hand: (Card, Card)) -> Seq<Card> {
    deck_without(board + seq![hand.0, hand.1])
}

/// The generator's state within a round, before the deal for hand `h`: in a
/// round each hand in turn gets a deal from a freshly shuffled deck.
pub open spec fn deal_state(l: Lineup, start: u64, h: nat) -> u64
    decreases h,
{
    if h == 0 {
        start
    } else {
        shuffled(hand_deck(l.board, l.hands[h - 1]), deal_state(l, start, (h - 1) as nat)).1
    }
}

/// The best score of hand `h` in a round that starts from `start`.
pub open spec fn deal_score(l: Lineup, start: u64, h: nat) -> ScoreView {
    best_score(
        seven(
            l.hands[h as int],
            full_board(
                l.board,
                shuffled(hand_deck(l.board, l.hands[h as int]), deal_state(l, start, h)).0,
            ),
        ),
    )
}

/// The generator's state before round `t`.
pub open spec fn round_start(l: Lineup, seed: u64, t: nat) -> u64
    decreases t,
{
    if t == 0 {
        seeded(seed)
    } else {
        deal_state(l, round_start(l, seed, (t - 1) as nat), l.hands.len())
    }
}

/// In how many of the first `n` rounds hand `h` ends in category `cat`.
pub open spec fn rank_tally(l: Lineup, seed: u64, h: nat, cat: int, n: nat) -> nat
    decreases n,
{
    if n == 0 {
        0
    } else {
        rank_tally(l, seed, h, cat, (n - 1) as nat) + if deal_score(
            l,
            round_start(l, seed, (n - 1) as nat),
            h,
        ).rank.ord() == cat {
            1nat
        } else {
            0nat
        }
    }
}

/// A hand does not end in a category more often than there are rounds.
pub proof fn lemma_rank_tally_bound(l: Lineup, seed: u64, h: nat, cat: int, n: nat)
    ensures
        rank_tally(l, seed, h, cat, n) <= n,
    decreases n,
{
    if n > 0 {
        lemma_rank_tally_bound(l, seed, h, cat, (n - 1) as nat);
    }
}

/// The counts are those of `n` rounds of the lineup: for each hand, in
/// order, how often it ended in each of the nine categories.
pub open spec fn distribution_of(counts: Seq<[u32; 9]>, l: Lineup, seed: u64, n: nat) -> bool {
    &&& counts.len() == l.hands.len()
    &&& forall|h: int, c: int|
        0 <= h < counts.len() && 0 <= c < 9 ==> (#[trigger] counts[h]@[c]) == rank_tally(
            l,
            seed,
            h as nat,
            c,
            n,
        )
}

/// The rounds that are run: at least one.
pub open spec fn rounds_run(trials: u32) -> nat {
    if trials == 0 {
        1
    } else {
        trials as nat
    }
}

/// What the simulation answers to two texts, a number of trials and a seed.
pub open spec fn distribution_answer(
    hands: Seq<char>,
    board: Seq<char>,
    min_board: nat,
    trials: u32,
    seed: u64,
    r: Result<Vec<[u32; 9]>, String>,
) -> bool {
    match lineup_of(hands, board, min_board) {
        Err(e) => r matches Err(msg) && msg@ == e.text(),
        Ok(l) => r matches Ok(counts) && distribution_of(counts@, l, seed, rounds_run(trials)),
    }
}

/// The same texts, trials and seed give the same distribution: two answers
/// to them hold the same message, or the same counts.
pub proof fn lemma_distribution_deterministic(
    hands: Seq<char>,
    board: Seq<char>,
    min_board: nat,
    trials: u32,
    seed: u64,
    r1: Result<Vec<[u32; 9]>, String>,
    r2: Result<Vec<[u32; 9]>, String>,
)
    requires
        distribution_answer(hands, board, min_board, trials, seed, r1),
        distribution_answer(hands, board, min_board, trials, seed, r2),
    ensures
        r1 is Ok == r2 is Ok,
        r1 is Err ==> r1->Err_0@ == r2->Err_0@,
        r1 is Ok ==> r1->Ok_0@.len() == r2->Ok_0@.len() && forall|h: int, c: int|
            0 <= h < r1->Ok_0@.len() && 0 <= c < 9 ==> (#[trigger] r1->Ok_0@[h]@[c]) == r2->Ok_0@[h]@[c],
{
    if r1 is Ok {
        let c1 = r1->Ok_0@;
        let c2 = r2->Ok_0@;
        let l = lineup_of(hands, board, min_board)->Ok_0;
        assert forall|h: int, c: int| 0 <= h < c1.len() && 0 <= c < 9 implies (#[trigger] c1[h]@[c])
            == c2[h]@[c] by {
            assert(c2[h]@[c] == rank_tally(l, seed, h as nat, c, rounds_run(trials)));
        }
    }
}

/// Checks a hand against the board.
pub fn check_hand(board: &[Card], hand: &[Card; 2]) -> (r: Option<SimError>)
    ensures
        r == hand_error(board@, hand_pair(*hand)),
{
    if same_card(hand[0], hand[1]) {
        return Some(SimError::DuplicateHand);
    }
    if holds_card(board, hand[0]) || holds_card(board, hand[1]) {
        return Some(SimError::HandOverlapsBoard);
    }
    None
}

/// Reads and checks the two texts of a lineup.
pub fn read_lineup(hands_str: &str, board_str: &str, min_board: usize) -> (r: Result<
    (Vec<[Card; 2]>, Vec<Card>),
    SimError,
>)
    ensures
        match lineup_of(hands_str@, board_str@, min_board as nat) {
            Err(e) => r == Err::<(Vec<[Card; 2]>, Vec<Card>), SimError>(e),
            Ok(l) => r matches Ok(got) && l == (Lineup {
                hands: hand_pairs(got.0@),
                board: got.1@,
            }) && lineup_cards_valid(l) && !has_duplicate(l.board) && hands_error(
                l.board,
                l.hands,
                0,
            ) is None,
        },
{
    let text = chars_of(hands_str);
    let hands = match hands_from_chars(text.as_slice()) {
        Some(h) => h,
        None => {
            return Err(SimError::Hands);
        },
    };
    if hands.len() == 0 {
        return Err(SimError::Hands);
    }
    let board = match parse_board(board_str) {
        Some(b) => b,
        None => {
            return Err(SimError::Board);
        },
    };
    if board.len() < min_board {
        return Err(SimError::BoardTooShort);
    }
    if any_duplicate(board.as_slice()) {
        return Err(SimError::DuplicateBoard);
    }
    let ghost pairs = hand_pairs(hands@);
    let mut k: usize = 0;
    while k < hands.len()
        invariant
            k <= hands@.len(),
            pairs == hand_pairs(hands@),
            hand_list_of(hands_str@) == Some(pairs),
            pairs.len() > 0,
            board_of(board_str@) == Some(board@),
            board@.len() >= min_board,
            !has_duplicate(board@),
            hands_error(board@, pairs, 0) == hands_error(board@, pairs, k as int),
        decreases hands@.len() - k,
    {
        assert(pairs[k as int] == hand_pair(hands@[k as int]));
        match check_hand(board.as_slice(), &hands[k]) {
            Some(e) => {
                return Err(e);
            },
            None => {},
        }
        k += 1;
    }
    proof {
        assert forall|i: int| 0 <= i < pairs.len() implies (#[trigger] pairs[i]).0.valid()
            && pairs[i].1.valid() by {
            assert(pairs[i] == hand_pair(hands@[i]));
        }
    }
    Ok((hands, board))
}

/// Deals for one hand: shuffles the deck that is left for it and completes the board.
pub fn deal_for_hand(hand: &[Card; 2], board: &[Card], rng: &mut Lcg64) -> (full: [Card; 5])
    requires
        board@.len() <= 5,
        all_valid(board@),
    ensures
        full@ == full_board(
            board@,
            shuffled(hand_deck(board@, hand_pair(*hand)), old(rng).state()).0,
        ),
        final(rng).state() == shuffled(hand_deck(board@, hand_pair(*hand)), old(rng).state()).1,
        all_valid(full@),
        !has_duplicate(board@) && hand_error(board@, hand_pair(*hand)) is None ==> seven(
            hand_pair(*hand),
            full@,
        ).no_duplicates(),
{
    let mut out = slice_to_vec(board);
    out.push(hand[0]);
    out.push(hand[1]);
    proof {
        assert(out@ =~= board@ + seq![hand@[0], hand@[1]]);
    }
    let deck = build_deck(out.as_slice());
    proof {
        assert forall|k: int| 0 <= k < deck@.len() implies !board@.contains(
            #[trigger] deck@[k],
        ) by {
            if board@.contains(deck@[k]) {
                let i = choose|i: int| 0 <= i < board@.len() && board@[i] == deck@[k];
                assert(out@[i] == deck@[k]);
                assert(out@.contains(deck@[k]));
            }
        }
    }
    let full = deal_board(board, deck.as_slice(), rng);
    proof {
        if !has_duplicate(board@) && hand_error(board@, hand_pair(*hand)) is None {
            lemma_no_duplicate(board@);
            let all = seven(hand_pair(*hand), full@);
            assert(out@[board@.len() as int] == hand@[0]);
            assert(out@[board@.len() as int + 1] == hand@[1]);
            assert(out@.contains(hand@[0]) && out@.contains(hand@[1]));
            assert forall|k: int| 0 <= k < 5 implies full@[k] != hand@[0] && full@[k] != hand@[1] by {
                assert(full@.contains(full@[k]));
                if deck@.contains(full@[k]) {
                    let d = choose|d: int| 0 <= d < deck@.len() && deck@[d] == full@[k];
                    assert(!out@.contains(deck@[d]));
                }
            }
            assert forall|i: int, j: int|
                0 <= i < all.len() && 0 <= j < all.len() && i != j implies all[i] != all[j] by {
                if i >= 2 {
                    assert(all[i] == full@[i - 2]);
                }
                if j >= 2 {
                    assert(all[j] == full@[j - 2]);
                }
            }
        }
    }
    full
}

/// Deals for one hand and returns the hand's best score.
pub fn deal_and_score(hand: &[Card; 2], board: &[Card], rng: &mut Lcg64) -> (score: HandScore)
    requires
        board@.len() <= 5,
        all_valid(board@),
        all_valid(hand@),
    ensures
        score@ == best_score(
            seven(
                hand_pair(*hand),
                full_board(
                    board@,
                    shuffled(hand_deck(board@, hand_pair(*hand)), old(rng).state()).0,
                ),
            ),
        ),
        final(rng).state() == shuffled(hand_deck(board@, hand_pair(*hand)), old(rng).state()).1,
{
    let full = deal_for_hand(hand, board, rng);
    best_hand(hand, &full)
}

/// Plays one round: a deal for each hand in turn, each counted under the
/// category it ends in.
pub fn play_round(
    hands: &[[Card; 2]],
    board: &[Card],
    rng: &mut Lcg64,
    counts: &mut Vec<[u32; 9]>,
    played: u32,
)
    requires
        board@.len() <= 5,
        all_valid(board@),
        forall|i: int| 0 <= i < hands@.len() ==> all_valid(#[trigger] hands@[i]@),
        old(counts)@.len() == hands@.len(),
        played < u32::MAX,
        forall|h: int, c: int|
            0 <= h < hands@.len() && 0 <= c < 9 ==> (#[trigger] old(counts)@[h]@[c]) <= played,
    ensures
        ({
            let l = Lineup { hands: hand_pairs(hands@), board: board@ };
            let start = old(rng).state();
            &&& final(rng).state() == deal_state(l, start, hands@.len() as nat)
            &&& final(counts)@.len() == hands@.len()
            &&& forall|h: int, c: int|
                0 <= h < hands@.len() && 0 <= c < 9 ==> (#[trigger] final(counts)@[h]@[c]) == old(
                    counts,
                )@[h]@[c] + if deal_score(l, start, h as nat).rank.ord() == c {
                    1int
                } else {
                    0int
                }
        }),
{
    let ghost l = Lineup { hands: hand_pairs(hands@), board: board@ };
    let ghost start = rng.state();
    let mut idx: usize = 0;
    while idx < hands.len()
        invariant
            idx <= hands@.len(),
            l == (Lineup { hands: hand_pairs(hands@), board: board@ }),
            board@.len() <= 5,
            all_valid(board@),
            forall|i: int| 0 <= i < hands@.len() ==> all_valid(#[trigger] hands@[i]@),
            counts@.len() == hands@.len(),
            played < u32::MAX,
            rng.state() == deal_state(l, start, idx as nat),
            forall|h: int, c: int|
                idx <= h < hands@.len() && 0 <= c < 9 ==> (#[trigger] counts@[h]@[c]) == old(
                    counts,
                )@[h]@[c],
            forall|h: int, c: int|
                0 <= h < hands@.len() && 0 <= c < 9 ==> (#[trigger] old(counts)@[h]@[c]) <= played,
            forall|h: int, c: int|
                0 <= h < idx && 0 <= c < 9 ==> (#[trigger] counts@[h]@[c]) == old(counts)@[h]@[c]
                    + if deal_score(l, start, h as nat).rank.ord() == c {
                    1int
                } else {
                    0int
                },
        decreases hands@.len() - idx,
    {
        let hand = hands[idx];
        proof {
            assert(all_valid(hands@[idx as int]@));
            assert(l.hands[idx as int] == hand_pair(hand));
        }
        let score = deal_and_score(&hand, board, rng);
        let cat = score.rank.index() as usize;
        let mut row = counts[idx];
        assert(row@[cat as int] == old(counts)@[idx as int]@[cat as int]);
        row[cat] = row[cat] + 1;
        counts[idx] = row;
        idx += 1;
    }
}

/// Runs the rounds for a lineup read from two texts.
pub fn rank_distribution_core(
    hands_str: &str,
    board_str: &str,
    min_board: usize,
    trials: u32,
    seed: u64,
) -> (r: Result<Vec<[u32; 9]>, String>)
    ensures
        distribution_answer(hands_str@, board_str@, min_board as nat, trials, seed, r),
{
    let (hands, board) = match read_lineup(hands_str, board_str, min_board) {
        Ok(got) => got,
        Err(e) => {
            return Err(e.message());
        },
    };
    let ghost l = Lineup { hands: hand_pairs(hands@), board: board@ };
    let trials: u32 = if trials == 0 {
        1
    } else {
        trials
    };
    let mut rng = Lcg64::new(seed);
    let mut counts: Vec<[u32; 9]> = Vec::new();
    let mut k: usize = 0;
    while k < hands.len()
        invariant
            k <= hands@.len(),
            counts@.len() == k,
            forall|h: int, c: int| 0 <= h < k && 0 <= c < 9 ==> (#[trigger] counts@[h]@[c]) == 0,
        decreases hands@.len() - k,
    {
        counts.push([0u32;9]);
        k += 1;
    }
    proof {
        assert forall|i: int| 0 <= i < hands@.len() implies all_valid(#[trigger] hands@[i]@) by {
            assert(l.hands[i] == hand_pair(hands@[i]));
        }
    }
    let mut t: u32 = 0;
    while t < trials
        invariant
            t <= trials,
            l == (Lineup { hands: hand_pairs(hands@), board: board@ }),
            board@.len() <= 5,
            all_valid(board@),
            forall|i: int| 0 <= i < hands@.len() ==> all_valid(#[trigger] hands@[i]@),
            rng.state() == round_start(l, seed, t as nat),
            distribution_of(counts@, l, seed, t as nat),
        decreases trials - t,
    {
        proof {
            assert forall|h: int, c: int| 0 <= h < hands@.len() && 0 <= c < 9 implies (
            #[trigger] counts@[h]@[c]) <= t by {
                lemma_rank_tally_bound(l, seed, h as nat, c, t as nat);
            }
        }
        play_round(hands.as_slice(), board.as_slice(), &mut rng, &mut counts, t);
        t += 1;
    }
    Ok(counts)
}

/// How often each hand of a list ends in each category, on a board of three
/// to five known cards.
pub fn simulate_rank_distribution(hands_str: &str, board_str: &str, trials: u32, seed: u64) -> (r:
    Result<Vec<[u32; 9]>, String>)
    ensures
        distribution_answer(hands_str@, board_str@, 3, trials, seed, r),
{
    rank_distribution_core(hands_str, board_str, 3, trials, seed)
}

} // verus!
