//! One trial: the board is completed from a freshly shuffled deck and the
//! hero's best hand meets the opponent's. Also the counts that simulations
//! keep over a run of trials.

use vstd::prelude::*;
use vstd::slice::slice_to_vec;
use crate::sim::card::Card;
use crate::sim::deck::{lemma_shuffle_from_permutes, shuffle_slice, shuffled};
use crate::sim::eval::{best_of, best_score, valid_cards, HandRank, HandScore, ScoreView};
use crate::sim::parse::hand_pair;
use crate::sim::rng::{lcg_advance, lemma_advance_add, Lcg64};

verus! {

/// The board once it is completed: the known cards, then as many cards from
/// the front of the deck as are missing to five.
pub open spec fn full_board(board: Seq<Card>, deck: Seq<Card>) -> Seq<Card> {
    board + deck.subrange(0, 5 - board.len())
}

/// The seven cards of a player: the two of the hand, then the board.
pub open spec fn seven(hand: (Card, Card), board: Seq<Card>) -> Seq<Card> {
    seq![hand.0, hand.1] + board
}

/// The cards that are out of the deck when a hero meets one opponent.
pub open spec fn excluded(hero: (Card, Card), board: Seq<Card>, opp: (Card, Card)) -> Seq<Card> {
    board + seq![hero.0, hero.1, opp.0, opp.1]
}

/// Every card is a card of the deck.
pub open spec fn all_valid(cards: Seq<Card>) -> bool {
    forall|i: int| 0 <= i < cards.len() ==> (#[trigger] cards[i]).valid()
}

/// A hero against one opponent on a board, the deck that is left for them,
/// and the state that the generator is in before the first trial.
pub struct Duel {
    pub hero: (Card, Card),
    pub opp: (Card, Card),
    pub board: Seq<Card>,
    pub deck: Seq<Card>,
    pub start: u64,
}

/// The generator's state before trial `t`: each trial shuffles the whole deck once.
pub open spec fn state_before(deck: Seq<Card>, start: u64, t: nat) -> u64
    decreases t,
{
    if t == 0 {
        start
    } else {
        shuffled(deck, state_before(deck, start, (t - 1) as nat)).1
    }
}

/// Every trial draws one number for each card of the deck but one: before
/// trial `t` the generator has made `t` times that many steps.
pub proof fn lemma_state_before_advance(deck: Seq<Card>, start: u64, t: nat)
    requires
        deck.len() >= 1,
    ensures
        state_before(deck, start, t) == lcg_advance(start, t * ((deck.len() - 1) as nat)),
    decreases t,
{
    let draws = (deck.len() - 1) as nat;
    if t == 0 {
        assert(t * draws == 0) by (nonlinear_arith)
            requires
                t == 0,
        ;
    } else {
        lemma_state_before_advance(deck, start, (t - 1) as nat);
        let before = state_before(deck, start, (t - 1) as nat);
        lemma_shuffle_from_permutes(deck, before, draws);
        let done = ((t - 1) as nat) * draws;
        lemma_advance_add(start, done, draws);
        assert(done + draws == t * draws) by (nonlinear_arith)
            requires
                t >= 1,
                done == ((t - 1) as nat) * draws,
        ;
    }
}

/// The completed board of trial `t`.
pub open spec fn board_at(board: Seq<Card>, deck: Seq<Card>, start: u64, t: nat) -> Seq<Card> {
    full_board(board, shuffled(deck, state_before(deck, start, t)).0)
}

/// The best scores of the two players in one trial.
pub struct Showdown {
    pub hero: ScoreView,
    pub opp: ScoreView,
}

/// The showdown on a completed board.
pub open spec fn showdown_on(hero: (Card, Card), opp: (Card, Card), board: Seq<Card>) -> Showdown {
    Showdown { hero: best_score(seven(hero, board)), opp: best_score(seven(opp, board)) }
}

/// The showdown of trial `t` of a duel.
pub open spec fn showdown_at(d: Duel, t: nat) -> Showdown {
    showdown_on(d.hero, d.opp, board_at(d.board, d.deck, d.start, t))
}

/// The showdowns of the first `n` trials of a duel.
pub open spec fn showdowns(d: Duel, n: nat) -> Seq<Showdown> {
    Seq::new(n, |t: int| showdown_at(d, t as nat))
}

/// How a showdown ends for the hero.
#[derive(Copy, Clone, Debug, PartialEq, Eq, Structural)]
pub enum Outcome {
    HeroWins,
    OpponentWins,
    Tie,
}

/// The hero wins with the greater number, loses with the smaller, and ties on equal numbers.
pub open spec fn outcome_of(s: Showdown) -> Outcome {
    if s.hero.encoded > s.opp.encoded {
        Outcome::HeroWins
    } else if s.hero.encoded == s.opp.encoded {
        Outcome::Tie
    } else {
        Outcome::OpponentWins
    }
}

/// The category of the hero's hand, or of the opponent's.
pub open spec fn side_rank(s: Showdown, hero_side: bool) -> HandRank {
    if hero_side {
        s.hero.rank
    } else {
        s.opp.rank
    }
}

/// The showdowns that end in `o`.
pub open spec fn ended(o: Outcome) -> spec_fn(Showdown) -> bool {
    |s: Showdown| outcome_of(s) == o
}

/// The showdowns that end in `o` with the hero's hand (or the opponent's) of category `cat`.
pub open spec fn ended_with(o: Outcome, hero_side: bool, cat: int) -> spec_fn(Showdown) -> bool {
    |s: Showdown| outcome_of(s) == o && side_rank(s, hero_side).ord() == cat
}

/// The showdowns in which the hero's hand (or the opponent's) is of category `cat`.
pub open spec fn ranked(hero_side: bool, cat: int) -> spec_fn(Showdown) -> bool {
    |s: Showdown| side_rank(s, hero_side).ord() == cat
}

/// How many items of a sequence `f` holds of.
pub open spec fn count_if<T>(s: Seq<T>, f: spec_fn(T) -> bool) -> nat
    decreases s.len(),
{
    if s.len() == 0 {
        0
    } else {
        count_if(s.drop_last(), f) + if f(s.last()) {
            1nat
        } else {
            0nat
        }
    }
}

/// One more item counts where `f` holds of it.
pub proof fn lemma_count_push<T>(s: Seq<T>, x: T, f: spec_fn(T) -> bool)
    ensures
        count_if(s.push(x), f) == count_if(s, f) + if f(x) {
            1nat
        } else {
            0nat
        },
    decreases s.len(),
{
    assert(s.push(x).drop_last() =~= s);
}

/// No more items count than there are.
pub proof fn lemma_count_bound<T>(s: Seq<T>, f: spec_fn(T) -> bool)
    ensures
        count_if(s, f) <= s.len(),
    decreases s.len(),
{
    if s.len() > 0 {
        lemma_count_bound(s.drop_last(), f);
    }
}

/// Counting over two sequences, one after the other, adds up.
pub proof fn lemma_count_concat<T>(a: Seq<T>, b: Seq<T>, f: spec_fn(T) -> bool)
    ensures
        count_if(a + b, f) == count_if(a, f) + count_if(b, f),
    decreases b.len(),
{
    if b.len() == 0 {
        assert(a + b =~= a);
    } else {
        lemma_count_concat(a, b.drop_last(), f);
        assert((a + b).drop_last() =~= a + b.drop_last());
        assert((a + b).last() == b.last());
    }
}

/// Every showdown ends in exactly one of three ways: wins, ties and losses
/// add up to the number of trials.
pub proof fn lemma_outcomes_add_up(s: Seq<Showdown>)
    ensures
        count_if(s, ended(Outcome::HeroWins)) + count_if(s, ended(Outcome::Tie)) + count_if(
            s,
            ended(Outcome::OpponentWins),
        ) == s.len(),
    decreases s.len(),
{
    if s.len() > 0 {
        lemma_outcomes_add_up(s.drop_last());
    }
}

/// A count, or the largest number that 32 bits hold where the count is larger.
pub open spec fn capped(n: nat) -> u32 {
    if n > u32::MAX {
        u32::MAX
    } else {
        n as u32
    }
}

/// Completes the board for one trial: shuffles a copy of the deck and takes
/// the missing cards from its front.
pub fn deal_board(board: &[Card], deck: &[Card], rng: &mut Lcg64) -> (full: [Card; 5])
    requires
        board@.len() <= 5,
        deck@.len() >= 5 - board@.len(),
        all_valid(board@),
        all_valid(deck@),
    ensures
        full@ == full_board(board@, shuffled(deck@, old(rng).state()).0),
        final(rng).state() == shuffled(deck@, old(rng).state()).1,
        all_valid(full@),
        forall|c: Card| full@.contains(c) ==> board@.contains(c) || deck@.contains(c),
        board@.no_duplicates() && deck@.no_duplicates() && (forall|k: int|
            0 <= k < deck@.len() ==> !board@.contains(#[trigger] deck@[k])) ==> full@.no_duplicates(),
{
    let mut cards = slice_to_vec(deck);
    shuffle_slice(cards.as_mut_slice(), rng);
    proof {
        assert forall|i: int| 0 <= i < cards@.len() implies (#[trigger] cards@[i]).valid() by {
            assert(cards@.contains(cards@[i]));
            assert(deck@.contains(cards@[i]));
        }
    }
    let known = board.len();
    let mut full = [Card { rank: 0, suit: 0 };5];
    let mut i: usize = 0;
    while i < 5
        invariant
            i <= 5,
            known == board@.len(),
            known <= 5,
            cards@.len() >= 5 - known,
            all_valid(board@),
            all_valid(cards@),
            all_valid(full@),
            forall|k: int| 0 <= k < i && k < known ==> full@[k] == board@[k],
            forall|k: int| known <= k < i ==> full@[k] == cards@[k - known],
        decreases 5 - i,
    {
        if i < known {
            full[i] = board[i];
        } else {
            full[i] = cards[i - known];
        }
        i += 1;
    }
    proof {
        assert(full@ =~= full_board(board@, cards@));
        assert forall|c: Card| full@.contains(c) implies board@.contains(c) || deck@.contains(
            c,
        ) by {
            let k = choose|k: int| 0 <= k < full@.len() && full@[k] == c;
            if k < known {
                assert(board@[k] == c);
            } else {
                assert(cards@[k - known] == c);
                assert(cards@.contains(c));
            }
        }
        if board@.no_duplicates() && deck@.no_duplicates() && (forall|k: int|
            0 <= k < deck@.len() ==> !board@.contains(#[trigger] deck@[k])) {
            assert forall|i: int, j: int| 0 <= i < 5 && 0 <= j < 5 && i != j implies full@[i]
                != full@[j] by {
                if i >= known {
                    assert(cards@.contains(cards@[i - known]));
                    let d = choose|d: int| 0 <= d < deck@.len() && deck@[d] == cards@[i - known];
                    assert(!board@.contains(deck@[d]));
                }
                if j >= known {
                    assert(cards@.contains(cards@[j - known]));
                    let d = choose|d: int| 0 <= d < deck@.len() && deck@[d] == cards@[j - known];
                    assert(!board@.contains(deck@[d]));
                }
                if i < known {
                    assert(board@.contains(board@[i]));
                }
                if j < known {
                    assert(board@.contains(board@[j]));
                }
            }
        }
    }
    full
}

/// The best scores of the hero and of the opponent on a completed board.
pub fn play_out(hero: &[Card; 2], opp: &[Card; 2], full: &[Card; 5]) -> (scores: (
    HandScore,
    HandScore,
))
    requires
        all_valid(hero@),
        all_valid(opp@),
        all_valid(full@),
    ensures
        scores.0@ == showdown_on(hand_pair(*hero), hand_pair(*opp), full@).hero,
        scores.1@ == showdown_on(hand_pair(*hero), hand_pair(*opp), full@).opp,
{
    let hero_score = best_hand(hero, full);
    let opp_score = best_hand(opp, full);
    (hero_score, opp_score)
}

/// The best score of a hand on a completed board.
pub fn best_hand(hand: &[Card; 2], full: &[Card; 5]) -> (score: HandScore)
    requires
        all_valid(hand@),
        all_valid(full@),
    ensures
        score@ == best_score(seven(hand_pair(*hand), full@)),
{
    let cards = [hand[0], hand[1], full[0], full[1], full[2], full[3], full[4]];
    proof {
        assert(cards@ =~= seven(hand_pair(*hand), full@));
        assert forall|i: int| 0 <= i < 7 implies (#[trigger] cards@[i]).valid() by {
            if i >= 2 {
                assert(cards@[i] == full@[i - 2]);
            } else {
                assert(cards@[i] == hand@[i]);
            }
        }
        assert(valid_cards(cards@));
    }
    best_of(cards.as_slice())
}

/// How a showdown of two scores ends for the hero.
pub fn decide(hero: &HandScore, opp: &HandScore) -> (o: Outcome)
    ensures
        o == outcome_of(Showdown { hero: hero@, opp: opp@ }),
{
    if hero.encoded > opp.encoded {
        Outcome::HeroWins
    } else if hero.encoded == opp.encoded {
        Outcome::Tie
    } else {
        Outcome::OpponentWins
    }
}


/// The outcome that is a win for the hero's side, or for the opponent's.
pub open spec fn win_of(hero_side: bool) -> Outcome {
    if hero_side {
        Outcome::HeroWins
    } else {
        Outcome::OpponentWins
    }
}

/// The outcome that is a loss for the hero's side, or for the opponent's.
pub open spec fn loss_of(hero_side: bool) -> Outcome {
    if hero_side {
        Outcome::OpponentWins
    } else {
        Outcome::HeroWins
    }
}

/// What is counted over a run of showdowns: the hero's wins, the ties and the
/// trials; and for one side, the hero's or the opponent's, how often it won,
/// tied and lost with a hand of each of the nine categories. A count stays
/// at the largest number that 32 bits hold once it has reached it.
pub struct Counters {
    pub wins: u32,
    pub ties: u32,
    pub plays: u32,
    pub rank_wins: [u32; 9],
    pub rank_ties: [u32; 9],
    pub rank_lose: [u32; 9],
    pub hero_side: bool,
    pub seen: Ghost<Seq<Showdown>>,
}

/// The counts are those of the showdowns `s`, the categories taken from one side.
#[verifier::opaque]
pub open spec fn counts_of(
    wins: u32,
    ties: u32,
    plays: u32,
    rank_wins: Seq<u32>,
    rank_ties: Seq<u32>,
    rank_lose: Seq<u32>,
    s: Seq<Showdown>,
    hero_side: bool,
) -> bool {
    &&& wins == capped(count_if(s, ended(Outcome::HeroWins)))
    &&& ties == capped(count_if(s, ended(Outcome::Tie)))
    &&& plays == capped(s.len())
    &&& rank_wins.len() == 9
    &&& rank_ties.len() == 9
    &&& rank_lose.len() == 9
    &&& forall|c: int|
        0 <= c < 9 ==> #[trigger] rank_wins[c] == capped(
            count_if(s, ended_with(win_of(hero_side), hero_side, c)),
        )
    &&& forall|c: int|
        0 <= c < 9 ==> #[trigger] rank_ties[c] == capped(
            count_if(s, ended_with(Outcome::Tie, hero_side, c)),
        )
    &&& forall|c: int|
        0 <= c < 9 ==> #[trigger] rank_lose[c] == capped(
            count_if(s, ended_with(loss_of(hero_side), hero_side, c)),
        )
}

/// One more, short of leaving 32 bits.
pub fn bump(n: u32) -> (r: u32)
    ensures
        r == if n == u32::MAX {
            n
        } else {
            (n + 1) as u32
        },
{
    n.saturating_add(1)
}

impl Counters {
    /// The counters hold the counts of the showdowns seen.
    pub open spec fn wf(&self) -> bool {
        counts_of(
            self.wins,
            self.ties,
            self.plays,
            self.rank_wins@,
            self.rank_ties@,
            self.rank_lose@,
            self.seen@,
            self.hero_side,
        )
    }

    /// Counters that have seen nothing.
    pub fn new(hero_side: bool) -> (c: Counters)
        ensures
            c.wf(),
            c.seen@ == Seq::<Showdown>::empty(),
            c.hero_side == hero_side,
    {
        let c = Counters {
            wins: 0,
            ties: 0,
            plays: 0,
            rank_wins: [0u32;9],
            rank_ties: [0u32;9],
            rank_lose: [0u32;9],
            hero_side,
            seen: Ghost(Seq::empty()),
        };
        proof {
            reveal(counts_of);
        }
        c
    }

    /// Counts one more showdown.
    pub fn record(&mut self, hero: &HandScore, opp: &HandScore)
        requires
            old(self).wf(),
        ensures
            final(self).wf(),
            final(self).hero_side == old(self).hero_side,
            final(self).seen@ == old(self).seen@.push(Showdown { hero: hero@, opp: opp@ }),
    {
        let ghost s = self.seen@;
        let ghost x = Showdown { hero: hero@, opp: opp@ };
        let ghost side = self.hero_side;
        proof {
            reveal(counts_of);
            lemma_count_push(s, x, ended(Outcome::HeroWins));
            lemma_count_push(s, x, ended(Outcome::Tie));
            assert forall|c: int| 0 <= c < 9 implies count_if(
                s.push(x),
                #[trigger] ended_with(win_of(side), side, c),
            ) == count_if(s, ended_with(win_of(side), side, c)) + if outcome_of(x) == win_of(side)
                && side_rank(x, side).ord() == c {
                1nat
            } else {
                0nat
            } by {
                lemma_count_push(s, x, ended_with(win_of(side), side, c));
            }
            assert forall|c: int| 0 <= c < 9 implies count_if(
                s.push(x),
                #[trigger] ended_with(Outcome::Tie, side, c),
            ) == count_if(s, ended_with(Outcome::Tie, side, c)) + if outcome_of(x) == Outcome::Tie
                && side_rank(x, side).ord() == c {
                1nat
            } else {
                0nat
            } by {
                lemma_count_push(s, x, ended_with(Outcome::Tie, side, c));
            }
            assert forall|c: int| 0 <= c < 9 implies count_if(
                s.push(x),
                #[trigger] ended_with(loss_of(side), side, c),
            ) == count_if(s, ended_with(loss_of(side), side, c)) + if outcome_of(x) == loss_of(
                side,
            ) && side_rank(x, side).ord() == c {
                1nat
            } else {
                0nat
            } by {
                lemma_count_push(s, x, ended_with(loss_of(side), side, c));
            }
        }
        let outcome = decide(hero, opp);
        let cat = if self.hero_side {
            hero.rank.index()
        } else {
            opp.rank.index()
        } as usize;
        self.plays = bump(self.plays);
        let side_won = match outcome {
            Outcome::HeroWins => self.hero_side,
            Outcome::OpponentWins => !self.hero_side,
            Outcome::Tie => false,
        };
        match outcome {
            Outcome::HeroWins => {
                self.wins = bump(self.wins);
            },
            Outcome::Tie => {
                self.ties = bump(self.ties);
            },
            Outcome::OpponentWins => {},
        }
        match outcome {
            Outcome::Tie => {
                let n = bump(self.rank_ties[cat]);
                self.rank_ties[cat] = n;
            },
            _ => {
                if side_won {
                    let n = bump(self.rank_wins[cat]);
                    self.rank_wins[cat] = n;
                } else {
                    let n = bump(self.rank_lose[cat]);
                    self.rank_lose[cat] = n;
                }
            },
        }
        self.seen = Ghost(s.push(x));
    }
}

} // verus!
