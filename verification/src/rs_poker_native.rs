//! Simulations that leave the dealing or the ranking to the `rs_poker` crate.
//!
//! The equity simulations hand the hero and one opponent to a game of
//! `rs_poker`, which deals the missing cards at random: their results are
//! counts of what the game answers, whatever it answers, but that somebody
//! wins every trial. The distribution deals from this crate's own seeded
//! deck and asks `rs_poker` for the category only.

use vstd::prelude::*;
use rs_poker::holdem::MonteCarloGame;
use crate::sim::card::Card;
use crate::sim::deck::{code_pair, decode_hand_pair, shuffled};
use crate::sim::eval::HandRank;
use crate::sim::inputs::{has_duplicate, matchup_of, read_matchup, Matchup, SimError};
use crate::sim::parse::{hand_pair, hand_pairs};
use crate::sim::progress::{
    reports_of_run, takes_percent, work_units, Callback, Reporter, Run, Silent,
};
use crate::sim::rank_distribution::{
    deal_for_hand, deal_state, hand_deck, hands_error, lemma_hands_fit, lineup_of, read_lineup,
    round_start, rounds_run, Lineup,
};
use crate::sim::rng::Lcg64;
use crate::sim::simulate_vs_list::{trials_run, vs_list_reports, StatsRow, HERO_ROW};
use crate::sim::trial::{
    all_valid, bump, capped, count_if, full_board, lemma_count_bound, lemma_count_push, seven,
};

verus! {

/// The game of `rs_poker` that deals the missing cards at random.
#[verifier::external_type_specification]
#[verifier::external_body]
pub struct ExMonteCarloGame(rs_poker::holdem::MonteCarloGame);

/// The error type of `rs_poker`.
#[verifier::external_type_specification]
#[verifier::external_body]
pub struct ExRSPokerError(rs_poker::core::RSPokerError);

/// The rank that `rs_poker` gives a hand.
type OutsideRank = rs_poker::core::Rank;

/// The hand of `rs_poker`.
type OutsideHand = rs_poker::core::Hand;

/// The number that `rs_poker` gives a suit: it counts spades, clubs, hearts,
/// diamonds, where this crate counts spades, hearts, diamonds, clubs.
/// A number that is no suit here stands for spades.
pub open spec fn outside_suit(suit: u8) -> u8 {
    if suit == 1 {
        2
    } else if suit == 2 {
        3
    } else if suit == 3 {
        1
    } else {
        0
    }
}

/// The number that `rs_poker` gives a suit.
pub fn to_outside_suit(suit: u8) -> (r: u8)
    ensures
        r == outside_suit(suit),
        r < 4,
{
    if suit == 1 {
        2
    } else if suit == 2 {
        3
    } else if suit == 3 {
        1
    } else {
        0
    }
}

/// The ranks of cards.
pub open spec fn ranks_of(cards: Seq<Card>) -> Seq<u8> {
    Seq::new(cards.len(), |i: int| cards[i].rank)
}

/// The suits of cards, as `rs_poker` numbers them.
pub open spec fn suits_of(cards: Seq<Card>) -> Seq<u8> {
    Seq::new(cards.len(), |i: int| outside_suit(cards[i].suit))
}

/// The category, from 0 for a high card to 8 for a straight flush, that
/// `rs_poker` finds in cards given by their ranks and, in its own numbers,
/// their suits.
pub uninterp spec fn outside_category(ranks: Seq<u8>, suits: Seq<u8>) -> int;

/// Seven different cards of the deck, given by their ranks and, in the
/// numbers of `rs_poker`, their suits.
pub open spec fn seven_distinct(ranks: Seq<u8>, suits: Seq<u8>) -> bool {
    &&& ranks.len() == 7
    &&& suits.len() == 7
    &&& forall|i: int| 0 <= i < 7 ==> #[trigger] ranks[i] < 13 && suits[i] < 4
    &&& forall|i: int, j: int|
        0 <= i < j < 7 ==> !(#[trigger] ranks[i] == #[trigger] ranks[j] && suits[i] == suits[j])
}

/// Calls `Rankable::rank` of `rs_poker` on a `Hand` made of the cards (with
/// `Hand::new_with_cards`, `Card::new`, `Value::from` and `Suit::from`), and
/// returns the category of the rank it finds. The cards have to be seven
/// different cards of the deck: on fewer, `rank` can fail where it looks for
/// the highest card beside four of a kind or two pairs and finds none. The
/// contract gives the result a name and so claims that it depends on the
/// cards alone; nothing else is claimed of it.
#[verifier::external_body]
fn outside_rank(ranks: &[u8], suits: &[u8]) -> (r: HandRank)
    requires
        seven_distinct(ranks@, suits@),
    ensures
        r.ord() == outside_category(ranks@, suits@),
{
    let hand = OutsideHand::new_with_cards(
        ranks.iter().zip(suits.iter()).map(|(r, s)| rs_poker::core::Card::new((*r).into(), (*s).into())).collect(),
    );
    match rs_poker::core::Rankable::rank(&hand) {
        OutsideRank::HighCard(_) => HandRank::HighCard,
        OutsideRank::OnePair(_) => HandRank::OnePair,
        OutsideRank::TwoPair(_) => HandRank::TwoPair,
        OutsideRank::ThreeOfAKind(_) => HandRank::ThreeOfKind,
        OutsideRank::Straight(_) => HandRank::Straight,
        OutsideRank::Flush(_) => HandRank::Flush,
        OutsideRank::FullHouse(_) => HandRank::FullHouse,
        OutsideRank::FourOfAKind(_) => HandRank::FourOfKind,
        OutsideRank::StraightFlush(_) => HandRank::StraightFlush,
    }
}

/// Calls `MonteCarloGame::new` of `rs_poker` on two hands, each made of a
/// player's two cards and the known board (with `Hand::new_with_cards`,
/// `Card::new`, `Value::from` and `Suit::from`); the cards are given by
/// their ranks and, in the numbers of `rs_poker`, their suits. The contract
/// claims that the call succeeds where neither hand has more than seven
/// cards: the only error of `new` is a hand of more than seven.
#[verifier::external_body]
fn new_game(hero_ranks: &[u8], hero_suits: &[u8], opp_ranks: &[u8], opp_suits: &[u8]) -> (r: Result<
    MonteCarloGame,
    rs_poker::core::RSPokerError,
>)
    requires
        hero_ranks@.len() == hero_suits@.len(),
        opp_ranks@.len() == opp_suits@.len(),
    ensures
        hero_ranks@.len() <= 7 && opp_ranks@.len() <= 7 ==> r is Ok,
{
    let hero = OutsideHand::new_with_cards(
        hero_ranks.iter().zip(hero_suits.iter()).map(|(r, s)| rs_poker::core::Card::new((*r).into(), (*s).into())).collect(),
    );
    let opp = OutsideHand::new_with_cards(
        opp_ranks.iter().zip(opp_suits.iter()).map(|(r, s)| rs_poker::core::Card::new((*r).into(), (*s).into())).collect(),
    );
    MonteCarloGame::new(vec![hero, opp])
}

/// What a game answers for one trial: whether the hero is among the winners,
/// whether the opponent is, and the category of the winning hand.
#[derive(Copy, Clone, Debug, PartialEq, Eq, Structural)]
pub struct GameResult {
    pub hero_win: bool,
    pub opp_win: bool,
    pub rank: HandRank,
}

/// Calls `MonteCarloGame::simulate` of `rs_poker`, reads the two players
/// from the winners it returns with `PlayerBitSet::get`, and puts the game
/// back to its start with `MonteCarloGame::reset`. The cards are dealt at
/// random, so the contract claims of the result only what holds of every
/// deal: somebody wins. `simulate` goes through the hands with the lowest
/// rank there is as the best so far, so the first hand is never below it and
/// is a winner until a later hand is better, which is the winner then.
#[verifier::external_body]
fn play_once(game: &mut MonteCarloGame) -> (r: GameResult)
    ensures
        r.hero_win || r.opp_win,
{
    let (winners, best) = game.simulate();
    game.reset();
    let rank = match best {
        OutsideRank::HighCard(_) => HandRank::HighCard,
        OutsideRank::OnePair(_) => HandRank::OnePair,
        OutsideRank::TwoPair(_) => HandRank::TwoPair,
        OutsideRank::ThreeOfAKind(_) => HandRank::ThreeOfKind,
        OutsideRank::Straight(_) => HandRank::Straight,
        OutsideRank::Flush(_) => HandRank::Flush,
        OutsideRank::FullHouse(_) => HandRank::FullHouse,
        OutsideRank::FourOfAKind(_) => HandRank::FourOfKind,
        OutsideRank::StraightFlush(_) => HandRank::StraightFlush,
    };
    GameResult { hero_win: winners.get(0), opp_win: winners.get(1), rank }
}

/// The ranks of cards and, in the numbers of `rs_poker`, their suits.
pub fn outside_cards(cards: &[Card]) -> (r: (Vec<u8>, Vec<u8>))
    ensures
        r.0@ == ranks_of(cards@),
        r.1@ == suits_of(cards@),
{
    let mut ranks: Vec<u8> = Vec::new();
    let mut suits: Vec<u8> = Vec::new();
    let mut i: usize = 0;
    while i < cards.len()
        invariant
            i <= cards@.len(),
            ranks@ == ranks_of(cards@.subrange(0, i as int)),
            suits@ == suits_of(cards@.subrange(0, i as int)),
        decreases cards@.len() - i,
    {
        ranks.push(cards[i].rank);
        suits.push(to_outside_suit(cards[i].suit));
        proof {
            assert(ranks@ =~= ranks_of(cards@.subrange(0, i + 1)));
            assert(suits@ =~= suits_of(cards@.subrange(0, i + 1)));
        }
        i += 1;
    }
    proof {
        assert(cards@.subrange(0, cards@.len() as int) =~= cards@);
    }
    (ranks, suits)
}

/// Seven different cards of the deck are seven different cards for `rs_poker`.
pub proof fn lemma_seven_distinct(cards: Seq<Card>)
    requires
        cards.len() == 7,
        all_valid(cards),
        cards.no_duplicates(),
    ensures
        seven_distinct(ranks_of(cards), suits_of(cards)),
{
    let ranks = ranks_of(cards);
    let suits = suits_of(cards);
    assert forall|i: int| 0 <= i < 7 implies #[trigger] ranks[i] < 13 && suits[i] < 4 by {
        assert(cards[i].valid());
    }
    assert forall|i: int, j: int| 0 <= i < j < 7 implies !(#[trigger] ranks[i] == #[trigger] ranks[j]
        && suits[i] == suits[j]) by {
        assert(cards[i].valid() && cards[j].valid());
        assert(cards[i] != cards[j]);
    }
}

/// The trials that both players win.
pub open spec fn tied() -> spec_fn(GameResult) -> bool {
    |g: GameResult| g.hero_win && g.opp_win
}

/// The trials that the hero wins alone.
pub open spec fn hero_won() -> spec_fn(GameResult) -> bool {
    |g: GameResult| g.hero_win && !g.opp_win
}

/// The trials that the opponent wins alone.
pub open spec fn opp_won() -> spec_fn(GameResult) -> bool {
    |g: GameResult| !g.hero_win && g.opp_win
}

/// The trials that both players win with a hand of category `cat`.
pub open spec fn tied_with(cat: int) -> spec_fn(GameResult) -> bool {
    |g: GameResult| g.hero_win && g.opp_win && g.rank.ord() == cat
}

/// The trials that the hero (or the opponent) wins alone with a hand of category `cat`.
pub open spec fn won_with(hero_side: bool, cat: int) -> spec_fn(GameResult) -> bool {
    |g: GameResult|
        if hero_side {
            g.hero_win && !g.opp_win && g.rank.ord() == cat
        } else {
            !g.hero_win && g.opp_win && g.rank.ord() == cat
        }
}

/// In every trial somebody wins.
pub open spec fn decided(s: Seq<GameResult>) -> bool {
    forall|i: int| 0 <= i < s.len() ==> (#[trigger] s[i]).hero_win || s[i].opp_win
}

/// The nine counts of a row of categories, added up.
pub open spec fn sum9(a: Seq<u32>) -> int {
    a[0] + a[1] + a[2] + a[3] + a[4] + a[5] + a[6] + a[7] + a[8]
}

/// Where somebody wins every trial, the hero's wins, the ties and the
/// opponent's wins add up to the trials.
pub proof fn lemma_wins_and_ties(s: Seq<GameResult>)
    requires
        decided(s),
    ensures
        count_if(s, hero_won()) + count_if(s, tied()) + count_if(s, opp_won()) == s.len(),
    decreases s.len(),
{
    if s.len() > 0 {
        assert(s.last() == s[s.len() - 1]);
        assert(decided(s.drop_last())) by {
            assert forall|i: int| 0 <= i < s.drop_last().len() implies (
            #[trigger] s.drop_last()[i]).hero_win || s.drop_last()[i].opp_win by {
                assert(s.drop_last()[i] == s[i]);
            }
        }
        lemma_wins_and_ties(s.drop_last());
    }
}

/// The wins of a side by category add up to its wins, and the ties by
/// category to the ties: the winning hand is of exactly one category.
pub proof fn lemma_by_category(s: Seq<GameResult>, hero_side: bool)
    ensures
        count_if(s, won_with(hero_side, 0)) + count_if(s, won_with(hero_side, 1)) + count_if(
            s,
            won_with(hero_side, 2),
        ) + count_if(s, won_with(hero_side, 3)) + count_if(s, won_with(hero_side, 4)) + count_if(
            s,
            won_with(hero_side, 5),
        ) + count_if(s, won_with(hero_side, 6)) + count_if(s, won_with(hero_side, 7)) + count_if(
            s,
            won_with(hero_side, 8),
        ) == count_if(
            s,
            if hero_side {
                hero_won()
            } else {
                opp_won()
            },
        ),
        count_if(s, tied_with(0)) + count_if(s, tied_with(1)) + count_if(s, tied_with(2))
            + count_if(s, tied_with(3)) + count_if(s, tied_with(4)) + count_if(s, tied_with(5))
            + count_if(s, tied_with(6)) + count_if(s, tied_with(7)) + count_if(s, tied_with(8))
            == count_if(s, tied()),
    decreases s.len(),
{
    if s.len() > 0 {
        lemma_by_category(s.drop_last(), hero_side);
        assert(s.last().rank.ord() < 9);
    }
}

/// The counts are those of the answers `s`: the hero's wins, the ties, the
/// trials, and for one side how often it won, tied and lost to a winning
/// hand of each category.
#[verifier::opaque]
pub open spec fn game_counts(
    wins: u32,
    ties: u32,
    plays: u32,
    rank_wins: Seq<u32>,
    rank_ties: Seq<u32>,
    rank_lose: Seq<u32>,
    s: Seq<GameResult>,
    hero_side: bool,
) -> bool {
    &&& wins == capped(count_if(s, hero_won()))
    &&& ties == capped(count_if(s, tied()))
    &&& plays == capped(s.len())
    &&& rank_wins.len() == 9
    &&& rank_ties.len() == 9
    &&& rank_lose.len() == 9
    &&& forall|c: int|
        0 <= c < 9 ==> #[trigger] rank_wins[c] == capped(count_if(s, won_with(hero_side, c)))
    &&& forall|c: int| 0 <= c < 9 ==> #[trigger] rank_ties[c] == capped(count_if(s, tied_with(c)))
    &&& forall|c: int|
        0 <= c < 9 ==> #[trigger] rank_lose[c] == capped(count_if(s, won_with(!hero_side, c)))
}

/// Counts of what a game answered over a run of trials.
pub struct GameCounters {
    pub wins: u32,
    pub ties: u32,
    pub plays: u32,
    pub rank_wins: [u32; 9],
    pub rank_ties: [u32; 9],
    pub rank_lose: [u32; 9],
    pub hero_side: bool,
    pub seen: Ghost<Seq<GameResult>>,
}

impl GameCounters {
    /// The counters hold the counts of the answers seen.
    pub open spec fn wf(&self) -> bool {
        game_counts(
            self.wins,
            self.ties,
            self.plays,
            self.rank_wins@,
            self.rank_ties@,
            self.rank_lose@,
            self.seen@,
            self.hero_side,
        )
    }

    /// Counters that have seen nothing.
    pub fn new(hero_side: bool) -> (c: GameCounters)
        ensures
            c.wf(),
            c.seen@ == Seq::<GameResult>::empty(),
            c.hero_side == hero_side,
    {
        let c = GameCounters {
            wins: 0,
            ties: 0,
            plays: 0,
            rank_wins: [0u32;9],
            rank_ties: [0u32;9],
            rank_lose: [0u32;9],
            hero_side,
            seen: Ghost(Seq::empty()),
        };
        proof {
            reveal(game_counts);
        }
        c
    }

    /// Counts one more answer of the game, whatever it is. A trial that both
    /// win is a tie; one that the hero wins alone is a win; every other one
    /// counts as a trial only, or as a win of the opponent where it is one.
    pub fn record(&mut self, g: GameResult)
        requires
            old(self).wf(),
        ensures
            final(self).wf(),
            final(self).hero_side == old(self).hero_side,
            final(self).seen@ == old(self).seen@.push(g),
    {
        let ghost s = self.seen@;
        let ghost side = self.hero_side;
        let ghost other = !self.hero_side;
        proof {
            reveal(game_counts);
            lemma_count_push(s, g, hero_won());
            lemma_count_push(s, g, tied());
            assert forall|c: int| 0 <= c < 9 implies count_if(
                s.push(g),
                #[trigger] won_with(side, c),
            ) == count_if(s, won_with(side, c)) + if won_with(side, c)(g) {
                1nat
            } else {
                0nat
            } by {
                lemma_count_push(s, g, won_with(side, c));
            }
            assert forall|c: int| 0 <= c < 9 implies count_if(
                s.push(g),
                #[trigger] won_with(other, c),
            ) == count_if(s, won_with(other, c)) + if won_with(other, c)(g) {
                1nat
            } else {
                0nat
            } by {
                lemma_count_push(s, g, won_with(other, c));
            }
            assert forall|c: int| 0 <= c < 9 implies count_if(s.push(g), #[trigger] tied_with(c))
                == count_if(s, tied_with(c)) + if tied_with(c)(g) {
                1nat
            } else {
                0nat
            } by {
                lemma_count_push(s, g, tied_with(c));
            }
        }
        let cat = g.rank.index() as usize;
        self.plays = bump(self.plays);
        if g.hero_win && g.opp_win {
            self.ties = bump(self.ties);
            let n = bump(self.rank_ties[cat]);
            self.rank_ties[cat] = n;
        } else if g.hero_win {
            self.wins = bump(self.wins);
            if self.hero_side {
                let n = bump(self.rank_wins[cat]);
                self.rank_wins[cat] = n;
            } else {
                let n = bump(self.rank_lose[cat]);
                self.rank_lose[cat] = n;
            }
        } else if g.opp_win {
            if self.hero_side {
                let n = bump(self.rank_lose[cat]);
                self.rank_lose[cat] = n;
            } else {
                let n = bump(self.rank_wins[cat]);
                self.rank_wins[cat] = n;
            }
        }
        self.seen = Ghost(s.push(g));
    }
}

/// The answers of the games against the first `k` opponents, one after the other.
pub open spec fn flat(games: Seq<Seq<GameResult>>, k: nat) -> Seq<GameResult>
    decreases k,
{
    if k == 0 {
        Seq::empty()
    } else {
        flat(games, (k - 1) as nat) + games[k - 1]
    }
}

/// A row of equity: the numbers of the opponent's two cards (the smaller
/// first), the hero's wins, the ties and the trials.
pub type EquityRow = (u32, u32, u32, u32, u32);

/// The row counts the answers `s` of the games against one opponent, one
/// for each trial, in each of which somebody wins: the trials that are no
/// win of the hero and no tie are wins of the opponent.
pub open spec fn equity_row(row: EquityRow, opp: (Card, Card), trials: nat, s: Seq<GameResult>) -> bool {
    &&& s.len() == trials
    &&& decided(s)
    &&& (row.0, row.1) == code_pair(opp)
    &&& row.2 == count_if(s, hero_won())
    &&& row.3 == count_if(s, tied())
    &&& row.4 == trials
    &&& row.4 - row.2 - row.3 == count_if(s, opp_won())
}

/// The rows are counts of the answers `games`, one run of answers for each
/// opponent: a row for each opponent, then the hero's row over all answers.
pub open spec fn equity_rows(
    rows: Seq<EquityRow>,
    m: Matchup,
    trials: nat,
    games: Seq<Seq<GameResult>>,
) -> bool {
    let n = m.opponents.len();
    let all = flat(games, n);
    &&& rows.len() == n + 1
    &&& games.len() == n
    &&& forall|k: int|
        0 <= k < n ==> equity_row(#[trigger] rows[k], m.opponents[k], trials, games[k])
    &&& rows[n as int].0 == HERO_ROW
    &&& rows[n as int].1 == HERO_ROW
    &&& rows[n as int].2 == capped(count_if(all, hero_won()))
    &&& rows[n as int].3 == capped(count_if(all, tied()))
    &&& rows[n as int].4 == capped(all.len())
}

/// The rows count some answers of the games: as many for each opponent as
/// there are trials, whatever the answers are.
pub open spec fn counts_some_games(rows: Seq<EquityRow>, m: Matchup, trials: nat) -> bool {
    exists|games: Seq<Seq<GameResult>>| equity_rows(rows, m, trials, games)
}

/// What the equity simulation answers: the message of the error where the
/// texts spell no matchup; else rows that count some answers of the games,
/// as many for each opponent as there are trials.
pub open spec fn equity_answer(
    hero: Seq<char>,
    board: Seq<char>,
    list: Seq<char>,
    trials: u32,
    r: Result<Vec<EquityRow>, String>,
) -> bool {
    match matchup_of(hero, board, list) {
        Err(e) => r matches Err(msg) && msg@ == e.text(),
        Ok(m) => r matches Ok(rows) && counts_some_games(rows@, m, trials_run(trials)),
    }
}

/// The counts of a row are those of the answers `s`.
pub open spec fn game_row_counts(row: StatsRow, s: Seq<GameResult>, hero_side: bool) -> bool {
    game_counts(row.2, row.3, row.4, row.5@, row.6@, row.7@, s, hero_side)
}

/// The row counts the answers `s` of the games against one opponent, one
/// for each trial, in each of which somebody wins, with the categories by
/// which the opponent won, tied and lost: the three rows of categories add
/// up to the opponent's wins, the ties and the hero's wins, and so to the trials.
pub open spec fn ranked_row(row: StatsRow, opp: (Card, Card), trials: nat, s: Seq<GameResult>) -> bool {
    &&& s.len() == trials
    &&& decided(s)
    &&& (row.0, row.1) == code_pair(opp)
    &&& game_row_counts(row, s, false)
    &&& row.2 == count_if(s, hero_won())
    &&& row.3 == count_if(s, tied())
    &&& row.4 == trials
    &&& row.4 - row.2 - row.3 == count_if(s, opp_won())
    &&& sum9(row.5@) == row.4 - row.2 - row.3
    &&& sum9(row.6@) == row.3
    &&& sum9(row.7@) == row.2
}

/// The rows are counts of the answers `games`: a row for each opponent
/// with the categories by which it won, tied and lost; then the hero's row
/// over all answers.
pub open spec fn ranked_rows(
    rows: Seq<StatsRow>,
    m: Matchup,
    trials: nat,
    games: Seq<Seq<GameResult>>,
) -> bool {
    let n = m.opponents.len();
    &&& rows.len() == n + 1
    &&& games.len() == n
    &&& forall|k: int|
        0 <= k < n ==> ranked_row(#[trigger] rows[k], m.opponents[k], trials, games[k])
    &&& rows[n as int].0 == HERO_ROW
    &&& rows[n as int].1 == HERO_ROW
    &&& game_row_counts(rows[n as int], flat(games, n), true)
}

/// The rows count some answers of the games: as many for each opponent as
/// there are trials, whatever the answers are.
pub open spec fn ranks_some_games(rows: Seq<StatsRow>, m: Matchup, trials: nat) -> bool {
    exists|games: Seq<Seq<GameResult>>| ranked_rows(rows, m, trials, games)
}

/// What the ranked simulation answers.
pub open spec fn ranked_answer(
    hero: Seq<char>,
    board: Seq<char>,
    list: Seq<char>,
    trials: u32,
    r: Result<Vec<StatsRow>, String>,
) -> bool {
    match matchup_of(hero, board, list) {
        Err(e) => r matches Err(msg) && msg@ == e.text(),
        Ok(m) => r matches Ok(rows) && ranks_some_games(rows@, m, trials_run(trials)),
    }
}

/// A player's cards in a game: the two of the hand, then the known board.
pub fn game_cards(hand: &[Card; 2], board: &[Card]) -> (cards: Vec<Card>)
    ensures
        cards@ == seq![hand@[0], hand@[1]] + board@,
{
    let mut cards: Vec<Card> = Vec::new();
    cards.push(hand[0]);
    cards.push(hand[1]);
    let mut i: usize = 0;
    while i < board.len()
        invariant
            i <= board@.len(),
            cards@ == seq![hand@[0], hand@[1]] + board@.subrange(0, i as int),
        decreases board@.len() - i,
    {
        cards.push(board[i]);
        i += 1;
    }
    proof {
        assert(board@.subrange(0, board@.len() as int) =~= board@);
    }
    cards
}

/// Plays the trials of one game, counting for the opponent's row and for
/// the hero's, and reporting progress after each trial.
fn run_game<R: Reporter>(
    game: &mut MonteCarloGame,
    trials: u32,
    hero_counts: &mut GameCounters,
    run: &mut Run,
    sink: &mut R,
) -> (counts: GameCounters)
    requires
        old(hero_counts).wf(),
        old(hero_counts).hero_side,
        old(run).follows(old(sink)),
    ensures
        counts.wf(),
        !counts.hero_side,
        counts.seen@.len() == trials,
        decided(counts.seen@),
        final(hero_counts).wf(),
        final(hero_counts).hero_side,
        final(hero_counts).seen@ == old(hero_counts).seen@ + counts.seen@,
        final(run).follows(final(sink)),
        final(run).steps() == old(run).steps() + trials,
        final(run).base() == old(run).base(),
        final(run).total() == old(run).total(),
{
    let ghost before = hero_counts.seen@;
    let mut counts = GameCounters::new(false);
    let mut t: u32 = 0;
    proof {
        assert(before + counts.seen@ =~= before);
    }
    while t < trials
        invariant
            t <= trials,
            run.follows(sink),
            run.steps() == old(run).steps() + t,
            run.base() == old(run).base(),
            run.total() == old(run).total(),
            counts.wf(),
            !counts.hero_side,
            counts.seen@.len() == t,
            decided(counts.seen@),
            hero_counts.wf(),
            hero_counts.hero_side,
            hero_counts.seen@ == before + counts.seen@,
        decreases trials - t,
    {
        let ghost seen = counts.seen@;
        let g = play_once(game);
        counts.record(g);
        hero_counts.record(g);
        proof {
            assert((before + seen).push(g) =~= before + seen.push(g));
        }
        run.step(sink);
        t += 1;
    }
    counts
}

/// The rows with the categories left out.
pub fn equity_only(rows: &Vec<StatsRow>) -> (out: Vec<EquityRow>)
    ensures
        out@.len() == rows@.len(),
        forall|i: int|
            0 <= i < rows@.len() ==> (#[trigger] out@[i]) == (
                rows@[i].0,
                rows@[i].1,
                rows@[i].2,
                rows@[i].3,
                rows@[i].4,
            ),
{
    let mut out: Vec<EquityRow> = Vec::new();
    let mut i: usize = 0;
    while i < rows.len()
        invariant
            i <= rows@.len(),
            out@.len() == i,
            forall|j: int|
                0 <= j < i ==> (#[trigger] out@[j]) == (
                    rows@[j].0,
                    rows@[j].1,
                    rows@[j].2,
                    rows@[j].3,
                    rows@[j].4,
                ),
        decreases rows@.len() - i,
    {
        let row = rows[i];
        out.push((row.0, row.1, row.2, row.3, row.4));
        i += 1;
    }
    out
}

/// The hero against each hand of a list, each trial played by a game of
/// `rs_poker`; with the categories of the winning hands and a report of
/// progress. The seed is not used: the game deals at random.
pub fn simulate_vs_list_with_ranks_monte_carlo_inner<R: Reporter>(
    hero_hand_str: &str,
    board_str: &str,
    compare_list: &str,
    trials: u32,
    seed: u64,
    sink: &mut R,
) -> (r: Result<Vec<StatsRow>, String>)
    requires
        old(sink).ready(),
    ensures
        ranked_answer(hero_hand_str@, board_str@, compare_list@, trials, r),
        final(sink).ready(),
        vs_list_reports(
            hero_hand_str@,
            board_str@,
            compare_list@,
            trials,
            old(sink).reported(),
            final(sink).reported(),
        ),
{
    let (hero, board, opponents) = match read_matchup(hero_hand_str, board_str, compare_list) {
        Ok(got) => got,
        Err(e) => {
            return Err(e.message());
        },
    };
    let ghost m = Matchup {
        hero: hand_pair(hero),
        board: board@,
        opponents: hand_pairs(opponents@),
    };
    let ghost asked = trials;
    let trials: u32 = if trials == 0 {
        1
    } else {
        trials
    };
    let ghost tn = trials as nat;
    let mut run = Run::start(opponents.len(), trials, sink);
    proof {
        assert(0 * tn == 0) by (nonlinear_arith);
    }
    let hero_cards = game_cards(&hero, board.as_slice());
    let hero_outside = outside_cards(hero_cards.as_slice());
    let mut rows: Vec<StatsRow> = Vec::new();
    let mut hero_counts = GameCounters::new(true);
    let ghost mut games: Seq<Seq<GameResult>> = Seq::empty();
    let mut k: usize = 0;
    while k < opponents.len()
        invariant
            k <= opponents@.len(),
            tn == trials,
            m == (Matchup { hero: hand_pair(hero), board: board@, opponents: hand_pairs(opponents@) }),
            board@.len() <= 5,
            hero_outside.0@.len() <= 7,
            hero_outside.0@.len() == hero_outside.1@.len(),
            run.follows(sink),
            run.steps() == k * tn,
            run.base() == old(sink).reported(),
            run.total() == work_units(opponents@.len(), tn),
            hero_counts.wf(),
            hero_counts.hero_side,
            games.len() == k,
            hero_counts.seen@ == flat(games, k as nat),
            rows@.len() == k,
            forall|j: int|
                0 <= j < k ==> ranked_row(#[trigger] rows@[j], m.opponents[j], tn, games[j]),
        decreases opponents@.len() - k,
    {
        let opp = opponents[k];
        proof {
            assert(m.opponents[k as int] == hand_pair(opp));
            assert(k * tn + tn == (k + 1) * tn) by (nonlinear_arith);
        }
        let opp_cards = game_cards(&opp, board.as_slice());
        let opp_outside = outside_cards(opp_cards.as_slice());
        let mut game = match new_game(
            hero_outside.0.as_slice(),
            hero_outside.1.as_slice(),
            opp_outside.0.as_slice(),
            opp_outside.1.as_slice(),
        ) {
            Ok(g) => g,
            Err(_) => {
                return Err(SimError::Game.message());
            },
        };
        let counts = run_game(
            &mut game,
            trials,
            &mut hero_counts,
            &mut run,
            sink,
        );
        let pair = decode_hand_pair(&opp);
        let row: StatsRow = (
            pair.0,
            pair.1,
            counts.wins,
            counts.ties,
            counts.plays,
            counts.rank_wins,
            counts.rank_ties,
            counts.rank_lose,
        );
        proof {
            let seen = counts.seen@;
            reveal(game_counts);
            lemma_wins_and_ties(seen);
            lemma_by_category(seen, false);
            lemma_by_category(seen, true);
            lemma_count_bound(seen, hero_won());
            lemma_count_bound(seen, tied());
            lemma_count_bound(seen, opp_won());
            assert forall|c: int| 0 <= c < 9 implies row.5@[c] == count_if(
                seen,
                #[trigger] won_with(false, c),
            ) by {
                lemma_count_bound(seen, won_with(false, c));
            }
            assert forall|c: int| 0 <= c < 9 implies row.7@[c] == count_if(
                seen,
                #[trigger] won_with(true, c),
            ) by {
                lemma_count_bound(seen, won_with(true, c));
            }
            assert forall|c: int| 0 <= c < 9 implies row.6@[c] == count_if(
                seen,
                #[trigger] tied_with(c),
            ) by {
                lemma_count_bound(seen, tied_with(c));
            }
            assert(game_row_counts(row, seen, false));
            assert(ranked_row(row, hand_pair(opp), tn, seen));
        }
        let ghost old_rows = rows@;
        let ghost old_games = games;
        rows.push(row);
        proof {
            games = old_games.push(counts.seen@);
            lemma_flat_prefix(old_games, games, k as nat);
            assert(flat(games, (k + 1) as nat) == flat(games, k as nat) + games[k as int]);
            assert forall|j: int| 0 <= j < k + 1 implies ranked_row(
                #[trigger] rows@[j],
                m.opponents[j],
                tn,
                games[j],
            ) by {
                if j < k {
                    assert(rows@[j] == old_rows[j]);
                    assert(games[j] == old_games[j]);
                } else {
                    assert(rows@[j] == row);
                    assert(games[j] == counts.seen@);
                    assert(m.opponents[j] == hand_pair(opp));
                }
            }
        }
        k += 1;
    }
    let hero_row: StatsRow = (
        HERO_ROW,
        HERO_ROW,
        hero_counts.wins,
        hero_counts.ties,
        hero_counts.plays,
        hero_counts.rank_wins,
        hero_counts.rank_ties,
        hero_counts.rank_lose,
    );
    rows.push(hero_row);
    run.finish(sink);
    proof {
        assert(m.opponents.len() == opponents@.len());
        assert(tn == trials_run(asked));
        assert(matchup_of(hero_hand_str@, board_str@, compare_list@) == Ok::<Matchup, SimError>(m));
        assert(ranked_rows(rows@, m, trials_run(asked), games));
        assert(ranks_some_games(rows@, m, trials_run(asked)));
    }
    Ok(rows)
}

/// The answers of the first `k` games do not change where later games are added.
pub proof fn lemma_flat_prefix(a: Seq<Seq<GameResult>>, b: Seq<Seq<GameResult>>, k: nat)
    requires
        k <= a.len(),
        k <= b.len(),
        forall|j: int| 0 <= j < k ==> a[j] == b[j],
    ensures
        flat(a, k) == flat(b, k),
    decreases k,
{
    if k > 0 {
        lemma_flat_prefix(a, b, (k - 1) as nat);
    }
}

/// The hero against each hand of a list, each trial played by a game of
/// `rs_poker`, with the categories of the winning hands.
pub fn simulate_vs_list_with_ranks_monte_carlo(
    hero_hand_str: &str,
    board_str: &str,
    compare_list: &str,
    trials: u32,
    seed: u64,
) -> (r: Result<Vec<StatsRow>, String>)
    ensures
        ranked_answer(hero_hand_str@, board_str@, compare_list@, trials, r),
{
    let mut sink = Silent::new();
    simulate_vs_list_with_ranks_monte_carlo_inner(
        hero_hand_str,
        board_str,
        compare_list,
        trials,
        seed,
        &mut sink,
    )
}

/// The same with a report of progress.
pub fn simulate_vs_list_with_ranks_with_progress<F: FnMut(u32)>(
    hero_hand_str: &str,
    board_str: &str,
    compare_list: &str,
    trials: u32,
    seed: u64,
    progress: Option<F>,
) -> (r: Result<Vec<StatsRow>, String>)
    requires
        takes_percent(progress),
    ensures
        ranked_answer(hero_hand_str@, board_str@, compare_list@, trials, r),
{
    let mut sink = Callback::new(progress);
    simulate_vs_list_with_ranks_monte_carlo_inner(
        hero_hand_str,
        board_str,
        compare_list,
        trials,
        seed,
        &mut sink,
    )
}

/// The hero against each hand of a list, each trial played by a game of
/// `rs_poker`: wins, ties and trials, with a report of progress.
pub fn simulate_vs_list_equity_inner<R: Reporter>(
    hero_hand_str: &str,
    board_str: &str,
    compare_list: &str,
    trials: u32,
    seed: u64,
    sink: &mut R,
) -> (r: Result<Vec<EquityRow>, String>)
    requires
        old(sink).ready(),
    ensures
        equity_answer(hero_hand_str@, board_str@, compare_list@, trials, r),
        final(sink).ready(),
        vs_list_reports(
            hero_hand_str@,
            board_str@,
            compare_list@,
            trials,
            old(sink).reported(),
            final(sink).reported(),
        ),
{
    match simulate_vs_list_with_ranks_monte_carlo_inner(
        hero_hand_str,
        board_str,
        compare_list,
        trials,
        seed,
        sink,
    ) {
        Err(msg) => Err(msg),
        Ok(rows) => {
            let out = equity_only(&rows);
            proof {
                let m = matchup_of(hero_hand_str@, board_str@, compare_list@)->Ok_0;
                let tn = trials_run(trials);
                let games = choose|games: Seq<Seq<GameResult>>| ranked_rows(rows@, m, tn, games);
                reveal(game_counts);
                assert forall|k: int| 0 <= k < m.opponents.len() implies equity_row(
                    #[trigger] out@[k],
                    m.opponents[k],
                    tn,
                    games[k],
                ) by {
                    assert(ranked_row(rows@[k], m.opponents[k], tn, games[k]));
                }
                assert(equity_rows(out@, m, trials_run(trials), games));
                assert(counts_some_games(out@, m, trials_run(trials)));
            }
            Ok(out)
        },
    }
}

/// The hero against each hand of a list: wins, ties and trials for each
/// opponent, then for the hero over all of them.
pub fn simulate_vs_list_equity(
    hero_hand_str: &str,
    board_str: &str,
    compare_list: &str,
    trials: u32,
    seed: u64,
) -> (r: Result<Vec<EquityRow>, String>)
    ensures
        equity_answer(hero_hand_str@, board_str@, compare_list@, trials, r),
{
    let mut sink = Silent::new();
    simulate_vs_list_equity_inner(
        hero_hand_str,
        board_str,
        compare_list,
        trials,
        seed,
        &mut sink,
    )
}

/// The same with a report of progress.
pub fn simulate_vs_list_equity_with_progress<F: FnMut(u32)>(
    hero_hand_str: &str,
    board_str: &str,
    compare_list: &str,
    trials: u32,
    seed: u64,
    progress: Option<F>,
) -> (r: Result<Vec<EquityRow>, String>)
    requires
        takes_percent(progress),
    ensures
        equity_answer(hero_hand_str@, board_str@, compare_list@, trials, r),
{
    let mut sink = Callback::new(progress);
    simulate_vs_list_equity_inner(
        hero_hand_str,
        board_str,
        compare_list,
        trials,
        seed,
        &mut sink,
    )
}


/// The category that `rs_poker` finds for hand `h` in a round that starts
/// from `start`: the hand's two cards and the board completed for it.
pub open spec fn outside_deal_category(l: Lineup, start: u64, h: nat) -> int {
    let cards = seven(
        l.hands[h as int],
        full_board(
            l.board,
            shuffled(hand_deck(l.board, l.hands[h as int]), deal_state(l, start, h)).0,
        ),
    );
    outside_category(ranks_of(cards), suits_of(cards))
}

/// In how many of the first `n` rounds `rs_poker` finds category `cat` for hand `h`.
pub open spec fn outside_tally(l: Lineup, seed: u64, h: nat, cat: int, n: nat) -> nat
    decreases n,
{
    if n == 0 {
        0
    } else {
        outside_tally(l, seed, h, cat, (n - 1) as nat) + if outside_deal_category(
            l,
            round_start(l, seed, (n - 1) as nat),
            h,
        ) == cat {
            1nat
        } else {
            0nat
        }
    }
}

/// A category is not found for a hand more often than there are rounds.
pub proof fn lemma_outside_tally_bound(l: Lineup, seed: u64, h: nat, cat: int, n: nat)
    ensures
        outside_tally(l, seed, h, cat, n) <= n,
    decreases n,
{
    if n > 0 {
        lemma_outside_tally_bound(l, seed, h, cat, (n - 1) as nat);
    }
}

/// The counts are those of `n` rounds of the lineup, the categories found by `rs_poker`.
pub open spec fn outside_distribution(counts: Seq<[u32; 9]>, l: Lineup, seed: u64, n: nat) -> bool {
    &&& counts.len() == l.hands.len()
    &&& forall|h: int, c: int|
        0 <= h < counts.len() && 0 <= c < 9 ==> (#[trigger] counts[h]@[c]) == outside_tally(
            l,
            seed,
            h as nat,
            c,
            n,
        )
}

/// What the distribution answers to two texts, a number of trials and a
/// seed; the board has to hold at least three cards.
pub open spec fn outside_distribution_answer(
    hands: Seq<char>,
    board: Seq<char>,
    trials: u32,
    seed: u64,
    r: Result<Vec<[u32; 9]>, String>,
) -> bool {
    match lineup_of(hands, board, 3) {
        Err(e) => r matches Err(msg) && msg@ == e.text(),
        Ok(l) => r matches Ok(counts) && outside_distribution(counts@, l, seed, rounds_run(trials)),
    }
}

/// The same texts, trials and seed give the same distribution, as far as
/// `rs_poker` ranks the same cards alike.
pub proof fn lemma_outside_distribution_deterministic(
    hands: Seq<char>,
    board: Seq<char>,
    trials: u32,
    seed: u64,
    r1: Result<Vec<[u32; 9]>, String>,
    r2: Result<Vec<[u32; 9]>, String>,
)
    requires
        outside_distribution_answer(hands, board, trials, seed, r1),
        outside_distribution_answer(hands, board, trials, seed, r2),
    ensures
        r1 is Ok == r2 is Ok,
        r1 is Err ==> r1->Err_0@ == r2->Err_0@,
        r1 is Ok ==> r1->Ok_0@.len() == r2->Ok_0@.len() && forall|h: int, c: int|
            0 <= h < r1->Ok_0@.len() && 0 <= c < 9 ==> (#[trigger] r1->Ok_0@[h]@[c]) == r2->Ok_0@[h]@[c],
{
    if r1 is Ok {
        let c1 = r1->Ok_0@;
        let c2 = r2->Ok_0@;
        let l = lineup_of(hands, board, 3)->Ok_0;
        assert forall|h: int, c: int| 0 <= h < c1.len() && 0 <= c < 9 implies (#[trigger] c1[h]@[c])
            == c2[h]@[c] by {
            assert(c2[h]@[c] == outside_tally(l, seed, h as nat, c, rounds_run(trials)));
        }
    }
}

/// Plays one round: a deal for each hand in turn, each counted under the
/// category that `rs_poker` finds for it; progress is reported after each deal.
pub fn play_round_outside<R: Reporter>(
    hands: &[[Card; 2]],
    board: &[Card],
    rng: &mut Lcg64,
    counts: &mut Vec<[u32; 9]>,
    played: u32,
    run: &mut Run,
    sink: &mut R,
)
    requires
        board@.len() <= 5,
        all_valid(board@),
        !has_duplicate(board@),
        forall|i: int| 0 <= i < hands@.len() ==> all_valid(#[trigger] hands@[i]@),
        hands_error(board@, hand_pairs(hands@), 0) is None,
        old(counts)@.len() == hands@.len(),
        played < u32::MAX,
        forall|h: int, c: int|
            0 <= h < hands@.len() && 0 <= c < 9 ==> (#[trigger] old(counts)@[h]@[c]) <= played,
        old(run).follows(old(sink)),
    ensures
        ({
            let l = Lineup { hands: hand_pairs(hands@), board: board@ };
            let start = old(rng).state();
            &&& final(rng).state() == deal_state(l, start, hands@.len() as nat)
            &&& final(counts)@.len() == hands@.len()
            &&& forall|h: int, c: int|
                0 <= h < hands@.len() && 0 <= c < 9 ==> (#[trigger] final(counts)@[h]@[c]) == old(
                    counts,
                )@[h]@[c] + if outside_deal_category(l, start, h as nat) == c {
                    1int
                } else {
                    0int
                }
        }),
        final(run).follows(final(sink)),
        final(run).steps() == old(run).steps() + hands@.len(),
        final(run).base() == old(run).base(),
        final(run).total() == old(run).total(),
{
    let ghost l = Lineup { hands: hand_pairs(hands@), board: board@ };
    let ghost start = rng.state();
    let mut idx: usize = 0;
    while idx < hands.len()
        invariant
            idx <= hands@.len(),
            l == (Lineup { hands: hand_pairs(hands@), board: board@ }),
            board@.len() <= 5,
            all_valid(board@),
            !has_duplicate(board@),
            forall|i: int| 0 <= i < hands@.len() ==> all_valid(#[trigger] hands@[i]@),
            hands_error(board@, hand_pairs(hands@), 0) is None,
            counts@.len() == hands@.len(),
            played < u32::MAX,
            run.follows(sink),
            run.steps() == old(run).steps() + idx,
            run.base() == old(run).base(),
            run.total() == old(run).total(),
            rng.state() == deal_state(l, start, idx as nat),
            forall|h: int, c: int|
                idx <= h < hands@.len() && 0 <= c < 9 ==> (#[trigger] counts@[h]@[c]) == old(
                    counts,
                )@[h]@[c],
            forall|h: int, c: int|
                0 <= h < hands@.len() && 0 <= c < 9 ==> (#[trigger] old(counts)@[h]@[c]) <= played,
            forall|h: int, c: int|
                0 <= h < idx && 0 <= c < 9 ==> (#[trigger] counts@[h]@[c]) == old(counts)@[h]@[c]
                    + if outside_deal_category(l, start, h as nat) == c {
                    1int
                } else {
                    0int
                },
        decreases hands@.len() - idx,
    {
        let hand = hands[idx];
        proof {
            assert(l.hands[idx as int] == hand_pair(hand));
            lemma_hands_fit(board@, hand_pairs(hands@), 0, idx as int);
            assert(all_valid(hands@[idx as int]@));
        }
        let full = deal_for_hand(&hand, board, rng);
        let cards = [hand[0], hand[1], full[0], full[1], full[2], full[3], full[4]];
        proof {
            assert(cards@ =~= seven(hand_pair(hand), full@));
            assert forall|i: int| 0 <= i < 7 implies (#[trigger] cards@[i]).valid() by {
                if i >= 2 {
                    assert(cards@[i] == full@[i - 2]);
                } else {
                    assert(cards@[i] == hand@[i]);
                }
            }
            lemma_seven_distinct(cards@);
        }
        let outside = outside_cards(cards.as_slice());
        let cat = outside_rank(outside.0.as_slice(), outside.1.as_slice()).index() as usize;
        let mut row = counts[idx];
        assert(row@[cat as int] == old(counts)@[idx as int]@[cat as int]);
        row[cat] = row[cat] + 1;
        counts[idx] = row;
        run.step(sink);
        idx += 1;
    }
}

/// How often each hand of a list ends in each category, as `rs_poker` ranks
/// the hands, with a report of progress.
pub fn simulate_rank_distribution_inner<R: Reporter>(
    hands_str: &str,
    board_str: &str,
    trials: u32,
    seed: u64,
    sink: &mut R,
) -> (r: Result<Vec<[u32; 9]>, String>)
    requires
        old(sink).ready(),
    ensures
        outside_distribution_answer(hands_str@, board_str@, trials, seed, r),
        final(sink).ready(),
        match lineup_of(hands_str@, board_str@, 3) {
            Err(e) => final(sink).reported() == old(sink).reported(),
            Ok(l) => final(sink).reported() == old(sink).reported() + reports_of_run(
                work_units(l.hands.len(), rounds_run(trials)),
                l.hands.len() * rounds_run(trials),
            ),
        },
{
    let (hands, board) = match read_lineup(hands_str, board_str, 3) {
        Ok(got) => got,
        Err(e) => {
            return Err(e.message());
        },
    };
    let ghost l = Lineup { hands: hand_pairs(hands@), board: board@ };
    let trials: u32 = if trials == 0 {
        1
    } else {
        trials
    };
    let mut run = Run::start(hands.len(), trials, sink);
    let ghost hn = hands@.len();
    proof {
        assert(hn * 0 == 0) by (nonlinear_arith);
        assert forall|i: int| 0 <= i < hands@.len() implies all_valid(#[trigger] hands@[i]@) by {
            assert(l.hands[i] == hand_pair(hands@[i]));
        }
    }
    let mut rng = Lcg64::new(seed);
    let mut counts: Vec<[u32; 9]> = Vec::new();
    let mut k: usize = 0;
    while k < hands.len()
        invariant
            k <= hands@.len(),
            counts@.len() == k,
            forall|h: int, c: int| 0 <= h < k && 0 <= c < 9 ==> (#[trigger] counts@[h]@[c]) == 0,
        decreases hands@.len() - k,
    {
        counts.push([0u32;9]);
        k += 1;
    }
    let mut t: u32 = 0;
    while t < trials
        invariant
            t <= trials,
            l == (Lineup { hands: hand_pairs(hands@), board: board@ }),
            board@.len() <= 5,
            all_valid(board@),
            hn == hands@.len(),
            !has_duplicate(board@),
            forall|i: int| 0 <= i < hands@.len() ==> all_valid(#[trigger] hands@[i]@),
            hands_error(board@, hand_pairs(hands@), 0) is None,
            run.follows(sink),
            run.steps() == hn * t,
            run.base() == old(sink).reported(),
            run.total() == work_units(hn, trials as nat),
            rng.state() == round_start(l, seed, t as nat),
            outside_distribution(counts@, l, seed, t as nat),
        decreases trials - t,
    {
        proof {
            assert forall|h: int, c: int| 0 <= h < hands@.len() && 0 <= c < 9 implies (
            #[trigger] counts@[h]@[c]) <= t by {
                lemma_outside_tally_bound(l, seed, h as nat, c, t as nat);
            }
            assert(hn * t + hn == hn * (t + 1)) by (nonlinear_arith);
        }
        play_round_outside(
            hands.as_slice(),
            board.as_slice(),
            &mut rng,
            &mut counts,
            t,
            &mut run,
            sink,
        );
        t += 1;
    }
    run.finish(sink);
    Ok(counts)
}

/// How often each hand of a list ends in each category, as `rs_poker` ranks
/// the hands, on a board of three to five known cards.
pub fn simulate_rank_distribution(hands_str: &str, board_str: &str, trials: u32, seed: u64) -> (r:
    Result<Vec<[u32; 9]>, String>)
    ensures
        outside_distribution_answer(hands_str@, board_str@, trials, seed, r),
{
    let mut sink = Silent::new();
    simulate_rank_distribution_inner(hands_str, board_str, trials, seed, &mut sink)
}

/// The same with a report of progress.
pub fn simulate_rank_distribution_with_progress<F: FnMut(u32)>(
    hands_str: &str,
    board_str: &str,
    trials: u32,
    seed: u64,
    progress: Option<F>,
) -> (r: Result<Vec<[u32; 9]>, String>)
    requires
        takes_percent(progress),
    ensures
        outside_distribution_answer(hands_str@, board_str@, trials, seed, r),
{
    let mut sink = Callback::new(progress);
    simulate_rank_distribution_inner(hands_str, board_str, trials, seed, &mut sink)
}

} // verus!
