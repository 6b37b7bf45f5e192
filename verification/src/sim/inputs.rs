//! What a simulation is given: the hero's hand, the board and the hands to
//! compare with, read from text and checked for cards that occur twice.

use vstd::prelude::*;
use crate::sim::card::Card;
use crate::sim::parse::{
    board_of, find_hand_problem, find_list_problem, hand_list_of, hand_of, hand_pair, hand_pairs,
    hand_problem, hands_from_chars, list_problem, parse_board, parse_hand_two, pieces,
    HandProblem,
};
use crate::sim::card::chars_of;

verus! {

/// Why a simulation turned its input down.
#[derive(Copy, Clone, Debug, PartialEq, Eq, Structural)]
pub enum SimError {
    /// The hero's text does not spell two cards.
    HeroHand,
    /// The first token of the hero's text spells no card.
    HeroCard1,
    /// The second token of the hero's text spells no card.
    HeroCard2,
    /// The board's text does not spell up to five cards.
    Board,
    /// A hand of the list does not spell two cards.
    CompareHand,
    /// The first token of a hand of the list spells no card.
    CompareCard1,
    /// The second token of a hand of the list spells no card.
    CompareCard2,
    /// The list holds no hand.
    NoCompareHands,
    /// The list holds more than eight hands.
    TooManyCompareHands,
    /// The list of hands cannot be read, or holds no hand.
    Hands,
    /// The board holds fewer than three cards.
    BoardTooShort,
    /// A card occurs twice on the board.
    DuplicateBoard,
    /// The hero's two cards are the same card.
    DuplicateHero,
    /// A card of the hero is on the board.
    HeroOverlapsBoard,
    /// The two cards of an opponent are the same card.
    DuplicateOpponent,
    /// An opponent holds a card of the hero.
    OpponentOverlapsHero,
    /// An opponent holds a card of the board.
    OpponentOverlapsBoard,
    /// The two cards of a hand are the same card.
    DuplicateHand,
    /// A hand holds a card of the board.
    HandOverlapsBoard,
    /// The game could not be set up for the hands.
    Game,
}

impl SimError {
    /// The message that goes with the error.
    pub open spec fn text(self) -> Seq<char> {
        match self {
            SimError::HeroHand => "hero hand must have 2 cards"@,
            SimError::HeroCard1 => "failed to parse hero card1"@,
            SimError::HeroCard2 => "failed to parse hero card2"@,
            SimError::Board => "failed to parse board"@,
            SimError::CompareHand => "each compare hand must have 2 cards"@,
            SimError::CompareCard1 => "failed to parse compare card1"@,
            SimError::CompareCard2 => "failed to parse compare card2"@,
            SimError::NoCompareHands => "no compare hands provided"@,
            SimError::TooManyCompareHands => "too many compare hands provided"@,
            SimError::Hands => "failed to parse hands"@,
            SimError::BoardTooShort => "board must be >=3 cards"@,
            SimError::DuplicateBoard => "duplicate cards detected in board"@,
            SimError::DuplicateHero => "duplicate cards inside hero hand"@,
            SimError::HeroOverlapsBoard => "hero overlaps board"@,
            SimError::DuplicateOpponent => "duplicate cards inside opponent hand"@,
            SimError::OpponentOverlapsHero => "opponent overlaps hero"@,
            SimError::OpponentOverlapsBoard => "opponent overlaps board"@,
            SimError::DuplicateHand => "duplicate cards inside a hand"@,
            SimError::HandOverlapsBoard => "hand overlaps board"@,
            SimError::Game => "game setup failed"@,
        }
    }

    /// The message that goes with the error.
    pub fn message(self) -> (s: String)
        ensures
            s@ == self.text(),
    {
        match self {
            SimError::HeroHand => "hero hand must have 2 cards".to_owned(),
            SimError::HeroCard1 => "failed to parse hero card1".to_owned(),
            SimError::HeroCard2 => "failed to parse hero card2".to_owned(),
            SimError::Board => "failed to parse board".to_owned(),
            SimError::CompareHand => "each compare hand must have 2 cards".to_owned(),
            SimError::CompareCard1 => "failed to parse compare card1".to_owned(),
            SimError::CompareCard2 => "failed to parse compare card2".to_owned(),
            SimError::NoCompareHands => "no compare hands provided".to_owned(),
            SimError::TooManyCompareHands => "too many compare hands provided".to_owned(),
            SimError::Hands => "failed to parse hands".to_owned(),
            SimError::BoardTooShort => "board must be >=3 cards".to_owned(),
            SimError::DuplicateBoard => "duplicate cards detected in board".to_owned(),
            SimError::DuplicateHero => "duplicate cards inside hero hand".to_owned(),
            SimError::HeroOverlapsBoard => "hero overlaps board".to_owned(),
            SimError::DuplicateOpponent => "duplicate cards inside opponent hand".to_owned(),
            SimError::OpponentOverlapsHero => "opponent overlaps hero".to_owned(),
            SimError::OpponentOverlapsBoard => "opponent overlaps board".to_owned(),
            SimError::DuplicateHand => "duplicate cards inside a hand".to_owned(),
            SimError::HandOverlapsBoard => "hand overlaps board".to_owned(),
            SimError::Game => "game setup failed".to_owned(),
        }
    }
}

/// A hero's hand, a board and the hands to compare the hero with.
pub struct Matchup {
    pub hero: (Card, Card),
    pub board: Seq<Card>,
    pub opponents: Seq<(Card, Card)>,
}

/// Some card occurs at two places.
pub open spec fn has_duplicate(cards: Seq<Card>) -> bool {
    exists|i: int, j: int| 0 <= i < j < cards.len() && cards[i] == cards[j]
}

/// No card at two places is the same as every two places holding different cards.
pub proof fn lemma_no_duplicate(cards: Seq<Card>)
    ensures
        !has_duplicate(cards) <==> cards.no_duplicates(),
{
    if !has_duplicate(cards) {
        assert forall|i: int, j: int|
            0 <= i < cards.len() && 0 <= j < cards.len() && i != j implies cards[i] != cards[j] by {
            if i < j {
                assert(!(0 <= i < j < cards.len() && cards[i] == cards[j]));
            } else {
                assert(!(0 <= j < i < cards.len() && cards[j] == cards[i]));
            }
        }
    }
}

/// One of the two cards of a hand is `c`.
pub open spec fn holds(hand: (Card, Card), c: Card) -> bool {
    hand.0 == c || hand.1 == c
}

/// What is wrong with an opponent's hand, if anything: first its two cards
/// being one card; then, for its first card and after that for its second,
/// the card being the hero's, then the card being on the board.
pub open spec fn opponent_error(hero: (Card, Card), board: Seq<Card>, opp: (Card, Card)) -> Option<
    SimError,
> {
    if opp.0 == opp.1 {
        Some(SimError::DuplicateOpponent)
    } else if holds(hero, opp.0) {
        Some(SimError::OpponentOverlapsHero)
    } else if board.contains(opp.0) {
        Some(SimError::OpponentOverlapsBoard)
    } else if holds(hero, opp.1) {
        Some(SimError::OpponentOverlapsHero)
    } else if board.contains(opp.1) {
        Some(SimError::OpponentOverlapsBoard)
    } else {
        None
    }
}

/// What is wrong with the first opponent from place `k` on that has anything wrong.
pub open spec fn opponents_error(
    hero: (Card, Card),
    board: Seq<Card>,
    opponents: Seq<(Card, Card)>,
    k: int,
) -> Option<SimError>
    decreases opponents.len() - k,
{
    if 0 <= k < opponents.len() {
        match opponent_error(hero, board, opponents[k]) {
            Some(e) => Some(e),
            None => opponents_error(hero, board, opponents, k + 1),
        }
    } else {
        None
    }
}

/// What is wrong with the cards of a matchup, if anything. The board is
/// looked at first, then the hero, then the opponents in their order.
/// Opponents may share cards with each other: each meets the hero alone.
pub open spec fn cards_error(m: Matchup) -> Option<SimError> {
    if has_duplicate(m.board) {
        Some(SimError::DuplicateBoard)
    } else if m.hero.0 == m.hero.1 {
        Some(SimError::DuplicateHero)
    } else if m.board.contains(m.hero.0) || m.board.contains(m.hero.1) {
        Some(SimError::HeroOverlapsBoard)
    } else {
        opponents_error(m.hero, m.board, m.opponents, 0)
    }
}

/// The most opponents that a hero meets in one simulation.
pub const MAX_OPPONENTS: usize = 8;

/// The matchup that three texts spell, or why they spell none.
pub open spec fn matchup_of(hero: Seq<char>, board: Seq<char>, list: Seq<char>) -> Result<
    Matchup,
    SimError,
> {
    if hand_of(hero) is None {
        Err(SimError::HeroHand)
    } else if board_of(board) is None {
        Err(SimError::Board)
    } else if hand_list_of(list) is None {
        Err(SimError::CompareHand)
    } else if hand_list_of(list)->0.len() == 0 {
        Err(SimError::NoCompareHands)
    } else if hand_list_of(list)->0.len() > MAX_OPPONENTS {
        Err(SimError::TooManyCompareHands)
    } else {
        let m = Matchup {
            hero: hand_of(hero)->0,
            board: board_of(board)->0,
            opponents: hand_list_of(list)->0,
        };
        match cards_error(m) {
            Some(e) => Err(e),
            None => Ok(m),
        }
    }
}

/// Every card of the matchup is a card of the deck, the board has at most
/// five cards, and there are one to eight opponents.
pub open spec fn matchup_cards_valid(m: Matchup) -> bool {
    &&& m.hero.0.valid() && m.hero.1.valid()
    &&& m.board.len() <= 5
    &&& forall|i: int| 0 <= i < m.board.len() ==> (#[trigger] m.board[i]).valid()
    &&& 1 <= m.opponents.len() <= MAX_OPPONENTS
    &&& forall|i: int|
        0 <= i < m.opponents.len() ==> (#[trigger] m.opponents[i]).0.valid()
            && m.opponents[i].1.valid()
}

/// Whether some card occurs twice among `cards`.
pub fn any_duplicate(cards: &[Card]) -> (r: bool)
    ensures
        r == has_duplicate(cards@),
{
    let n = cards.len();
    let mut j: usize = 0;
    while j < n
        invariant
            n == cards@.len(),
            j <= n,
            forall|a: int, b: int| 0 <= a < b < j ==> cards@[a] != cards@[b],
        decreases n - j,
    {
        let mut i: usize = 0;
        while i < j
            invariant
                n == cards@.len(),
                i <= j < n,
                forall|a: int| 0 <= a < i ==> cards@[a] != cards@[j as int],
            decreases j - i,
        {
            if cards[i].rank == cards[j].rank && cards[i].suit == cards[j].suit {
                assert(cards@[i as int] == cards@[j as int]);
                return true;
            }
            i += 1;
        }
        j += 1;
    }
    false
}

/// Whether two cards are the same card.
pub fn same_card(a: Card, b: Card) -> (r: bool)
    ensures
        r == (a == b),
{
    a.rank == b.rank && a.suit == b.suit
}

/// Checks an opponent's hand against the hero and the board.
pub fn check_opponent(hero: &[Card; 2], board: &[Card], opp: &[Card; 2]) -> (r: Option<SimError>)
    ensures
        r == opponent_error(hand_pair(*hero), board@, hand_pair(*opp)),
{
    if same_card(opp[0], opp[1]) {
        return Some(SimError::DuplicateOpponent);
    }
    let mut k: usize = 0;
    while k < 2
        invariant
            k <= 2,
            opp@[0] != opp@[1],
            forall|i: int|
                0 <= i < k ==> !holds(hand_pair(*hero), #[trigger] opp@[i]) && !board@.contains(
                    opp@[i],
                ),
        decreases 2 - k,
    {
        let c = opp[k];
        if same_card(hero[0], c) || same_card(hero[1], c) {
            return Some(SimError::OpponentOverlapsHero);
        }
        if crate::sim::deck::holds_card(board, c) {
            return Some(SimError::OpponentOverlapsBoard);
        }
        k += 1;
    }
    None
}

/// Checks the cards of a matchup: nothing twice on the board, nothing twice
/// in a hand, nothing shared by the hero and the board, nor by an opponent
/// and the hero or the board.
pub fn validate_inputs(hero: &[Card; 2], board: &[Card], opponents: &[[Card; 2]]) -> (r: Result<
    (),
    SimError,
>)
    ensures
        r == match cards_error(
            Matchup { hero: hand_pair(*hero), board: board@, opponents: hand_pairs(opponents@) },
        ) {
            Some(e) => Err::<(), SimError>(e),
            None => Ok(()),
        },
{
    if any_duplicate(board) {
        return Err(SimError::DuplicateBoard);
    }
    if same_card(hero[0], hero[1]) {
        return Err(SimError::DuplicateHero);
    }
    if crate::sim::deck::holds_card(board, hero[0]) || crate::sim::deck::holds_card(
        board,
        hero[1],
    ) {
        return Err(SimError::HeroOverlapsBoard);
    }
    let ghost h = hand_pair(*hero);
    let ghost opps = hand_pairs(opponents@);
    let mut k: usize = 0;
    while k < opponents.len()
        invariant
            k <= opponents@.len(),
            h == hand_pair(*hero),
            opps == hand_pairs(opponents@),
            !has_duplicate(board@),
            h.0 != h.1,
            !board@.contains(h.0),
            !board@.contains(h.1),
            opponents_error(h, board@, opps, 0) == opponents_error(h, board@, opps, k as int),
        decreases opponents@.len() - k,
    {
        assert(opps[k as int] == hand_pair(opponents@[k as int]));
        match check_opponent(hero, board, &opponents[k]) {
            Some(e) => {
                return Err(e);
            },
            None => {},
        }
        k += 1;
    }
    Ok(())
}

/// Reads and checks the three texts of a matchup.
pub fn read_matchup(hero_hand_str: &str, board_str: &str, compare_list: &str) -> (r: Result<
    ([Card; 2], Vec<Card>, Vec<[Card; 2]>),
    SimError,
>)
    ensures
        match matchup_of(hero_hand_str@, board_str@, compare_list@) {
            Err(e) => r == Err::<([Card; 2], Vec<Card>, Vec<[Card; 2]>), SimError>(e),
            Ok(m) => r matches Ok(got) && m == (Matchup {
                hero: hand_pair(got.0),
                board: got.1@,
                opponents: hand_pairs(got.2@),
            }) && matchup_cards_valid(m) && cards_error(m) is None,
        },
{
    let hero = match parse_hand_two(hero_hand_str) {
        Some(h) => h,
        None => {
            return Err(SimError::HeroHand);
        },
    };
    let board = match parse_board(board_str) {
        Some(b) => b,
        None => {
            return Err(SimError::Board);
        },
    };
    let list = chars_of(compare_list);
    let opponents = match hands_from_chars(list.as_slice()) {
        Some(o) => o,
        None => {
            return Err(SimError::CompareHand);
        },
    };
    if opponents.len() == 0 {
        return Err(SimError::NoCompareHands);
    }
    if opponents.len() > MAX_OPPONENTS {
        return Err(SimError::TooManyCompareHands);
    }
    match validate_inputs(&hero, board.as_slice(), opponents.as_slice()) {
        Err(e) => {
            return Err(e);
        },
        Ok(_) => {},
    }
    proof {
        let m = Matchup { hero: hand_pair(hero), board: board@, opponents: hand_pairs(opponents@) };
        assert forall|i: int| 0 <= i < m.opponents.len() implies (#[trigger] m.opponents[i]).0.valid()
            && m.opponents[i].1.valid() by {
            assert(m.opponents[i] == hand_pair(opponents@[i]));
        }
    }
    Ok((hero, board, opponents))
}


/// The error for a hero's text that spells no hand, by what keeps it from spelling one.
pub open spec fn hero_error(problem: Option<HandProblem>) -> SimError {
    match problem {
        Some(HandProblem::First) => SimError::HeroCard1,
        Some(HandProblem::Second) => SimError::HeroCard2,
        _ => SimError::HeroHand,
    }
}

/// The error for a list with a piece that spells no hand, by what keeps the
/// first such piece from spelling one.
pub open spec fn compare_error(problem: Option<HandProblem>) -> SimError {
    match problem {
        Some(HandProblem::First) => SimError::CompareCard1,
        Some(HandProblem::Second) => SimError::CompareCard2,
        _ => SimError::CompareHand,
    }
}

/// The matchup that three texts spell, or why they spell none, telling a
/// token that spells no card from a wrong number of tokens.
pub open spec fn matchup_in_detail(hero: Seq<char>, board: Seq<char>, list: Seq<char>) -> Result<
    Matchup,
    SimError,
> {
    match matchup_of(hero, board, list) {
        Err(SimError::HeroHand) => Err(hero_error(hand_problem(hero))),
        Err(SimError::CompareHand) => Err(compare_error(list_problem(pieces(list), 0))),
        other => other,
    }
}

/// Reads and checks the three texts of a matchup, telling a token that
/// spells no card from a wrong number of tokens.
pub fn read_matchup_in_detail(hero_hand_str: &str, board_str: &str, compare_list: &str) -> (r:
    Result<([Card; 2], Vec<Card>, Vec<[Card; 2]>), SimError>)
    ensures
        match matchup_in_detail(hero_hand_str@, board_str@, compare_list@) {
            Err(e) => r == Err::<([Card; 2], Vec<Card>, Vec<[Card; 2]>), SimError>(e),
            Ok(m) => r matches Ok(got) && m == (Matchup {
                hero: hand_pair(got.0),
                board: got.1@,
                opponents: hand_pairs(got.2@),
            }) && matchup_cards_valid(m) && cards_error(m) is None,
        },
{
    match read_matchup(hero_hand_str, board_str, compare_list) {
        Ok(got) => Ok(got),
        Err(SimError::HeroHand) => {
            let text = chars_of(hero_hand_str);
            match find_hand_problem(text.as_slice()) {
                Some(HandProblem::First) => Err(SimError::HeroCard1),
                Some(HandProblem::Second) => Err(SimError::HeroCard2),
                _ => Err(SimError::HeroHand),
            }
        },
        Err(SimError::CompareHand) => {
            let text = chars_of(compare_list);
            match find_list_problem(text.as_slice()) {
                Some(HandProblem::First) => Err(SimError::CompareCard1),
                Some(HandProblem::Second) => Err(SimError::CompareCard2),
                _ => Err(SimError::CompareHand),
            }
        },
        Err(e) => Err(e),
    }
}

} // verus!
