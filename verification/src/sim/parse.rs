//! The text form of hands, lists of hands and boards.
//!
//! A hand or a board is a row of two-character card tokens. Where the text
//! holds a space the tokens are its words; where it holds none they are its
//! characters taken two at a time. A list of hands separates them by `;`.

use vstd::prelude::*;
use vstd::slice::slice_subrange;
use crate::sim::card::{card_from_chars, card_of_token, chars_of, Card};

verus! {

/// White space: the characters that separate words.
pub open spec fn is_space(c: char) -> bool {
    let v = c as u32;
    (9 <= v <= 13) || v == 0x20 || v == 0x85 || v == 0xa0 || v == 0x1680 || (0x2000 <= v
        <= 0x200a) || v == 0x2028 || v == 0x2029 || v == 0x202f || v == 0x205f || v == 0x3000
}

/// Nothing but white space, or nothing at all.
pub open spec fn all_space(s: Seq<char>) -> bool {
    forall|i: int| 0 <= i < s.len() ==> is_space(#[trigger] s[i])
}

/// Where the word that starts at `i` ends: the first place from `i` on that
/// holds white space, or the end of the text.
pub open spec fn word_end(s: Seq<char>, i: int) -> int
    decreases s.len() - i,
{
    if 0 <= i < s.len() && !is_space(s[i]) {
        word_end(s, i + 1)
    } else {
        i
    }
}

/// A word ends at or after the place it starts from, within the text, and
/// holds no white space.
pub proof fn lemma_word_end(s: Seq<char>, i: int)
    requires
        0 <= i <= s.len(),
    ensures
        i <= word_end(s, i) <= s.len(),
        i < s.len() && !is_space(s[i]) ==> i < word_end(s, i),
        word_end(s, i) < s.len() ==> is_space(s[word_end(s, i)]),
        forall|k: int| i <= k < word_end(s, i) ==> !is_space(#[trigger] s[k]),
    decreases s.len() - i,
{
    if i < s.len() && !is_space(s[i]) {
        lemma_word_end(s, i + 1);
    }
}

/// The words of the text from place `i` on.
pub open spec fn words_from(s: Seq<char>, i: int) -> Seq<Seq<char>>
    decreases s.len() - i,
{
    if 0 <= i < s.len() {
        if is_space(s[i]) {
            words_from(s, i + 1)
        } else {
            proof {
                lemma_word_end(s, i);
            }
            seq![s.subrange(i, word_end(s, i))] + words_from(s, word_end(s, i))
        }
    } else {
        Seq::empty()
    }
}

/// The words of a text: its longest runs of characters that are not white space.
pub open spec fn words(s: Seq<char>) -> Seq<Seq<char>> {
    words_from(s, 0)
}

/// The characters of a text two at a time; the last piece is one
/// character where their number is odd.
pub open spec fn pairs(s: Seq<char>) -> Seq<Seq<char>> {
    Seq::new(
        ((s.len() + 1) / 2) as nat,
        |k: int|
            s.subrange(
                2 * k,
                if 2 * k + 2 <= s.len() {
                    2 * k + 2
                } else {
                    s.len() as int
                },
            ),
    )
}

/// The card tokens of a text: its words where it holds a space, else its
/// characters two at a time.
pub open spec fn tokens(s: Seq<char>) -> Seq<Seq<char>> {
    if s.contains(' ') {
        words(s)
    } else {
        pairs(s)
    }
}

/// The hand that a text spells: exactly two tokens, each a card.
pub open spec fn hand_of(s: Seq<char>) -> Option<(Card, Card)> {
    let t = tokens(s);
    if t.len() == 2 && card_of_token(t[0]) is Some && card_of_token(t[1]) is Some {
        Some((card_of_token(t[0])->0, card_of_token(t[1])->0))
    } else {
        None
    }
}

/// What keeps a text from spelling a hand.
#[derive(Copy, Clone, Debug, PartialEq, Eq, Structural)]
pub enum HandProblem {
    /// The text has not exactly two tokens.
    Count,
    /// The first token spells no card.
    First,
    /// The second token spells no card.
    Second,
}

/// What keeps a text from spelling a hand, if anything: the number of its
/// tokens first, then its first token, then its second.
pub open spec fn hand_problem(s: Seq<char>) -> Option<HandProblem> {
    let t = tokens(s);
    if t.len() != 2 {
        Some(HandProblem::Count)
    } else if card_of_token(t[0]) is None {
        Some(HandProblem::First)
    } else if card_of_token(t[1]) is None {
        Some(HandProblem::Second)
    } else {
        None
    }
}

/// The cards that the tokens from place `k` on spell, if each spells one.
pub open spec fn cards_from(t: Seq<Seq<char>>, k: int) -> Option<Seq<Card>>
    decreases t.len() - k,
{
    if 0 <= k < t.len() {
        match (card_of_token(t[k]), cards_from(t, k + 1)) {
            (Some(c), Some(rest)) => Some(seq![c] + rest),
            _ => None,
        }
    } else {
        Some(Seq::empty())
    }
}

/// The board that a text spells: no card where the text is blank; else at
/// most five tokens, each a card.
pub open spec fn board_of(s: Seq<char>) -> Option<Seq<Card>> {
    if all_space(s) {
        Some(Seq::empty())
    } else if tokens(s).len() > 5 {
        None
    } else {
        cards_from(tokens(s), 0)
    }
}

/// Where the piece that starts at `i` ends: the first `;` from `i` on, or
/// the end of the text.
pub open spec fn piece_end(s: Seq<char>, i: int) -> int
    decreases s.len() - i,
{
    if 0 <= i < s.len() && s[i] != ';' {
        piece_end(s, i + 1)
    } else {
        i
    }
}

/// A piece ends at or after the place it starts from, within the text.
pub proof fn lemma_piece_end(s: Seq<char>, i: int)
    requires
        0 <= i <= s.len(),
    ensures
        i <= piece_end(s, i) <= s.len(),
        piece_end(s, i) < s.len() ==> s[piece_end(s, i)] == ';',
    decreases s.len() - i,
{
    if i < s.len() && s[i] != ';' {
        lemma_piece_end(s, i + 1);
    }
}

/// The pieces of the text from place `i` on.
pub open spec fn pieces_from(s: Seq<char>, i: int) -> Seq<Seq<char>>
    decreases s.len() - i,
{
    if 0 <= i < s.len() {
        proof {
            lemma_piece_end(s, i);
        }
        if piece_end(s, i) < s.len() {
            seq![s.subrange(i, piece_end(s, i))] + pieces_from(s, piece_end(s, i) + 1)
        } else {
            seq![s.subrange(i, s.len() as int)]
        }
    } else {
        seq![Seq::empty()]
    }
}

/// The pieces that `;` cuts a text into; a text without `;` is one piece.
pub open spec fn pieces(s: Seq<char>) -> Seq<Seq<char>> {
    pieces_from(s, 0)
}

/// The hands that the pieces from place `k` on spell: blank pieces count
/// for nothing, every other piece has to spell a hand.
pub open spec fn hands_from(p: Seq<Seq<char>>, k: int) -> Option<Seq<(Card, Card)>>
    decreases p.len() - k,
{
    if 0 <= k < p.len() {
        if all_space(p[k]) {
            hands_from(p, k + 1)
        } else {
            match (hand_of(p[k]), hands_from(p, k + 1)) {
                (Some(h), Some(rest)) => Some(seq![h] + rest),
                _ => None,
            }
        }
    } else {
        Some(Seq::empty())
    }
}

/// What keeps the first piece from place `k` on that is not blank and spells no hand from spelling one.
pub open spec fn list_problem(p: Seq<Seq<char>>, k: int) -> Option<HandProblem>
    decreases p.len() - k,
{
    if 0 <= k < p.len() {
        if all_space(p[k]) {
            list_problem(p, k + 1)
        } else {
            match hand_problem(p[k]) {
                Some(problem) => Some(problem),
                None => list_problem(p, k + 1),
            }
        }
    } else {
        None
    }
}

/// The hands that a list spells, if every piece that is not blank spells one.
pub open spec fn hand_list_of(s: Seq<char>) -> Option<Seq<(Card, Card)>> {
    hands_from(pieces(s), 0)
}

/// A hand as a pair of cards.
pub open spec fn hand_pair(h: [Card; 2]) -> (Card, Card) {
    (h@[0], h@[1])
}

/// Hands as pairs of cards.
pub open spec fn hand_pairs(hands: Seq<[Card; 2]>) -> Seq<(Card, Card)> {
    Seq::new(hands.len(), |i: int| hand_pair(hands[i]))
}

/// The texts at the given places of `s`.
pub open spec fn ranges_of(s: Seq<char>, r: Seq<(usize, usize)>) -> Seq<Seq<char>> {
    Seq::new(r.len(), |k: int| s.subrange(r[k].0 as int, r[k].1 as int))
}

/// Places within a text of `n` characters.
pub open spec fn ranges_within(r: Seq<(usize, usize)>, n: int) -> bool {
    forall|k: int| 0 <= k < r.len() ==> (#[trigger] r[k]).0 <= r[k].1 <= n
}


/// Whether a character is white space.
pub fn is_space_char(c: char) -> (r: bool)
    ensures
        r == is_space(c),
{
    let v = c as u32;
    (9 <= v && v <= 13) || v == 0x20 || v == 0x85 || v == 0xa0 || v == 0x1680 || (0x2000 <= v && v
        <= 0x200a) || v == 0x2028 || v == 0x2029 || v == 0x202f || v == 0x205f || v == 0x3000
}

/// Whether a text is blank.
pub fn is_blank(s: &[char]) -> (r: bool)
    ensures
        r == all_space(s@),
{
    let mut i: usize = 0;
    while i < s.len()
        invariant
            i <= s@.len(),
            forall|k: int| 0 <= k < i ==> is_space(#[trigger] s@[k]),
        decreases s@.len() - i,
    {
        if !is_space_char(s[i]) {
            return false;
        }
        i += 1;
    }
    true
}

/// Whether a text holds the space character.
pub fn has_space(s: &[char]) -> (r: bool)
    ensures
        r == s@.contains(' '),
{
    let mut i: usize = 0;
    while i < s.len()
        invariant
            i <= s@.len(),
            forall|k: int| 0 <= k < i ==> s@[k] != ' ',
        decreases s@.len() - i,
    {
        if s[i] == ' ' {
            return true;
        }
        i += 1;
    }
    false
}

/// The places of the words of a text.
pub fn word_ranges(s: &[char]) -> (r: Vec<(usize, usize)>)
    ensures
        ranges_of(s@, r@) == words(s@),
        ranges_within(r@, s@.len() as int),
{
    let n = s.len();
    let mut r: Vec<(usize, usize)> = Vec::new();
    let mut i: usize = 0;
    while i < n
        invariant
            n == s@.len(),
            i <= n,
            ranges_of(s@, r@) + words_from(s@, i as int) == words(s@),
            ranges_within(r@, n as int),
        decreases n - i,
    {
        if is_space_char(s[i]) {
            i += 1;
        } else {
            let start = i;
            proof {
                lemma_word_end(s@, start as int);
            }
            while i < n && !is_space_char(s[i])
                invariant
                    n == s@.len(),
                    start <= i <= n,
                    word_end(s@, i as int) == word_end(s@, start as int),
                decreases n - i,
            {
                i += 1;
            }
            proof {
                let before = ranges_of(s@, r@);
                let word = s@.subrange(start as int, i as int);
                assert(ranges_of(s@, r@.push((start, i))) =~= before.push(word));
                assert(before.push(word) + words_from(s@, i as int) =~= before + (seq![word]
                    + words_from(s@, i as int)));
            }
            r.push((start, i));
        }
    }
    proof {
        assert(ranges_of(s@, r@) + Seq::<Seq<char>>::empty() =~= ranges_of(s@, r@));
    }
    r
}

/// The places of the characters of a text, two at a time.
pub fn pair_ranges(s: &[char]) -> (r: Vec<(usize, usize)>)
    ensures
        ranges_of(s@, r@) == pairs(s@),
        ranges_within(r@, s@.len() as int),
{
    let n = s.len();
    let count = n / 2 + n % 2;
    let mut r: Vec<(usize, usize)> = Vec::new();
    let mut k: usize = 0;
    while k < count
        invariant
            n == s@.len(),
            count == (n + 1) / 2,
            k <= count,
            r@.len() == k,
            forall|j: int|
                0 <= j < r@.len() ==> (#[trigger] r@[j]) == ((2 * j) as usize, (if 2 * j + 2 <= n {
                    2 * j + 2
                } else {
                    n as int
                }) as usize),
        decreases count - k,
    {
        let start = 2 * k;
        let end = if n - start >= 2 {
            start + 2
        } else {
            n
        };
        r.push((start, end));
        k += 1;
    }
    proof {
        assert(ranges_of(s@, r@) =~= pairs(s@));
    }
    r
}

/// The places of the card tokens of a text.
pub fn token_ranges(s: &[char]) -> (r: Vec<(usize, usize)>)
    ensures
        ranges_of(s@, r@) == tokens(s@),
        ranges_within(r@, s@.len() as int),
{
    if has_space(s) {
        word_ranges(s)
    } else {
        pair_ranges(s)
    }
}

/// Reads a hand from its characters.
pub fn hand_from_chars(s: &[char]) -> (r: Option<[Card; 2]>)
    ensures
        r is Some == hand_of(s@) is Some,
        r matches Some(h) ==> hand_of(s@) == Some(hand_pair(h)) && h@[0].valid() && h@[1].valid(),
{
    let t = token_ranges(s);
    if t.len() != 2 {
        return None;
    }
    proof {
        assert(ranges_of(s@, t@)[0] == s@.subrange(t@[0].0 as int, t@[0].1 as int));
        assert(ranges_of(s@, t@)[1] == s@.subrange(t@[1].0 as int, t@[1].1 as int));
    }
    let c1 = match card_from_chars(slice_subrange(s, t[0].0, t[0].1)) {
        Some(c) => c,
        None => {
            return None;
        },
    };
    let c2 = match card_from_chars(slice_subrange(s, t[1].0, t[1].1)) {
        Some(c) => c,
        None => {
            return None;
        },
    };
    Some([c1, c2])
}

/// Reads a board from its characters.
pub fn board_from_chars(s: &[char]) -> (r: Option<Vec<Card>>)
    ensures
        r is Some == board_of(s@) is Some,
        r matches Some(b) ==> board_of(s@) == Some(b@) && b@.len() <= 5 && forall|i: int|
            0 <= i < b@.len() ==> (#[trigger] b@[i]).valid(),
{
    let mut cards: Vec<Card> = Vec::new();
    if is_blank(s) {
        return Some(cards);
    }
    let t = token_ranges(s);
    if t.len() > 5 {
        return None;
    }
    let mut k: usize = 0;
    while k < t.len()
        invariant
            k <= t@.len(),
            t@.len() <= 5,
            !all_space(s@),
            cards@.len() == k,
            ranges_of(s@, t@) == tokens(s@),
            ranges_within(t@, s@.len() as int),
            forall|i: int| 0 <= i < cards@.len() ==> (#[trigger] cards@[i]).valid(),
            cards_from(tokens(s@), 0) == match cards_from(tokens(s@), k as int) {
                Some(rest) => Some(cards@ + rest),
                None => None,
            },
        decreases t@.len() - k,
    {
        proof {
            assert(ranges_of(s@, t@)[k as int] == s@.subrange(t@[k as int].0 as int, t@[k as int].1 as int));
        }
        match card_from_chars(slice_subrange(s, t[k].0, t[k].1)) {
            Some(c) => {
                proof {
                    let rest = cards_from(tokens(s@), k + 1);
                    if rest is Some {
                        assert(cards@.push(c) + rest->0 =~= cards@ + (seq![c] + rest->0));
                    }
                }
                cards.push(c);
            },
            None => {
                return None;
            },
        }
        k += 1;
    }
    proof {
        assert(cards@ + Seq::<Card>::empty() =~= cards@);
    }
    Some(cards)
}

/// The places of the pieces that `;` cuts a text into.
pub fn piece_ranges(s: &[char]) -> (r: Vec<(usize, usize)>)
    ensures
        ranges_of(s@, r@) == pieces(s@),
        ranges_within(r@, s@.len() as int),
{
    let n = s.len();
    let mut r: Vec<(usize, usize)> = Vec::new();
    let mut start: usize = 0;
    let mut i: usize = 0;
    while i < n
        invariant
            n == s@.len(),
            start <= i <= n,
            piece_end(s@, i as int) == piece_end(s@, start as int),
            ranges_of(s@, r@) + pieces_from(s@, start as int) == pieces(s@),
            ranges_within(r@, n as int),
        decreases n - i,
    {
        if s[i] == ';' {
            proof {
                let before = ranges_of(s@, r@);
                let piece = s@.subrange(start as int, i as int);
                assert(ranges_of(s@, r@.push((start, i))) =~= before.push(piece));
                assert(before.push(piece) + pieces_from(s@, i + 1) =~= before + (seq![piece]
                    + pieces_from(s@, i + 1)));
            }
            r.push((start, i));
            start = i + 1;
        }
        i += 1;
    }
    proof {
        let before = ranges_of(s@, r@);
        let piece = s@.subrange(start as int, n as int);
        assert(ranges_of(s@, r@.push((start, n))) =~= before.push(piece));
        assert(before.push(piece) =~= before + seq![piece]);
        if start == n {
            assert(piece =~= Seq::<char>::empty());
        }
    }
    r.push((start, n));
    r
}

/// Reads a list of hands from its characters.
pub fn hands_from_chars(s: &[char]) -> (r: Option<Vec<[Card; 2]>>)
    ensures
        r is Some == hand_list_of(s@) is Some,
        r matches Some(hands) ==> hand_list_of(s@) == Some(hand_pairs(hands@)) && forall|i: int|
            0 <= i < hands@.len() ==> (#[trigger] hands@[i])@[0].valid() && hands@[i]@[1].valid(),
{
    let p = piece_ranges(s);
    let mut hands: Vec<[Card; 2]> = Vec::new();
    let mut k: usize = 0;
    while k < p.len()
        invariant
            k <= p@.len(),
            ranges_of(s@, p@) == pieces(s@),
            ranges_within(p@, s@.len() as int),
            forall|i: int|
                0 <= i < hands@.len() ==> (#[trigger] hands@[i])@[0].valid()
                    && hands@[i]@[1].valid(),
            hand_list_of(s@) == match hands_from(pieces(s@), k as int) {
                Some(rest) => Some(hand_pairs(hands@) + rest),
                None => None,
            },
        decreases p@.len() - k,
    {
        proof {
            assert(ranges_of(s@, p@)[k as int] == s@.subrange(p@[k as int].0 as int, p@[k as int].1 as int));
        }
        let piece = slice_subrange(s, p[k].0, p[k].1);
        if !is_blank(piece) {
            match hand_from_chars(piece) {
                Some(h) => {
                    proof {
                        let rest = hands_from(pieces(s@), k + 1);
                        assert(hand_pairs(hands@.push(h)) =~= hand_pairs(hands@).push(hand_pair(h)));
                        if rest is Some {
                            assert(hand_pairs(hands@).push(hand_pair(h)) + rest->0 =~= hand_pairs(
                                hands@,
                            ) + (seq![hand_pair(h)] + rest->0));
                        }
                    }
                    hands.push(h);
                },
                None => {
                    return None;
                },
            }
        }
        k += 1;
    }
    proof {
        assert(hand_pairs(hands@) + Seq::<(Card, Card)>::empty() =~= hand_pairs(hands@));
    }
    Some(hands)
}

/// Reads a hand of two cards, such as `"As Kd"` or `"AsKd"`.
pub fn parse_hand_two(input: &str) -> (r: Option<[Card; 2]>)
    ensures
        r is Some == hand_of(input@) is Some,
        r matches Some(h) ==> hand_of(input@) == Some(hand_pair(h)) && h@[0].valid()
            && h@[1].valid(),
{
    let chars = chars_of(input);
    hand_from_chars(chars.as_slice())
}

/// Reads a list of two to eight hands, such as `"AsKs;QhQd;JhTh"`.
pub fn parse_hands(input: &str) -> (r: Option<Vec<[Card; 2]>>)
    ensures
        r is Some == (hand_list_of(input@) matches Some(l) && 2 <= l.len() <= 8),
        r matches Some(hands) ==> hand_list_of(input@) == Some(hand_pairs(hands@)) && forall|
            i: int,
        |
            0 <= i < hands@.len() ==> (#[trigger] hands@[i])@[0].valid() && hands@[i]@[1].valid(),
{
    let chars = chars_of(input);
    match hands_from_chars(chars.as_slice()) {
        Some(hands) => {
            if hands.len() < 2 || hands.len() > 8 {
                None
            } else {
                Some(hands)
            }
        },
        None => None,
    }
}

/// Reads a list of at least one hand.
pub fn parse_hands_min1(input: &str) -> (r: Option<Vec<[Card; 2]>>)
    ensures
        r is Some == (hand_list_of(input@) matches Some(l) && l.len() >= 1),
        r matches Some(hands) ==> hand_list_of(input@) == Some(hand_pairs(hands@)) && forall|
            i: int,
        |
            0 <= i < hands@.len() ==> (#[trigger] hands@[i])@[0].valid() && hands@[i]@[1].valid(),
{
    let chars = chars_of(input);
    match hands_from_chars(chars.as_slice()) {
        Some(hands) => {
            if hands.len() == 0 {
                None
            } else {
                Some(hands)
            }
        },
        None => None,
    }
}

/// Reads a board of up to five cards; a blank text is the empty board.
pub fn parse_board(input: &str) -> (r: Option<Vec<Card>>)
    ensures
        r is Some == board_of(input@) is Some,
        r matches Some(b) ==> board_of(input@) == Some(b@) && b@.len() <= 5 && forall|i: int|
            0 <= i < b@.len() ==> (#[trigger] b@[i]).valid(),
{
    let chars = chars_of(input);
    board_from_chars(chars.as_slice())
}


/// Finds what keeps a text from spelling a hand.
pub fn find_hand_problem(s: &[char]) -> (r: Option<HandProblem>)
    ensures
        r == hand_problem(s@),
{
    let t = token_ranges(s);
    if t.len() != 2 {
        return Some(HandProblem::Count);
    }
    proof {
        assert(ranges_of(s@, t@)[0] == s@.subrange(t@[0].0 as int, t@[0].1 as int));
        assert(ranges_of(s@, t@)[1] == s@.subrange(t@[1].0 as int, t@[1].1 as int));
    }
    if card_from_chars(slice_subrange(s, t[0].0, t[0].1)).is_none() {
        return Some(HandProblem::First);
    }
    if card_from_chars(slice_subrange(s, t[1].0, t[1].1)).is_none() {
        return Some(HandProblem::Second);
    }
    None
}

/// Finds what keeps the first piece of a list that spells no hand from spelling one.
pub fn find_list_problem(s: &[char]) -> (r: Option<HandProblem>)
    ensures
        r == list_problem(pieces(s@), 0),
{
    let p = piece_ranges(s);
    let mut k: usize = 0;
    while k < p.len()
        invariant
            k <= p@.len(),
            ranges_of(s@, p@) == pieces(s@),
            ranges_within(p@, s@.len() as int),
            list_problem(pieces(s@), 0) == list_problem(pieces(s@), k as int),
        decreases p@.len() - k,
    {
        proof {
            assert(ranges_of(s@, p@)[k as int] == s@.subrange(p@[k as int].0 as int, p@[k as int].1 as int));
        }
        let piece = slice_subrange(s, p[k].0, p[k].1);
        if !is_blank(piece) {
            match find_hand_problem(piece) {
                Some(problem) => {
                    return Some(problem);
                },
                None => {},
            }
        }
        k += 1;
    }
    None
}

} // verus!
