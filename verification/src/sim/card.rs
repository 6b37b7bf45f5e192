//! Playing cards and their two-character text form.

use vstd::prelude::*;

verus! {

/// A playing card: `rank` counts from 0 (deuce) to 12 (ace), `suit` from 0 to 3
/// (spades, hearts, diamonds, clubs).
#[derive(Copy, Clone, Debug, PartialEq, Eq, Structural)]
pub struct Card {
    pub rank: u8,
    pub suit: u8,
}

impl Card {
    /// A card of the 52-card deck.
    pub open spec fn valid(self) -> bool {
        self.rank < 13 && self.suit < 4
    }
}

/// The rank that a byte of text stands for: `23456789TJQKA`, letters in either case.
pub open spec fn rank_of_byte(ch: u8) -> Option<u8> {
    if 0x32 <= ch <= 0x39 {
        Some((ch - 0x32) as u8)
    } else if ch == 0x54 || ch == 0x74 {
        Some(8u8)
    } else if ch == 0x4a || ch == 0x6a {
        Some(9u8)
    } else if ch == 0x51 || ch == 0x71 {
        Some(10u8)
    } else if ch == 0x4b || ch == 0x6b {
        Some(11u8)
    } else if ch == 0x41 || ch == 0x61 {
        Some(12u8)
    } else {
        None
    }
}

/// The suit that a byte of text stands for: `s`, `h`, `d`, `c`, in either case.
pub open spec fn suit_of_byte(ch: u8) -> Option<u8> {
    if ch == 0x73 || ch == 0x53 {
        Some(0u8)
    } else if ch == 0x68 || ch == 0x48 {
        Some(1u8)
    } else if ch == 0x64 || ch == 0x44 {
        Some(2u8)
    } else if ch == 0x63 || ch == 0x43 {
        Some(3u8)
    } else {
        None
    }
}

/// The rank that a character stands for; only ASCII characters stand for one.
pub open spec fn rank_of_char(c: char) -> Option<u8> {
    if (c as u32) < 128 {
        rank_of_byte(c as u8)
    } else {
        None
    }
}

/// The suit that a character stands for; only ASCII characters stand for one.
pub open spec fn suit_of_char(c: char) -> Option<u8> {
    if (c as u32) < 128 {
        suit_of_byte(c as u8)
    } else {
        None
    }
}

/// The card that a token spells: exactly two characters, a rank and then a suit.
pub open spec fn card_of_token(token: Seq<char>) -> Option<Card> {
    if token.len() == 2 && rank_of_char(token[0]) is Some && suit_of_char(token[1]) is Some {
        Some(Card { rank: rank_of_char(token[0])->0, suit: suit_of_char(token[1])->0 })
    } else {
        None
    }
}

/// The rank that a byte of text stands for, if it stands for one.
pub fn rank_from_char(ch: u8) -> (r: Option<u8>)
    ensures
        r == rank_of_byte(ch),
        r matches Some(v) ==> v < 13,
{
    match ch {
        0x32 => Some(0),
        0x33 => Some(1),
        0x34 => Some(2),
        0x35 => Some(3),
        0x36 => Some(4),
        0x37 => Some(5),
        0x38 => Some(6),
        0x39 => Some(7),
        0x54 | 0x74 => Some(8),
        0x4a | 0x6a => Some(9),
        0x51 | 0x71 => Some(10),
        0x4b | 0x6b => Some(11),
        0x41 | 0x61 => Some(12),
        _ => None,
    }
}

/// The suit that a byte of text stands for, if it stands for one.
pub fn suit_from_char(ch: u8) -> (r: Option<u8>)
    ensures
        r == suit_of_byte(ch),
        r matches Some(v) ==> v < 4,
{
    match ch {
        0x73 | 0x53 => Some(0),
        0x68 | 0x48 => Some(1),
        0x64 | 0x44 => Some(2),
        0x63 | 0x43 => Some(3),
        _ => None,
    }
}

/// Reads a card from the characters of one token.
pub fn card_from_chars(token: &[char]) -> (r: Option<Card>)
    ensures
        r == card_of_token(token@),
        r matches Some(c) ==> c.valid(),
{
    if token.len() != 2 {
        return None;
    }
    let c0 = token[0];
    let c1 = token[1];
    if c0 as u32 >= 128 || c1 as u32 >= 128 {
        return None;
    }
    let rank = match rank_from_char(c0 as u8) {
        Some(v) => v,
        None => {
            return None;
        },
    };
    let suit = match suit_from_char(c1 as u8) {
        Some(v) => v,
        None => {
            return None;
        },
    };
    Some(Card { rank, suit })
}

/// The characters of a string, in order.
pub fn chars_of(s: &str) -> (v: Vec<char>)
    ensures
        v@ == s@,
{
    let mut v: Vec<char> = Vec::new();
    for c in iter: s.chars()
        invariant
            iter.seq() == s@,
            v@ == iter.seq().subrange(0, iter.index() as int),
    {
        v.push(c);
    }
    assert(v@ =~= s@);
    v
}

/// Reads a card from a token such as `"As"` or `"td"`.
pub fn parse_card(token: &str) -> (r: Option<Card>)
    ensures
        r == card_of_token(token@),
        r matches Some(c) ==> c.valid(),
{
    let chars = chars_of(token);
    card_from_chars(chars.as_slice())
}

} // verus!
