use poker_equity::sim::card::{card_from_chars, chars_of, parse_card, rank_from_char, suit_from_char, Card};
use poker_equity::sim::parse::{
    is_blank, is_space_char, pair_ranges, parse_board, parse_hand_two, parse_hands, parse_hands_min1,
    piece_ranges, word_ranges,
};

#[test]
fn ranks_and_suits_from_bytes() {
    let ranks = b"23456789TJQKA";
    for (i, b) in ranks.iter().enumerate() {
        assert_eq!(rank_from_char(*b), Some(i as u8));
    }
    assert_eq!(rank_from_char(b't'), Some(8));
    assert_eq!(rank_from_char(b'j'), Some(9));
    assert_eq!(rank_from_char(b'q'), Some(10));
    assert_eq!(rank_from_char(b'k'), Some(11));
    assert_eq!(rank_from_char(b'a'), Some(12));
    assert_eq!(rank_from_char(b'1'), None);
    assert_eq!(rank_from_char(b'x'), None);
    assert_eq!(suit_from_char(b's'), Some(0));
    assert_eq!(suit_from_char(b'H'), Some(1));
    assert_eq!(suit_from_char(b'd'), Some(2));
    assert_eq!(suit_from_char(b'C'), Some(3));
    assert_eq!(suit_from_char(b'x'), None);
}

#[test]
fn cards_from_tokens() {
    assert_eq!(parse_card("As"), Some(Card { rank: 12, suit: 0 }));
    assert_eq!(parse_card("td"), Some(Card { rank: 8, suit: 2 }));
    assert_eq!(parse_card("2C"), Some(Card { rank: 0, suit: 3 }));
    assert_eq!(parse_card(""), None);
    assert_eq!(parse_card("A"), None);
    assert_eq!(parse_card("Asd"), None);
    assert_eq!(parse_card("sA"), None);
    assert_eq!(parse_card("1s"), None);
    assert_eq!(parse_card("\u{132}s"), None);
    assert_eq!(parse_card("é"), None);
    assert_eq!(card_from_chars(&['K', 'h']), Some(Card { rank: 11, suit: 1 }));
    assert_eq!(chars_of("aé\u{3000}"), vec!['a', 'é', '\u{3000}']);
}

#[test]
fn white_space_is_what_separates_words() {
    for c in [' ', '\t', '\n', '\r', '\u{b}', '\u{c}', '\u{85}', '\u{a0}', '\u{1680}', '\u{2000}', '\u{200a}', '\u{2028}', '\u{2029}', '\u{202f}', '\u{205f}', '\u{3000}'] {
        assert!(is_space_char(c), "{:?}", c);
        assert!(c.is_whitespace());
    }
    for c in ['a', '0', ';', '\u{200b}', '\u{feff}', '\u{1}', '\u{180e}'] {
        assert!(!is_space_char(c), "{:?}", c);
        assert!(!c.is_whitespace());
    }
    let mut v = 0u32;
    while v < 0x11_0000 {
        if let Some(c) = char::from_u32(v) {
            assert_eq!(is_space_char(c), c.is_whitespace());
        }
        v += 1;
    }
    assert!(is_blank(&[]));
    assert!(is_blank(&[' ', '\t']));
    assert!(!is_blank(&[' ', 'x']));
}

#[test]
fn words_pairs_and_pieces() {
    let text: Vec<char> = "  As  Kd ".chars().collect();
    assert_eq!(word_ranges(&text), vec![(2, 4), (6, 8)]);
    let text: Vec<char> = "AsKdQ".chars().collect();
    assert_eq!(pair_ranges(&text), vec![(0, 2), (2, 4), (4, 5)]);
    assert_eq!(pair_ranges(&[]), Vec::<(usize, usize)>::new());
    let text: Vec<char> = "a;;b;".chars().collect();
    assert_eq!(piece_ranges(&text), vec![(0, 1), (2, 2), (3, 4), (5, 5)]);
    assert_eq!(piece_ranges(&[]), vec![(0, 0)]);
    for s in ["", "a", "ab;cd", ";", "x y;z", " ; ;"] {
        let text: Vec<char> = s.chars().collect();
        let got: Vec<String> = piece_ranges(&text).iter().map(|(a, b)| text[*a..*b].iter().collect()).collect();
        let want: Vec<String> = s.split(';').map(|p| p.to_string()).collect();
        assert_eq!(got, want);
        let got: Vec<String> = word_ranges(&text).iter().map(|(a, b)| text[*a..*b].iter().collect()).collect();
        let want: Vec<String> = s.split_whitespace().map(|p| p.to_string()).collect();
        assert_eq!(got, want);
    }
}

#[test]
fn hands_of_two_cards() {
    let want = Some([Card { rank: 12, suit: 0 }, Card { rank: 11, suit: 2 }]);
    assert_eq!(parse_hand_two("AsKd"), want);
    assert_eq!(parse_hand_two("As Kd"), want);
    assert_eq!(parse_hand_two("  as   kd  "), want);
    assert_eq!(parse_hand_two("As\u{a0}Kd "), want);
    assert_eq!(parse_hand_two("As\tKd"), None);
    assert_eq!(parse_hand_two("As"), None);
    assert_eq!(parse_hand_two("AsK"), None);
    assert_eq!(parse_hand_two("AsKdQh"), None);
    assert_eq!(parse_hand_two("As Kd Qh"), None);
    assert_eq!(parse_hand_two("AsK d"), None);
    assert_eq!(parse_hand_two("AsKd "), None);
    assert_eq!(parse_hand_two(" AsKd"), None);
    assert_eq!(parse_hand_two(""), None);
    assert_eq!(parse_hand_two(" "), None);
    assert_eq!(parse_hand_two("AsXd"), None);
    assert_eq!(parse_hand_two("AsAs"), Some([Card { rank: 12, suit: 0 }, Card { rank: 12, suit: 0 }]));
}

#[test]
fn boards_of_up_to_five_cards() {
    assert_eq!(parse_board(""), Some(vec![]));
    assert_eq!(parse_board("   "), Some(vec![]));
    assert_eq!(parse_board("\t"), Some(vec![]));
    let flop = vec![Card { rank: 6, suit: 2 }, Card { rank: 10, suit: 3 }, Card { rank: 3, suit: 3 }];
    assert_eq!(parse_board("8d Qc 5c"), Some(flop.clone()));
    assert_eq!(parse_board("8dQc5c"), Some(flop));
    assert_eq!(parse_board("8dQc5c2s3s").map(|b| b.len()), Some(5));
    assert_eq!(parse_board("8dQc5c2s3s4s"), None);
    assert_eq!(parse_board("8d Qc 5c 2s 3s 4s"), None);
    assert_eq!(parse_board("8dQ"), None);
    assert_eq!(parse_board("8d Qx"), None);
    assert_eq!(parse_board("8d").map(|b| b.len()), Some(1));
}

#[test]
fn lists_of_hands() {
    let got = parse_hands("AsKs;QhQd;JhTh").expect("three hands");
    assert_eq!(got.len(), 3);
    assert_eq!(got[1], [Card { rank: 10, suit: 1 }, Card { rank: 10, suit: 2 }]);
    assert_eq!(parse_hands("AsKs"), None);
    assert_eq!(parse_hands("AsKs;;QhQd; "), parse_hands("AsKs;QhQd"));
    assert_eq!(parse_hands("AsKs;Qh"), None);
    assert_eq!(parse_hands("2c2d;3c3d;4c4d;5c5d;6c6d;7c7d;8c8d;9c9d").map(|h| h.len()), Some(8));
    assert_eq!(parse_hands("2c2d;3c3d;4c4d;5c5d;6c6d;7c7d;8c8d;9c9d;TcTd"), None);
    assert_eq!(parse_hands_min1("AsKs").map(|h| h.len()), Some(1));
    assert_eq!(parse_hands_min1(" As Ks ; Qh Qd").map(|h| h.len()), Some(2));
    assert_eq!(parse_hands_min1(""), None);
    assert_eq!(parse_hands_min1(" ; "), None);
    assert_eq!(parse_hands_min1("AsKs;x"), None);
    assert_eq!(parse_hands_min1("2c2d;3c3d;4c4d;5c5d;6c6d;7c7d;8c8d;9c9d;TcTd").map(|h| h.len()), Some(9));
}
