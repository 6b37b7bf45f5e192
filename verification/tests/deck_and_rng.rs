use poker_equity::sim::card::Card;
use poker_equity::sim::deck::{
    build_deck, decode_card, decode_hand_pair, encode_card, holds_card, shuffle_slice,
};
use poker_equity::sim::rng::Lcg64;

#[test]
fn generator_gives_the_known_sequence() {
    let mut rng = Lcg64::new(42);
    let got: Vec<u32> = (0..5).map(|_| rng.next_u32()).collect();
    assert_eq!(got, vec![3586392987, 3764426595, 2590983113, 28236415, 2086222038]);
}

#[test]
fn zero_seed_starts_from_one() {
    let mut zero = Lcg64::new(0);
    let mut one = Lcg64::new(1);
    let got: Vec<u32> = (0..3).map(|_| zero.next_u32()).collect();
    assert_eq!(got, vec![1481765933, 3232861391, 3417699910]);
    let same: Vec<u32> = (0..3).map(|_| one.next_u32()).collect();
    assert_eq!(got, same);
    let mut even = Lcg64::new(42);
    let mut odd = Lcg64::new(43);
    assert_eq!(even.next_u32(), odd.next_u32());
}

#[test]
fn full_deck_in_order() {
    let deck = build_deck(&[]);
    assert_eq!(deck.len(), 52);
    for (i, c) in deck.iter().enumerate() {
        assert_eq!(*c, Card { rank: (i / 4) as u8, suit: (i % 4) as u8 });
        assert_eq!(encode_card(*c), i as u32);
    }
}

#[test]
fn deck_leaves_out_the_excluded() {
    let out = [
        Card { rank: 12, suit: 0 },
        Card { rank: 0, suit: 0 },
        Card { rank: 12, suit: 0 },
        Card { rank: 5, suit: 3 },
    ];
    let deck = build_deck(&out);
    assert_eq!(deck.len(), 49);
    for c in &out {
        assert!(!holds_card(&deck, *c));
    }
    assert_eq!(deck[0], Card { rank: 0, suit: 1 });
    assert!(holds_card(&deck, Card { rank: 5, suit: 2 }));
    let mut sorted = deck.clone();
    sorted.sort_by_key(|c| encode_card(*c));
    assert_eq!(sorted, deck);
    let invalid = build_deck(&[Card { rank: 13, suit: 0 }, Card { rank: 0, suit: 4 }]);
    assert_eq!(invalid.len(), 52);
}

#[test]
fn shuffle_follows_the_generator() {
    let mut deck = build_deck(&[Card { rank: 12, suit: 0 }, Card { rank: 0, suit: 0 }]);
    let mut rng = Lcg64::new(1);
    shuffle_slice(&mut deck, &mut rng);
    let front: Vec<u32> = deck[..8].iter().map(|c| encode_card(*c)).collect();
    assert_eq!(front, vec![46, 4, 1, 18, 15, 21, 16, 43]);
    assert_eq!(deck.len(), 50);
    let mut sorted: Vec<u32> = deck.iter().map(|c| encode_card(*c)).collect();
    sorted.sort();
    let want: Vec<u32> = (1..48).chain(49..52).collect();
    assert_eq!(sorted, want);

    let mut four = vec![
        Card { rank: 0, suit: 0 },
        Card { rank: 0, suit: 1 },
        Card { rank: 0, suit: 2 },
        Card { rank: 0, suit: 3 },
    ];
    let mut rng = Lcg64::new(5);
    shuffle_slice(&mut four, &mut rng);
    let got: Vec<u32> = four.iter().map(|c| encode_card(*c)).collect();
    assert_eq!(got, vec![1, 3, 0, 2]);
    // three numbers were drawn: the fourth of this generator comes next
    let mut fresh = Lcg64::new(5);
    for _ in 0..3 {
        fresh.next_u32();
    }
    assert_eq!(rng.next_u32(), fresh.next_u32());
}

#[test]
fn shuffle_of_nothing_and_of_one_draws_nothing() {
    let mut rng = Lcg64::new(9);
    let mut none: Vec<Card> = vec![];
    shuffle_slice(&mut none, &mut rng);
    let mut one = vec![Card { rank: 3, suit: 3 }];
    shuffle_slice(&mut one, &mut rng);
    assert_eq!(one, vec![Card { rank: 3, suit: 3 }]);
    assert_eq!(rng.next_u32(), Lcg64::new(9).next_u32());
}

#[test]
fn card_numbers_round_trip() {
    for rank in 0..13u8 {
        for suit in 0..4u8 {
            let c = Card { rank, suit };
            let v = encode_card(c);
            assert_eq!(v, ((rank as u32) << 2) | suit as u32);
            assert_eq!(decode_card(v), Some(c));
        }
    }
    assert_eq!(encode_card(Card { rank: 12, suit: 3 }), 51);
    assert_eq!(decode_card(52), None);
    assert_eq!(decode_card(u32::MAX), None);
}

#[test]
fn hand_pair_puts_the_smaller_number_first() {
    let a = Card { rank: 10, suit: 1 };
    let b = Card { rank: 10, suit: 0 };
    assert_eq!(decode_hand_pair(&[a, b]), (40, 41));
    assert_eq!(decode_hand_pair(&[b, a]), (40, 41));
    assert_eq!(decode_hand_pair(&[a, a]), (41, 41));
}
