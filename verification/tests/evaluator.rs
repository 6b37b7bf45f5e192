use poker_equity::sim::card::{parse_card, Card};
use poker_equity::sim::eval::{best_of, encode_score, evaluate_five, straight_high, HandRank};

fn cards(text: &str) -> Vec<Card> {
    let mut out = Vec::new();
    let mut i = 0;
    while i + 2 <= text.len() {
        out.push(parse_card(&text[i..i + 2]).expect("card"));
        i += 2;
    }
    out
}

#[test]
fn ace_high_straight_flush() {
    let score = evaluate_five(&cards("AsKsQsJsTs"));
    assert_eq!(score.rank, HandRank::StraightFlush);
    assert_eq!(score.kickers, [12, 0, 0, 0, 0]);
    assert_eq!(score.encoded, 2348810240);
    assert_eq!(score.encoded >> 28, 8);
}

#[test]
fn wheel_straight_flush_is_five_high() {
    let score = evaluate_five(&cards("5s4s3s2sAs"));
    assert_eq!(score.rank, HandRank::StraightFlush);
    assert_eq!(score.kickers[0], 3);
    assert_eq!(score.encoded, 2197815296);
}

#[test]
fn every_category_has_its_score() {
    let cases: [(&str, HandRank, [u8; 5], u32); 9] = [
        ("9s9h9d9cKd", HandRank::FourOfKind, [7, 11, 0, 0, 0], 2008023040),
        ("3s3h3dKcKd", HandRank::FullHouse, [1, 11, 0, 0, 0], 1638924288),
        ("AhJh9h5h2h", HandRank::Flush, [12, 9, 7, 3, 0], 1553412096),
        ("9s8h7d6c5d", HandRank::Straight, [7, 0, 0, 0, 0], 1191182336),
        ("5s4h3d2cAd", HandRank::Straight, [3, 0, 0, 0, 0], 1124073472),
        ("5s5h5dQc8d", HandRank::ThreeOfKind, [3, 10, 6, 0, 0], 866516992),
        ("KsKhQdQc2d", HandRank::TwoPair, [11, 10, 0, 0, 0], 731906048),
        ("JsJh9d5c2d", HandRank::OnePair, [9, 7, 3, 0, 0], 426967040),
        ("AsJh9d5c2d", HandRank::HighCard, [12, 9, 7, 3, 0], 211234816),
    ];
    for (text, rank, kickers, encoded) in cases {
        let score = evaluate_five(&cards(text));
        assert_eq!(score.rank, rank, "{text}");
        assert_eq!(score.kickers, kickers, "{text}");
        assert_eq!(score.encoded, encoded, "{text}");
    }
}

#[test]
fn categories_order_the_scores() {
    let ordered = [
        "AsJh9d5c2d",
        "JsJh9d5c2d",
        "KsKhQdQc2d",
        "5s5h5dQc8d",
        "5s4h3d2cAd",
        "7h5h4h3h2h",
        "2s2h2d3c3d",
        "2s2h2d2c3d",
        "5s4s3s2sAs",
    ];
    for i in 1..ordered.len() {
        let weak = evaluate_five(&cards(ordered[i - 1]));
        let strong = evaluate_five(&cards(ordered[i]));
        assert_eq!(strong.rank.index(), i as u32);
        assert!(weak.encoded < strong.encoded, "{} < {}", ordered[i - 1], ordered[i]);
    }
}

#[test]
fn kickers_break_ties_within_a_category() {
    let low = evaluate_five(&cards("JsJh9d5c2d"));
    let high = evaluate_five(&cards("JsJhTd5c2d"));
    assert_eq!(low.rank, high.rank);
    assert!(low.encoded < high.encoded);
    let same = evaluate_five(&cards("JdJc9s5h2s"));
    assert_eq!(same.encoded, low.encoded);
}

#[test]
fn best_of_seven_takes_the_best_five() {
    let hero = best_of(&cards("8dQc5d5s5h2s3s"));
    assert_eq!(hero.rank, HandRank::ThreeOfKind);
    assert_eq!(hero.kickers, [3, 10, 6, 0, 0]);
    assert_eq!(hero.encoded, 866516992);
    let opp = best_of(&cards("8dQc5dQsQh2s3s"));
    assert_eq!(opp.kickers, [10, 6, 3, 0, 0]);
    assert_eq!(opp.encoded, 979566592);
}

#[test]
fn best_of_six_and_of_five() {
    let six = best_of(&cards("AsKsQsJsTs2d"));
    assert_eq!(six.rank, HandRank::StraightFlush);
    assert_eq!(six.encoded, 2348810240);
    let seven = best_of(&cards("2c3d4h5s7c8d9h"));
    assert_eq!(seven.rank, HandRank::HighCard);
    assert_eq!(seven.kickers, [7, 6, 5, 3, 2]);
    assert_eq!(seven.encoded, 124072448);
    let five = best_of(&cards("AsJh9d5c2d"));
    assert_eq!(five.encoded, evaluate_five(&cards("AsJh9d5c2d")).encoded);
}

#[test]
fn best_of_is_no_weaker_than_any_five() {
    let all = cards("Ah7h7d7c2h9hTh");
    let best = best_of(&all);
    for a in 0..7 {
        for b in (a + 1)..7 {
            let five: Vec<Card> = (0..7).filter(|i| *i != a && *i != b).map(|i| all[i]).collect();
            let score = evaluate_five(&five);
            assert!(score.encoded <= best.encoded);
            assert!(score.rank.index() <= best.rank.index());
        }
    }
    assert_eq!(best.rank, HandRank::Flush);
}

#[test]
fn straight_high_reads_the_mask() {
    assert_eq!(straight_high(0b1_1111_0000_0000), Some(12));
    assert_eq!(straight_high(0b0_0000_0001_1111), Some(4));
    assert_eq!(straight_high(0b0_0000_0011_1111), Some(5));
    assert_eq!(straight_high(0b1_0000_0000_1111), Some(3));
    assert_eq!(straight_high(0b1_0000_0001_1111), Some(4));
    assert_eq!(straight_high(0b1_0110_1010_1101), None);
    assert_eq!(straight_high(0), None);
}

#[test]
fn encode_score_packs_category_and_kickers() {
    assert_eq!(encode_score(HandRank::HighCard, &[0, 0, 0, 0, 0]), 0);
    assert_eq!(encode_score(HandRank::StraightFlush, &[12, 0, 0, 0, 0]), 0x8c00_0000);
    assert_eq!(encode_score(HandRank::Flush, &[12, 9, 7, 3, 1]), 0x5c97_3100);
    assert_eq!(encode_score(HandRank::OnePair, &[1, 2, 3, 4, 5]), 0x1123_4500);
}
