use poker_equity::sim::card::Card;
use poker_equity::sim::categories::simulate_vs_list_with_ranks;
use poker_equity::sim::eval::best_of;
use poker_equity::sim::simulate_vs_list;

fn decode_card(v: u32) -> String {
    let rank = v >> 2;
    let suit = v & 0b11;
    let rank_char = "23456789TJQKA".as_bytes().get(rank as usize).copied().unwrap_or(b'?') as char;
    let suit_char = ['s', 'h', 'd', 'c'].get(suit as usize).copied().unwrap_or('?');
    format!("{rank_char}{suit_char}")
}

#[test]
fn hero_vs_qq_regression() {
    // quick sanity: deterministic scores for the given flop
    let hero_score = best_of(&[
        Card { rank: 6, suit: 2 },  // 8d
        Card { rank: 10, suit: 3 }, // Qc
        Card { rank: 3, suit: 2 },  // 5d
        Card { rank: 3, suit: 0 },  // 5s
        Card { rank: 3, suit: 1 },  // 5h
        Card { rank: 0, suit: 0 },  // filler low card
        Card { rank: 1, suit: 0 },  // filler
    ]);
    let opp_score = best_of(&[
        Card { rank: 6, suit: 2 },  // 8d
        Card { rank: 10, suit: 3 }, // Qc
        Card { rank: 3, suit: 2 },  // 5d
        Card { rank: 10, suit: 0 }, // Qs
        Card { rank: 10, suit: 1 }, // Qh
        Card { rank: 0, suit: 0 },
        Card { rank: 1, suit: 0 },
    ]);
    println!("hero score: {:?}, opp score: {:?}", hero_score, opp_score);
    assert!(
        hero_score.encoded < opp_score.encoded,
        "Hero should be behind QQ on this flop"
    );

    let res = simulate_vs_list_with_ranks(
        "5s 5h",
        "8d Qc 5c",
        "Kc Ks; Qs Qh; Qs Jh; 9c 9h; 5d 8h",
        10000,
        42,
    )
    .expect("simulation ok");
    let mut qq = None;
    let mut hero = None;
    for (c1, c2, w, t, p, _) in &res {
        if *c1 == u32::MAX && *c2 == u32::MAX {
            hero = Some((*w, *t, *p));
        } else {
            let h1 = decode_card(*c1);
            let h2 = decode_card(*c2);
            if (h1 == "Qs" && h2 == "Qh") || (h1 == "Qh" && h2 == "Qs") {
                qq = Some((*w, *t, *p));
            }
            println!("{h1} {h2}: wins {w} ties {t} plays {p}");
        }
    }
    println!("hero aggregated wins/ties/plays: {:?}", hero);
    println!("QQ wins/ties/plays: {:?}", qq);
    assert!(qq.is_some());
    // the row of an opponent counts the hero's wins against it
    let (w, t, p) = qq.unwrap();
    assert_eq!((w, t, p), (408, 0, 10000));
    let hero_win_rate_vs_qq = w as f64 / p as f64;
    assert!(hero_win_rate_vs_qq < 0.5, "hero should not beat QQ");
    assert_eq!(hero, Some((36270, 0, 50000)));
}

#[test]
fn hero_is_behind_queens_alone() {
    let rows = simulate_vs_list_with_ranks("5s5h", "8dQc5c", "QsQh", 10000, 42).expect("simulation ok");
    assert_eq!(rows.len(), 2);
    let (c1, c2, w, t, p, ranks) = rows[0];
    assert_eq!((decode_card(c1), decode_card(c2)), ("Qs".to_string(), "Qh".to_string()));
    assert_eq!((w, t, p), (440, 0, 10000));
    assert!((w as f64 / p as f64) < 0.5, "hero should not beat QQ");
    assert_eq!(ranks, [0, 0, 0, 7211, 0, 0, 2310, 479, 0]);
    assert_eq!(rows[1], (u32::MAX, u32::MAX, 440, 0, 10000, [0, 0, 0, 6634, 0, 0, 2945, 421, 0]));

    let split = simulate_vs_list::simulate_vs_list_with_ranks("5s5h", "8dQc5c", "QsQh", 10000, 42)
        .expect("simulation ok");
    assert_eq!(
        split,
        vec![
            (40, 41, 440, 0, 10000, [0, 0, 0, 7211, 0, 0, 1870, 479, 0], [0; 9], [0, 0, 0, 0, 0, 0, 440, 0, 0]),
            (
                u32::MAX,
                u32::MAX,
                440,
                0,
                10000,
                [0, 0, 0, 0, 0, 0, 0, 440, 0],
                [0; 9],
                [0, 0, 0, 7211, 0, 0, 2338, 11, 0]
            ),
        ]
    );
}
