use poker_equity::rs_poker_native::{
    simulate_rank_distribution, simulate_rank_distribution_with_progress, simulate_vs_list_equity,
    simulate_vs_list_equity_with_progress, simulate_vs_list_with_ranks_monte_carlo,
    outside_cards, simulate_vs_list_with_ranks_with_progress, to_outside_suit, GameCounters,
    GameResult,
};
use poker_equity::sim::card::Card;
use poker_equity::sim::eval::HandRank;
use poker_equity::sim::rank_distribution;

#[test]
fn cards_are_handed_over_by_rank_and_suit() {
    let cards = [Card { rank: 12, suit: 0 }, Card { rank: 0, suit: 1 }, Card { rank: 5, suit: 3 }];
    let (ranks, suits) = outside_cards(&cards);
    assert_eq!(ranks, vec![12, 0, 5]);
    assert_eq!(suits, vec![0, 2, 1]);
    assert_eq!(outside_cards(&[]), (vec![], vec![]));
}

#[test]
fn suits_are_renumbered() {
    assert_eq!(to_outside_suit(0), 0);
    assert_eq!(to_outside_suit(1), 2);
    assert_eq!(to_outside_suit(2), 3);
    assert_eq!(to_outside_suit(3), 1);
    assert_eq!(to_outside_suit(4), 0);
}

#[test]
fn outside_ranking_agrees_with_the_evaluator() {
    for (hands, board, trials, seed) in [
        ("AsKs;7h7d", "2h7c9c", 300, 9),
        ("AhKh;QhJh;2c2d;9s8s", "Th 3h 2s", 400, 1),
        ("AsKs;QhQd", "2h7d9cTdJd", 10, 1),
        ("5s4s;AdAc;KdQd", "3s 2s As Kc", 200, 77),
    ] {
        let outside = simulate_rank_distribution(hands, board, trials, seed).expect("counts");
        let own = rank_distribution::simulate_rank_distribution(hands, board, trials, seed).expect("counts");
        assert_eq!(outside, own);
    }
}

#[test]
fn outside_distribution_finds_the_flush_not_the_pair() {
    let counts = simulate_rank_distribution("AhKh", "QhJh2h2c2d", 7, 3).expect("counts");
    assert_eq!(counts, vec![[0, 0, 0, 0, 0, 7, 0, 0, 0]]);
    let counts = simulate_rank_distribution("AhKh", "QhJhTh2c2d", 7, 3).expect("counts");
    assert_eq!(counts, vec![[0, 0, 0, 0, 0, 0, 0, 0, 7]]);
    let counts = simulate_rank_distribution("AsKh;2s2h", "QhJd9h2c3d", 4, 3).expect("counts");
    assert_eq!(counts, vec![[4, 0, 0, 0, 0, 0, 0, 0, 0], [0, 0, 0, 4, 0, 0, 0, 0, 0]]);
}

#[test]
fn outside_distribution_reports_progress_and_errors() {
    let mut seen = Vec::new();
    let counts =
        simulate_rank_distribution_with_progress("AsKs;7h7d", "2h7c9c", 2, 9, Some(|p: u32| seen.push(p)))
            .expect("counts");
    assert_eq!(seen, vec![0, 25, 50, 75, 100]);
    assert_eq!(counts, simulate_rank_distribution("AsKs;7h7d", "2h7c9c", 2, 9).expect("counts"));
    assert_eq!(simulate_rank_distribution("AsKs", "2h7c", 2, 9), Err("board must be >=3 cards".to_string()));
    assert_eq!(simulate_rank_distribution("AsAs", "2h7c9c", 2, 9), Err("duplicate cards inside a hand".to_string()));
}

#[test]
fn equity_rows_count_the_games() {
    let rows = simulate_vs_list_equity("5s 5h", "8d Qc 5c", "Kc Ks; Qs Qh; 2d 7h", 2000, 42).expect("rows");
    assert_eq!(rows.len(), 4);
    assert_eq!((rows[0].0, rows[0].1), (44, 47));
    assert_eq!((rows[1].0, rows[1].1), (40, 41));
    assert_eq!((rows[2].0, rows[2].1), (2, 21));
    for row in &rows[..3] {
        assert_eq!(row.4, 2000);
        assert!(row.2 + row.3 <= row.4);
    }
    // trip fives are far ahead of kings, far behind trip queens
    assert!(rows[0].2 > 1400);
    assert!(rows[1].2 < 300);
    assert!(rows[2].2 > 1800);
    let hero = rows[3];
    assert_eq!((hero.0, hero.1), (u32::MAX, u32::MAX));
    assert_eq!(hero.2, rows[0].2 + rows[1].2 + rows[2].2);
    assert_eq!(hero.3, rows[0].3 + rows[1].3 + rows[2].3);
    assert_eq!(hero.4, 6000);
}

#[test]
fn equity_on_a_full_board_is_decided() {
    let rows = simulate_vs_list_equity("AsKs", "2h7d9cTdJd", "QhQd;8h8s;AdKh", 30, 3).expect("rows");
    assert_eq!(rows[0], (41, 42, 0, 0, 30));
    assert_eq!(rows[1], (24, 25, 0, 0, 30));
    assert_eq!(rows[2], (45, 50, 0, 30, 30));
    assert_eq!(rows[3], (u32::MAX, u32::MAX, 0, 30, 90));
    let rows = simulate_vs_list_equity("QhQd", "2h7d9cTdJd", "AsKs", 0, 3).expect("rows");
    assert_eq!(rows, vec![(44, 48, 1, 0, 1), (u32::MAX, u32::MAX, 1, 0, 1)]);
}

#[test]
fn ranked_rows_on_a_full_board() {
    let rows =
        simulate_vs_list_with_ranks_monte_carlo("AsKs", "2h7d9cTdJd", "QhQd;8h8s;AdKh", 30, 3).expect("rows");
    assert_eq!(rows[0], (41, 42, 0, 0, 30, [0, 30, 0, 0, 0, 0, 0, 0, 0], [0; 9], [0; 9]));
    assert_eq!(rows[1], (24, 25, 0, 0, 30, [0, 0, 0, 0, 30, 0, 0, 0, 0], [0; 9], [0; 9]));
    assert_eq!(rows[2], (45, 50, 0, 30, 30, [0; 9], [30, 0, 0, 0, 0, 0, 0, 0, 0], [0; 9]));
    assert_eq!(
        rows[3],
        (
            u32::MAX,
            u32::MAX,
            0,
            30,
            90,
            [0; 9],
            [30, 0, 0, 0, 0, 0, 0, 0, 0],
            [0, 30, 0, 0, 30, 0, 0, 0, 0]
        )
    );
}

#[test]
fn ranked_rows_add_up() {
    let rows = simulate_vs_list_with_ranks_monte_carlo("AsKs", "2h 7d", "QhQd;AhKd;JcTc", 500, 11)
        .expect("rows");
    assert_eq!(rows.len(), 4);
    for row in &rows[..3] {
        assert_eq!(row.4, 500);
        assert_eq!(row.5.iter().sum::<u32>(), row.4 - row.2 - row.3);
        assert_eq!(row.6.iter().sum::<u32>(), row.3);
        assert_eq!(row.7.iter().sum::<u32>(), row.2);
    }
    assert!(rows[1].3 > 300);
    for row in &rows[..3] {
        assert_eq!(row.5.iter().sum::<u32>() + row.6.iter().sum::<u32>() + row.7.iter().sum::<u32>(), row.4);
    }
    let hero = rows[3];
    assert_eq!(hero.4, 1500);
    for c in 0..9 {
        assert_eq!(hero.5[c], rows[..3].iter().map(|r| r.7[c]).sum::<u32>());
        assert_eq!(hero.6[c], rows[..3].iter().map(|r| r.6[c]).sum::<u32>());
        assert_eq!(hero.7[c], rows[..3].iter().map(|r| r.5[c]).sum::<u32>());
    }
}

#[test]
fn outside_simulations_report_progress_and_errors() {
    let mut seen = Vec::new();
    simulate_vs_list_equity_with_progress("AsKs", "", "QhQd;JcTc", 50, 1, Some(|p: u32| seen.push(p)))
        .expect("rows");
    assert_eq!(seen, (0..=100).collect::<Vec<u32>>());
    let mut seen = Vec::new();
    simulate_vs_list_with_ranks_with_progress("AsKs", "", "QhQd;JcTc", 2, 1, Some(|p: u32| seen.push(p)))
        .expect("rows");
    assert_eq!(seen, vec![0, 25, 50, 75, 100]);
    assert_eq!(
        simulate_vs_list_equity("AsAs", "", "QhQd", 5, 1),
        Err("duplicate cards inside hero hand".to_string())
    );
    assert_eq!(
        simulate_vs_list_with_ranks_monte_carlo("AsKs", "", "AsQd", 5, 1),
        Err("opponent overlaps hero".to_string())
    );
}

#[test]
fn counters_count_every_answer() {
    let mut row = GameCounters::new(false);
    let mut hero = GameCounters::new(true);
    let answers = [
        GameResult { hero_win: true, opp_win: false, rank: HandRank::Flush },
        GameResult { hero_win: true, opp_win: true, rank: HandRank::Straight },
        GameResult { hero_win: false, opp_win: true, rank: HandRank::OnePair },
        GameResult { hero_win: false, opp_win: false, rank: HandRank::HighCard },
        GameResult { hero_win: true, opp_win: false, rank: HandRank::Flush },
    ];
    for g in answers {
        row.record(g);
        hero.record(g);
    }
    assert_eq!((row.wins, row.ties, row.plays), (2, 1, 5));
    assert_eq!((hero.wins, hero.ties, hero.plays), (2, 1, 5));
    assert_eq!(row.rank_wins, [0, 1, 0, 0, 0, 0, 0, 0, 0]);
    assert_eq!(row.rank_ties, [0, 0, 0, 0, 1, 0, 0, 0, 0]);
    assert_eq!(row.rank_lose, [0, 0, 0, 0, 0, 2, 0, 0, 0]);
    assert_eq!(hero.rank_wins, [0, 0, 0, 0, 0, 2, 0, 0, 0]);
    assert_eq!(hero.rank_ties, [0, 0, 0, 0, 1, 0, 0, 0, 0]);
    assert_eq!(hero.rank_lose, [0, 1, 0, 0, 0, 0, 0, 0, 0]);
}
