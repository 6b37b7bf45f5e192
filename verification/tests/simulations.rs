use std::cell::RefCell;

use poker_equity::sim::categories;
use poker_equity::sim::rank_distribution::simulate_rank_distribution;
use poker_equity::sim::simulate_vs_list::{
    simulate_vs_list_with_ranks, simulate_vs_list_with_ranks_trace,
    simulate_vs_list_with_ranks_with_progress, StatsRow,
};

const LIST: &str = "Kc Ks; Qs Qh; Qs Jh; 9c 9h; 5d 8h";

#[test]
fn three_way_rows_are_the_known_ones() {
    let rows = simulate_vs_list_with_ranks("5s 5h", "8d Qc 5c", LIST, 300, 42).expect("rows");
    let want: Vec<StatsRow> = vec![
        (44, 47, 261, 0, 300, [0, 0, 0, 24, 0, 11, 4, 0, 0], [0; 9], [0, 156, 101, 0, 0, 3, 1, 0, 0]),
        (40, 41, 13, 0, 300, [0, 0, 0, 222, 0, 0, 54, 11, 0], [0; 9], [0, 0, 0, 0, 0, 0, 13, 0, 0]),
        (37, 40, 288, 0, 300, [0, 0, 0, 0, 7, 0, 5, 0, 0], [0; 9], [0, 174, 89, 24, 0, 0, 1, 0, 0]),
        (29, 31, 256, 0, 300, [0, 0, 0, 18, 12, 11, 3, 0, 0], [0; 9], [0, 141, 114, 0, 0, 1, 0, 0, 0]),
        (14, 25, 268, 0, 300, [0, 0, 0, 0, 0, 0, 30, 2, 0], [0; 9], [0, 0, 268, 0, 0, 0, 0, 0, 0]),
        (
            u32::MAX,
            u32::MAX,
            1086,
            0,
            1500,
            [0, 0, 0, 717, 0, 0, 317, 52, 0],
            [0; 9],
            [0, 0, 0, 305, 0, 0, 108, 1, 0],
        ),
    ];
    assert_eq!(rows, want);
}

#[test]
fn preflop_rows_are_the_known_ones() {
    let rows = simulate_vs_list_with_ranks("AhAd", "", "KsKc;7s2d", 100, 0).expect("rows");
    assert_eq!(rows.len(), 3);
    assert_eq!(
        rows[0],
        (44, 47, 83, 0, 100, [0, 0, 0, 9, 1, 1, 4, 2, 0], [0; 9], [0, 34, 40, 3, 0, 1, 5, 0, 0])
    );
    assert_eq!(
        rows[1],
        (2, 20, 89, 0, 100, [0, 0, 5, 2, 3, 0, 0, 1, 0], [0; 9], [21, 43, 21, 4, 0, 0, 0, 0, 0])
    );
    assert_eq!(
        rows[2],
        (
            u32::MAX,
            u32::MAX,
            172,
            0,
            200,
            [0, 55, 65, 25, 2, 2, 23, 0, 0],
            [0; 9],
            [0, 16, 8, 2, 0, 1, 1, 0, 0]
        )
    );
}

#[test]
fn wins_ties_and_losses_add_up_to_the_trials() {
    let rows = simulate_vs_list_with_ranks("AsKs", "2h 7d", "QhQd;AhKd;JcTc", 400, 11).expect("rows");
    assert_eq!(rows.len(), 4);
    for row in &rows[..3] {
        let (_, _, wins, ties, plays, by_win, by_tie, by_loss) = row;
        assert_eq!(*plays, 400);
        assert!(wins + ties <= *plays);
        let losses = plays - wins - ties;
        assert_eq!(wins + ties + losses, *plays);
        assert_eq!(by_win.iter().sum::<u32>(), losses);
        assert_eq!(by_tie.iter().sum::<u32>(), *ties);
        assert_eq!(by_loss.iter().sum::<u32>(), *wins);
    }
    let hero = rows[3];
    assert_eq!(hero.0, u32::MAX);
    assert_eq!(hero.1, u32::MAX);
    assert_eq!(hero.2, rows[..3].iter().map(|r| r.2).sum::<u32>());
    assert_eq!(hero.3, rows[..3].iter().map(|r| r.3).sum::<u32>());
    assert_eq!(hero.4, 1200);
    assert!(hero.3 > 0);
    assert_eq!(hero.5.iter().sum::<u32>(), hero.2);
    assert_eq!(hero.6.iter().sum::<u32>(), hero.3);
    assert_eq!(hero.7.iter().sum::<u32>(), hero.4 - hero.2 - hero.3);
}

#[test]
fn same_input_same_rows() {
    let a = simulate_vs_list_with_ranks("5s 5h", "8d Qc 5c", LIST, 150, 7).expect("rows");
    let b = simulate_vs_list_with_ranks("5s 5h", "8d Qc 5c", LIST, 150, 7).expect("rows");
    assert_eq!(a, b);
    let other = simulate_vs_list_with_ranks("5s 5h", "8d Qc 5c", LIST, 150, 9).expect("rows");
    assert_ne!(a, other);
    let even = simulate_vs_list_with_ranks("5s 5h", "8d Qc 5c", LIST, 150, 6).expect("rows");
    assert_eq!(a, even);
}

#[test]
fn full_board_plays_every_trial_on_the_same_board() {
    let rows = simulate_vs_list_with_ranks("AsKs", "2h7d9cTdJd", "QhQd;8h8s", 50, 3).expect("rows");
    assert_eq!(
        rows,
        vec![
            (41, 42, 0, 0, 50, [0, 50, 0, 0, 0, 0, 0, 0, 0], [0; 9], [0; 9]),
            (24, 25, 0, 0, 50, [0, 0, 0, 0, 50, 0, 0, 0, 0], [0; 9], [0; 9]),
            (u32::MAX, u32::MAX, 0, 0, 100, [0; 9], [0; 9], [100, 0, 0, 0, 0, 0, 0, 0, 0]),
        ]
    );
    let records = simulate_vs_list_with_ranks_trace("AsKs", "2h7d9cTdJd", "QhQd", 2, 1).expect("records");
    assert_eq!(records, vec![[48, 44, 1, 22, 31, 34, 38, 41, 42, 1, 1]; 2]);
}

#[test]
fn zero_trials_run_one() {
    let rows = simulate_vs_list_with_ranks("AsKs", "", "QhQd", 0, 5).expect("rows");
    assert_eq!(rows[0].4, 1);
    assert_eq!(rows[1].4, 1);
    assert_eq!(rows, simulate_vs_list_with_ranks("AsKs", "", "QhQd", 1, 5).expect("rows"));
    let records = simulate_vs_list_with_ranks_trace("AsKs", "", "QhQd", 0, 5).expect("records");
    assert_eq!(records.len(), 1);
}

#[test]
fn trace_notes_every_trial() {
    let records = simulate_vs_list_with_ranks_trace("AsKs", "2h7d9c", "QhQd;JcTc", 3, 7).expect("records");
    let want: Vec<[u32; 11]> = vec![
        [48, 44, 1, 22, 31, 24, 9, 41, 42, 1, 1],
        [48, 44, 1, 22, 31, 4, 33, 41, 42, 1, 1],
        [48, 44, 1, 22, 31, 51, 38, 41, 42, 0, 1],
        [48, 44, 1, 22, 31, 41, 3, 39, 35, 0, 1],
        [48, 44, 1, 22, 31, 2, 19, 39, 35, 0, 1],
        [48, 44, 1, 22, 31, 17, 45, 39, 35, 0, 1],
    ];
    assert_eq!(records, want);
}

#[test]
fn trace_agrees_with_the_rows() {
    let rows = simulate_vs_list_with_ranks("5s 5h", "8d Qc 5c", LIST, 120, 42).expect("rows");
    let records = simulate_vs_list_with_ranks_trace("5s 5h", "8d Qc 5c", LIST, 120, 42).expect("records");
    assert_eq!(records.len(), 5 * 120);
    for (k, row) in rows[..5].iter().enumerate() {
        let mine = &records[k * 120..(k + 1) * 120];
        assert_eq!(mine.iter().filter(|r| r[9] == 0).count() as u32, row.2);
        assert_eq!(mine.iter().filter(|r| r[9] == 2).count() as u32, row.3);
        for c in 0..9u32 {
            let won = mine.iter().filter(|r| r[9] == 1 && r[10] == c).count() as u32;
            assert_eq!(won, row.5[c as usize]);
        }
        for r in mine {
            assert_eq!((r[0], r[1]), (12, 13));
            assert_eq!((r[2], r[3], r[4]), (26, 43, 15));
            assert_eq!((r[7].min(r[8]), r[7].max(r[8])), (row.0, row.1));
        }
    }
}

#[test]
fn progress_rises_from_0_to_100() {
    let seen = RefCell::new(Vec::new());
    let rows = simulate_vs_list_with_ranks_with_progress(
        "5s 5h",
        "8d Qc 5c",
        LIST,
        300,
        42,
        Some(|p: u32| seen.borrow_mut().push(p)),
    )
    .expect("rows");
    assert_eq!(rows, simulate_vs_list_with_ranks("5s 5h", "8d Qc 5c", LIST, 300, 42).expect("rows"));
    let seen = seen.into_inner();
    assert_eq!(seen, (0..=100).collect::<Vec<u32>>());
}

#[test]
fn progress_of_few_trials_skips_values() {
    let mut seen = Vec::new();
    simulate_vs_list_with_ranks_with_progress("AsKs", "", "QhQd;JcTc;2c2d", 1, 42, Some(|p: u32| seen.push(p)))
        .expect("rows");
    assert_eq!(seen, vec![0, 33, 66, 100]);
    let none: Option<fn(u32)> = None;
    let quiet = simulate_vs_list_with_ranks_with_progress("AsKs", "", "QhQd;JcTc;2c2d", 1, 42, none);
    assert_eq!(quiet, simulate_vs_list_with_ranks("AsKs", "", "QhQd;JcTc;2c2d", 1, 42));
}

#[test]
fn category_rows_are_the_known_ones() {
    let rows = categories::simulate_vs_list_with_ranks("5s 5h", "8d Qc 5c", LIST, 300, 42).expect("rows");
    let want: Vec<categories::RankRow> = vec![
        (44, 47, 261, 0, 300, [0, 156, 101, 24, 0, 14, 5, 0, 0]),
        (40, 41, 13, 0, 300, [0, 0, 0, 222, 0, 0, 67, 11, 0]),
        (37, 40, 288, 0, 300, [0, 174, 89, 24, 7, 0, 6, 0, 0]),
        (29, 31, 256, 0, 300, [0, 141, 114, 18, 12, 12, 3, 0, 0]),
        (14, 25, 268, 0, 300, [0, 0, 268, 0, 0, 0, 30, 2, 0]),
        (u32::MAX, u32::MAX, 1086, 0, 1500, [0, 0, 0, 1055, 0, 0, 390, 55, 0]),
    ];
    assert_eq!(rows, want);
}

#[test]
fn category_rows_of_one_opponent_are_not_scaled() {
    let rows = categories::simulate_vs_list_with_ranks("AsKs", "2h7d9c", "QhQd", 80, 4).expect("rows");
    assert_eq!(rows.len(), 2);
    assert_eq!(rows[0].5.iter().sum::<u32>(), 80);
    assert_eq!(rows[1].5.iter().sum::<u32>(), 80);
    let two = categories::simulate_vs_list_with_ranks("AsKs", "2h7d9c", "QhQd;JcTc", 80, 4).expect("rows");
    assert_eq!(two[2].5.iter().sum::<u32>(), 160);
    assert!(two[2].5.iter().all(|n| n % 2 == 0));
}

#[test]
fn distribution_is_the_known_one() {
    let counts = simulate_rank_distribution("AsKs;7h7d", "2h7c9c", 200, 9).expect("counts");
    assert_eq!(counts, vec![[87, 95, 17, 1, 0, 0, 0, 0, 0], [0, 0, 0, 130, 0, 0, 64, 6, 0]]);
    let again = simulate_rank_distribution("AsKs;7h7d", "2h7c9c", 200, 9).expect("counts");
    assert_eq!(counts, again);
}

#[test]
fn distribution_without_a_board() {
    let counts = categories::simulate_rank_distribution("AsKs;7h7d;2c3c", "", 150, 5).expect("counts");
    assert_eq!(
        counts,
        vec![
            [28, 63, 31, 5, 11, 11, 1, 0, 0],
            [0, 46, 64, 22, 5, 2, 10, 1, 0],
            [27, 62, 36, 5, 5, 8, 6, 1, 0]
        ]
    );
    for row in &counts {
        assert_eq!(row.iter().sum::<u32>(), 150);
    }
    let flop = categories::simulate_rank_distribution("AsKs;7h7d", "2h7c9c", 200, 9).expect("counts");
    assert_eq!(flop, simulate_rank_distribution("AsKs;7h7d", "2h7c9c", 200, 9).expect("counts"));
}

#[test]
fn distribution_on_a_full_board() {
    let counts = simulate_rank_distribution("AsKs;QhQd", "2h7d9cTdJd", 25, 1).expect("counts");
    assert_eq!(counts, vec![[25, 0, 0, 0, 0, 0, 0, 0, 0], [0, 25, 0, 0, 0, 0, 0, 0, 0]]);
}
