use poker_equity::boundary::{
    encode_sim_card, evaluate_hands_ranking, may_precede, rank_hand, read_text, run_equity,
    run_multi_equity, run_parse_range, run_range_equity, run_rank_distribution, run_simulation,
    run_simulation_trace, select_rows, stats_record, validate_hand_board, write_out, INVALID_INPUT,
    NOT_TEXT_1, NOT_TEXT_2, NOT_TEXT_3, TOO_SMALL,
};
use poker_equity::sim::card::Card;
use poker_equity::sim::simulate_vs_list::{simulate_vs_list_with_ranks, simulate_vs_list_with_ranks_trace, StatsRow};

#[test]
fn bytes_that_are_text() {
    assert_eq!(read_text(b"As Kd"), Some("As Kd"));
    assert_eq!(read_text(b""), Some(""));
    assert_eq!(read_text("8\u{3000}é".as_bytes()), Some("8\u{3000}é"));
    assert_eq!(read_text(&[0xff]), None);
    assert_eq!(read_text(&[b'A', 0xc3]), None);
    assert_eq!(read_text(&[0xed, 0xa0, 0x80]), None);
}

#[test]
fn ranking_puts_the_best_hand_first() {
    let flat = evaluate_hands_ranking(b"AsKs;7h7d;2c3c", b"2h7c9c", 27).expect("ranking");
    assert_eq!(
        flat,
        vec![
            21, 22, 3, 0x3570_0000, 5, 7, 0, 0, 0, //
            3, 7, 1, 0x1075_1000, 0, 7, 5, 1, 0, //
            48, 44, 0, 0x0cb7_5000, 12, 11, 7, 5, 0,
        ]
    );
    let more = evaluate_hands_ranking(b"AsKs;7h7d;2c3c", b"2h7c9c", 1000).expect("ranking");
    assert_eq!(more, flat);
}

#[test]
fn ranking_breaks_ties_by_the_cards() {
    let flat = evaluate_hands_ranking(b"2c3c;3d2d;2d3d;2c3c", b"AhKhQhJhTh", 36).expect("ranking");
    let firsts: Vec<(u32, u32)> = flat.chunks(9).map(|r| (r[0], r[1])).collect();
    assert_eq!(firsts, vec![(2, 6), (3, 7), (3, 7), (6, 2)]);
    for r in flat.chunks(9) {
        assert_eq!(&r[2..], &[8, 0x8c00_0000, 12, 0, 0, 0, 0]);
    }
}

#[test]
fn ranking_codes() {
    assert_eq!(evaluate_hands_ranking(&[0xff], b"2h7c9c", 100), Err(NOT_TEXT_1));
    assert_eq!(evaluate_hands_ranking(&[0xff], &[0xff], 100), Err(NOT_TEXT_1));
    assert_eq!(evaluate_hands_ranking(b"AsKs", &[0xff], 100), Err(NOT_TEXT_2));
    assert_eq!(evaluate_hands_ranking(b"", b"2h7c9c", 100), Err(INVALID_INPUT));
    assert_eq!(evaluate_hands_ranking(b"AsK", b"2h7c9c", 100), Err(INVALID_INPUT));
    assert_eq!(evaluate_hands_ranking(b"AsKs", b"2h7c", 100), Err(INVALID_INPUT));
    assert_eq!(evaluate_hands_ranking(b"AsKs", b"2h7c9c2d3d4d", 100), Err(INVALID_INPUT));
    assert_eq!(evaluate_hands_ranking(b"AsKs", b"2h7c2h", 100), Err(INVALID_INPUT));
    assert_eq!(evaluate_hands_ranking(b"AsAs", b"2h7c9c", 100), Err(INVALID_INPUT));
    assert_eq!(evaluate_hands_ranking(b"As2h", b"2h7c9c", 100), Err(INVALID_INPUT));
    assert_eq!(evaluate_hands_ranking(b"AsKs;As2h", b"2h7c9c", 0), Err(INVALID_INPUT));
    assert_eq!(evaluate_hands_ranking(b"AsKs;AdKd", b"2h7c9c", 17), Err(TOO_SMALL));
    assert!(evaluate_hands_ranking(b"AsKs;AdKd", b"2h7c9c", 18).is_ok());
    assert_eq!(evaluate_hands_ranking(b"AsKs", b"2h7c9c", 0), Err(TOO_SMALL));
}

#[test]
fn hands_against_a_board() {
    let a = Card { rank: 12, suit: 0 };
    let k = Card { rank: 11, suit: 0 };
    let q = Card { rank: 10, suit: 1 };
    assert_eq!(validate_hand_board(&[a, k], &[q]), Ok(()));
    assert_eq!(validate_hand_board(&[a, k], &[]), Ok(()));
    assert_eq!(validate_hand_board(&[a, a], &[q]), Err(-5));
    assert_eq!(validate_hand_board(&[a, k], &[q, k]), Err(-5));
    assert_eq!(validate_hand_board(&[a, k], &[a, q]), Err(-5));
    assert_eq!(validate_hand_board(&[a, k], &[q, q]), Err(-5));
    assert_eq!(encode_sim_card(&q), 41);
    assert_eq!(encode_sim_card(&Card { rank: 0, suit: 0 }), 0);
}

#[test]
fn records_of_a_ranking() {
    let board = [Card { rank: 0, suit: 1 }, Card { rank: 5, suit: 3 }, Card { rank: 7, suit: 3 }];
    let trips = rank_hand(&[Card { rank: 5, suit: 1 }, Card { rank: 5, suit: 2 }], &board);
    assert_eq!(trips, [21, 22, 3, 0x3570_0000, 5, 7, 0, 0, 0]);
    let high = rank_hand(&[Card { rank: 12, suit: 0 }, Card { rank: 11, suit: 0 }], &board);
    assert!(may_precede(&trips, &high));
    assert!(!may_precede(&high, &trips));
    assert!(may_precede(&trips, &trips));
    let mut other = trips;
    other[0] = 20;
    assert!(may_precede(&other, &trips));
    assert!(!may_precede(&trips, &other));
    other[0] = 21;
    other[1] = 23;
    assert!(may_precede(&trips, &other));
    assert!(!may_precede(&other, &trips));
}

#[test]
fn rows_are_written_one_after_the_other() {
    let rows: Vec<[u32; 3]> = vec![[1, 2, 3], [4, 5, 6]];
    assert_eq!(write_out(&rows, 6), Ok(vec![1, 2, 3, 4, 5, 6]));
    assert_eq!(write_out(&rows, 7), Ok(vec![1, 2, 3, 4, 5, 6]));
    assert_eq!(write_out(&rows, 5), Err(TOO_SMALL));
    let none: Vec<[u32; 3]> = vec![];
    assert_eq!(write_out(&none, 0), Ok(vec![]));
    let row: StatsRow = (1, 2, 3, 4, 5, [10, 11, 12, 13, 14, 15, 16, 17, 18], [20; 9], [30, 31, 32, 33, 34, 35, 36, 37, 38]);
    let mut want = vec![1, 2, 3, 4, 5, 10, 11, 12, 13, 14, 15, 16, 17, 18];
    want.extend([20; 9]);
    want.extend([30, 31, 32, 33, 34, 35, 36, 37, 38]);
    assert_eq!(stats_record(&row).to_vec(), want);
}

#[test]
fn simulation_through_the_boundary() {
    let run = |cap: usize| {
        run_simulation(b"5s 5h", b"8d Qc 5c", b"Kc Ks; Qs Qh", cap, |h, b, c| {
            simulate_vs_list_with_ranks(h, b, c, 300, 42).map_err(|_| INVALID_INPUT)
        })
    };
    let flat = run(96).expect("numbers");
    assert_eq!(flat.len(), 96);
    assert_eq!(&flat[..5], &[44, 47, 261, 0, 300]);
    assert_eq!(&flat[5..14], &[0, 0, 0, 24, 0, 11, 4, 0, 0]);
    assert_eq!(&flat[14..23], &[0; 9]);
    assert_eq!(&flat[23..32], &[0, 156, 101, 0, 0, 3, 1, 0, 0]);
    assert_eq!(&flat[32..37], &[40, 41, 13, 0, 300]);
    assert_eq!(&flat[64..69], &[u32::MAX, u32::MAX, 274, 0, 600]);
    assert_eq!(run(95), Err(TOO_SMALL));
    assert_eq!(run(0), Err(TOO_SMALL));

    let called = std::cell::Cell::new(false);
    let runner = |_: &str, _: &str, _: &str| -> Result<Vec<StatsRow>, i32> {
        called.set(true);
        Err(-5)
    };
    assert_eq!(run_simulation(&[0xff], b"", b"", 10, runner), Err(NOT_TEXT_1));
    assert_eq!(run_simulation(b"", &[0xff], &[0xff], 10, runner), Err(NOT_TEXT_2));
    assert_eq!(run_simulation(b"", b"", &[0xff], 10, runner), Err(NOT_TEXT_3));
    assert!(!called.get());
    assert_eq!(run_simulation(b"AsAs", b"", b"KdKc", 0, |h, b, c| {
        simulate_vs_list_with_ranks(h, b, c, 300, 42).map_err(|_| INVALID_INPUT)
    }), Err(INVALID_INPUT));
    assert_eq!(run_simulation(b"", b"", b"", 10, runner), Err(-5));
    assert!(called.get());
}

#[test]
fn trace_through_the_boundary() {
    let flat = run_simulation_trace(b"AsKs", b"2h7d9c", b"QhQd;JcTc", 66, |h, b, c| {
        simulate_vs_list_with_ranks_trace(h, b, c, 3, 7).map_err(|_| INVALID_INPUT)
    })
    .expect("numbers");
    assert_eq!(flat.len(), 66);
    assert_eq!(&flat[..11], &[48, 44, 1, 22, 31, 24, 9, 41, 42, 1, 1]);
    assert_eq!(&flat[55..], &[48, 44, 1, 22, 31, 17, 45, 39, 35, 0, 1]);
    let small = run_simulation_trace(b"AsKs", b"2h7d9c", b"QhQd;JcTc", 65, |h, b, c| {
        simulate_vs_list_with_ranks_trace(h, b, c, 3, 7).map_err(|_| INVALID_INPUT)
    });
    assert_eq!(small, Err(TOO_SMALL));
    let bad = run_simulation_trace(b"AsKs", &[0x80], b"QhQd", 65, |_, _, _| Ok(vec![]));
    assert_eq!(bad, Err(NOT_TEXT_2));
}

#[test]
fn other_runners_write_their_rows() {
    let got = run_rank_distribution(b"a", b"b", 18, |h, b| {
        assert_eq!((h, b), ("a", "b"));
        Ok(vec![[1; 9], [2; 9]])
    });
    assert_eq!(got.map(|f| f.len()), Ok(18));
    assert_eq!(run_rank_distribution(&[0xff], b"b", 18, |_, _| Ok(vec![])), Err(NOT_TEXT_1));
    assert_eq!(run_rank_distribution(b"a", &[0xff], 18, |_, _| Ok(vec![])), Err(NOT_TEXT_2));
    assert_eq!(run_rank_distribution(b"a", b"b", 8, |_, _| Ok(vec![[1; 9]])), Err(TOO_SMALL));

    let got = run_equity(b"h", b"b", b"c", 7, 10, |h, b, c, n| {
        assert_eq!((h, b, c, n), ("h", "b", "c", 7));
        Ok(vec![(1, 2, 3, 4, 5), (6, 7, 8, 9, 10)])
    });
    assert_eq!(got, Ok(vec![1, 2, 3, 4, 5, 6, 7, 8, 9, 10]));
    assert_eq!(run_equity(b"h", b"b", &[0xff], 7, 10, |_, _, _, _| Ok(vec![])), Err(NOT_TEXT_3));
    assert_eq!(run_equity(b"h", b"b", b"c", 7, 4, |_, _, _, _| Ok(vec![(1, 2, 3, 4, 5)])), Err(TOO_SMALL));
    assert_eq!(run_equity(b"h", b"b", b"c", 7, 4, |_, _, _, _| Err(-9)), Err(-9));

    assert_eq!(run_multi_equity(b"h", b"b", 6, |_, _| Ok(vec![(1, 2, 3), (4, 5, 6)])), Ok(vec![1, 2, 3, 4, 5, 6]));
    assert_eq!(run_multi_equity(b"h", &[0xff], 6, |_, _| Ok(vec![])), Err(NOT_TEXT_2));
    assert_eq!(run_multi_equity(b"h", b"b", 2, |_, _| Ok(vec![(1, 2, 3)])), Err(TOO_SMALL));

    assert_eq!(
        run_range_equity(b"h", b"v", b"b", 8, |h, v, b| {
            assert_eq!((h, v, b), ("h", "v", "b"));
            Ok(vec![(1, 2, 3, 4), (5, 6, 7, 8)])
        }),
        Ok(vec![1, 2, 3, 4, 5, 6, 7, 8])
    );
    assert_eq!(run_range_equity(b"h", &[0xff], b"b", 8, |_, _, _| Ok(vec![])), Err(NOT_TEXT_2));
    assert_eq!(run_range_equity(b"h", b"v", &[0xff], 8, |_, _, _| Ok(vec![])), Err(NOT_TEXT_3));

    assert_eq!(run_parse_range(b"KQo+", 4, |r| {
        assert_eq!(r, "KQo+");
        Ok(vec![(1, 2), (3, 4)])
    }), Ok(vec![1, 2, 3, 4]));
    assert_eq!(run_parse_range(&[0xff], 4, |_| Ok(vec![])), Err(NOT_TEXT_1));
    assert_eq!(run_parse_range(b"x", 1, |_| Ok(vec![(1, 2)])), Err(TOO_SMALL));
    assert_eq!(run_parse_range(b"x", 1, |_| Err(-5)), Err(INVALID_INPUT));
}

#[test]
fn rows_that_a_host_asked_for() {
    let rows = vec![(1, 2, 3, 4, 5), (6, 7, 8, 9, 10), (u32::MAX, u32::MAX, 11, 13, 15)];
    assert_eq!(select_rows(rows.clone(), true), rows);
    assert_eq!(select_rows(rows.clone(), false), vec![(u32::MAX, u32::MAX, 11, 13, 15)]);
    assert_eq!(select_rows(vec![], false), vec![]);
}
