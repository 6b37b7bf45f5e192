use poker_equity::sim::progress::{capped_product, Callback, Progress, Reporter, Run, Silent};
use poker_equity::sim::simulate_vs_list::simulate_vs_list_with_ranks_inner;
use poker_equity::sim::trial::{bump, Counters};
use poker_equity::sim::eval::{evaluate_five, HandRank, HandScore};
use poker_equity::sim::card::Card;

#[test]
fn tracker_reports_each_new_percentage_once() {
    let mut p = Progress::new(4, 50);
    assert_eq!(p.units(), 200);
    assert_eq!(p.update(0), Some(0));
    assert_eq!(p.update(0), None);
    assert_eq!(p.update(1), None);
    assert_eq!(p.update(2), Some(1));
    assert_eq!(p.update(3), None);
    assert_eq!(p.update(199), Some(99));
    assert_eq!(p.update(200), Some(100));
    assert_eq!(p.update(200), None);
    assert_eq!(p.update(5000), None);
    assert_eq!(p.update(100), Some(50));
}

#[test]
fn tracker_of_no_work_has_one_unit() {
    assert_eq!(Progress::new(0, 10).units(), 1);
    assert_eq!(Progress::new(3, 0).units(), 1);
    let mut p = Progress::new(0, 0);
    assert_eq!(p.update(0), Some(0));
    assert_eq!(p.update(1), Some(100));
}

#[test]
fn tracker_caps_large_numbers() {
    let mut p = Progress::new(usize::MAX, u32::MAX);
    if usize::BITS == 64 {
        assert_eq!(p.units(), u64::MAX);
        assert_eq!(p.update(u64::MAX), Some(1));
        assert_eq!(p.update(u64::MAX / 100), Some(0));
    }
    assert_eq!(capped_product(0, u64::MAX), 0);
    assert_eq!(capped_product(3, 5), 15);
    assert_eq!(capped_product(u64::MAX, 2), u64::MAX);
    assert_eq!(capped_product(1 << 32, 1 << 32), u64::MAX);
    assert_eq!(capped_product(1 << 32, (1 << 32) - 1), u64::MAX - (1 << 32) + 1);
    let mut one = Progress::new(1, 1);
    assert_eq!(one.update((1 << 32) + 7), Some(100));
    assert_eq!(one.update(42949673), Some(4));
}

#[test]
fn a_count_stays_at_the_top() {
    assert_eq!(bump(0), 1);
    assert_eq!(bump(u32::MAX - 1), u32::MAX);
    assert_eq!(bump(u32::MAX), u32::MAX);
}

fn score(rank: HandRank, encoded: u32) -> HandScore {
    HandScore { rank, kickers: [0; 5], encoded }
}

#[test]
fn counters_take_the_categories_from_their_side() {
    let mut opp = Counters::new(false);
    let mut hero = Counters::new(true);
    let shows = [
        (score(HandRank::Flush, 9), score(HandRank::OnePair, 5)),
        (score(HandRank::TwoPair, 4), score(HandRank::Straight, 7)),
        (score(HandRank::HighCard, 3), score(HandRank::HighCard, 3)),
        (score(HandRank::Flush, 9), score(HandRank::TwoPair, 6)),
    ];
    for (h, o) in &shows {
        opp.record(h, o);
        hero.record(h, o);
    }
    assert_eq!((opp.wins, opp.ties, opp.plays), (2, 1, 4));
    assert_eq!((hero.wins, hero.ties, hero.plays), (2, 1, 4));
    assert_eq!(opp.rank_wins, [0, 0, 0, 0, 1, 0, 0, 0, 0]);
    assert_eq!(opp.rank_ties, [1, 0, 0, 0, 0, 0, 0, 0, 0]);
    assert_eq!(opp.rank_lose, [0, 1, 1, 0, 0, 0, 0, 0, 0]);
    assert_eq!(hero.rank_wins, [0, 0, 0, 0, 0, 2, 0, 0, 0]);
    assert_eq!(hero.rank_ties, [1, 0, 0, 0, 0, 0, 0, 0, 0]);
    assert_eq!(hero.rank_lose, [0, 0, 1, 0, 0, 0, 0, 0, 0]);
    let royal = evaluate_five(&[
        Card { rank: 12, suit: 1 },
        Card { rank: 11, suit: 1 },
        Card { rank: 10, suit: 1 },
        Card { rank: 9, suit: 1 },
        Card { rank: 8, suit: 1 },
    ]);
    opp.record(&royal, &royal);
    assert_eq!(opp.rank_ties[8], 1);
}

#[test]
fn a_run_reports_through_its_reporter() {
    let mut seen = Vec::new();
    {
        let mut sink = Callback::new(Some(|p: u32| seen.push(p)));
        let mut run = Run::start(2, 3, &mut sink);
        for _ in 0..6 {
            run.step(&mut sink);
        }
        run.finish(&mut sink);
    }
    assert_eq!(seen, vec![0, 16, 33, 50, 66, 83, 100]);

    let mut seen = Vec::new();
    {
        let mut sink = Callback::new(Some(|p: u32| seen.push(p)));
        let mut run = Run::start(1, 400, &mut sink);
        for _ in 0..200 {
            run.step(&mut sink);
        }
        run.finish(&mut sink);
    }
    let mut want: Vec<u32> = (0..=50).collect();
    want.push(100);
    assert_eq!(seen, want);

    let mut quiet = Silent::new();
    let mut run = Run::start(0, 0, &mut quiet);
    run.finish(&mut quiet);
    quiet.report(7);
    let mut none = Callback::new(None::<fn(u32)>);
    none.report(3);
}

#[test]
fn a_simulation_reports_to_any_reporter() {
    let mut seen = Vec::new();
    let rows = {
        let mut sink = Callback::new(Some(|p: u32| seen.push(p)));
        simulate_vs_list_with_ranks_inner("AsKs", "", "QhQd;JcTc;2c2d", 1, 42, &mut sink).expect("rows")
    };
    assert_eq!(rows.len(), 4);
    assert_eq!(seen, vec![0, 33, 66, 100]);
    let mut seen = Vec::new();
    {
        let mut sink = Callback::new(Some(|p: u32| seen.push(p)));
        assert!(simulate_vs_list_with_ranks_inner("AsAs", "", "QhQd", 1, 42, &mut sink).is_err());
    }
    assert!(seen.is_empty());
}
