//! The hero against each hand of a list, one after the other: wins, ties and
//! trials for each opponent, how often the opponent won, tied and lost with a
//! hand of each category, and a last row that sums up the hero.

use vstd::prelude::*;
use vstd::slice::slice_to_vec;
use crate::sim::card::Card;
use crate::sim::deck::{
    build_deck, card_code, code_pair, decode_hand_pair, deck_without, encode_card,
};
use crate::sim::eval::HandRank;
use crate::sim::inputs::{matchup_cards_valid, matchup_of, read_matchup, Matchup};
use crate::sim::parse::{hand_pair, hand_pairs};
use crate::sim::progress::{
    reports_of_run, takes_percent, work_units, Callback, Reporter, Run, Silent,
};
use crate::sim::rng::{seeded, Lcg64};
use crate::sim::trial::{
    all_valid, board_at, count_if, counts_of, deal_board, decide, ended, excluded,
    lemma_count_bound, lemma_count_concat, lemma_outcomes_add_up, outcome_of, play_out,
    showdown_at, showdowns, state_before, Counters, Duel, Outcome, Showdown,
};

verus! {

/// A row of results: the numbers of the opponent's two cards (the smaller
/// first), the hero's wins, the ties, the trials, and how often the row's
/// side won, tied and lost with a hand of each of the nine categories.
pub type StatsRow = (u32, u32, u32, u32, u32, [u32; 9], [u32; 9], [u32; 9]);

/// The number that marks the hero's row in place of a card.
pub const HERO_ROW: u32 = 0xffff_ffff;

/// The trials that are run: at least one.
pub open spec fn trials_run(trials: u32) -> nat {
    if trials == 0 {
        1
    } else {
        trials as nat
    }
}

/// The hero against opponent `k`, from a given state of the generator.
pub open spec fn duel_of(m: Matchup, k: int, start: u64) -> Duel {
    Duel {
        hero: m.hero,
        opp: m.opponents[k],
        board: m.board,
        deck: deck_without(excluded(m.hero, m.board, m.opponents[k])),
        start,
    }
}

/// The state of the generator when the hero meets opponent `k`: the seed's
/// state for the first, and for each later one the state that the trials
/// against the one before left.
pub open spec fn duel_start(m: Matchup, trials: nat, seed: u64, k: nat) -> u64
    decreases k,
{
    if k == 0 {
        seeded(seed)
    } else {
        let d = duel_of(m, k - 1, duel_start(m, trials, seed, (k - 1) as nat));
        state_before(d.deck, d.start, trials)
    }
}

/// The hero against opponent `k`.
pub open spec fn duel_at(m: Matchup, trials: nat, seed: u64, k: nat) -> Duel {
    duel_of(m, k as int, duel_start(m, trials, seed, k))
}

/// All showdowns of the hero against the first `k` opponents, in the order they are played.
pub open spec fn all_showdowns(m: Matchup, trials: nat, seed: u64, k: nat) -> Seq<Showdown>
    decreases k,
{
    if k == 0 {
        Seq::empty()
    } else {
        all_showdowns(m, trials, seed, (k - 1) as nat) + showdowns(
            duel_at(m, trials, seed, (k - 1) as nat),
            trials,
        )
    }
}

/// The counts of a row are those of the showdowns `s`, the categories taken from one side.
pub open spec fn row_counts(row: StatsRow, s: Seq<Showdown>, hero_side: bool) -> bool {
    counts_of(row.2, row.3, row.4, row.5@, row.6@, row.7@, s, hero_side)
}

/// The row of an opponent: the numbers of its two cards, the smaller
/// first; the counts of the showdowns `s` against it with the categories of
/// its hands; wins and ties together are no more than the trials.
pub open spec fn opponent_row(row: StatsRow, opp: (Card, Card), s: Seq<Showdown>) -> bool {
    &&& (row.0, row.1) == code_pair(opp)
    &&& row_counts(row, s, false)
    &&& row.2 + row.3 <= row.4
}

/// The rows are the results of the matchup: one row for each opponent, in
/// their order, with the counts of the trials against it and the categories
/// of its hands; then the hero's row, with the counts of all trials and the
/// categories of the hero's hands.
pub open spec fn vs_list_rows(rows: Seq<StatsRow>, m: Matchup, trials: nat, seed: u64) -> bool {
    let n = m.opponents.len();
    &&& rows.len() == n + 1
    &&& forall|k: int|
        0 <= k < n ==> opponent_row(
            #[trigger] rows[k],
            m.opponents[k],
            showdowns(duel_at(m, trials, seed, k as nat), trials),
        )
    &&& rows[n as int].0 == HERO_ROW
    &&& rows[n as int].1 == HERO_ROW
    &&& row_counts(rows[n as int], all_showdowns(m, trials, seed, n), true)
}

/// In a row that counts fewer showdowns than 32 bits can count, every
/// count is exact: wins, ties and losses add up to the trials.
pub proof fn lemma_counts_add_up(row: StatsRow, s: Seq<Showdown>, hero_side: bool)
    requires
        row_counts(row, s, hero_side),
        s.len() <= u32::MAX,
    ensures
        row.2 == count_if(s, ended(Outcome::HeroWins)),
        row.3 == count_if(s, ended(Outcome::Tie)),
        row.4 == s.len(),
        row.4 - row.2 - row.3 == count_if(s, ended(Outcome::OpponentWins)),
        row.2 + row.3 <= row.4,
{
    reveal(counts_of);
    lemma_outcomes_add_up(s);
    lemma_count_bound(s, ended(Outcome::HeroWins));
    lemma_count_bound(s, ended(Outcome::Tie));
}

/// The sum, over the first `k` opponents, of the showdowns against each that `f` holds of.
pub open spec fn sum_over_opponents(
    m: Matchup,
    trials: nat,
    seed: u64,
    k: nat,
    f: spec_fn(Showdown) -> bool,
) -> nat
    decreases k,
{
    if k == 0 {
        0
    } else {
        sum_over_opponents(m, trials, seed, (k - 1) as nat, f) + count_if(
            showdowns(duel_at(m, trials, seed, (k - 1) as nat), trials),
            f,
        )
    }
}

/// What the hero's row counts is the sum of what the opponents' rows
/// count, and the hero plays every trial against every opponent.
pub proof fn lemma_hero_row_sums(
    m: Matchup,
    trials: nat,
    seed: u64,
    k: nat,
    f: spec_fn(Showdown) -> bool,
)
    ensures
        count_if(all_showdowns(m, trials, seed, k), f) == sum_over_opponents(m, trials, seed, k, f),
        all_showdowns(m, trials, seed, k).len() == k * trials,
    decreases k,
{
    if k > 0 {
        lemma_hero_row_sums(m, trials, seed, (k - 1) as nat, f);
        lemma_count_concat(
            all_showdowns(m, trials, seed, (k - 1) as nat),
            showdowns(duel_at(m, trials, seed, (k - 1) as nat), trials),
            f,
        );
        assert((k - 1) * trials + trials == k * trials) by (nonlinear_arith);
    } else {
        assert(k * trials == 0) by (nonlinear_arith)
            requires
                k == 0,
        ;
    }
}

/// Two rows that count the same showdowns for the same side hold the same numbers.
pub proof fn lemma_same_counts(a: StatsRow, b: StatsRow, s: Seq<Showdown>, hero_side: bool)
    requires
        row_counts(a, s, hero_side),
        row_counts(b, s, hero_side),
    ensures
        a.2 == b.2,
        a.3 == b.3,
        a.4 == b.4,
        a.5@ == b.5@,
        a.6@ == b.6@,
        a.7@ == b.7@,
{
    reveal(counts_of);
    assert(a.5@ =~= b.5@);
    assert(a.6@ =~= b.6@);
    assert(a.7@ =~= b.7@);
}

/// The same texts, trials and seed give the same answer: two answers to
/// them hold the same message, or the same numbers row by row.
pub proof fn lemma_vs_list_deterministic(
    hero: Seq<char>,
    board: Seq<char>,
    list: Seq<char>,
    trials: u32,
    seed: u64,
    r1: Result<Vec<StatsRow>, String>,
    r2: Result<Vec<StatsRow>, String>,
)
    requires
        vs_list_answer(hero, board, list, trials, seed, r1),
        vs_list_answer(hero, board, list, trials, seed, r2),
    ensures
        r1 is Ok == r2 is Ok,
        r1 is Err ==> r1->Err_0@ == r2->Err_0@,
        r1 is Ok ==> r1->Ok_0@.len() == r2->Ok_0@.len() && forall|i: int|
            0 <= i < r1->Ok_0@.len() ==> {
                let a = #[trigger] r1->Ok_0@[i];
                let b = r2->Ok_0@[i];
                a.0 == b.0 && a.1 == b.1 && a.2 == b.2 && a.3 == b.3 && a.4 == b.4 && a.5@ == b.5@
                    && a.6@ == b.6@ && a.7@ == b.7@
            },
{
    if r1 is Ok {
        let m = matchup_of(hero, board, list)->Ok_0;
        let t = trials_run(trials);
        let n = m.opponents.len();
        let rows1 = r1->Ok_0@;
        let rows2 = r2->Ok_0@;
        assert forall|i: int| 0 <= i < rows1.len() implies {
            let a = #[trigger] rows1[i];
            let b = rows2[i];
            a.0 == b.0 && a.1 == b.1 && a.2 == b.2 && a.3 == b.3 && a.4 == b.4 && a.5@ == b.5@
                && a.6@ == b.6@ && a.7@ == b.7@
        } by {
            if i < n {
                let s = showdowns(duel_at(m, t, seed, i as nat), t);
                assert(opponent_row(rows1[i], m.opponents[i], s));
                assert(opponent_row(rows2[i], m.opponents[i], s));
                lemma_same_counts(rows1[i], rows2[i], s, false);
            } else {
                lemma_same_counts(rows1[i], rows2[i], all_showdowns(m, t, seed, n), true);
            }
        }
    }
}

/// What the simulation answers to three texts, a number of trials and a
/// seed: the message of the error where the texts spell no matchup, else the
/// rows of the matchup.
pub open spec fn vs_list_answer(
    hero: Seq<char>,
    board: Seq<char>,
    list: Seq<char>,
    trials: u32,
    seed: u64,
    r: Result<Vec<StatsRow>, String>,
) -> bool {
    match matchup_of(hero, board, list) {
        Err(e) => r matches Err(msg) && msg@ == e.text(),
        Ok(m) => r matches Ok(rows) && vs_list_rows(rows@, m, trials_run(trials), seed),
    }
}

/// The cards that are out of the deck when `hero` meets `opp` on `board`.
pub fn cards_out(hero: &[Card; 2], board: &[Card], opp: &[Card; 2]) -> (out: Vec<Card>)
    ensures
        out@ == excluded(hand_pair(*hero), board@, hand_pair(*opp)),
{
    let mut out = slice_to_vec(board);
    out.push(hero[0]);
    out.push(hero[1]);
    out.push(opp[0]);
    out.push(opp[1]);
    proof {
        assert(out@ =~= excluded(hand_pair(*hero), board@, hand_pair(*opp)));
    }
    out
}

/// Runs the trials of the hero against one opponent, counting for the
/// opponent's row and for the hero's, and reporting progress after each trial.
pub fn run_duel<R: Reporter>(
    hero: &[Card; 2],
    board: &[Card],
    opp: &[Card; 2],
    deck: &[Card],
    trials: u32,
    rng: &mut Lcg64,
    hero_counts: &mut Counters,
    run: &mut Run,
    sink: &mut R,
) -> (counts: Counters)
    requires
        board@.len() <= 5,
        deck@.len() >= 5 - board@.len(),
        all_valid(board@),
        all_valid(deck@),
        all_valid(hero@),
        all_valid(opp@),
        old(hero_counts).wf(),
        old(hero_counts).hero_side,
        old(run).follows(old(sink)),
    ensures
        ({
            let d = Duel {
                hero: hand_pair(*hero),
                opp: hand_pair(*opp),
                board: board@,
                deck: deck@,
                start: old(rng).state(),
            };
            &&& counts.wf()
            &&& !counts.hero_side
            &&& counts.seen@ == showdowns(d, trials as nat)
            &&& final(rng).state() == state_before(deck@, old(rng).state(), trials as nat)
            &&& final(hero_counts).wf()
            &&& final(hero_counts).hero_side
            &&& final(hero_counts).seen@ == old(hero_counts).seen@ + showdowns(d, trials as nat)
        }),
        final(run).follows(final(sink)),
        final(run).steps() == old(run).steps() + trials,
        final(run).base() == old(run).base(),
        final(run).total() == old(run).total(),
{
    let ghost d = Duel {
        hero: hand_pair(*hero),
        opp: hand_pair(*opp),
        board: board@,
        deck: deck@,
        start: rng.state(),
    };
    let ghost before = hero_counts.seen@;
    let mut counts = Counters::new(false);
    let mut t: u32 = 0;
    proof {
        assert(showdowns(d, 0) =~= Seq::<Showdown>::empty());
        assert(before + showdowns(d, 0) =~= before);
    }
    while t < trials
        invariant
            t <= trials,
            d.hero == hand_pair(*hero),
            d.opp == hand_pair(*opp),
            d.board == board@,
            d.deck == deck@,
            board@.len() <= 5,
            deck@.len() >= 5 - board@.len(),
            all_valid(board@),
            all_valid(deck@),
            all_valid(hero@),
            all_valid(opp@),
            run.follows(sink),
            run.steps() == old(run).steps() + t,
            run.base() == old(run).base(),
            run.total() == old(run).total(),
            rng.state() == state_before(d.deck, d.start, t as nat),
            counts.wf(),
            !counts.hero_side,
            counts.seen@ == showdowns(d, t as nat),
            hero_counts.wf(),
            hero_counts.hero_side,
            hero_counts.seen@ == before + showdowns(d, t as nat),
        decreases trials - t,
    {
        let full = deal_board(board, deck, rng);
        let scores = play_out(hero, opp, &full);
        counts.record(&scores.0, &scores.1);
        hero_counts.record(&scores.0, &scores.1);
        proof {
            let x = Showdown { hero: scores.0@, opp: scores.1@ };
            assert(x == showdown_at(d, t as nat));
            assert(showdowns(d, (t + 1) as nat) =~= showdowns(d, t as nat).push(x));
            assert((before + showdowns(d, t as nat)).push(x) =~= before + showdowns(
                d,
                (t + 1) as nat,
            ));
        }
        run.step(sink);
        t += 1;
    }
    counts
}

/// What the reporter has taken once a simulation of three texts has
/// answered: nothing new where the texts spell no matchup; else the reports
/// of a run of one unit of work for each trial against each opponent.
pub open spec fn vs_list_reports(
    hero: Seq<char>,
    board: Seq<char>,
    list: Seq<char>,
    trials: u32,
    before: Seq<u32>,
    after: Seq<u32>,
) -> bool {
    match matchup_of(hero, board, list) {
        Err(e) => after == before,
        Ok(m) => after == before + reports_of_run(
            work_units(m.opponents.len(), trials_run(trials)),
            m.opponents.len() * trials_run(trials),
        ),
    }
}

/// The hero against each hand of a list, with a report of progress.
///
/// The reporter takes the whole percentage of the trials done: 0 before
/// the first trial, then each new value as it is reached.
pub fn simulate_vs_list_with_ranks_inner<R: Reporter>(
    hero_hand_str: &str,
    board_str: &str,
    compare_list: &str,
    trials: u32,
    seed: u64,
    sink: &mut R,
) -> (r: Result<Vec<StatsRow>, String>)
    requires
        old(sink).ready(),
    ensures
        vs_list_answer(hero_hand_str@, board_str@, compare_list@, trials, seed, r),
        final(sink).ready(),
        vs_list_reports(
            hero_hand_str@,
            board_str@,
            compare_list@,
            trials,
            old(sink).reported(),
            final(sink).reported(),
        ),
{
    let (hero, board, opponents) = match read_matchup(hero_hand_str, board_str, compare_list) {
        Ok(got) => got,
        Err(e) => {
            return Err(e.message());
        },
    };
    let ghost m = Matchup {
        hero: hand_pair(hero),
        board: board@,
        opponents: hand_pairs(opponents@),
    };
    let trials: u32 = if trials == 0 {
        1
    } else {
        trials
    };
    let ghost tn = trials as nat;
    let mut run = Run::start(opponents.len(), trials, sink);
    let mut rng = Lcg64::new(seed);
    let mut rows: Vec<StatsRow> = Vec::new();
    let mut hero_counts = Counters::new(true);
    let mut k: usize = 0;
    proof {
        assert(0 * tn == 0) by (nonlinear_arith);
    }
    while k < opponents.len()
        invariant
            k <= opponents@.len(),
            tn == trials,
            m == (Matchup { hero: hand_pair(hero), board: board@, opponents: hand_pairs(opponents@) }),
            matchup_cards_valid(m),
            run.follows(sink),
            run.steps() == k * tn,
            run.base() == old(sink).reported(),
            run.total() == work_units(opponents@.len(), tn),
            rng.state() == duel_start(m, tn, seed, k as nat),
            hero_counts.wf(),
            hero_counts.hero_side,
            hero_counts.seen@ == all_showdowns(m, tn, seed, k as nat),
            rows@.len() == k,
            forall|j: int|
                0 <= j < k ==> opponent_row(
                    #[trigger] rows@[j],
                    m.opponents[j],
                    showdowns(duel_at(m, tn, seed, j as nat), tn),
                ),
        decreases opponents@.len() - k,
    {
        let opp = opponents[k];
        proof {
            assert(m.opponents[k as int] == hand_pair(opp));
            assert(m.opponents[k as int].0.valid() && m.opponents[k as int].1.valid());
            assert(all_valid(hero@));
            assert(all_valid(opp@));
            assert(k * tn + tn == (k + 1) * tn) by (nonlinear_arith);
        }
        let out = cards_out(&hero, board.as_slice(), &opp);
        let deck = build_deck(out.as_slice());
        let counts = run_duel(
            &hero,
            board.as_slice(),
            &opp,
            deck.as_slice(),
            trials,
            &mut rng,
            &mut hero_counts,
            &mut run,
            sink,
        );
        let pair = decode_hand_pair(&opp);
        let row: StatsRow = (
            pair.0,
            pair.1,
            counts.wins,
            counts.ties,
            counts.plays,
            counts.rank_wins,
            counts.rank_ties,
            counts.rank_lose,
        );
        proof {
            lemma_counts_add_up(row, counts.seen@, false);
        }
        rows.push(row);
        k += 1;
    }
    let hero_row: StatsRow = (
        HERO_ROW,
        HERO_ROW,
        hero_counts.wins,
        hero_counts.ties,
        hero_counts.plays,
        hero_counts.rank_wins,
        hero_counts.rank_ties,
        hero_counts.rank_lose,
    );
    rows.push(hero_row);
    run.finish(sink);
    proof {
        assert(m.opponents.len() == opponents@.len());
    }
    Ok(rows)
}

/// The hero against each hand of a list: for each opponent a row, then the hero's row.
pub fn simulate_vs_list_with_ranks(
    hero_hand_str: &str,
    board_str: &str,
    compare_list: &str,
    trials: u32,
    seed: u64,
) -> (r: Result<Vec<StatsRow>, String>)
    ensures
        vs_list_answer(hero_hand_str@, board_str@, compare_list@, trials, seed, r),
{
    let mut sink = Silent::new();
    simulate_vs_list_with_ranks_inner(
        hero_hand_str,
        board_str,
        compare_list,
        trials,
        seed,
        &mut sink,
    )
}

/// The hero against each hand of a list, with a report of progress: the
/// same rows, whatever `progress` does with the percentages. Where given,
/// `progress` is called with 0 before the first trial, then with each new
/// whole percentage of the trials done as it is reached.
pub fn simulate_vs_list_with_ranks_with_progress<F: FnMut(u32)>(
    hero_hand_str: &str,
    board_str: &str,
    compare_list: &str,
    trials: u32,
    seed: u64,
    progress: Option<F>,
) -> (r: Result<Vec<StatsRow>, String>)
    requires
        takes_percent(progress),
    ensures
        vs_list_answer(hero_hand_str@, board_str@, compare_list@, trials, seed, r),
{
    let mut sink = Callback::new(progress);
    simulate_vs_list_with_ranks_inner(
        hero_hand_str,
        board_str,
        compare_list,
        trials,
        seed,
        &mut sink,
    )
}

/// The number that a trace gives an outcome: 0 where the hero wins, 1 where
/// the opponent wins, 2 for a tie.
pub open spec fn outcome_number(o: Outcome) -> u32 {
    match o {
        Outcome::HeroWins => 0,
        Outcome::OpponentWins => 1,
        Outcome::Tie => 2,
    }
}

/// The category that a trace notes: that of the winner's hand, and of the
/// hero's hand for a tie.
pub open spec fn noted_rank(s: Showdown) -> HandRank {
    if outcome_of(s) == Outcome::OpponentWins {
        s.opp.rank
    } else {
        s.hero.rank
    }
}

/// The record of trial `t` of a duel: the numbers of the hero's two cards,
/// of the five cards of the completed board and of the opponent's two
/// cards, then the outcome and the category noted.
pub open spec fn trace_record(d: Duel, t: nat) -> Seq<u32> {
    let b = board_at(d.board, d.deck, d.start, t);
    let s = showdown_at(d, t);
    seq![
        card_code(d.hero.0),
        card_code(d.hero.1),
        card_code(b[0]),
        card_code(b[1]),
        card_code(b[2]),
        card_code(b[3]),
        card_code(b[4]),
        card_code(d.opp.0),
        card_code(d.opp.1),
        outcome_number(outcome_of(s)),
        noted_rank(s).ord() as u32,
    ]
}

/// The records of the first `n` trials of a duel.
pub open spec fn duel_records(d: Duel, n: nat) -> Seq<Seq<u32>> {
    Seq::new(n, |t: int| trace_record(d, t as nat))
}

/// The records of the hero against the first `k` opponents, in the order
/// the trials are played.
pub open spec fn all_records(m: Matchup, trials: nat, seed: u64, k: nat) -> Seq<Seq<u32>>
    decreases k,
{
    if k == 0 {
        Seq::empty()
    } else {
        all_records(m, trials, seed, (k - 1) as nat) + duel_records(
            duel_at(m, trials, seed, (k - 1) as nat),
            trials,
        )
    }
}

/// There is one record for each trial against each opponent.
pub proof fn lemma_all_records_len(m: Matchup, trials: nat, seed: u64, k: nat)
    ensures
        all_records(m, trials, seed, k).len() == k * trials,
    decreases k,
{
    if k > 0 {
        lemma_all_records_len(m, trials, seed, (k - 1) as nat);
        assert((k - 1) * trials + trials == k * trials) by (nonlinear_arith);
    } else {
        assert(k * trials == 0) by (nonlinear_arith)
            requires
                k == 0,
        ;
    }
}

/// Records as rows of numbers.
pub open spec fn record_views(records: Seq<[u32; 11]>) -> Seq<Seq<u32>> {
    Seq::new(records.len(), |i: int| records[i]@)
}

/// What the trace answers: the message of the error where the texts spell
/// no matchup, else a record for every trial.
pub open spec fn trace_answer(
    hero: Seq<char>,
    board: Seq<char>,
    list: Seq<char>,
    trials: u32,
    seed: u64,
    r: Result<Vec<[u32; 11]>, String>,
) -> bool {
    match matchup_of(hero, board, list) {
        Err(e) => r matches Err(msg) && msg@ == e.text(),
        Ok(m) => r matches Ok(records) && record_views(records@) == all_records(
            m,
            trials_run(trials),
            seed,
            m.opponents.len(),
        ),
    }
}

/// The same texts, trials and seed give the same trace: two answers to them
/// hold the same message, or the same records.
pub proof fn lemma_trace_deterministic(
    hero: Seq<char>,
    board: Seq<char>,
    list: Seq<char>,
    trials: u32,
    seed: u64,
    r1: Result<Vec<[u32; 11]>, String>,
    r2: Result<Vec<[u32; 11]>, String>,
)
    requires
        trace_answer(hero, board, list, trials, seed, r1),
        trace_answer(hero, board, list, trials, seed, r2),
    ensures
        r1 is Ok == r2 is Ok,
        r1 is Err ==> r1->Err_0@ == r2->Err_0@,
        r1 is Ok ==> record_views(r1->Ok_0@) == record_views(r2->Ok_0@),
{
}

/// Runs the trials of the hero against one opponent and notes each.
pub fn trace_duel(
    hero: &[Card; 2],
    board: &[Card],
    opp: &[Card; 2],
    deck: &[Card],
    trials: u32,
    rng: &mut Lcg64,
    records: &mut Vec<[u32; 11]>,
)
    requires
        board@.len() <= 5,
        deck@.len() >= 5 - board@.len(),
        all_valid(board@),
        all_valid(deck@),
        all_valid(hero@),
        all_valid(opp@),
    ensures
        ({
            let d = Duel {
                hero: hand_pair(*hero),
                opp: hand_pair(*opp),
                board: board@,
                deck: deck@,
                start: old(rng).state(),
            };
            &&& record_views(final(records)@) == record_views(old(records)@) + duel_records(
                d,
                trials as nat,
            )
            &&& final(rng).state() == state_before(deck@, old(rng).state(), trials as nat)
        }),
{
    let ghost d = Duel {
        hero: hand_pair(*hero),
        opp: hand_pair(*opp),
        board: board@,
        deck: deck@,
        start: rng.state(),
    };
    let ghost before = record_views(records@);
    let hero1 = encode_card(hero[0]);
    let hero2 = encode_card(hero[1]);
    let opp1 = encode_card(opp[0]);
    let opp2 = encode_card(opp[1]);
    let mut t: u32 = 0;
    proof {
        assert(before + duel_records(d, 0) =~= before);
    }
    while t < trials
        invariant
            t <= trials,
            d.hero == hand_pair(*hero),
            d.opp == hand_pair(*opp),
            d.board == board@,
            d.deck == deck@,
            hero1 == card_code(d.hero.0),
            hero2 == card_code(d.hero.1),
            opp1 == card_code(d.opp.0),
            opp2 == card_code(d.opp.1),
            board@.len() <= 5,
            deck@.len() >= 5 - board@.len(),
            all_valid(board@),
            all_valid(deck@),
            all_valid(hero@),
            all_valid(opp@),
            rng.state() == state_before(d.deck, d.start, t as nat),
            record_views(records@) == before + duel_records(d, t as nat),
        decreases trials - t,
    {
        let full = deal_board(board, deck, rng);
        let scores = play_out(hero, opp, &full);
        let outcome = decide(&scores.0, &scores.1);
        let number: u32 = match outcome {
            Outcome::HeroWins => 0,
            Outcome::OpponentWins => 1,
            Outcome::Tie => 2,
        };
        let rank_idx: u32 = match outcome {
            Outcome::OpponentWins => scores.1.rank.index(),
            _ => scores.0.rank.index(),
        };
        let record: [u32; 11] = [
            hero1,
            hero2,
            encode_card(full[0]),
            encode_card(full[1]),
            encode_card(full[2]),
            encode_card(full[3]),
            encode_card(full[4]),
            opp1,
            opp2,
            number,
            rank_idx,
        ];
        proof {
            let x = Showdown { hero: scores.0@, opp: scores.1@ };
            assert(x == showdown_at(d, t as nat));
            assert(record@ =~= trace_record(d, t as nat));
            assert(record_views(records@.push(record)) =~= record_views(records@).push(record@));
            assert((before + duel_records(d, t as nat)).push(record@) =~= before + duel_records(
                d,
                (t + 1) as nat,
            ));
        }
        records.push(record);
        t += 1;
    }
}

/// The hero against each hand of a list, trial by trial: a record for every
/// trial, those against the first opponent first.
pub fn simulate_vs_list_with_ranks_trace(
    hero_hand_str: &str,
    board_str: &str,
    compare_list: &str,
    trials: u32,
    seed: u64,
) -> (r: Result<Vec<[u32; 11]>, String>)
    ensures
        trace_answer(hero_hand_str@, board_str@, compare_list@, trials, seed, r),
{
    let (hero, board, opponents) = match read_matchup(hero_hand_str, board_str, compare_list) {
        Ok(got) => got,
        Err(e) => {
            return Err(e.message());
        },
    };
    let ghost m = Matchup {
        hero: hand_pair(hero),
        board: board@,
        opponents: hand_pairs(opponents@),
    };
    let trials: u32 = if trials == 0 {
        1
    } else {
        trials
    };
    let ghost tn = trials as nat;
    let mut rng = Lcg64::new(seed);
    let mut records: Vec<[u32; 11]> = Vec::new();
    proof {
        assert(record_views(records@) =~= all_records(m, tn, seed, 0));
    }
    let mut k: usize = 0;
    while k < opponents.len()
        invariant
            k <= opponents@.len(),
            tn == trials,
            m == (Matchup { hero: hand_pair(hero), board: board@, opponents: hand_pairs(opponents@) }),
            matchup_cards_valid(m),
            rng.state() == duel_start(m, tn, seed, k as nat),
            record_views(records@) == all_records(m, tn, seed, k as nat),
        decreases opponents@.len() - k,
    {
        let opp = opponents[k];
        proof {
            assert(m.opponents[k as int] == hand_pair(opp));
            assert(m.opponents[k as int].0.valid() && m.opponents[k as int].1.valid());
            assert(all_valid(hero@));
            assert(all_valid(opp@));
        }
        let out = cards_out(&hero, board.as_slice(), &opp);
        let deck = build_deck(out.as_slice());
        trace_duel(&hero, board.as_slice(), &opp, deck.as_slice(), trials, &mut rng, &mut records);
        k += 1;
    }
    proof {
        assert(m.opponents.len() == opponents@.len());
    }
    Ok(records)
}

} // verus!
