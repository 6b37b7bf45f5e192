//! The hero against each hand of a list, with one count of categories per
//! row: for an opponent the categories of its hands in every trial against
//! it, and for the hero the categories of the hero's hands in trials of its
//! own, scaled to the number of opponents.

use vstd::prelude::*;
use crate::sim::card::Card;
use crate::sim::deck::{build_deck, code_pair, decode_hand_pair};
use crate::sim::eval::best_score;
use crate::sim::inputs::{
    matchup_cards_valid, matchup_in_detail, read_matchup_in_detail, Matchup,
};
use crate::sim::parse::{hand_pair, hand_pairs};
use crate::sim::progress::{Run, Silent};
use crate::sim::rank_distribution::{
    deal_and_score, distribution_answer, hand_deck, rank_distribution_core,
};
use crate::sim::rng::Lcg64;
use crate::sim::simulate_vs_list::{
    all_showdowns, cards_out, duel_at, duel_start, run_duel, trials_run, HERO_ROW,
};
use crate::sim::trial::{
    all_valid, board_at, capped, count_if, counts_of, ended, ended_with, lemma_count_bound,
    loss_of, ranked, seven, showdowns, state_before, win_of, Counters, Outcome, Showdown,
};

verus! {

/// A row of results: the numbers of the opponent's two cards (the smaller
/// first), the hero's wins, the ties, the trials, and how often the row's
/// hand was of each of the nine categories.
pub type RankRow = (u32, u32, u32, u32, u32, [u32; 9]);

/// Wins, ties and losses with a category add up to the showdowns with the category.
pub proof fn lemma_rank_split(s: Seq<Showdown>, hero_side: bool, cat: int)
    ensures
        count_if(s, ranked(hero_side, cat)) == count_if(
            s,
            ended_with(win_of(hero_side), hero_side, cat),
        ) + count_if(s, ended_with(Outcome::Tie, hero_side, cat)) + count_if(
            s,
            ended_with(loss_of(hero_side), hero_side, cat),
        ),
        count_if(s, ranked(hero_side, cat)) <= s.len(),
    decreases s.len(),
{
    if s.len() > 0 {
        lemma_rank_split(s.drop_last(), hero_side, cat);
    }
}

/// In how many of the first `n` trials of the hero alone the hero's hand is
/// of category `cat`: the deck holds every card but the hero's and the board's.
pub open spec fn alone_tally(hero: (Card, Card), board: Seq<Card>, start: u64, cat: int, n: nat) -> nat
    decreases n,
{
    if n == 0 {
        0
    } else {
        alone_tally(hero, board, start, cat, (n - 1) as nat) + if best_score(
            seven(hero, board_at(board, hand_deck(board, hero), start, (n - 1) as nat)),
        ).rank.ord() == cat {
            1nat
        } else {
            0nat
        }
    }
}

/// The hero's hand is not of a category more often than there are trials.
pub proof fn lemma_alone_tally_bound(
    hero: (Card, Card),
    board: Seq<Card>,
    start: u64,
    cat: int,
    n: nat,
)
    ensures
        alone_tally(hero, board, start, cat, n) <= n,
    decreases n,
{
    if n > 0 {
        lemma_alone_tally_bound(hero, board, start, cat, (n - 1) as nat);
    }
}

/// The factor that the hero's counts are scaled by: the low 32 bits of the
/// number of opponents.
pub open spec fn scale_factor(opponents: nat) -> nat {
    opponents % 0x1_0000_0000
}

/// A count of the hero's own trials, scaled to the number of opponents; a
/// factor of 0 or 1 leaves it as it is.
pub open spec fn scaled(count: nat, opponents: nat) -> u32 {
    if scale_factor(opponents) > 1 {
        capped(count * scale_factor(opponents))
    } else {
        capped(count)
    }
}

/// The rows are the results of the matchup.
pub open spec fn rank_rows(rows: Seq<RankRow>, m: Matchup, trials: nat, seed: u64) -> bool {
    let n = m.opponents.len();
    let all = all_showdowns(m, trials, seed, n);
    &&& rows.len() == n + 1
    &&& forall|k: int|
        0 <= k < n ==> {
            let row = #[trigger] rows[k];
            let s = showdowns(duel_at(m, trials, seed, k as nat), trials);
            &&& (row.0, row.1) == code_pair(m.opponents[k])
            &&& row.2 == capped(count_if(s, ended(Outcome::HeroWins)))
            &&& row.3 == capped(count_if(s, ended(Outcome::Tie)))
            &&& row.4 == capped(trials)
            &&& forall|c: int|
                0 <= c < 9 ==> (#[trigger] row.5@[c]) == capped(count_if(s, ranked(false, c)))
        }
    &&& rows[n as int].0 == HERO_ROW
    &&& rows[n as int].1 == HERO_ROW
    &&& rows[n as int].2 == capped(count_if(all, ended(Outcome::HeroWins)))
    &&& rows[n as int].3 == capped(count_if(all, ended(Outcome::Tie)))
    &&& rows[n as int].4 == capped(all.len())
    &&& forall|c: int|
        0 <= c < 9 ==> (#[trigger] rows[n as int].5@[c]) == scaled(
            alone_tally(m.hero, m.board, duel_start(m, trials, seed, n), c, trials),
            n,
        )
}

/// What the simulation answers to three texts, a number of trials and a seed.
pub open spec fn rank_rows_answer(
    hero: Seq<char>,
    board: Seq<char>,
    list: Seq<char>,
    trials: u32,
    seed: u64,
    r: Result<Vec<RankRow>, String>,
) -> bool {
    match matchup_in_detail(hero, board, list) {
        Err(e) => r matches Err(msg) && msg@ == e.text(),
        Ok(m) => r matches Ok(rows) && rank_rows(rows@, m, trials_run(trials), seed),
    }
}

/// The same texts, trials and seed give the same rows: two answers to them
/// hold the same message, or the same numbers row by row.
pub proof fn lemma_rank_rows_deterministic(
    hero: Seq<char>,
    board: Seq<char>,
    list: Seq<char>,
    trials: u32,
    seed: u64,
    r1: Result<Vec<RankRow>, String>,
    r2: Result<Vec<RankRow>, String>,
)
    requires
        rank_rows_answer(hero, board, list, trials, seed, r1),
        rank_rows_answer(hero, board, list, trials, seed, r2),
    ensures
        r1 is Ok == r2 is Ok,
        r1 is Err ==> r1->Err_0@ == r2->Err_0@,
        r1 is Ok ==> r1->Ok_0@.len() == r2->Ok_0@.len() && forall|i: int|
            0 <= i < r1->Ok_0@.len() ==> {
                let a = #[trigger] r1->Ok_0@[i];
                let b = r2->Ok_0@[i];
                a.0 == b.0 && a.1 == b.1 && a.2 == b.2 && a.3 == b.3 && a.4 == b.4 && a.5@ == b.5@
            },
{
    if r1 is Ok {
        let m = matchup_in_detail(hero, board, list)->Ok_0;
        let n = m.opponents.len();
        let rows1 = r1->Ok_0@;
        let rows2 = r2->Ok_0@;
        assert forall|i: int| 0 <= i < rows1.len() implies {
            let a = #[trigger] rows1[i];
            let b = rows2[i];
            a.0 == b.0 && a.1 == b.1 && a.2 == b.2 && a.3 == b.3 && a.4 == b.4 && a.5@ == b.5@
        } by {
            let a = rows1[i];
            let b = rows2[i];
            assert(rows2[i] == b);
            assert forall|c: int| 0 <= c < 9 implies a.5@[c] == b.5@[c] by {
                assert(a.5@[c] == b.5@[c]);
            }
            assert(a.5@ =~= b.5@);
        }
    }
}

/// The product of two counts, or the largest number that 32 bits hold where
/// the product is larger.
pub fn capped_times(a: u32, b: u32) -> (p: u32)
    ensures
        p == capped((a as nat) * (b as nat)),
{
    assert(a * b == (a as nat) * (b as nat)) by (nonlinear_arith);
    match a.checked_mul(b) {
        Some(v) => v,
        None => u32::MAX,
    }
}

/// The row of an opponent from the counts of the trials against it.
fn opponent_row(opp: &[Card; 2], counts: &Counters, Ghost(trials): Ghost<nat>) -> (row: RankRow)
    requires
        counts.wf(),
        !counts.hero_side,
        counts.seen@.len() == trials,
        trials <= u32::MAX,
    ensures
        (row.0, row.1) == code_pair(hand_pair(*opp)),
        row.2 == capped(count_if(counts.seen@, ended(Outcome::HeroWins))),
        row.3 == capped(count_if(counts.seen@, ended(Outcome::Tie))),
        row.4 == capped(trials),
        forall|c: int|
            0 <= c < 9 ==> (#[trigger] row.5@[c]) == capped(
                count_if(counts.seen@, ranked(false, c)),
            ),
{
    let pair = decode_hand_pair(opp);
    let ghost s = counts.seen@;
    let mut ranks = [0u32;9];
    let mut c: usize = 0;
    proof {
        reveal(counts_of);
    }
    while c < 9
        invariant
            c <= 9,
            s == counts.seen@,
            s.len() <= u32::MAX,
            counts.wf(),
            !counts.hero_side,
            forall|i: int|
                0 <= i < c ==> (#[trigger] ranks@[i]) == capped(count_if(s, ranked(false, i))),
        decreases 9 - c,
    {
        proof {
            reveal(counts_of);
            lemma_rank_split(s, false, c as int);
            lemma_count_bound(s, ended_with(win_of(false), false, c as int));
            lemma_count_bound(s, ended_with(Outcome::Tie, false, c as int));
            lemma_count_bound(s, ended_with(loss_of(false), false, c as int));
        }
        ranks[c] = counts.rank_wins[c] + counts.rank_ties[c] + counts.rank_lose[c];
        c += 1;
    }
    (pair.0, pair.1, counts.wins, counts.ties, counts.plays, ranks)
}

/// How often the hero's hand is of each category in trials of the hero
/// alone, scaled to the number of opponents.
pub fn hero_ranks(
    hero: &[Card; 2],
    board: &[Card],
    opponents: usize,
    trials: u32,
    rng: &mut Lcg64,
) -> (ranks: [u32; 9])
    requires
        board@.len() <= 5,
        all_valid(board@),
        all_valid(hero@),
    ensures
        forall|c: int|
            0 <= c < 9 ==> (#[trigger] ranks@[c]) == scaled(
                alone_tally(hand_pair(*hero), board@, old(rng).state(), c, trials as nat),
                opponents as nat,
            ),
{
    let ghost start = rng.state();
    let ghost h = hand_pair(*hero);
    let ghost deck = hand_deck(board@, h);
    let mut ranks = [0u32;9];
    let mut t: u32 = 0;
    while t < trials
        invariant
            t <= trials,
            h == hand_pair(*hero),
            deck == hand_deck(board@, h),
            board@.len() <= 5,
            all_valid(board@),
            all_valid(hero@),
            rng.state() == state_before(deck, start, t as nat),
            forall|c: int|
                0 <= c < 9 ==> (#[trigger] ranks@[c]) == alone_tally(h, board@, start, c, t as nat),
        decreases trials - t,
    {
        let score = deal_and_score(hero, board, rng);
        let cat = score.rank.index() as usize;
        proof {
            lemma_alone_tally_bound(h, board@, start, cat as int, t as nat);
        }
        ranks[cat] = ranks[cat] + 1;
        t += 1;
    }
    let factor: u32 = ((opponents as u64) % 0x1_0000_0000) as u32;
    if factor > 1 {
        let mut c: usize = 0;
        while c < 9
            invariant
                c <= 9,
                factor == scale_factor(opponents as nat),
                factor > 1,
                forall|i: int|
                    0 <= i < c ==> (#[trigger] ranks@[i]) == scaled(
                        alone_tally(h, board@, start, i, trials as nat),
                        opponents as nat,
                    ),
                forall|i: int|
                    c <= i < 9 ==> (#[trigger] ranks@[i]) == alone_tally(
                        h,
                        board@,
                        start,
                        i,
                        trials as nat,
                    ),
            decreases 9 - c,
        {
            ranks[c] = capped_times(ranks[c], factor);
            c += 1;
        }
    } else {
        proof {
            assert forall|c: int| 0 <= c < 9 implies (#[trigger] ranks@[c]) == scaled(
                alone_tally(h, board@, start, c, trials as nat),
                opponents as nat,
            ) by {
                lemma_alone_tally_bound(h, board@, start, c, trials as nat);
            }
        }
    }
    ranks
}

/// The hero against each hand of a list: for each opponent a row with the
/// categories of its hands, then the hero's row.
pub fn simulate_vs_list_with_ranks(
    hero_hand_str: &str,
    board_str: &str,
    compare_list: &str,
    trials: u32,
    seed: u64,
) -> (r: Result<Vec<RankRow>, String>)
    ensures
        rank_rows_answer(hero_hand_str@, board_str@, compare_list@, trials, seed, r),
{
    let (hero, board, opponents) = match read_matchup_in_detail(
        hero_hand_str,
        board_str,
        compare_list,
    ) {
        Ok(got) => got,
        Err(e) => {
            return Err(e.message());
        },
    };
    let ghost m = Matchup {
        hero: hand_pair(hero),
        board: board@,
        opponents: hand_pairs(opponents@),
    };
    let trials: u32 = if trials == 0 {
        1
    } else {
        trials
    };
    let ghost tn = trials as nat;
    let mut sink = Silent::new();
    let mut run = Run::start(opponents.len(), trials, &mut sink);
    let mut rng = Lcg64::new(seed);
    let mut rows: Vec<RankRow> = Vec::new();
    let mut hero_counts = Counters::new(true);
    let mut k: usize = 0;
    while k < opponents.len()
        invariant
            k <= opponents@.len(),
            tn == trials,
            m == (Matchup { hero: hand_pair(hero), board: board@, opponents: hand_pairs(opponents@) }),
            matchup_cards_valid(m),
            run.follows(&sink),
            rng.state() == duel_start(m, tn, seed, k as nat),
            hero_counts.wf(),
            hero_counts.hero_side,
            hero_counts.seen@ == all_showdowns(m, tn, seed, k as nat),
            rows@.len() == k,
            forall|j: int|
                0 <= j < k ==> {
                    let row = #[trigger] rows@[j];
                    let s = showdowns(duel_at(m, tn, seed, j as nat), tn);
                    &&& (row.0, row.1) == code_pair(m.opponents[j])
                    &&& row.2 == capped(count_if(s, ended(Outcome::HeroWins)))
                    &&& row.3 == capped(count_if(s, ended(Outcome::Tie)))
                    &&& row.4 == capped(tn)
                    &&& forall|c: int|
                        0 <= c < 9 ==> (#[trigger] row.5@[c]) == capped(
                            count_if(s, ranked(false, c)),
                        )
                },
        decreases opponents@.len() - k,
    {
        let opp = opponents[k];
        proof {
            assert(m.opponents[k as int] == hand_pair(opp));
            assert(m.opponents[k as int].0.valid() && m.opponents[k as int].1.valid());
            assert(all_valid(hero@));
            assert(all_valid(opp@));
        }
        let out = cards_out(&hero, board.as_slice(), &opp);
        let deck = build_deck(out.as_slice());
        let counts = run_duel(
            &hero,
            board.as_slice(),
            &opp,
            deck.as_slice(),
            trials,
            &mut rng,
            &mut hero_counts,
            &mut run,
            &mut sink,
        );
        let row = opponent_row(&opp, &counts, Ghost(tn));
        rows.push(row);
        k += 1;
    }
    proof {
        assert(all_valid(hero@));
        reveal(counts_of);
    }
    let ranks = hero_ranks(&hero, board.as_slice(), opponents.len(), trials, &mut rng);
    let hero_row: RankRow = (
        HERO_ROW,
        HERO_ROW,
        hero_counts.wins,
        hero_counts.ties,
        hero_counts.plays,
        ranks,
    );
    rows.push(hero_row);
    proof {
        assert(m.opponents.len() == opponents@.len());
    }
    Ok(rows)
}

/// How often each hand of a list ends in each category, on a board of up to
/// five known cards.
pub fn simulate_rank_distribution(hands_str: &str, board_str: &str, trials: u32, seed: u64) -> (r:
    Result<Vec<[u32; 9]>, String>)
    ensures
        distribution_answer(hands_str@, board_str@, 0, trials, seed, r),
{
    rank_distribution_core(hands_str, board_str, 0, trials, seed)
}

} // verus!
