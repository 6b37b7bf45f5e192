//! The flat form in which a host hands texts in and takes numbers back.
//!
//! A host gives each text as bytes and says how many numbers its buffer
//! holds. An answer is a row of 32-bit numbers, a fixed count for each
//! record, or a negative code: a text that is not UTF-8, texts that spell
//! nothing to work on, or a buffer that is too small for the answer.

use vstd::prelude::*;
use vstd::arithmetic::div_mod::lemma_fundamental_div_mod_converse;
use vstd::string::StringSliceAdditionalSpecFns;
use vstd::utf8::{decode_utf8, encode_utf8_decode_utf8, valid_utf8};
use crate::rs_poker_native::EquityRow;
use crate::sim::card::Card;
use crate::sim::deck::{card_code, encode_card, holds_card};
use crate::sim::eval::{best_of, best_score, valid_cards};
use crate::sim::inputs::{any_duplicate, has_duplicate, same_card};
use crate::sim::parse::{
    board_of, hand_list_of, hand_pair, hand_pairs, parse_board, parse_hands_min1,
};
use crate::sim::simulate_vs_list::StatsRow;
use crate::sim::trial::all_valid;

verus! {

/// The first text of a call is not UTF-8.
pub const NOT_TEXT_1: i32 = -2;

/// The second text of a call is not UTF-8.
pub const NOT_TEXT_2: i32 = -3;

/// The third text of a call is not UTF-8.
pub const NOT_TEXT_3: i32 = -4;

/// The texts spell nothing that can be worked on.
pub const INVALID_INPUT: i32 = -5;

/// The host's buffer is too small for the answer.
pub const TOO_SMALL: i32 = -6;

/// Calls `std::str::from_utf8`. The contract claims that the call succeeds
/// exactly on bytes that are UTF-8, and that the text it returns is made of
/// the bytes given.
#[verifier::external_body]
fn text_of(bytes: &[u8]) -> (r: Option<&str>)
    ensures
        r is Some == valid_utf8(bytes@),
        r matches Some(s) ==> s.spec_bytes() == bytes@,
{
    std::str::from_utf8(bytes).ok()
}

/// The text that bytes spell, where they are UTF-8.
pub fn read_text(bytes: &[u8]) -> (r: Option<&str>)
    ensures
        r is Some == valid_utf8(bytes@),
        r matches Some(s) ==> s@ == decode_utf8(bytes@),
{
    let r = text_of(bytes);
    proof {
        if let Some(s) = r {
            encode_utf8_decode_utf8(s@);
        }
    }
    r
}

/// The numbers of records one after the other, `stride` numbers for each.
pub open spec fn flattened(rows: Seq<Seq<u32>>, stride: nat) -> Seq<u32> {
    Seq::new(rows.len() * stride, |i: int| rows[i / (stride as int)][i % (stride as int)])
}

/// Records as rows of numbers.
pub open spec fn array_rows<const N: usize>(rows: Seq<[u32; N]>) -> Seq<Seq<u32>> {
    Seq::new(rows.len(), |i: int| rows[i]@)
}

/// What comes of writing records to a buffer of `out_len` numbers: the
/// code for a buffer too small where it does not hold them all, else their
/// numbers one after the other.
pub open spec fn written(rows: Seq<Seq<u32>>, stride: nat, out_len: usize, r: Result<Vec<u32>, i32>) -> bool {
    if out_len < rows.len() * stride {
        r == Err::<Vec<u32>, i32>(TOO_SMALL)
    } else {
        r matches Ok(flat) && flat@ == flattened(rows, stride)
    }
}

/// Writes records of `N` numbers each one after the other, where a buffer
/// of `out_len` numbers holds them all.
pub fn write_out<const N: usize>(rows: &Vec<[u32; N]>, out_len: usize) -> (r: Result<Vec<u32>, i32>)
    requires
        N > 0,
    ensures
        written(array_rows(rows@), N as nat, out_len, r),
{
    let needed = match rows.len().checked_mul(N) {
        Some(n) => n,
        None => {
            return Err(TOO_SMALL);
        },
    };
    if out_len < needed {
        return Err(TOO_SMALL);
    }
    let mut flat: Vec<u32> = Vec::new();
    let mut i: usize = 0;
    while i < rows.len()
        invariant
            N > 0,
            i <= rows@.len(),
            rows@.len() * N <= usize::MAX,
            flat@.len() == i * N,
            forall|q: int|
                0 <= q < flat@.len() ==> #[trigger] flat@[q] == rows@[q / (N as int)]@[q % (N as int)],
        decreases rows@.len() - i,
    {
        let row = rows[i];
        let mut j: usize = 0;
        while j < N
            invariant
                N > 0,
                i < rows@.len(),
                row == rows@[i as int],
                j <= N,
                flat@.len() == i * N + j,
                forall|q: int|
                    0 <= q < flat@.len() ==> #[trigger] flat@[q] == rows@[q / (N as int)]@[q % (
                    N as int)],
            decreases N - j,
        {
            proof {
                lemma_fundamental_div_mod_converse(i * N + j, N as int, i as int, j as int);
            }
            flat.push(row[j]);
            j += 1;
        }
        proof {
            assert(i * N + N == (i + 1) * N) by (nonlinear_arith);
        }
        i += 1;
    }
    proof {
        let n = rows@.len() as int;
        let stride = N as int;
        let target = flattened(array_rows(rows@), N as nat);
        assert forall|q: int| 0 <= q < flat@.len() implies flat@[q] == #[trigger] target[q] by {
            assert(0 <= q / stride < n) by (nonlinear_arith)
                requires
                    0 <= q < n * stride,
                    stride > 0,
            ;
        }
        assert(flat@ =~= target);
    }
    Ok(flat)
}

/// The 32 numbers of a row of results: the two cards, wins, ties and
/// trials, then three times nine counts.
pub open spec fn stats_numbers(row: StatsRow) -> Seq<u32> {
    seq![row.0, row.1, row.2, row.3, row.4] + row.5@ + row.6@ + row.7@
}

/// The 32 numbers of a row of results.
pub fn stats_record(row: &StatsRow) -> (a: [u32; 32])
    ensures
        a@ == stats_numbers(*row),
{
    let mut a = [0u32;32];
    a[0] = row.0;
    a[1] = row.1;
    a[2] = row.2;
    a[3] = row.3;
    a[4] = row.4;
    let mut c: usize = 0;
    while c < 9
        invariant
            c <= 9,
            a@[0] == row.0,
            a@[1] == row.1,
            a@[2] == row.2,
            a@[3] == row.3,
            a@[4] == row.4,
            forall|i: int| 0 <= i < c ==> a@[5 + i] == row.5@[i],
            forall|i: int| 0 <= i < c ==> a@[14 + i] == row.6@[i],
            forall|i: int| 0 <= i < c ==> a@[23 + i] == row.7@[i],
        decreases 9 - c,
    {
        a[5 + c] = row.5[c];
        a[14 + c] = row.6[c];
        a[23 + c] = row.7[c];
        c += 1;
    }
    proof {
        assert(a@ =~= stats_numbers(*row));
    }
    a
}

/// The rows of results as rows of 32 numbers.
pub open spec fn stats_rows(rows: Seq<StatsRow>) -> Seq<Seq<u32>> {
    Seq::new(rows.len(), |i: int| stats_numbers(rows[i]))
}

/// The rows of equity as rows of five numbers.
pub open spec fn equity_rows_numbers(rows: Seq<EquityRow>) -> Seq<Seq<u32>> {
    Seq::new(rows.len(), |i: int| seq![rows[i].0, rows[i].1, rows[i].2, rows[i].3, rows[i].4])
}

/// Rows of four numbers.
pub open spec fn quad_rows(rows: Seq<(u32, u32, u32, u32)>) -> Seq<Seq<u32>> {
    Seq::new(rows.len(), |i: int| seq![rows[i].0, rows[i].1, rows[i].2, rows[i].3])
}

/// Rows of three numbers.
pub open spec fn triple_rows(rows: Seq<(u32, u32, u32)>) -> Seq<Seq<u32>> {
    Seq::new(rows.len(), |i: int| seq![rows[i].0, rows[i].1, rows[i].2])
}

/// Rows of two numbers.
pub open spec fn pair_rows(rows: Seq<(u32, u32)>) -> Seq<Seq<u32>> {
    Seq::new(rows.len(), |i: int| seq![rows[i].0, rows[i].1])
}

/// What a call answers once a runner has answered: the runner's code
/// where it failed, else what comes of writing its records.
pub open spec fn answered(
    res: Result<Seq<Seq<u32>>, i32>,
    stride: nat,
    out_len: usize,
    r: Result<Vec<u32>, i32>,
) -> bool {
    match res {
        Err(code) => r == Err::<Vec<u32>, i32>(code),
        Ok(rows) => written(rows, stride, out_len, r),
    }
}

/// Runs a simulation of three texts and writes its rows, 32 numbers each.
///
/// A text that is not UTF-8 is answered with its code, the first such
/// text deciding, and the runner is not called. Else the runner is called
/// once on the three texts.
pub fn run_simulation<R: FnOnce(&str, &str, &str) -> Result<Vec<StatsRow>, i32>>(
    hero: &[u8],
    board: &[u8],
    compare: &[u8],
    out_len: usize,
    runner: R,
) -> (r: Result<Vec<u32>, i32>)
    requires
        forall|a: &str, b: &str, c: &str| call_requires(runner, (a, b, c)),
    ensures
        !valid_utf8(hero@) ==> r == Err::<Vec<u32>, i32>(NOT_TEXT_1),
        valid_utf8(hero@) && !valid_utf8(board@) ==> r == Err::<Vec<u32>, i32>(NOT_TEXT_2),
        valid_utf8(hero@) && valid_utf8(board@) && !valid_utf8(compare@) ==> r == Err::<
            Vec<u32>,
            i32,
        >(NOT_TEXT_3),
        valid_utf8(hero@) && valid_utf8(board@) && valid_utf8(compare@) ==> exists|
            a: &str,
            b: &str,
            c: &str,
            res: Result<Vec<StatsRow>, i32>,
        |
            a@ == decode_utf8(hero@) && b@ == decode_utf8(board@) && c@ == decode_utf8(compare@)
                && call_ensures(runner, (a, b, c), res) && answered(
                match res {
                    Ok(rows) => Ok(stats_rows(rows@)),
                    Err(code) => Err(code),
                },
                32,
                out_len,
                r,
            ),
{
    let hero_str = match read_text(hero) {
        Some(s) => s,
        None => {
            return Err(NOT_TEXT_1);
        },
    };
    let board_str = match read_text(board) {
        Some(s) => s,
        None => {
            return Err(NOT_TEXT_2);
        },
    };
    let compare_str = match read_text(compare) {
        Some(s) => s,
        None => {
            return Err(NOT_TEXT_3);
        },
    };
    let res = runner(hero_str, board_str, compare_str);
    let results = match res {
        Ok(v) => v,
        Err(code) => {
            return Err(code);
        },
    };
    let mut records: Vec<[u32; 32]> = Vec::new();
    let mut i: usize = 0;
    while i < results.len()
        invariant
            i <= results@.len(),
            records@.len() == i,
            forall|k: int| 0 <= k < i ==> (#[trigger] records@[k])@ == stats_numbers(results@[k]),
        decreases results@.len() - i,
    {
        records.push(stats_record(&results[i]));
        i += 1;
    }
    proof {
        assert(array_rows(records@) =~= stats_rows(results@));
    }
    write_out(&records, out_len)
}


/// Runs a simulation of three texts that notes every trial, and writes its
/// records, 11 numbers each.
pub fn run_simulation_trace<R: FnOnce(&str, &str, &str) -> Result<Vec<[u32; 11]>, i32>>(
    hero: &[u8],
    board: &[u8],
    compare: &[u8],
    out_len: usize,
    runner: R,
) -> (r: Result<Vec<u32>, i32>)
    requires
        forall|a: &str, b: &str, c: &str| call_requires(runner, (a, b, c)),
    ensures
        !valid_utf8(hero@) ==> r == Err::<Vec<u32>, i32>(NOT_TEXT_1),
        valid_utf8(hero@) && !valid_utf8(board@) ==> r == Err::<Vec<u32>, i32>(NOT_TEXT_2),
        valid_utf8(hero@) && valid_utf8(board@) && !valid_utf8(compare@) ==> r == Err::<
            Vec<u32>,
            i32,
        >(NOT_TEXT_3),
        valid_utf8(hero@) && valid_utf8(board@) && valid_utf8(compare@) ==> exists|
            a: &str,
            b: &str,
            c: &str,
            res: Result<Vec<[u32; 11]>, i32>,
        |
            a@ == decode_utf8(hero@) && b@ == decode_utf8(board@) && c@ == decode_utf8(compare@)
                && call_ensures(runner, (a, b, c), res) && answered(
                match res {
                    Ok(rows) => Ok(array_rows(rows@)),
                    Err(code) => Err(code),
                },
                11,
                out_len,
                r,
            ),
{
    let hero_str = match read_text(hero) {
        Some(s) => s,
        None => {
            return Err(NOT_TEXT_1);
        },
    };
    let board_str = match read_text(board) {
        Some(s) => s,
        None => {
            return Err(NOT_TEXT_2);
        },
    };
    let compare_str = match read_text(compare) {
        Some(s) => s,
        None => {
            return Err(NOT_TEXT_3);
        },
    };
    match runner(hero_str, board_str, compare_str) {
        Ok(records) => write_out(&records, out_len),
        Err(code) => Err(code),
    }
}

/// Runs a distribution of two texts and writes its rows, nine numbers each.
pub fn run_rank_distribution<R: FnOnce(&str, &str) -> Result<Vec<[u32; 9]>, i32>>(
    hands: &[u8],
    board: &[u8],
    out_len: usize,
    runner: R,
) -> (r: Result<Vec<u32>, i32>)
    requires
        forall|a: &str, b: &str| call_requires(runner, (a, b)),
    ensures
        !valid_utf8(hands@) ==> r == Err::<Vec<u32>, i32>(NOT_TEXT_1),
        valid_utf8(hands@) && !valid_utf8(board@) ==> r == Err::<Vec<u32>, i32>(NOT_TEXT_2),
        valid_utf8(hands@) && valid_utf8(board@) ==> exists|
            a: &str,
            b: &str,
            res: Result<Vec<[u32; 9]>, i32>,
        |
            a@ == decode_utf8(hands@) && b@ == decode_utf8(board@) && call_ensures(
                runner,
                (a, b),
                res,
            ) && answered(
                match res {
                    Ok(rows) => Ok(array_rows(rows@)),
                    Err(code) => Err(code),
                },
                9,
                out_len,
                r,
            ),
{
    let hands_str = match read_text(hands) {
        Some(s) => s,
        None => {
            return Err(NOT_TEXT_1);
        },
    };
    let board_str = match read_text(board) {
        Some(s) => s,
        None => {
            return Err(NOT_TEXT_2);
        },
    };
    match runner(hands_str, board_str) {
        Ok(rows) => write_out(&rows, out_len),
        Err(code) => Err(code),
    }
}

/// Runs an equity simulation of three texts and a number of opponents, and
/// writes its rows, five numbers each.
pub fn run_equity<R: FnOnce(&str, &str, &str, u32) -> Result<Vec<EquityRow>, i32>>(
    hero: &[u8],
    board: &[u8],
    compare: &[u8],
    opponents_count: u32,
    out_len: usize,
    runner: R,
) -> (r: Result<Vec<u32>, i32>)
    requires
        forall|a: &str, b: &str, c: &str| call_requires(runner, (a, b, c, opponents_count)),
    ensures
        !valid_utf8(hero@) ==> r == Err::<Vec<u32>, i32>(NOT_TEXT_1),
        valid_utf8(hero@) && !valid_utf8(board@) ==> r == Err::<Vec<u32>, i32>(NOT_TEXT_2),
        valid_utf8(hero@) && valid_utf8(board@) && !valid_utf8(compare@) ==> r == Err::<
            Vec<u32>,
            i32,
        >(NOT_TEXT_3),
        valid_utf8(hero@) && valid_utf8(board@) && valid_utf8(compare@) ==> exists|
            a: &str,
            b: &str,
            c: &str,
            res: Result<Vec<EquityRow>, i32>,
        |
            a@ == decode_utf8(hero@) && b@ == decode_utf8(board@) && c@ == decode_utf8(compare@)
                && call_ensures(runner, (a, b, c, opponents_count), res) && answered(
                match res {
                    Ok(rows) => Ok(equity_rows_numbers(rows@)),
                    Err(code) => Err(code),
                },
                5,
                out_len,
                r,
            ),
{
    let hero_str = match read_text(hero) {
        Some(s) => s,
        None => {
            return Err(NOT_TEXT_1);
        },
    };
    let board_str = match read_text(board) {
        Some(s) => s,
        None => {
            return Err(NOT_TEXT_2);
        },
    };
    let compare_str = match read_text(compare) {
        Some(s) => s,
        None => {
            return Err(NOT_TEXT_3);
        },
    };
    let results = match runner(hero_str, board_str, compare_str, opponents_count) {
        Ok(v) => v,
        Err(code) => {
            return Err(code);
        },
    };
    let mut records: Vec<[u32; 5]> = Vec::new();
    let mut i: usize = 0;
    while i < results.len()
        invariant
            i <= results@.len(),
            records@.len() == i,
            forall|k: int|
                0 <= k < i ==> (#[trigger] records@[k])@ == equity_rows_numbers(results@)[k],
        decreases results@.len() - i,
    {
        let row = results[i];
        let record = [row.0, row.1, row.2, row.3, row.4];
        proof {
            assert(record@ =~= equity_rows_numbers(results@)[i as int]);
        }
        records.push(record);
        i += 1;
    }
    proof {
        assert(array_rows(records@) =~= equity_rows_numbers(results@));
    }
    write_out(&records, out_len)
}

/// Runs an equity simulation of several hands, given by two texts, and
/// writes its rows, three numbers each.
pub fn run_multi_equity<R: FnOnce(&str, &str) -> Result<Vec<(u32, u32, u32)>, i32>>(
    hands: &[u8],
    board: &[u8],
    out_len: usize,
    runner: R,
) -> (r: Result<Vec<u32>, i32>)
    requires
        forall|a: &str, b: &str| call_requires(runner, (a, b)),
    ensures
        !valid_utf8(hands@) ==> r == Err::<Vec<u32>, i32>(NOT_TEXT_1),
        valid_utf8(hands@) && !valid_utf8(board@) ==> r == Err::<Vec<u32>, i32>(NOT_TEXT_2),
        valid_utf8(hands@) && valid_utf8(board@) ==> exists|
            a: &str,
            b: &str,
            res: Result<Vec<(u32, u32, u32)>, i32>,
        |
            a@ == decode_utf8(hands@) && b@ == decode_utf8(board@) && call_ensures(
                runner,
                (a, b),
                res,
            ) && answered(
                match res {
                    Ok(rows) => Ok(triple_rows(rows@)),
                    Err(code) => Err(code),
                },
                3,
                out_len,
                r,
            ),
{
    let hands_str = match read_text(hands) {
        Some(s) => s,
        None => {
            return Err(NOT_TEXT_1);
        },
    };
    let board_str = match read_text(board) {
        Some(s) => s,
        None => {
            return Err(NOT_TEXT_2);
        },
    };
    let results = match runner(hands_str, board_str) {
        Ok(v) => v,
        Err(code) => {
            return Err(code);
        },
    };
    let mut records: Vec<[u32; 3]> = Vec::new();
    let mut i: usize = 0;
    while i < results.len()
        invariant
            i <= results@.len(),
            records@.len() == i,
            forall|k: int| 0 <= k < i ==> (#[trigger] records@[k])@ == triple_rows(results@)[k],
        decreases results@.len() - i,
    {
        let row = results[i];
        let record = [row.0, row.1, row.2];
        proof {
            assert(record@ =~= triple_rows(results@)[i as int]);
        }
        records.push(record);
        i += 1;
    }
    proof {
        assert(array_rows(records@) =~= triple_rows(results@));
    }
    write_out(&records, out_len)
}

/// Runs a simulation of one range against another on a board, given by
/// three texts, and writes its rows, four numbers each.
pub fn run_range_equity<R: FnOnce(&str, &str, &str) -> Result<Vec<(u32, u32, u32, u32)>, i32>>(
    hero: &[u8],
    villain: &[u8],
    board: &[u8],
    out_len: usize,
    runner: R,
) -> (r: Result<Vec<u32>, i32>)
    requires
        forall|a: &str, b: &str, c: &str| call_requires(runner, (a, b, c)),
    ensures
        !valid_utf8(hero@) ==> r == Err::<Vec<u32>, i32>(NOT_TEXT_1),
        valid_utf8(hero@) && !valid_utf8(villain@) ==> r == Err::<Vec<u32>, i32>(NOT_TEXT_2),
        valid_utf8(hero@) && valid_utf8(villain@) && !valid_utf8(board@) ==> r == Err::<
            Vec<u32>,
            i32,
        >(NOT_TEXT_3),
        valid_utf8(hero@) && valid_utf8(villain@) && valid_utf8(board@) ==> exists|
            a: &str,
            b: &str,
            c: &str,
            res: Result<Vec<(u32, u32, u32, u32)>, i32>,
        |
            a@ == decode_utf8(hero@) && b@ == decode_utf8(villain@) && c@ == decode_utf8(board@)
                && call_ensures(runner, (a, b, c), res) && answered(
                match res {
                    Ok(rows) => Ok(quad_rows(rows@)),
                    Err(code) => Err(code),
                },
                4,
                out_len,
                r,
            ),
{
    let hero_str = match read_text(hero) {
        Some(s) => s,
        None => {
            return Err(NOT_TEXT_1);
        },
    };
    let villain_str = match read_text(villain) {
        Some(s) => s,
        None => {
            return Err(NOT_TEXT_2);
        },
    };
    let board_str = match read_text(board) {
        Some(s) => s,
        None => {
            return Err(NOT_TEXT_3);
        },
    };
    let results = match runner(hero_str, villain_str, board_str) {
        Ok(v) => v,
        Err(code) => {
            return Err(code);
        },
    };
    let mut records: Vec<[u32; 4]> = Vec::new();
    let mut i: usize = 0;
    while i < results.len()
        invariant
            i <= results@.len(),
            records@.len() == i,
            forall|k: int| 0 <= k < i ==> (#[trigger] records@[k])@ == quad_rows(results@)[k],
        decreases results@.len() - i,
    {
        let row = results[i];
        let record = [row.0, row.1, row.2, row.3];
        proof {
            assert(record@ =~= quad_rows(results@)[i as int]);
        }
        records.push(record);
        i += 1;
    }
    proof {
        assert(array_rows(records@) =~= quad_rows(results@));
    }
    write_out(&records, out_len)
}

/// Runs the reading of a range, given by one text, and writes its hands,
/// two numbers each.
pub fn run_parse_range<R: FnOnce(&str) -> Result<Vec<(u32, u32)>, i32>>(
    range: &[u8],
    out_len: usize,
    runner: R,
) -> (r: Result<Vec<u32>, i32>)
    requires
        forall|a: &str| call_requires(runner, (a,)),
    ensures
        !valid_utf8(range@) ==> r == Err::<Vec<u32>, i32>(NOT_TEXT_1),
        valid_utf8(range@) ==> exists|a: &str, res: Result<Vec<(u32, u32)>, i32>|
            a@ == decode_utf8(range@) && call_ensures(runner, (a,), res) && answered(
                match res {
                    Ok(rows) => Ok(pair_rows(rows@)),
                    Err(code) => Err(code),
                },
                2,
                out_len,
                r,
            ),
{
    let range_str = match read_text(range) {
        Some(s) => s,
        None => {
            return Err(NOT_TEXT_1);
        },
    };
    let results = match runner(range_str) {
        Ok(v) => v,
        Err(code) => {
            return Err(code);
        },
    };
    let mut records: Vec<[u32; 2]> = Vec::new();
    let mut i: usize = 0;
    while i < results.len()
        invariant
            i <= results@.len(),
            records@.len() == i,
            forall|k: int| 0 <= k < i ==> (#[trigger] records@[k])@ == pair_rows(results@)[k],
        decreases results@.len() - i,
    {
        let row = results[i];
        let record = [row.0, row.1];
        proof {
            assert(record@ =~= pair_rows(results@)[i as int]);
        }
        records.push(record);
        i += 1;
    }
    proof {
        assert(array_rows(records@) =~= pair_rows(results@));
    }
    write_out(&records, out_len)
}


/// The rows that a host asked for: all of them, or the last alone, which
/// is the hero's, where the host wants no row for an opponent.
pub fn select_rows(rows: Vec<EquityRow>, include_data: bool) -> (out: Vec<EquityRow>)
    ensures
        out@ == if include_data || rows@.len() == 0 {
            rows@
        } else {
            seq![rows@.last()]
        },
{
    if include_data || rows.len() == 0 {
        return rows;
    }
    let mut out: Vec<EquityRow> = Vec::new();
    out.push(rows[rows.len() - 1]);
    assert(out@ =~= seq![rows@.last()]);
    out
}

/// Whether a hand can stand on a board: no card twice on the board, the
/// hand's two cards not one card, and neither of them on the board.
pub open spec fn hand_fits_board(hand: (Card, Card), board: Seq<Card>) -> bool {
    !has_duplicate(board) && hand.0 != hand.1 && !board.contains(hand.0) && !board.contains(hand.1)
}

/// Checks a hand against a board.
pub fn validate_hand_board(hand: &[Card; 2], board: &[Card]) -> (r: Result<(), i32>)
    ensures
        r == if hand_fits_board(hand_pair(*hand), board@) {
            Ok::<(), i32>(())
        } else {
            Err::<(), i32>(INVALID_INPUT)
        },
{
    if any_duplicate(board) {
        return Err(INVALID_INPUT);
    }
    if same_card(hand[0], hand[1]) {
        return Err(INVALID_INPUT);
    }
    if holds_card(board, hand[0]) || holds_card(board, hand[1]) {
        return Err(INVALID_INPUT);
    }
    Ok(())
}

/// The number that stands for a card.
pub fn encode_sim_card(card: &Card) -> (v: u32)
    ensures
        v == card_code(*card),
{
    encode_card(*card)
}

/// The record of a hand in a ranking: the numbers of its two cards, then
/// of the best score of the board and the hand the category, the number
/// that orders scores, and the five tie-breaking ranks.
pub open spec fn ranking_record(hand: (Card, Card), board: Seq<Card>) -> Seq<u32> {
    let score = best_score(board + seq![hand.0, hand.1]);
    seq![
        card_code(hand.0),
        card_code(hand.1),
        score.rank.ord() as u32,
        score.encoded,
        score.kickers[0] as u32,
        score.kickers[1] as u32,
        score.kickers[2] as u32,
        score.kickers[3] as u32,
        score.kickers[4] as u32,
    ]
}

/// A record may stand before another in a ranking: the higher score first,
/// and among equal scores the smaller first card, then the smaller second card.
pub open spec fn ranks_before(a: Seq<u32>, b: Seq<u32>) -> bool {
    a[3] > b[3] || (a[3] == b[3] && (a[0] < b[0] || (a[0] == b[0] && a[1] <= b[1])))
}

/// `order` names each of the places `0..n` once.
pub open spec fn is_permutation(order: Seq<int>, n: int) -> bool {
    &&& order.len() == n
    &&& forall|k: int| 0 <= k < n ==> 0 <= #[trigger] order[k] < n
    &&& forall|j: int, k: int| 0 <= j < k < n ==> #[trigger] order[j] != #[trigger] order[k]
}

/// The records are the hands' records put in ranking order.
pub open spec fn is_ranking(records: Seq<Seq<u32>>, hands: Seq<(Card, Card)>, board: Seq<Card>) -> bool {
    &&& records.len() == hands.len()
    &&& forall|j: int, k: int|
        0 <= j < k < records.len() ==> ranks_before(#[trigger] records[j], #[trigger] records[k])
    &&& exists|order: Seq<int>|
        is_permutation(order, hands.len() as int) && forall|k: int|
            0 <= k < records.len() ==> #[trigger] records[k] == ranking_record(
                hands[order[k]],
                board,
            )
}

/// The hands and the board that two texts spell for a ranking: at least
/// one hand, a board of three to five cards, and every hand fit for the board.
pub open spec fn ranking_input(hands: Seq<char>, board: Seq<char>) -> Option<
    (Seq<(Card, Card)>, Seq<Card>),
> {
    if hand_list_of(hands) is None || hand_list_of(hands)->0.len() == 0 {
        None
    } else if board_of(board) is None || board_of(board)->0.len() < 3 {
        None
    } else if exists|i: int|
        0 <= i < hand_list_of(hands)->0.len() && !hand_fits_board(
            #[trigger] hand_list_of(hands)->0[i],
            board_of(board)->0,
        ) {
        None
    } else {
        Some((hand_list_of(hands)->0, board_of(board)->0))
    }
}

/// The record of a hand in a ranking.
pub fn rank_hand(hand: &[Card; 2], board: &[Card]) -> (record: [u32; 9])
    requires
        3 <= board@.len() <= 5,
        all_valid(board@),
        all_valid(hand@),
    ensures
        record@ == ranking_record(hand_pair(*hand), board@),
{
    let mut cards: Vec<Card> = Vec::new();
    let mut i: usize = 0;
    while i < board.len()
        invariant
            i <= board@.len(),
            cards@ == board@.subrange(0, i as int),
        decreases board@.len() - i,
    {
        cards.push(board[i]);
        i += 1;
    }
    cards.push(hand[0]);
    cards.push(hand[1]);
    proof {
        assert(cards@ =~= board@ + seq![hand@[0], hand@[1]]);
        assert forall|k: int| 0 <= k < cards@.len() implies (#[trigger] cards@[k]).valid() by {
            if k < board@.len() {
                assert(cards@[k] == board@[k]);
            } else {
                assert(cards@[k] == hand@[k - board@.len()]);
            }
        }
        assert(valid_cards(cards@));
    }
    let score = best_of(cards.as_slice());
    let record = [
        encode_sim_card(&hand[0]),
        encode_sim_card(&hand[1]),
        score.rank.index(),
        score.encoded,
        score.kickers[0] as u32,
        score.kickers[1] as u32,
        score.kickers[2] as u32,
        score.kickers[3] as u32,
        score.kickers[4] as u32,
    ];
    proof {
        assert(record@ =~= ranking_record(hand_pair(*hand), board@));
    }
    record
}

/// Whether a record may stand before another in a ranking.
pub fn may_precede(a: &[u32; 9], b: &[u32; 9]) -> (r: bool)
    ensures
        r == ranks_before(a@, b@),
{
    a[3] > b[3] || (a[3] == b[3] && (a[0] < b[0] || (a[0] == b[0] && a[1] <= b[1])))
}

/// Puts records in ranking order.
fn sort_ranking(records: &mut Vec<[u32; 9]>, Ghost(rows): Ghost<Seq<Seq<u32>>>)
    requires
        array_rows(old(records)@) == rows,
    ensures
        final(records)@.len() == rows.len(),
        forall|j: int, k: int|
            0 <= j < k < rows.len() ==> ranks_before(
                (#[trigger] final(records)@[j])@,
                (#[trigger] final(records)@[k])@,
            ),
        exists|order: Seq<int>|
            is_permutation(order, rows.len() as int) && forall|k: int|
                0 <= k < rows.len() ==> (#[trigger] final(records)@[k])@ == rows[order[k]],
{
    let n = records.len();
    let ghost mut order: Seq<int> = Seq::new(n as nat, |k: int| k);
    let mut i: usize = 0;
    while i < n
        invariant
            i <= n,
            n == records@.len(),
            n == rows.len(),
            is_permutation(order, n as int),
            forall|k: int| 0 <= k < n ==> (#[trigger] records@[k])@ == rows[order[k]],
            forall|j: int, k: int|
                0 <= j < k < i ==> ranks_before(
                    (#[trigger] records@[j])@,
                    (#[trigger] records@[k])@,
                ),
        decreases n - i,
    {
        let mut j: usize = i;
        while j > 0 && !may_precede(&records[j - 1], &records[j])
            invariant
                j <= i < n,
                n == records@.len(),
                n == rows.len(),
                is_permutation(order, n as int),
                forall|k: int| 0 <= k < n ==> (#[trigger] records@[k])@ == rows[order[k]],
                forall|a: int, b: int|
                    0 <= a < b <= i && a != j && b != j ==> ranks_before(
                        (#[trigger] records@[a])@,
                        (#[trigger] records@[b])@,
                    ),
                forall|b: int|
                    j < b <= i ==> ranks_before(records@[j as int]@, (#[trigger] records@[b])@),
            decreases j,
        {
            let upper = records[j - 1];
            let lower = records[j];
            let ghost before = records@;
            let ghost old_order = order;
            records[j - 1] = lower;
            records[j] = upper;
            proof {
                order = old_order.update(j - 1, old_order[j as int]).update(
                    j as int,
                    old_order[j - 1],
                );
                assert forall|k: int| 0 <= k < n implies (#[trigger] records@[k])@ == rows[order[k]] by {
                    if k == j - 1 {
                        assert(records@[k] == before[j as int]);
                    } else if k == j {
                        assert(records@[k] == before[j - 1]);
                    } else {
                        assert(records@[k] == before[k]);
                    }
                }
                assert forall|a: int, b: int|
                    0 <= a < b <= i && a != j - 1 && b != j - 1 implies ranks_before(
                    (#[trigger] records@[a])@,
                    (#[trigger] records@[b])@,
                ) by {
                    let pa = if a == j {
                        j - 1
                    } else {
                        a
                    };
                    let pb = if b == j {
                        j - 1
                    } else {
                        b
                    };
                    assert(records@[a] == before[pa]);
                    assert(records@[b] == before[pb]);
                    assert(ranks_before(before[pa]@, before[pb]@));
                }
                assert forall|b: int| j - 1 < b <= i implies ranks_before(
                    records@[j - 1]@,
                    (#[trigger] records@[b])@,
                ) by {
                    if b == j {
                        assert(records@[b] == before[j - 1]);
                    } else {
                        assert(records@[b] == before[b]);
                        assert(ranks_before(before[j as int]@, before[b]@));
                    }
                }
            }
            j -= 1;
        }
        proof {
            assert forall|a: int, b: int| 0 <= a < b < i + 1 implies ranks_before(
                (#[trigger] records@[a])@,
                (#[trigger] records@[b])@,
            ) by {
                if b == j && j > 0 {
                    if a < j - 1 {
                        assert(ranks_before(records@[a]@, records@[j - 1]@));
                    }
                    assert(ranks_before(records@[j - 1]@, records@[j as int]@));
                }
            }
        }
        i += 1;
    }
}

/// What the ranking of hands answers to two texts and a buffer of
/// `out_len` numbers: the code of the first text that is not UTF-8; else
/// the code for texts that spell no ranking; else the code for a buffer that
/// does not hold nine numbers for each hand; else the hands' records in
/// ranking order, one after the other.
pub open spec fn ranking_answer(hands: Seq<u8>, board: Seq<u8>, out_len: usize, r: Result<Vec<u32>, i32>) -> bool {
    if !valid_utf8(hands) {
        r == Err::<Vec<u32>, i32>(NOT_TEXT_1)
    } else if !valid_utf8(board) {
        r == Err::<Vec<u32>, i32>(NOT_TEXT_2)
    } else {
        match ranking_input(decode_utf8(hands), decode_utf8(board)) {
            None => r == Err::<Vec<u32>, i32>(INVALID_INPUT),
            Some(input) => if out_len < input.0.len() * 9 {
                r == Err::<Vec<u32>, i32>(TOO_SMALL)
            } else {
                r matches Ok(flat) && ranked_flat(flat@, input.0, input.1)
            },
        }
    }
}

/// The numbers are those of the hands' records in ranking order.
pub open spec fn ranked_flat(flat: Seq<u32>, hands: Seq<(Card, Card)>, board: Seq<Card>) -> bool {
    exists|records: Seq<Seq<u32>>| is_ranking(records, hands, board) && flat == flattened(records, 9)
}

/// Ranks the hands of a list on a board of three to five cards: for each
/// hand a record of nine numbers, the best hand first.
pub fn evaluate_hands_ranking(hands: &[u8], board: &[u8], out_len: usize) -> (r: Result<Vec<u32>, i32>)
    ensures
        ranking_answer(hands@, board@, out_len, r),
{
    let hands_str = match read_text(hands) {
        Some(s) => s,
        None => {
            return Err(NOT_TEXT_1);
        },
    };
    let board_str = match read_text(board) {
        Some(s) => s,
        None => {
            return Err(NOT_TEXT_2);
        },
    };
    let hand_list = match parse_hands_min1(hands_str) {
        Some(h) => h,
        None => {
            return Err(INVALID_INPUT);
        },
    };
    let cards = match parse_board(board_str) {
        Some(b) => b,
        None => {
            return Err(INVALID_INPUT);
        },
    };
    if cards.len() < 3 || cards.len() > 5 {
        return Err(INVALID_INPUT);
    }
    let ghost pairs = hand_pairs(hand_list@);
    let mut k: usize = 0;
    while k < hand_list.len()
        invariant
            k <= hand_list@.len(),
            pairs == hand_pairs(hand_list@),
            valid_utf8(hands@),
            valid_utf8(board@),
            hands_str@ == decode_utf8(hands@),
            board_str@ == decode_utf8(board@),
            hand_list_of(hands_str@) == Some(pairs),
            pairs.len() >= 1,
            board_of(board_str@) == Some(cards@),
            3 <= cards@.len() <= 5,
            forall|i: int| 0 <= i < k ==> hand_fits_board(#[trigger] pairs[i], cards@),
        decreases hand_list@.len() - k,
    {
        assert(pairs[k as int] == hand_pair(hand_list@[k as int]));
        if validate_hand_board(&hand_list[k], cards.as_slice()).is_err() {
            return Err(INVALID_INPUT);
        }
        k += 1;
    }
    assert(ranking_input(hands_str@, board_str@) == Some((pairs, cards@)));
    let needed = match hand_list.len().checked_mul(9) {
        Some(n) => n,
        None => {
            return Err(TOO_SMALL);
        },
    };
    if out_len < needed {
        return Err(TOO_SMALL);
    }
    let mut ranked: Vec<[u32; 9]> = Vec::new();
    let mut i: usize = 0;
    while i < hand_list.len()
        invariant
            i <= hand_list@.len(),
            pairs == hand_pairs(hand_list@),
            3 <= cards@.len() <= 5,
            all_valid(cards@),
            forall|j: int|
                0 <= j < hand_list@.len() ==> (#[trigger] hand_list@[j])@[0].valid()
                    && hand_list@[j]@[1].valid(),
            ranked@.len() == i,
            forall|j: int| 0 <= j < i ==> (#[trigger] ranked@[j])@ == ranking_record(pairs[j], cards@),
        decreases hand_list@.len() - i,
    {
        let hand = hand_list[i];
        proof {
            assert(pairs[i as int] == hand_pair(hand));
            assert(hand_list@[i as int]@[0].valid());
            assert(all_valid(hand@));
        }
        ranked.push(rank_hand(&hand, cards.as_slice()));
        i += 1;
    }
    let ghost unsorted = array_rows(ranked@);
    sort_ranking(&mut ranked, Ghost(unsorted));
    let r = write_out(&ranked, out_len);
    proof {
        let records = array_rows(ranked@);
        let order = choose|order: Seq<int>|
            is_permutation(order, unsorted.len() as int) && forall|k: int|
                0 <= k < unsorted.len() ==> (#[trigger] ranked@[k])@ == unsorted[order[k]];
        assert forall|k: int| 0 <= k < records.len() implies #[trigger] records[k] == ranking_record(
            pairs[order[k]],
            cards@,
        ) by {
            assert(ranked@[k]@ == unsorted[order[k]]);
        }
        assert(is_ranking(records, pairs, cards@));
        assert(ranked_flat(r->Ok_0@, pairs, cards@));
    }
    r
}

} // verus!
