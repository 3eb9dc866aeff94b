//! Day 09: Mirage Maintenance. Each line is a history of values; repeated
//! differences extrapolate it one value forward or one value back.
use vstd::prelude::*;
use vstd::string::StringSliceAdditionalSpecFns;

use crate::text::{int_of, lines_of, parse_i32, split_lines, split_words, words, PuzzleError};

verus! {

pub open spec fn fits_i32(x: int) -> bool {
    i32::MIN <= x <= i32::MAX
}

/// The differences between consecutive values.
pub open spec fn differences(s: Seq<i32>) -> Seq<int> {
    Seq::new((s.len() - 1) as nat, |i: int| s[i + 1] as int - s[i] as int)
}

/// Every difference fits `i32`.
pub open spec fn differences_fit(s: Seq<i32>) -> bool {
    forall|i: int| 0 <= i < s.len() - 1 ==> fits_i32(#[trigger] s[i + 1] as int - s[i] as int)
}

/// The differences, as `i32` values.
pub open spec fn history(s: Seq<i32>) -> Seq<i32> {
    Seq::new((s.len() - 1) as nat, |i: int| (s[i + 1] as int - s[i] as int) as i32)
}

pub open spec fn all_zero(s: Seq<i32>) -> bool {
    forall|i: int| 0 <= i < s.len() ==> s[i] == 0
}

/// The value that extends `s` by one: forward after its last value, or back
/// before its first. Differences are taken until they are all zero; a table
/// that runs out of values first is `EmptyHistory`, and a difference or a
/// partial result outside `i32` is `Overflow`.
pub open spec fn extrapolate(s: Seq<i32>, forward: bool) -> Result<i32, PuzzleError>
    decreases s.len(),
{
    if s.len() == 0 {
        Err(PuzzleError::EmptyHistory)
    } else if all_zero(s) {
        Ok(0)
    } else if !differences_fit(s) {
        Err(PuzzleError::Overflow)
    } else {
        match extrapolate(history(s), forward) {
            Err(e) => Err(e),
            Ok(v) => {
                let x = if forward {
                    s.last() as int + v as int
                } else {
                    s[0] as int - v as int
                };
                if fits_i32(x) {
                    Ok(x as i32)
                } else {
                    Err(PuzzleError::Overflow)
                }
            },
        }
    }
}

/// The differences of `line`; `Overflow` where one does not fit `i32`.
fn get_history(line: &Vec<i32>) -> (r: Result<Vec<i32>, PuzzleError>)
    requires
        line@.len() > 0,
    ensures
        r is Ok <==> differences_fit(line@),
        r matches Ok(h) ==> h@ == history(line@),
        r is Err ==> r == Err::<Vec<i32>, PuzzleError>(PuzzleError::Overflow),
{
    let mut out: Vec<i32> = Vec::new();
    let n = line.len();
    let mut i: usize = 0;
    while i + 1 < n
        invariant
            n == line@.len(),
            n > 0,
            i + 1 <= n,
            out@.len() == i,
            forall|j: int| 0 <= j < i ==> fits_i32(#[trigger] line@[j + 1] as int - line@[j] as int),
            forall|j: int|
                0 <= j < i ==> #[trigger] out@[j] == (line@[j + 1] as int - line@[j] as int) as i32,
        decreases n - i,
    {
        match line[i + 1].checked_sub(line[i]) {
            Some(d) => {
                out.push(d);
            },
            None => {
                assert(!fits_i32(line@[i as int + 1] as int - line@[i as int] as int));
                return Err(PuzzleError::Overflow);
            },
        }
        i = i + 1;
    }
    assert(out@ =~= history(line@));
    Ok(out)
}

/// Whether every value is zero.
fn is_all_zero(s: &Vec<i32>) -> (r: bool)
    ensures
        r == all_zero(s@),
{
    let mut i: usize = 0;
    while i < s.len()
        invariant
            i <= s@.len(),
            forall|j: int| 0 <= j < i ==> s@[j] == 0,
        decreases s@.len() - i,
    {
        if s[i] != 0 {
            return false;
        }
        i = i + 1;
    }
    true
}

/// Extrapolates `line` one value forward or back.
fn extrapolate_line(line: &Vec<i32>, forward: bool) -> (r: Result<i32, PuzzleError>)
    ensures
        r == extrapolate(line@, forward),
    decreases line@.len(),
{
    if line.len() == 0 {
        return Err(PuzzleError::EmptyHistory);
    }
    if is_all_zero(line) {
        return Ok(0);
    }
    let h = match get_history(line) {
        Ok(h) => h,
        Err(e) => {
            return Err(e);
        },
    };
    let v = match extrapolate_line(&h, forward) {
        Ok(v) => v,
        Err(e) => {
            return Err(e);
        },
    };
    let x: Option<i32> = if forward {
        line[line.len() - 1].checked_add(v)
    } else {
        line[0].checked_sub(v)
    };
    match x {
        Some(x) => Ok(x),
        None => Err(PuzzleError::Overflow),
    }
}

/// The next value of a history.
pub fn get_next_value(line: &Vec<i32>) -> (r: Result<i32, PuzzleError>)
    ensures
        r == extrapolate(line@, true),
{
    extrapolate_line(line, true)
}

/// The value before the first of a history.
pub fn get_first_value(line: &Vec<i32>) -> (r: Result<i32, PuzzleError>)
    ensures
        r == extrapolate(line@, false),
{
    extrapolate_line(line, false)
}


/// The values of the tokens, where each is a number that fits `i32`.
pub open spec fn ints_of(tokens: Seq<Seq<u8>>) -> Option<Seq<i32>>
    decreases tokens.len(),
{
    if tokens.len() == 0 {
        Some(Seq::<i32>::empty())
    } else {
        match ints_of(tokens.drop_last()) {
            None => None,
            Some(xs) => match int_of(tokens.last()) {
                Some(v) => if fits_i32(v) {
                    Some(xs.push(v as i32))
                } else {
                    None
                },
                None => None,
            },
        }
    }
}

/// The histories of the lines: the space-separated numbers of each.
pub open spec fn rows_of(lines: Seq<Seq<u8>>) -> Option<Seq<Seq<i32>>>
    decreases lines.len(),
{
    if lines.len() == 0 {
        Some(Seq::<Seq<i32>>::empty())
    } else {
        match rows_of(lines.drop_last()) {
            None => None,
            Some(rows) => match ints_of(words(lines.last())) {
                Some(xs) => Some(rows.push(xs)),
                None => None,
            },
        }
    }
}

/// The extrapolated value of each history, or the first failure in order.
pub open spec fn values_of(rows: Seq<Seq<i32>>, forward: bool) -> Result<Seq<i32>, PuzzleError>
    decreases rows.len(),
{
    if rows.len() == 0 {
        Ok(Seq::<i32>::empty())
    } else {
        match values_of(rows.drop_last(), forward) {
            Err(e) => Err(e),
            Ok(vs) => match extrapolate(rows.last(), forward) {
                Err(e) => Err(e),
                Ok(v) => Ok(vs.push(v)),
            },
        }
    }
}

/// The sum of the values, added in order; none where a partial sum leaves
/// `i32`.
pub open spec fn checked_sum(vs: Seq<i32>) -> Option<int>
    decreases vs.len(),
{
    if vs.len() == 0 {
        Some(0)
    } else {
        match checked_sum(vs.drop_last()) {
            None => None,
            Some(t) => if fits_i32(t + vs.last()) {
                Some(t + vs.last())
            } else {
                None
            },
        }
    }
}

/// The sum of the extrapolated values of the histories of `lines`. Every
/// line is read before any is extrapolated.
pub open spec fn history_total(lines: Seq<Seq<u8>>, forward: bool) -> Result<i32, PuzzleError> {
    match rows_of(lines) {
        None => Err(PuzzleError::InvalidNumber),
        Some(rows) => match values_of(rows, forward) {
            Err(e) => Err(e),
            Ok(vs) => match checked_sum(vs) {
                None => Err(PuzzleError::Overflow),
                Some(t) => Ok(t as i32),
            },
        },
    }
}

/// The bits of an `i32` read as a `u32`.
pub open spec fn as_unsigned(x: i32) -> u32 {
    if x >= 0 {
        x as u32
    } else {
        (x as int + 4294967296) as u32
    }
}

/// The numbers of a line, where each fits `i32`.
fn parse_row(line: &Vec<u8>) -> (r: Option<Vec<i32>>)
    ensures
        ints_of(words(line@)) is None ==> r is None,
        ints_of(words(line@)) matches Some(xs) ==> (r matches Some(v) && v@ == xs),
{
    let tokens = split_words(line);
    let ghost ts = tokens@.map_values(|v: Vec<u8>| v@);
    let mut out: Vec<i32> = Vec::new();
    let mut i: usize = 0;
    assert(ts.subrange(0, 0) =~= Seq::<Seq<u8>>::empty());
    while i < tokens.len()
        invariant
            ts == tokens@.map_values(|v: Vec<u8>| v@),
            ts == words(line@),
            i <= tokens@.len(),
            ints_of(ts.subrange(0, i as int)) == Some(out@),
        decreases tokens@.len() - i,
    {
        let ghost pre = ts.subrange(0, i as int);
        let ghost next = ts.subrange(0, i as int + 1);
        proof {
            assert(next.drop_last() =~= pre);
            assert(next.last() == tokens@[i as int]@);
        }
        match parse_i32(&tokens[i]) {
            Some(v) => {
                out.push(v);
            },
            None => {
                proof {
                    assert(ints_of(next) is None);
                    lemma_ints_stay_none(ts, i as int + 1);
                }
                return None;
            },
        }
        i = i + 1;
    }
    assert(ts.subrange(0, i as int) =~= ts);
    Some(out)
}

proof fn lemma_ints_stay_none(tokens: Seq<Seq<u8>>, k: int)
    requires
        0 <= k <= tokens.len(),
        ints_of(tokens.subrange(0, k)) is None,
    ensures
        ints_of(tokens) is None,
    decreases tokens.len() - k,
{
    if k == tokens.len() {
        assert(tokens.subrange(0, k) =~= tokens);
    } else {
        assert(tokens.subrange(0, k + 1).drop_last() =~= tokens.subrange(0, k));
        lemma_ints_stay_none(tokens, k + 1);
    }
}

proof fn lemma_rows_stay_none(lines: Seq<Seq<u8>>, k: int)
    requires
        0 <= k <= lines.len(),
        rows_of(lines.subrange(0, k)) is None,
    ensures
        rows_of(lines) is None,
    decreases lines.len() - k,
{
    if k == lines.len() {
        assert(lines.subrange(0, k) =~= lines);
    } else {
        assert(lines.subrange(0, k + 1).drop_last() =~= lines.subrange(0, k));
        lemma_rows_stay_none(lines, k + 1);
    }
}

proof fn lemma_values_stay_err(rows: Seq<Seq<i32>>, forward: bool, k: int)
    requires
        0 <= k <= rows.len(),
        values_of(rows.subrange(0, k), forward) is Err,
    ensures
        values_of(rows, forward) == values_of(rows.subrange(0, k), forward),
    decreases rows.len() - k,
{
    if k == rows.len() {
        assert(rows.subrange(0, k) =~= rows);
    } else {
        assert(rows.subrange(0, k + 1).drop_last() =~= rows.subrange(0, k));
        lemma_values_stay_err(rows, forward, k + 1);
    }
}

proof fn lemma_sum_stays_none(vs: Seq<i32>, k: int)
    requires
        0 <= k <= vs.len(),
        checked_sum(vs.subrange(0, k)) is None,
    ensures
        checked_sum(vs) is None,
    decreases vs.len() - k,
{
    if k == vs.len() {
        assert(vs.subrange(0, k) =~= vs);
    } else {
        assert(vs.subrange(0, k + 1).drop_last() =~= vs.subrange(0, k));
        lemma_sum_stays_none(vs, k + 1);
    }
}

/// Reads every line of `input` as a history, extrapolates each, and sums.
fn total_of_histories(input: &str, forward: bool) -> (r: Result<i32, PuzzleError>)
    ensures
        r == history_total(lines_of(input.spec_bytes()), forward),
{
    let lines = split_lines(input.as_bytes());
    let ghost ls = lines_of(input.spec_bytes());
    let mut rows: Vec<Vec<i32>> = Vec::new();
    let mut i: usize = 0;
    assert(ls.subrange(0, 0) =~= Seq::<Seq<u8>>::empty());
    while i < lines.len()
        invariant
            ls == lines_of(input.spec_bytes()),
            lines@.map_values(|v: Vec<u8>| v@) == ls,
            i <= lines@.len(),
            rows_of(ls.subrange(0, i as int)) == Some(rows@.map_values(|v: Vec<i32>| v@)),
        decreases lines@.len() - i,
    {
        let ghost pre = ls.subrange(0, i as int);
        let ghost next = ls.subrange(0, i as int + 1);
        proof {
            assert(next.drop_last() =~= pre);
            assert(next.last() == lines@[i as int]@);
        }
        match parse_row(&lines[i]) {
            Some(row) => {
                let ghost before = rows@;
                rows.push(row);
                assert(rows@.map_values(|v: Vec<i32>| v@) =~= before.map_values(|v: Vec<i32>| v@).push(
                    row@,
                ));
            },
            None => {
                proof {
                    assert(rows_of(next) is None);
                    lemma_rows_stay_none(ls, i as int + 1);
                }
                return Err(PuzzleError::InvalidNumber);
            },
        }
        i = i + 1;
    }
    assert(ls.subrange(0, i as int) =~= ls);
    let ghost rs = rows@.map_values(|v: Vec<i32>| v@);
    let mut values: Vec<i32> = Vec::new();
    let mut k: usize = 0;
    assert(rs.subrange(0, 0) =~= Seq::<Seq<i32>>::empty());
    while k < rows.len()
        invariant
            ls == lines_of(input.spec_bytes()),
            rows_of(ls) == Some(rs),
            rs == rows@.map_values(|v: Vec<i32>| v@),
            k <= rows@.len(),
            values_of(rs.subrange(0, k as int), forward) == Ok::<Seq<i32>, PuzzleError>(values@),
        decreases rows@.len() - k,
    {
        let ghost next = rs.subrange(0, k as int + 1);
        proof {
            assert(next.drop_last() =~= rs.subrange(0, k as int));
            assert(next.last() == rows@[k as int]@);
        }
        match extrapolate_line(&rows[k], forward) {
            Ok(v) => {
                values.push(v);
            },
            Err(e) => {
                proof {
                    lemma_values_stay_err(rs, forward, k as int + 1);
                }
                return Err(e);
            },
        }
        k = k + 1;
    }
    assert(rs.subrange(0, k as int) =~= rs);
    let mut total: i32 = 0;
    let mut j: usize = 0;
    assert(values@.subrange(0, 0) =~= Seq::<i32>::empty());
    while j < values.len()
        invariant
            ls == lines_of(input.spec_bytes()),
            rows_of(ls) == Some(rs),
            values_of(rs, forward) == Ok::<Seq<i32>, PuzzleError>(values@),
            j <= values@.len(),
            checked_sum(values@.subrange(0, j as int)) == Some(total as int),
        decreases values@.len() - j,
    {
        proof {
            let next = values@.subrange(0, j as int + 1);
            assert(next.drop_last() =~= values@.subrange(0, j as int));
        }
        match total.checked_add(values[j]) {
            Some(t) => {
                total = t;
            },
            None => {
                proof {
                    lemma_sum_stays_none(values@, j as int + 1);
                }
                return Err(PuzzleError::Overflow);
            },
        }
        j = j + 1;
    }
    assert(values@.subrange(0, j as int) =~= values@);
    Ok(total)
}

/// The sum of the next values of the histories of `input`, one per line,
/// with its bits read as a `u32`.
pub fn solve_part_1(input: &str) -> (r: Result<u32, PuzzleError>)
    ensures
        r == (match history_total(lines_of(input.spec_bytes()), true) {
            Ok(t) => Ok::<u32, PuzzleError>(as_unsigned(t)),
            Err(e) => Err(e),
        }),
{
    match total_of_histories(input, true) {
        Ok(t) => {
            if t >= 0 {
                Ok(t as u32)
            } else {
                Ok(((t as i64) + 4294967296i64) as u32)
            }
        },
        Err(e) => Err(e),
    }
}

/// The sum of the values before the first of the histories of `input`,
/// one per line.
pub fn solve_part_2(input: &str) -> (r: Result<i32, PuzzleError>)
    ensures
        r == history_total(lines_of(input.spec_bytes()), false),
{
    total_of_histories(input, false)
}

} // verus!
