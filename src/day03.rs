//! Day 03: Gear Ratios. A grid of digits, periods and symbols: every run of
//! digits is a number, every other byte but `.` is a symbol.
use vstd::prelude::*;
use vstd::string::StringSliceAdditionalSpecFns;

use crate::text::{decimal_value, is_digit, lemma_decimal_prefix, lines_of, split_lines, PuzzleError};

verus! {

/// A byte that is neither a digit nor `.`.
pub open spec fn is_symbol(b: u8) -> bool {
    !is_digit(b) && b != 46
}

/// The number of digits from position `x` of `l` on.
pub open spec fn run_len(l: Seq<u8>, x: int) -> nat
    decreases l.len() - x,
{
    if x < 0 || x >= l.len() || !is_digit(l[x]) {
        0
    } else {
        1 + run_len(l, x + 1)
    }
}

/// The number written by the digits from position `x` on.
pub open spec fn run_value(l: Seq<u8>, x: int) -> nat {
    decimal_value(l.subrange(x, x + run_len(l, x)))
}

/// A run of digits starts at position `x`.
pub open spec fn starts_run(l: Seq<u8>, x: int) -> bool {
    0 <= x < l.len() && is_digit(l[x]) && (x == 0 || !is_digit(l[x - 1]))
}

/// The number of decimal digits of `v`.
pub open spec fn dec_len(v: nat) -> nat
    decreases v,
{
    if v < 10 {
        1
    } else {
        1 + dec_len(v / 10)
    }
}

/// A symbol stands at row `y`, column `x`.
pub open spec fn symbol_at(lines: Seq<Seq<u8>>, y: int, x: int) -> bool {
    0 <= y < lines.len() && 0 <= x < lines[y].len() && is_symbol(lines[y][x])
}

/// A symbol stands in rows `y - 1 ..= y + 1` and columns `x - 1 ..= x + w`.
pub open spec fn near_symbol(lines: Seq<Seq<u8>>, y: int, x: int, w: int) -> bool {
    exists|a: int, b: int|
        y - 1 <= a <= y + 1 && x - 1 <= b <= x + w && #[trigger] symbol_at(lines, a, b)
}

/// What the run starting at column `x` of row `y` adds: its value if a
/// symbol stands next to its digits (as many as its value has), else 0.
pub open spec fn part_value(lines: Seq<Seq<u8>>, y: int, x: int) -> nat {
    if starts_run(lines[y], x) && near_symbol(
        lines,
        y,
        x,
        dec_len(run_value(lines[y], x)) as int,
    ) {
        run_value(lines[y], x)
    } else {
        0
    }
}

/// The sum of the part values of the first `x` columns of row `y`.
pub open spec fn row_parts(lines: Seq<Seq<u8>>, y: int, x: int) -> nat
    decreases x,
{
    if x <= 0 {
        0
    } else {
        row_parts(lines, y, x - 1) + part_value(lines, y, x - 1)
    }
}

/// The sum of the part values of the first `y` rows.
pub open spec fn parts_sum(lines: Seq<Seq<u8>>, y: int) -> nat
    decreases y,
{
    if y <= 0 {
        0
    } else {
        parts_sum(lines, y - 1) + row_parts(lines, y - 1, lines[y - 1].len() as int)
    }
}

/// Every number of the grid fits `u32`.
pub open spec fn runs_fit(lines: Seq<Seq<u8>>) -> bool {
    forall|y: int, x: int|
        0 <= y < lines.len() && #[trigger] starts_run(lines[y], x) ==> run_value(lines[y], x)
            <= u32::MAX
}

/// The answer of the first part: the sum of the numbers next to a symbol.
pub open spec fn parts_answer(lines: Seq<Seq<u8>>) -> Result<u32, PuzzleError> {
    if !runs_fit(lines) {
        Err(PuzzleError::InvalidNumber)
    } else if parts_sum(lines, lines.len() as int) > u32::MAX {
        Err(PuzzleError::Overflow)
    } else {
        Ok(parts_sum(lines, lines.len() as int) as u32)
    }
}

proof fn lemma_run_bounds(l: Seq<u8>, x: int)
    requires
        0 <= x <= l.len(),
    ensures
        x + run_len(l, x) <= l.len(),
        forall|k: int| x <= k < x + run_len(l, x) ==> is_digit(#[trigger] l[k]),
        x + run_len(l, x) < l.len() ==> !is_digit(l[x + run_len(l, x)]),
    decreases l.len() - x,
{
    if x < l.len() && is_digit(l[x]) {
        lemma_run_bounds(l, x + 1);
    }
}

/// The length of the run of digits at `x`, and its value where that fits
/// `u32`.
fn read_run(l: &Vec<u8>, x: usize) -> (r: (usize, Option<u32>))
    requires
        x <= l@.len(),
    ensures
        r.0 == run_len(l@, x as int),
        r.1 is Some <==> run_value(l@, x as int) <= u32::MAX,
        r.1 matches Some(v) ==> v == run_value(l@, x as int),
{
    proof {
        lemma_run_bounds(l@, x as int);
    }
    let ghost d = l@.subrange(x as int, x + run_len(l@, x as int));
    let n = l.len();
    let mut i: usize = x;
    let mut acc: u64 = 0;
    let mut fits = true;
    assert(d.subrange(0, 0) =~= Seq::<u8>::empty());
    while i < n && 48 <= l[i] && l[i] <= 57
        invariant
            n == l@.len(),
            x <= i <= x + run_len(l@, x as int),
            d == l@.subrange(x as int, x + run_len(l@, x as int)),
            x + run_len(l@, x as int) <= n,
            forall|k: int| x <= k < x + run_len(l@, x as int) ==> is_digit(#[trigger] l@[k]),
            x + run_len(l@, x as int) < n ==> !is_digit(l@[x + run_len(l@, x as int)]),
            fits ==> acc == decimal_value(d.subrange(0, i - x)) && acc <= u32::MAX,
            !fits ==> decimal_value(d) > u32::MAX,
        decreases n - i,
    {
        proof {
            let next = d.subrange(0, i - x + 1);
            assert(next.drop_last() =~= d.subrange(0, i - x));
            assert(next.last() == l@[i as int]);
        }
        if fits {
            let v = acc * 10 + (l[i] - 48) as u64;
            if v > u32::MAX as u64 {
                proof {
                    assert(crate::text::all_digits(d));
                    lemma_decimal_prefix(d, i - x + 1);
                }
                fits = false;
            } else {
                acc = v;
            }
        }
        i = i + 1;
    }
    proof {
        assert(d.subrange(0, i - x) =~= d);
    }
    if fits {
        (i - x, Some(acc as u32))
    } else {
        (i - x, None)
    }
}


/// The number of decimal digits of `v`.
fn digit_count(v: u32) -> (r: u64)
    ensures
        r == dec_len(v as nat),
{
    let mut n: u64 = 1;
    let mut t: u32 = v;
    while t >= 10
        invariant
            dec_len(v as nat) == n - 1 + dec_len(t as nat),
            1 <= n,
            n + t <= v as u64 + 1,
        decreases t,
    {
        assert(dec_len(t as nat) == 1 + dec_len((t / 10) as nat));
        assert(t / 10 + 1 <= t);
        t = t / 10;
        n = n + 1;
    }
    n
}

/// Whether a symbol stands in rows `y - 1 ..= y + 1` and columns
/// `x - 1 ..= x + w`.
fn symbol_near(lines: &Vec<Vec<u8>>, y: usize, x: usize, w: u64) -> (r: bool)
    requires
        y < lines@.len(),
    ensures
        r == near_symbol(lines@.map_values(|v: Vec<u8>| v@), y as int, x as int, w as int),
{
    let ghost lv = lines@.map_values(|v: Vec<u8>| v@);
    let n = lines.len();
    let a_lo: usize = if y == 0 {
        0
    } else {
        y - 1
    };
    let a_hi: usize = if y + 1 < n {
        y + 1
    } else {
        y
    };
    let b_lo: usize = if x == 0 {
        0
    } else {
        x - 1
    };
    let mut a: usize = a_lo;
    while a <= a_hi
        invariant
            lv == lines@.map_values(|v: Vec<u8>| v@),
            n == lines@.len(),
            y < lines@.len(),
            a_lo <= a <= a_hi + 1,
            a_hi < lines@.len(),
            a_lo == (if y == 0 { 0 } else { y - 1 }),
            a_hi == (if y + 1 < lines@.len() { y + 1 } else { y as int }),
            b_lo == (if x == 0 { 0 } else { x - 1 }),
            forall|p: int, q: int|
                y - 1 <= p < a && x - 1 <= q <= x + w ==> !#[trigger] symbol_at(lv, p, q),
        decreases a_hi + 1 - a,
    {
        let row = &lines[a];
        assert(row@ == lv[a as int]);
        let mut b: usize = b_lo;
        while b < row.len() && (b as u128) <= (x as u128) + (w as u128)
            invariant
                lv == lines@.map_values(|v: Vec<u8>| v@),
                a < lines@.len(),
                a_lo <= a <= a_hi,
                a_lo == (if y == 0 { 0 } else { y - 1 }),
                a_hi == (if y + 1 < lines@.len() { y + 1 } else { y as int }),
                row@ == lv[a as int],
                b_lo <= b,
                b_lo == (if x == 0 { 0 } else { x - 1 }),
                forall|q: int| x - 1 <= q < b ==> !#[trigger] symbol_at(lv, a as int, q),
            decreases row@.len() - b,
        {
            let c = row[b];
            if !(48 <= c && c <= 57) && c != 46 {
                assert(near_symbol(lv, y as int, x as int, w as int)) by {
                    assert(symbol_at(lv, a as int, b as int));
                }
                return true;
            }
            b = b + 1;
        }
        assert forall|p: int, q: int| y - 1 <= p < a + 1 && x - 1 <= q <= x + w implies !#[trigger] symbol_at(
            lv,
            p,
            q,
        ) by {
            if p == a && q >= b {
                assert(!(0 <= q < lv[a as int].len()) || q > x + w);
            }
        }
        a = a + 1;
    }
    assert forall|p: int, q: int| y - 1 <= p <= y + 1 && x - 1 <= q <= x + w implies !#[trigger] symbol_at(
        lv,
        p,
        q,
    ) by {
        if p >= a {
            assert(p >= lv.len() as int);
        }
    }
    false
}


/// The sum of the numbers of the grid of `input` that have a symbol next
/// to them, diagonally included. A number beyond `u32::MAX` is
/// `InvalidNumber`.
pub fn solve_part_1(input: &str) -> (r: Result<u32, PuzzleError>)
    ensures
        r == parts_answer(lines_of(input.spec_bytes())),
{
    let lines = split_lines(input.as_bytes());
    let ghost lv = lines_of(input.spec_bytes());
    let mut total: u64 = 0;
    let mut over = false;
    let mut y: usize = 0;
    while y < lines.len()
        invariant
            lv == lines_of(input.spec_bytes()),
            lines@.map_values(|v: Vec<u8>| v@) == lv,
            y <= lines@.len(),
            forall|p: int, q: int| 0 <= p < y && #[trigger] starts_run(lv[p], q) ==> run_value(
                lv[p],
                q,
            ) <= u32::MAX,
            !over ==> total == parts_sum(lv, y as int) && total <= u32::MAX,
            over ==> parts_sum(lv, y as int) > u32::MAX,
        decreases lines@.len() - y,
    {
        let row = &lines[y];
        assert(row@ == lv[y as int]);
        let mut x: usize = 0;
        while x < row.len()
            invariant
                lv == lines_of(input.spec_bytes()),
                lines@.map_values(|v: Vec<u8>| v@) == lv,
                y < lines@.len(),
                row@ == lv[y as int],
                x <= row@.len(),
                forall|p: int, q: int| 0 <= p < y && #[trigger] starts_run(lv[p], q) ==> run_value(
                    lv[p],
                    q,
                ) <= u32::MAX,
                forall|q: int| 0 <= q < x && #[trigger] starts_run(lv[y as int], q) ==> run_value(
                    lv[y as int],
                    q,
                ) <= u32::MAX,
                !over ==> total == parts_sum(lv, y as int) + row_parts(lv, y as int, x as int)
                    && total <= u32::MAX,
                over ==> parts_sum(lv, y as int) + row_parts(lv, y as int, x as int) > u32::MAX,
            decreases row@.len() - x,
        {
            let c = row[x];
            let starts = 48 <= c && c <= 57 && (x == 0 || !(48 <= row[x - 1] && row[x - 1] <= 57));
            assert(starts == starts_run(lv[y as int], x as int));
            if starts {
                let (_, val) = read_run(row, x);
                let v = match val {
                    Some(v) => v,
                    None => {
                        assert(!runs_fit(lv));
                        return Err(PuzzleError::InvalidNumber);
                    },
                };
                let w = digit_count(v);
                if symbol_near(&lines, y, x, w) {
                    if !over {
                        total = total + v as u64;
                        if total > u32::MAX as u64 {
                            over = true;
                        }
                    }
                }
            }
            x = x + 1;
        }
        y = y + 1;
    }
    assert(runs_fit(lv));
    if over {
        return Err(PuzzleError::Overflow);
    }
    Ok(total as u32)
}


/// Where the run of digits through column `x` of `l` starts.
pub open spec fn run_start_of(l: Seq<u8>, x: int) -> int
    decreases x,
{
    if x > 0 && x - 1 < l.len() && is_digit(l[x - 1]) {
        run_start_of(l, x - 1)
    } else {
        x
    }
}

/// The number whose digits cover row `y`, column `x`, if any.
pub open spec fn number_at(lines: Seq<Seq<u8>>, y: int, x: int) -> Option<nat> {
    if 0 <= y < lines.len() && 0 <= x < lines[y].len() && is_digit(lines[y][x]) {
        Some(run_value(lines[y], run_start_of(lines[y], x)))
    } else {
        None
    }
}

/// The `k`-th neighbour of a cell, in the order up, down, up-left,
/// up-right, down-left, down-right, left, right.
pub open spec fn neighbour(y: int, x: int, k: int) -> (int, int) {
    if k == 0 {
        (y - 1, x)
    } else if k == 1 {
        (y + 1, x)
    } else if k == 2 {
        (y - 1, x - 1)
    } else if k == 3 {
        (y - 1, x + 1)
    } else if k == 4 {
        (y + 1, x - 1)
    } else if k == 5 {
        (y + 1, x + 1)
    } else if k == 6 {
        (y, x - 1)
    } else {
        (y, x + 1)
    }
}

/// The distinct values of the numbers on the first `k` neighbours of a
/// cell, in order of first sight.
pub open spec fn neighbour_values(lines: Seq<Seq<u8>>, y: int, x: int, k: int) -> Seq<nat>
    decreases k,
{
    if k <= 0 {
        Seq::<nat>::empty()
    } else {
        let d = neighbour_values(lines, y, x, k - 1);
        let c = neighbour(y, x, k - 1);
        match number_at(lines, c.0, c.1) {
            Some(v) => if d.contains(v) {
                d
            } else {
                d.push(v)
            },
            None => d,
        }
    }
}

/// The gear ratio at a cell: for a `*` next to exactly two distinct
/// values, their product; else 0. None where the product leaves `u32`.
pub open spec fn gear_ratio(lines: Seq<Seq<u8>>, y: int, x: int) -> Option<nat> {
    let d = neighbour_values(lines, y, x, 8);
    if lines[y][x] == 42 && d.len() == 2 {
        if d[0] * d[1] > u32::MAX {
            None
        } else {
            Some(d[0] * d[1])
        }
    } else {
        Some(0)
    }
}

/// The sum of the gear ratios of the first `x` columns of row `y`; none
/// where a product overflows.
pub open spec fn row_gears(lines: Seq<Seq<u8>>, y: int, x: int) -> Option<nat>
    decreases x,
{
    if x <= 0 {
        Some(0)
    } else {
        match row_gears(lines, y, x - 1) {
            None => None,
            Some(t) => match gear_ratio(lines, y, x - 1) {
                None => None,
                Some(g) => Some(t + g),
            },
        }
    }
}

/// The sum of the gear ratios of the first `y` rows.
pub open spec fn gears_sum(lines: Seq<Seq<u8>>, y: int) -> Option<nat>
    decreases y,
{
    if y <= 0 {
        Some(0)
    } else {
        match gears_sum(lines, y - 1) {
            None => None,
            Some(t) => match row_gears(lines, y - 1, lines[y - 1].len() as int) {
                None => None,
                Some(g) => Some(t + g),
            },
        }
    }
}

/// The answer of the second part: the sum of the gear ratios.
pub open spec fn gears_answer(lines: Seq<Seq<u8>>) -> Result<u32, PuzzleError> {
    if !runs_fit(lines) {
        Err(PuzzleError::InvalidNumber)
    } else {
        match gears_sum(lines, lines.len() as int) {
            None => Err(PuzzleError::Overflow),
            Some(t) => if t > u32::MAX {
                Err(PuzzleError::Overflow)
            } else {
                Ok(t as u32)
            },
        }
    }
}

proof fn lemma_run_start(l: Seq<u8>, x: int)
    requires
        0 <= x < l.len(),
        is_digit(l[x]),
    ensures
        starts_run(l, run_start_of(l, x)),
        run_start_of(l, x) <= x,
    decreases x,
{
    if x > 0 && is_digit(l[x - 1]) {
        lemma_run_start(l, x - 1);
    }
}

/// Whether every number of the grid fits `u32`.
fn all_runs_fit(lines: &Vec<Vec<u8>>) -> (r: bool)
    ensures
        r == runs_fit(lines@.map_values(|v: Vec<u8>| v@)),
{
    let ghost lv = lines@.map_values(|v: Vec<u8>| v@);
    let mut y: usize = 0;
    while y < lines.len()
        invariant
            lv == lines@.map_values(|v: Vec<u8>| v@),
            y <= lines@.len(),
            forall|p: int, q: int| 0 <= p < y && #[trigger] starts_run(lv[p], q) ==> run_value(
                lv[p],
                q,
            ) <= u32::MAX,
        decreases lines@.len() - y,
    {
        let row = &lines[y];
        assert(row@ == lv[y as int]);
        let mut x: usize = 0;
        while x < row.len()
            invariant
                lv == lines@.map_values(|v: Vec<u8>| v@),
                y < lines@.len(),
                row@ == lv[y as int],
                x <= row@.len(),
                forall|p: int, q: int| 0 <= p < y && #[trigger] starts_run(lv[p], q) ==> run_value(
                    lv[p],
                    q,
                ) <= u32::MAX,
                forall|q: int| 0 <= q < x && #[trigger] starts_run(lv[y as int], q) ==> run_value(
                    lv[y as int],
                    q,
                ) <= u32::MAX,
            decreases row@.len() - x,
        {
            let c = row[x];
            let starts = 48 <= c && c <= 57 && (x == 0 || !(48 <= row[x - 1] && row[x - 1] <= 57));
            assert(starts == starts_run(lv[y as int], x as int));
            if starts {
                let (_, val) = read_run(row, x);
                if val.is_none() {
                    return false;
                }
            }
            x = x + 1;
        }
        y = y + 1;
    }
    true
}

/// The number whose digits cover row `y`, column `x`, if any.
fn value_at(lines: &Vec<Vec<u8>>, y: i128, x: i128) -> (r: Option<u32>)
    requires
        runs_fit(lines@.map_values(|v: Vec<u8>| v@)),
    ensures
        match number_at(lines@.map_values(|v: Vec<u8>| v@), y as int, x as int) {
            Some(v) => r == Some(v as u32) && v <= u32::MAX,
            None => r is None,
        },
{
    let ghost lv = lines@.map_values(|v: Vec<u8>| v@);
    if y < 0 || x < 0 || y as u128 >= lines.len() as u128 {
        return None;
    }
    let row = &lines[y as usize];
    assert(row@ == lv[y as int]);
    if x as u128 >= row.len() as u128 {
        return None;
    }
    let xu = x as usize;
    if !(48 <= row[xu] && row[xu] <= 57) {
        return None;
    }
    proof {
        lemma_run_start(row@, xu as int);
    }
    let mut s: usize = xu;
    while s > 0 && 48 <= row[s - 1] && row[s - 1] <= 57
        invariant
            s <= xu < row@.len(),
            run_start_of(row@, xu as int) == run_start_of(row@, s as int),
        decreases s,
    {
        s = s - 1;
    }
    let (_, val) = read_run(row, s);
    val
}

/// Whether `ds` holds `v`.
fn holds_value(ds: &Vec<u32>, v: u32) -> (r: bool)
    ensures
        r == ds@.map_values(|d: u32| d as nat).contains(v as nat),
{
    let mut i: usize = 0;
    while i < ds.len()
        invariant
            i <= ds@.len(),
            forall|k: int| 0 <= k < i ==> ds@[k] != v,
        decreases ds@.len() - i,
    {
        if ds[i] == v {
            assert(ds@.map_values(|d: u32| d as nat)[i as int] == v as nat);
            return true;
        }
        i = i + 1;
    }
    false
}

/// The gear ratio at row `y`, column `x`; none where it overflows.
fn gear_at(lines: &Vec<Vec<u8>>, y: usize, x: usize) -> (r: Option<u32>)
    requires
        runs_fit(lines@.map_values(|v: Vec<u8>| v@)),
        y < lines@.len(),
        x < lines@[y as int]@.len(),
    ensures
        match gear_ratio(lines@.map_values(|v: Vec<u8>| v@), y as int, x as int) {
            Some(g) => r == Some(g as u32) && g <= u32::MAX,
            None => r is None,
        },
{
    let ghost lv = lines@.map_values(|v: Vec<u8>| v@);
    assert(lines@[y as int]@ == lv[y as int]);
    let yi = y as i128;
    let xi = x as i128;
    let mut ds: Vec<u32> = Vec::new();
    let mut k: i64 = 0;
    while k < 8
        invariant
            lv == lines@.map_values(|v: Vec<u8>| v@),
            runs_fit(lv),
            0 <= k <= 8,
            yi == y,
            xi == x,
            y < lines@.len(),
            ds@.map_values(|d: u32| d as nat) == neighbour_values(lv, y as int, x as int, k as int),
        decreases 8 - k,
    {
        let (ny, nx) = if k == 0 {
            (yi - 1, xi)
        } else if k == 1 {
            (yi + 1, xi)
        } else if k == 2 {
            (yi - 1, xi - 1)
        } else if k == 3 {
            (yi - 1, xi + 1)
        } else if k == 4 {
            (yi + 1, xi - 1)
        } else if k == 5 {
            (yi + 1, xi + 1)
        } else if k == 6 {
            (yi, xi - 1)
        } else {
            (yi, xi + 1)
        };
        assert((ny as int, nx as int) == neighbour(y as int, x as int, k as int));
        match value_at(lines, ny, nx) {
            Some(v) => {
                if !holds_value(&ds, v) {
                    let ghost before = ds@;
                    ds.push(v);
                    assert(ds@.map_values(|d: u32| d as nat) =~= before.map_values(
                        |d: u32| d as nat,
                    ).push(v as nat));
                }
            },
            None => {},
        }
        k = k + 1;
    }
    let row = &lines[y];
    if row[x] == 42 && ds.len() == 2 {
        let a = ds[0] as u64;
        let b = ds[1] as u64;
        assert(a * b <= u32::MAX as u64 * u32::MAX as u64) by (nonlinear_arith)
            requires
                a <= u32::MAX,
                b <= u32::MAX,
        ;
        let p = a * b;
        assert(ds@.map_values(|d: u32| d as nat)[0] == ds@[0] as nat);
        assert(ds@.map_values(|d: u32| d as nat)[1] == ds@[1] as nat);
        if p > u32::MAX as u64 {
            None
        } else {
            Some(p as u32)
        }
    } else {
        Some(0)
    }
}

/// The sum of the gear ratios of the grid of `input`: for each `*` next to
/// exactly two numbers of distinct value, diagonally included, their
/// product. A number beyond `u32::MAX` is `InvalidNumber`.
pub fn solve_part_2(input: &str) -> (r: Result<u32, PuzzleError>)
    ensures
        r == gears_answer(lines_of(input.spec_bytes())),
{
    let lines = split_lines(input.as_bytes());
    let ghost lv = lines_of(input.spec_bytes());
    if !all_runs_fit(&lines) {
        return Err(PuzzleError::InvalidNumber);
    }
    let mut total: u64 = 0;
    let mut over = false;
    let mut y: usize = 0;
    while y < lines.len()
        invariant
            lv == lines_of(input.spec_bytes()),
            lines@.map_values(|v: Vec<u8>| v@) == lv,
            runs_fit(lv),
            y <= lines@.len(),
            gears_sum(lv, y as int) matches Some(t) && (!over ==> total == t && total <= u32::MAX)
                && (over ==> t > u32::MAX),
        decreases lines@.len() - y,
    {
        let row = &lines[y];
        assert(row@ == lv[y as int]);
        let ghost base = gears_sum(lv, y as int)->Some_0;
        let mut x: usize = 0;
        while x < row.len()
            invariant
                lv == lines_of(input.spec_bytes()),
                lines@.map_values(|v: Vec<u8>| v@) == lv,
                runs_fit(lv),
                y < lines@.len(),
                row@ == lv[y as int],
                x <= row@.len(),
                gears_sum(lv, y as int) == Some(base),
                row_gears(lv, y as int, x as int) matches Some(t) && (!over ==> total == base + t
                    && total <= u32::MAX) && (over ==> base + t > u32::MAX),
            decreases row@.len() - x,
        {
            assert(lines@[y as int]@ == row@);
            match gear_at(&lines, y, x) {
                Some(g) => {
                    if !over {
                        total = total + g as u64;
                        if total > u32::MAX as u64 {
                            over = true;
                        }
                    }
                },
                None => {
                    proof {
                        lemma_row_gears_stay_none(lv, y as int, x as int + 1, row@.len() as int);
                        lemma_gears_stay_none(lv, y as int + 1, lv.len() as int);
                    }
                    return Err(PuzzleError::Overflow);
                },
            }
            x = x + 1;
        }
        y = y + 1;
    }
    if over {
        return Err(PuzzleError::Overflow);
    }
    Ok(total as u32)
}

proof fn lemma_row_gears_stay_none(lines: Seq<Seq<u8>>, y: int, k: int, n: int)
    requires
        k <= n,
        row_gears(lines, y, k) is None,
    ensures
        row_gears(lines, y, n) is None,
    decreases n - k,
{
    if k < n {
        lemma_row_gears_stay_none(lines, y, k, n - 1);
    }
}

proof fn lemma_gears_stay_none(lines: Seq<Seq<u8>>, k: int, n: int)
    requires
        1 <= k <= n,
        row_gears(lines, k - 1, lines[k - 1].len() as int) is None || gears_sum(lines, k) is None,
    ensures
        gears_sum(lines, n) is None,
    decreases n - k,
{
    if k < n {
        lemma_gears_stay_none(lines, k + 1, n);
    }
}

} // verus!
