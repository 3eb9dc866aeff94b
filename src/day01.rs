//! Day 01: Trebuchet?! Each line's calibration value is its first and last
//! digit read as a two-digit number; the answer is their sum.
use vstd::prelude::*;
use vstd::string::StringSliceAdditionalSpecFns;

use crate::text::{digit_value, is_digit, lines_of, split_lines, PuzzleError};

verus! {

/// The digits of a line, in order, as values 0 to 9.
pub open spec fn digits_in(l: Seq<u8>) -> Seq<u8>
    decreases l.len(),
{
    if l.len() == 0 {
        Seq::<u8>::empty()
    } else {
        let d = digits_in(l.drop_last());
        if is_digit(l.last()) {
            d.push(digit_value(l.last()) as u8)
        } else {
            d
        }
    }
}

/// The digits of a line, ASCII digits and spelled-out digit words alike.
pub open spec fn spelled_digits(l: Seq<u8>) -> Seq<u8> {
    spelled_digits_upto(l, l.len() as int)
}

/// The digits that start at the first `n` positions of `l`.
pub open spec fn spelled_digits_upto(l: Seq<u8>, n: int) -> Seq<u8>
    decreases n,
{
    if n <= 0 {
        Seq::<u8>::empty()
    } else {
        let d = spelled_digits_upto(l, n - 1);
        match digit_at(l, n - 1) {
            Some(v) => d.push(v),
            None => d,
        }
    }
}

/// The spelling of digit `k`, in lower case.
pub open spec fn number_word(k: int) -> Seq<u8> {
    if k == 0 {
        seq![122u8, 101, 114, 111]
    } else if k == 1 {
        seq![111u8, 110, 101]
    } else if k == 2 {
        seq![116u8, 119, 111]
    } else if k == 3 {
        seq![116u8, 104, 114, 101, 101]
    } else if k == 4 {
        seq![102u8, 111, 117, 114]
    } else if k == 5 {
        seq![102u8, 105, 118, 101]
    } else if k == 6 {
        seq![115u8, 105, 120]
    } else if k == 7 {
        seq![115u8, 101, 118, 101, 110]
    } else if k == 8 {
        seq![101u8, 105, 103, 104, 116]
    } else {
        seq![110u8, 105, 110, 101]
    }
}

/// The spelling of digit `k` starts at position `i` of `l`.
pub open spec fn word_at(l: Seq<u8>, i: int, k: int) -> bool {
    i + number_word(k).len() <= l.len() && l.subrange(i, i + number_word(k).len())
        == number_word(k)
}

/// The least digit from `k` on whose spelling starts at position `i`.
pub open spec fn word_from(l: Seq<u8>, i: int, k: int) -> Option<u8>
    decreases 10 - k,
{
    if k < 0 || k >= 10 {
        None
    } else if word_at(l, i, k) {
        Some(k as u8)
    } else {
        word_from(l, i, k + 1)
    }
}

/// The digit that starts at position `i`: an ASCII digit, or a digit word.
pub open spec fn digit_at(l: Seq<u8>, i: int) -> Option<u8> {
    if is_digit(l[i]) {
        Some(digit_value(l[i]) as u8)
    } else {
        word_from(l, i, 0)
    }
}

/// The first and the last digit, as a two-digit number.
pub open spec fn calibration(digits: Seq<u8>) -> nat {
    digits[0] as nat * 10 + digits.last() as nat
}

/// The digits of a line: the ASCII digits alone, or with spelled-out
/// digit words too.
pub open spec fn digits_of(l: Seq<u8>, spelled: bool) -> Seq<u8> {
    if spelled {
        spelled_digits(l)
    } else {
        digits_in(l)
    }
}

/// The sum of the calibration values of the non-empty lines, where each
/// line's digits are `digits_of` it; none where a non-empty line has no
/// digit.
pub open spec fn calibration_total(lines: Seq<Seq<u8>>, spelled: bool) -> Option<nat>
    decreases lines.len(),
{
    if lines.len() == 0 {
        Some(0)
    } else {
        match calibration_total(lines.drop_last(), spelled) {
            None => None,
            Some(t) => {
                let l = lines.last();
                if l.len() == 0 {
                    Some(t)
                } else if digits_of(l, spelled).len() == 0 {
                    None
                } else {
                    Some(t + calibration(digits_of(l, spelled)))
                }
            },
        }
    }
}

/// The answer that a calibration total gives as a `u32`.
pub open spec fn total_answer(t: Option<nat>) -> Result<u32, PuzzleError> {
    match t {
        None => Err(PuzzleError::MissingDigit),
        Some(v) => if v <= u32::MAX {
            Ok(v as u32)
        } else {
            Err(PuzzleError::Overflow)
        },
    }
}

/// The calibration value of a line of digit values 0 to 9: its first and
/// last digit as a two-digit number; `MissingDigit` where it has none.
pub fn calibration_value(digits: &Vec<u8>) -> (r: Result<u32, PuzzleError>)
    requires
        forall|i: int| 0 <= i < digits@.len() ==> digits@[i] <= 9,
    ensures
        digits@.len() == 0 ==> r == Err::<u32, PuzzleError>(PuzzleError::MissingDigit),
        digits@.len() > 0 ==> r == Ok::<u32, PuzzleError>(calibration(digits@) as u32),
        r matches Ok(v) ==> v <= 99,
{
    let n = digits.len();
    if n == 0 {
        return Err(PuzzleError::MissingDigit);
    }
    let first = digits[0] as u32;
    let last = digits[n - 1] as u32;
    Ok(first * 10 + last)
}

/// The digit values of a line, in order.
fn line_digits(l: &Vec<u8>) -> (r: Vec<u8>)
    ensures
        r@ == digits_in(l@),
        forall|i: int| 0 <= i < r@.len() ==> r@[i] <= 9,
{
    let mut out: Vec<u8> = Vec::new();
    let mut i: usize = 0;
    proof {
        assert(l@.subrange(0, 0) =~= Seq::<u8>::empty());
    }
    while i < l.len()
        invariant
            i <= l@.len(),
            out@ == digits_in(l@.subrange(0, i as int)),
            forall|j: int| 0 <= j < out@.len() ==> out@[j] <= 9,
        decreases l@.len() - i,
    {
        let c = l[i];
        proof {
            let next = l@.subrange(0, i as int + 1);
            assert(next.drop_last() =~= l@.subrange(0, i as int));
            assert(next.last() == c);
        }
        if 48 <= c && c <= 57 {
            out.push(c - 48);
        }
        i = i + 1;
    }
    proof {
        assert(l@.subrange(0, l@.len() as int) =~= l@);
    }
    out
}

/// Sums the calibration values of the non-empty lines of `input`.
fn total_calibration(input: &str, spelled: bool) -> (r: Result<u32, PuzzleError>)
    ensures
        r == total_answer(calibration_total(lines_of(input.spec_bytes()), spelled)),
{
    let lines = split_lines(input.as_bytes());
    let ghost ls = lines_of(input.spec_bytes());
    let mut total: u128 = 0;
    let mut i: usize = 0;
    while i < lines.len()
        invariant
            ls == lines_of(input.spec_bytes()),
            lines@.map_values(|v: Vec<u8>| v@) == ls,
            i <= lines@.len(),
            calibration_total(ls.subrange(0, i as int), spelled) == Some(total as nat),
            total <= 99 * i,
        decreases lines@.len() - i,
    {
        proof {
            assert(ls.subrange(0, i as int + 1).drop_last() =~= ls.subrange(0, i as int));
            assert(ls[i as int] == lines@[i as int]@);
            assert(ls.subrange(0, i as int + 1).last() == ls[i as int]);
        }
        let line = &lines[i];
        assert(line@ == ls[i as int]);
        if line.len() > 0 {
            let digits = if spelled {
                spelled_line_digits(line)
            } else {
                line_digits(line)
            };
            assert(digits_of(line@, spelled) == digits@);
            let v = calibration_value(&digits);
            match v {
                Ok(x) => {
                    total = total + x as u128;
                },
                Err(e) => {
                    proof {
                        assert(calibration_total(ls.subrange(0, i as int + 1), spelled) is None);
                        lemma_total_stays_none(ls, spelled, i as int + 1);
                    }
                    return Err(e);
                },
            }
        }
        i = i + 1;
    }
    proof {
        assert(ls.subrange(0, i as int) =~= ls);
    }
    if total > u32::MAX as u128 {
        Err(PuzzleError::Overflow)
    } else {
        Ok(total as u32)
    }
}

/// Sums the calibration values of the non-empty lines of `input`, where a
/// line's digits are the ASCII digits in it.
pub fn solve_part_1(input: &str) -> (r: Result<u32, PuzzleError>)
    ensures
        r == total_answer(calibration_total(lines_of(input.spec_bytes()), false)),
{
    total_calibration(input, false)
}

/// Sums the calibration values of the non-empty lines of `input`, where a
/// line's digits are its ASCII digits and the digit words `zero` to `nine`
/// spelled out in it, overlapping words included.
pub fn solve_part_2(input: &str) -> (r: Result<u32, PuzzleError>)
    ensures
        r == total_answer(calibration_total(lines_of(input.spec_bytes()), true)),
{
    total_calibration(input, true)
}

/// The bytes of the spelling of digit `k`.
fn number_word_bytes(k: usize) -> (r: Vec<u8>)
    requires
        k < 10,
    ensures
        r@ == number_word(k as int),
{
    let r: Vec<u8> = if k == 0 {
        vec![122u8, 101, 114, 111]
    } else if k == 1 {
        vec![111u8, 110, 101]
    } else if k == 2 {
        vec![116u8, 119, 111]
    } else if k == 3 {
        vec![116u8, 104, 114, 101, 101]
    } else if k == 4 {
        vec![102u8, 111, 117, 114]
    } else if k == 5 {
        vec![102u8, 105, 118, 101]
    } else if k == 6 {
        vec![115u8, 105, 120]
    } else if k == 7 {
        vec![115u8, 101, 118, 101, 110]
    } else if k == 8 {
        vec![101u8, 105, 103, 104, 116]
    } else {
        vec![110u8, 105, 110, 101]
    };
    assert(r@ =~= number_word(k as int));
    r
}

/// The spelling of digit `k` starts at position `i` of `l`.
fn word_matches(l: &Vec<u8>, i: usize, k: usize) -> (r: bool)
    requires
        i < l@.len(),
        k < 10,
    ensures
        r == word_at(l@, i as int, k as int),
{
    let w = number_word_bytes(k);
    let n = l.len();
    if w.len() > n - i {
        return false;
    }
    let mut j: usize = 0;
    while j < w.len()
        invariant
            w@ == number_word(k as int),
            n == l@.len(),
            i < n,
            i + w@.len() <= n,
            j <= w@.len(),
            forall|m: int| 0 <= m < j ==> l@[i + m] == w@[m],
        decreases w@.len() - j,
    {
        if l[i + j] != w[j] {
            assert(l@.subrange(i as int, i + w@.len())[j as int] != w@[j as int]);
            return false;
        }
        j = j + 1;
    }
    assert(l@.subrange(i as int, i + w@.len()) =~= w@);
    true
}

/// The digit that starts at position `i` of `l`, if any.
fn digit_starting_at(l: &Vec<u8>, i: usize) -> (r: Option<u8>)
    requires
        i < l@.len(),
    ensures
        r == digit_at(l@, i as int),
        r matches Some(v) ==> v <= 9,
{
    let c = l[i];
    if 48 <= c && c <= 57 {
        return Some(c - 48);
    }
    let mut k: usize = 0;
    while k < 10
        invariant
            k <= 10,
            i < l@.len(),
            !is_digit(l@[i as int]),
            word_from(l@, i as int, 0) == word_from(l@, i as int, k as int),
        decreases 10 - k,
    {
        if word_matches(l, i, k) {
            return Some(k as u8);
        }
        k = k + 1;
    }
    None
}

/// The digits of a line, digit words included, in order.
fn spelled_line_digits(l: &Vec<u8>) -> (r: Vec<u8>)
    ensures
        r@ == spelled_digits(l@),
        forall|i: int| 0 <= i < r@.len() ==> r@[i] <= 9,
{
    let mut out: Vec<u8> = Vec::new();
    let mut i: usize = 0;
    while i < l.len()
        invariant
            i <= l@.len(),
            out@ == spelled_digits_upto(l@, i as int),
            forall|j: int| 0 <= j < out@.len() ==> out@[j] <= 9,
        decreases l@.len() - i,
    {
        match digit_starting_at(l, i) {
            Some(v) => {
                out.push(v);
            },
            None => {},
        }
        i = i + 1;
    }
    out
}

/// Once a line fails, the whole total fails.
pub proof fn lemma_total_stays_none(
    lines: Seq<Seq<u8>>,
    spelled: bool,
    k: int,
)
    requires
        0 <= k <= lines.len(),
        calibration_total(lines.subrange(0, k), spelled) is None,
    ensures
        calibration_total(lines, spelled) is None,
    decreases lines.len() - k,
{
    if k == lines.len() {
        assert(lines.subrange(0, k) =~= lines);
    } else {
        assert(lines.subrange(0, k + 1).drop_last() =~= lines.subrange(0, k));
        lemma_total_stays_none(lines, spelled, k + 1);
    }
}

} // verus!
