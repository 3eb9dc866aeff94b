//! Day 06: Wait For It. A race of `time` milliseconds is won by holding the
//! button for `i` milliseconds, `0 <= i < time`, when the boat then covers
//! `(time - i) * i` millimetres, more than the record `distance`.
use vstd::prelude::*;
use vstd::string::StringSliceAdditionalSpecFns;

use crate::text::{lines_of, nat_of, parse_u64, split_lines, split_words, words, PuzzleError};

verus! {

/// The number of button times `i < n` that beat `distance` in a race of
/// `time` milliseconds.
pub open spec fn wins_below(time: nat, distance: nat, n: nat) -> nat
    decreases n,
{
    if n == 0 {
        0
    } else {
        let i = (n - 1) as nat;
        wins_below(time, distance, i) + if (time - i) * i > distance {
            1nat
        } else {
            0nat
        }
    }
}

/// The number of ways to win a race of `time` milliseconds with record
/// `distance`.
pub open spec fn ways_to_win(time: nat, distance: nat) -> nat {
    wins_below(time, distance, time)
}

proof fn lemma_wins_below_bounded(time: nat, distance: nat, n: nat)
    ensures
        wins_below(time, distance, n) <= n,
    decreases n,
{
    if n > 0 {
        lemma_wins_below_bounded(time, distance, (n - 1) as nat);
    }
}

/// Counts the ways to win a race of `time` milliseconds with record
/// `distance`.
pub fn winning_times(time: u64, distance: u64) -> (r: u64)
    ensures
        r == ways_to_win(time as nat, distance as nat),
{
    let mut count: u64 = 0;
    let mut i: u64 = 0;
    while i < time
        invariant
            i <= time,
            count == wins_below(time as nat, distance as nat, i as nat),
        decreases time - i,
    {
        proof {
            lemma_wins_below_bounded(time as nat, distance as nat, i as nat);
        }
        let held = i as u128;
        let left = (time - i) as u128;
        assert(left * held <= u64::MAX as u128 * u64::MAX as u128) by (nonlinear_arith)
            requires
                left <= u64::MAX,
                held <= u64::MAX,
        ;
        if left * held > distance as u128 {
            count = count + 1;
        }
        i = i + 1;
    }
    count
}

/// The bytes `Time: `.
pub open spec fn time_label() -> Seq<u8> {
    seq![84u8, 105, 109, 101, 58, 32]
}

/// The bytes `Distance: `.
pub open spec fn distance_label() -> Seq<u8> {
    seq![68u8, 105, 115, 116, 97, 110, 99, 101, 58, 32]
}

/// `s` without every leading repetition of `p`.
pub open spec fn trim_label(s: Seq<u8>, p: Seq<u8>) -> Seq<u8>
    decreases s.len(),
{
    if p.len() > 0 && s.len() >= p.len() && s.subrange(0, p.len() as int) == p {
        trim_label(s.skip(p.len() as int), p)
    } else {
        s
    }
}

/// The values of the tokens, where each is a number that fits `u64`.
pub open spec fn numbers_of(tokens: Seq<Seq<u8>>) -> Option<Seq<nat>>
    decreases tokens.len(),
{
    if tokens.len() == 0 {
        Some(Seq::<nat>::empty())
    } else {
        match numbers_of(tokens.drop_last()) {
            None => None,
            Some(ns) => match nat_of(tokens.last()) {
                Some(v) => if v <= u64::MAX {
                    Some(ns.push(v))
                } else {
                    None
                },
                None => None,
            },
        }
    }
}

/// The numbers of a labelled line: the space-separated numbers after its
/// label.
pub open spec fn line_numbers(line: Seq<u8>, label: Seq<u8>) -> Option<Seq<nat>> {
    numbers_of(words(trim_label(line, label)))
}

/// The product of the ways to win the first `n` races, multiplied out in
/// order; none where a partial product exceeds `u64::MAX`.
pub open spec fn product_of_ways(times: Seq<nat>, distances: Seq<nat>, n: nat) -> Option<nat>
    decreases n,
{
    if n == 0 {
        Some(1)
    } else {
        let i = (n - 1) as int;
        match product_of_ways(times, distances, (n - 1) as nat) {
            None => None,
            Some(p) => {
                let q = p * ways_to_win(times[i], distances[i]);
                if q <= u64::MAX {
                    Some(q)
                } else {
                    None
                }
            },
        }
    }
}

/// The answer of the first part: the product over the races, which pair
/// the times of the first line with the distances of the second.
pub open spec fn races_answer(lines: Seq<Seq<u8>>) -> Result<u64, PuzzleError> {
    if lines.len() < 1 {
        Err(PuzzleError::MissingField)
    } else {
        match line_numbers(lines[0], time_label()) {
            None => Err(PuzzleError::InvalidNumber),
            Some(times) => if lines.len() < 2 {
                Err(PuzzleError::MissingField)
            } else {
                match line_numbers(lines[1], distance_label()) {
                    None => Err(PuzzleError::InvalidNumber),
                    Some(distances) => {
                        let n = if times.len() <= distances.len() {
                            times.len()
                        } else {
                            distances.len()
                        };
                        match product_of_ways(times, distances, n) {
                            Some(p) => Ok(p as u64),
                            None => Err(PuzzleError::Overflow),
                        }
                    },
                }
            },
        }
    }
}

/// `s` from position `start` on, without every leading repetition of `p`.
fn trim_label_from(s: &Vec<u8>, p: &Vec<u8>) -> (r: Vec<u8>)
    ensures
        r@ == trim_label(s@, p@),
{
    let mut start: usize = 0;
    let n = s.len();
    let m = p.len();
    assert(s@.skip(0) =~= s@);
    while m > 0 && n - start >= m
        invariant
            start <= n,
            n == s@.len(),
            m == p@.len(),
            trim_label(s@, p@) == trim_label(s@.skip(start as int), p@),
        ensures
            start <= n,
            trim_label(s@, p@) == s@.skip(start as int),
        decreases n - start,
    {
        let ghost rest = s@.skip(start as int);
        let mut j: usize = 0;
        let mut same = true;
        while j < m
            invariant
                j <= m,
                start + m <= n,
                n == s@.len(),
                m == p@.len(),
                rest == s@.skip(start as int),
                same <==> forall|k: int| 0 <= k < j ==> s@[start + k] == p@[k],
            decreases m - j,
        {
            if s[start + j] != p[j] {
                same = false;
            }
            j = j + 1;
        }
        if !same {
            assert(exists|k: int| 0 <= k < m && s@[start + k] != p@[k]);
            let ghost k = choose|k: int| 0 <= k < m && s@[start + k] != p@[k];
            assert(rest.subrange(0, m as int)[k] != p@[k]);
            assert(trim_label(rest, p@) == rest);
            break;
        }
        assert(rest.subrange(0, m as int) =~= p@);
        assert(rest.skip(m as int) =~= s@.skip(start + m));
        start = start + m;
    }
    let mut out: Vec<u8> = Vec::new();
    let mut i: usize = start;
    while i < n
        invariant
            start <= i <= n,
            n == s@.len(),
            out@ =~= s@.subrange(start as int, i as int),
        decreases n - i,
    {
        out.push(s[i]);
        i = i + 1;
    }
    assert(out@ =~= s@.skip(start as int));
    out
}


/// The values of `tokens`, where each is a number that fits `u64`.
fn parse_numbers(tokens: &Vec<Vec<u8>>) -> (r: Option<Vec<u64>>)
    ensures
        numbers_of(tokens@.map_values(|v: Vec<u8>| v@)) is None ==> r is None,
        numbers_of(tokens@.map_values(|v: Vec<u8>| v@)) matches Some(ns) ==> (r matches Some(v)
            && v@.map_values(|x: u64| x as nat) == ns),
{
    let ghost ts = tokens@.map_values(|v: Vec<u8>| v@);
    let mut out: Vec<u64> = Vec::new();
    let mut i: usize = 0;
    assert(ts.subrange(0, 0) =~= Seq::<Seq<u8>>::empty());
    while i < tokens.len()
        invariant
            ts == tokens@.map_values(|v: Vec<u8>| v@),
            i <= tokens@.len(),
            numbers_of(ts.subrange(0, i as int)) == Some(out@.map_values(|x: u64| x as nat)),
        decreases tokens@.len() - i,
    {
        let ghost pre = ts.subrange(0, i as int);
        let ghost next = ts.subrange(0, i as int + 1);
        proof {
            assert(next.drop_last() =~= pre);
            assert(next.last() == tokens@[i as int]@);
        }
        match parse_u64(&tokens[i]) {
            Some(v) => {
                let ghost before = out@;
                out.push(v);
                assert(out@.map_values(|x: u64| x as nat) =~= before.map_values(|x: u64| x as nat).push(
                    v as nat,
                ));
            },
            None => {
                proof {
                    assert(numbers_of(next) is None);
                    lemma_numbers_stay_none(ts, i as int + 1);
                }
                return None;
            },
        }
        i = i + 1;
    }
    assert(ts.subrange(0, i as int) =~= ts);
    Some(out)
}

proof fn lemma_numbers_stay_none(tokens: Seq<Seq<u8>>, k: int)
    requires
        0 <= k <= tokens.len(),
        numbers_of(tokens.subrange(0, k)) is None,
    ensures
        numbers_of(tokens) is None,
    decreases tokens.len() - k,
{
    if k == tokens.len() {
        assert(tokens.subrange(0, k) =~= tokens);
    } else {
        assert(tokens.subrange(0, k + 1).drop_last() =~= tokens.subrange(0, k));
        lemma_numbers_stay_none(tokens, k + 1);
    }
}

/// The numbers after the label of a line.
pub(crate) fn labelled_numbers(line: &Vec<u8>, label: &Vec<u8>) -> (r: Option<Vec<u64>>)
    ensures
        line_numbers(line@, label@) is None ==> r is None,
        line_numbers(line@, label@) matches Some(ns) ==> (r matches Some(v) && v@.map_values(
            |x: u64| x as nat,
        ) == ns),
{
    let rest = trim_label_from(line, label);
    let tokens = split_words(&rest);
    parse_numbers(&tokens)
}

fn time_label_bytes() -> (r: Vec<u8>)
    ensures
        r@ == time_label(),
{
    let r: Vec<u8> = vec![84u8, 105, 109, 101, 58, 32];
    assert(r@ =~= time_label());
    r
}

fn distance_label_bytes() -> (r: Vec<u8>)
    ensures
        r@ == distance_label(),
{
    let r: Vec<u8> = vec![68u8, 105, 115, 116, 97, 110, 99, 101, 58, 32];
    assert(r@ =~= distance_label());
    r
}

/// The product, over the races of `input`, of the number of ways to win
/// each. The first line holds the race times after `Time: `, the second the
/// record distances after `Distance: `; races pair them in order.
pub fn solve_part_1(input: &str) -> (r: Result<u64, PuzzleError>)
    ensures
        r == races_answer(lines_of(input.spec_bytes())),
{
    let lines = split_lines(input.as_bytes());
    let ghost ls = lines_of(input.spec_bytes());
    assert(lines@.len() == ls.len());
    if lines.len() < 1 {
        return Err(PuzzleError::MissingField);
    }
    assert(lines@[0]@ == ls[0]);
    let times = match labelled_numbers(&lines[0], &time_label_bytes()) {
        Some(v) => v,
        None => {
            return Err(PuzzleError::InvalidNumber);
        },
    };
    if lines.len() < 2 {
        return Err(PuzzleError::MissingField);
    }
    assert(lines@[1]@ == ls[1]);
    let distances = match labelled_numbers(&lines[1], &distance_label_bytes()) {
        Some(v) => v,
        None => {
            return Err(PuzzleError::InvalidNumber);
        },
    };
    let ghost ts = times@.map_values(|x: u64| x as nat);
    let ghost ds = distances@.map_values(|x: u64| x as nat);
    let n = if times.len() <= distances.len() {
        times.len()
    } else {
        distances.len()
    };
    let mut product: u64 = 1;
    let mut i: usize = 0;
    while i < n
        invariant
            i <= n,
            n <= times@.len(),
            n <= distances@.len(),
            ts == times@.map_values(|x: u64| x as nat),
            ds == distances@.map_values(|x: u64| x as nat),
            product_of_ways(ts, ds, i as nat) == Some(product as nat),
            ls == lines_of(input.spec_bytes()),
            ls.len() >= 2,
            line_numbers(ls[0], time_label()) == Some(ts),
            line_numbers(ls[1], distance_label()) == Some(ds),
            n == (if ts.len() <= ds.len() {
                ts.len()
            } else {
                ds.len()
            }),
        decreases n - i,
    {
        let ways = winning_times(times[i], distances[i]);
        assert(ts[i as int] == times@[i as int] as nat);
        assert(ds[i as int] == distances@[i as int] as nat);
        match product.checked_mul(ways) {
            Some(p) => {
                product = p;
            },
            None => {
                proof {
                    assert(product_of_ways(ts, ds, (i + 1) as nat) is None);
                    lemma_product_stays_none(ts, ds, (i + 1) as nat, n as nat);
                }
                return Err(PuzzleError::Overflow);
            },
        }
        i = i + 1;
    }
    Ok(product)
}

proof fn lemma_product_stays_none(times: Seq<nat>, distances: Seq<nat>, k: nat, n: nat)
    requires
        k <= n,
        product_of_ways(times, distances, k) is None,
    ensures
        product_of_ways(times, distances, n) is None,
    decreases n - k,
{
    if k < n {
        lemma_product_stays_none(times, distances, k + 1, n);
    }
}

/// `s` without its space bytes.
pub open spec fn without_spaces(s: Seq<u8>) -> Seq<u8>
    decreases s.len(),
{
    if s.len() == 0 {
        s
    } else if s.last() == 32 {
        without_spaces(s.drop_last())
    } else {
        without_spaces(s.drop_last()).push(s.last())
    }
}

/// The number of a labelled line whose digits are spread out by spaces.
pub open spec fn joined_number(line: Seq<u8>, label: Seq<u8>) -> Option<nat> {
    match nat_of(without_spaces(trim_label(line, label))) {
        Some(v) => if v <= u64::MAX {
            Some(v)
        } else {
            None
        },
        None => None,
    }
}

/// The answer of the second part: one race, whose time and distance are
/// written with spaces between their digits.
pub open spec fn single_race_answer(lines: Seq<Seq<u8>>) -> Result<u64, PuzzleError> {
    if lines.len() < 1 {
        Err(PuzzleError::MissingField)
    } else {
        match joined_number(lines[0], time_label()) {
            None => Err(PuzzleError::InvalidNumber),
            Some(time) => if lines.len() < 2 {
                Err(PuzzleError::MissingField)
            } else {
                match joined_number(lines[1], distance_label()) {
                    None => Err(PuzzleError::InvalidNumber),
                    Some(distance) => Ok(ways_to_win(time, distance) as u64),
                }
            },
        }
    }
}

/// The number of a labelled line, read with its spaces removed.
fn parse_joined(line: &Vec<u8>, label: &Vec<u8>) -> (r: Option<u64>)
    ensures
        r is Some <==> joined_number(line@, label@) is Some,
        r matches Some(v) ==> joined_number(line@, label@) == Some(v as nat),
{
    let rest = trim_label_from(line, label);
    let mut digits: Vec<u8> = Vec::new();
    let mut i: usize = 0;
    assert(rest@.subrange(0, 0) =~= Seq::<u8>::empty());
    while i < rest.len()
        invariant
            i <= rest@.len(),
            digits@ == without_spaces(rest@.subrange(0, i as int)),
        decreases rest@.len() - i,
    {
        proof {
            let next = rest@.subrange(0, i as int + 1);
            assert(next.drop_last() =~= rest@.subrange(0, i as int));
            assert(next.last() == rest@[i as int]);
        }
        if rest[i] != 32 {
            digits.push(rest[i]);
        }
        i = i + 1;
    }
    assert(rest@.subrange(0, i as int) =~= rest@);
    parse_u64(&digits)
}

/// The number of ways to win the one race of `input`, whose time and
/// distance are written with spaces between their digits.
pub fn solve_part_2(input: &str) -> (r: Result<u64, PuzzleError>)
    ensures
        r == single_race_answer(lines_of(input.spec_bytes())),
{
    let lines = split_lines(input.as_bytes());
    let ghost ls = lines_of(input.spec_bytes());
    assert(lines@.len() == ls.len());
    if lines.len() < 1 {
        return Err(PuzzleError::MissingField);
    }
    assert(lines@[0]@ == ls[0]);
    let time = match parse_joined(&lines[0], &time_label_bytes()) {
        Some(v) => v,
        None => {
            return Err(PuzzleError::InvalidNumber);
        },
    };
    if lines.len() < 2 {
        return Err(PuzzleError::MissingField);
    }
    assert(lines@[1]@ == ls[1]);
    let distance = match parse_joined(&lines[1], &distance_label_bytes()) {
        Some(v) => v,
        None => {
            return Err(PuzzleError::InvalidNumber);
        },
    };
    Ok(winning_times(time, distance))
}

} // verus!
