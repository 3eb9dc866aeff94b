//! Day 05: If You Give A Seed A Fertilizer. An almanac lists seeds and seven
//! maps; each map sends a value through the first of its ranges that holds
//! it, and leaves it alone when none does.
use vstd::prelude::*;
use vstd::string::StringSliceAdditionalSpecFns;

use crate::day06::{labelled_numbers, line_numbers};
use crate::text::{lines_of, nat_of, parse_u64, split_lines, split_words, words, PuzzleError};

verus! {

/// One range of a map: destination start, source start, length.
pub type MapEntry = (u64, u64, u64);

/// The value that `entries` send `v` to: through the first range whose
/// source holds `v`; none where an addition on the way leaves `u64`.
pub open spec fn map_value(entries: Seq<MapEntry>, v: nat) -> Option<nat>
    decreases entries.len(),
{
    if entries.len() == 0 {
        Some(v)
    } else {
        let (dest, src, len) = entries[0];
        if v >= src && src + len > u64::MAX {
            None
        } else if v >= src && v < src + len {
            if v - src + dest > u64::MAX {
                None
            } else {
                Some((v - src + dest) as nat)
            }
        } else {
            map_value(entries.skip(1), v)
        }
    }
}

/// The value that the first `k` maps send `v` to, in order.
pub open spec fn chain(maps: Seq<Seq<MapEntry>>, k: int, v: nat) -> Option<nat>
    decreases k,
{
    if k <= 0 {
        Some(v)
    } else {
        match chain(maps, k - 1, v) {
            None => None,
            Some(w) => map_value(maps[k - 1], w),
        }
    }
}

/// The smaller of a best-so-far and a new value.
pub open spec fn keep_min(best: Option<nat>, v: nat) -> Option<nat> {
    match best {
        None => Some(v),
        Some(m) => if v < m {
            Some(v)
        } else {
            Some(m)
        },
    }
}

/// The lowest location of the first `n` seeds, if any; the outer none
/// where a seed's location overflows.
pub open spec fn lowest_of(maps: Seq<Seq<MapEntry>>, seeds: Seq<nat>, n: int) -> Option<
    Option<nat>,
>
    decreases n,
{
    if n <= 0 {
        Some(None)
    } else {
        match lowest_of(maps, seeds, n - 1) {
            None => None,
            Some(b) => match chain(maps, maps.len() as int, seeds[n - 1]) {
                None => None,
                Some(l) => Some(keep_min(b, l)),
            },
        }
    }
}

/// The value that `entries` send `v` to, where no addition overflows.
fn map_value_exec(entries: &Vec<MapEntry>, v: u64) -> (r: Option<u64>)
    ensures
        match map_value(entries@, v as nat) {
            Some(w) => r == Some(w as u64) && w <= u64::MAX,
            None => r is None,
        },
{
    let mut i: usize = 0;
    assert(entries@.skip(0) =~= entries@);
    while i < entries.len()
        invariant
            i <= entries@.len(),
            map_value(entries@, v as nat) == map_value(entries@.skip(i as int), v as nat),
        decreases entries@.len() - i,
    {
        let (dest, src, len) = entries[i];
        assert(entries@.skip(i as int)[0] == entries@[i as int]);
        assert(entries@.skip(i as int).skip(1) =~= entries@.skip(i + 1));
        if v >= src {
            if len > u64::MAX - src {
                return None;
            }
            if v < src + len {
                let off = v - src;
                if off > u64::MAX - dest {
                    return None;
                }
                return Some(off + dest);
            }
        }
        i = i + 1;
    }
    Some(v)
}

/// The location of a seed: the value that all the maps send it to, in
/// order; none where an addition overflows.
pub fn seed_location(maps: &Vec<Vec<MapEntry>>, seed: u64) -> (r: Option<u64>)
    ensures
        match chain(maps@.map_values(|m: Vec<MapEntry>| m@), maps@.len() as int, seed as nat) {
            Some(w) => r == Some(w as u64) && w <= u64::MAX,
            None => r is None,
        },
{
    let ghost ms = maps@.map_values(|m: Vec<MapEntry>| m@);
    let mut v = seed;
    let mut k: usize = 0;
    while k < maps.len()
        invariant
            ms == maps@.map_values(|m: Vec<MapEntry>| m@),
            k <= maps@.len(),
            chain(ms, k as int, seed as nat) == Some(v as nat),
        decreases maps@.len() - k,
    {
        assert(ms[k as int] == maps@[k as int]@);
        match map_value_exec(&maps[k], v) {
            Some(w) => {
                v = w;
            },
            None => {
                proof {
                    lemma_chain_stays_none(ms, k as int + 1, ms.len() as int, seed as nat);
                }
                return None;
            },
        }
        k = k + 1;
    }
    Some(v)
}

proof fn lemma_chain_stays_none(maps: Seq<Seq<MapEntry>>, k: int, n: int, v: nat)
    requires
        k <= n,
        chain(maps, k, v) is None,
    ensures
        chain(maps, n, v) is None,
    decreases n - k,
{
    if k < n {
        lemma_chain_stays_none(maps, k, n - 1, v);
    }
}


/// The names of the seven maps, in order.
pub open spec fn map_name(k: int) -> Seq<u8> {
    if k == 0 {
        seq![115u8, 101, 101, 100, 45, 116, 111, 45, 115, 111, 105, 108]
    } else if k == 1 {
        seq![115u8, 111, 105, 108, 45, 116, 111, 45, 102, 101, 114, 116, 105, 108, 105, 122, 101, 114]
    } else if k == 2 {
        seq![102u8, 101, 114, 116, 105, 108, 105, 122, 101, 114, 45, 116, 111, 45, 119, 97, 116, 101, 114]
    } else if k == 3 {
        seq![119u8, 97, 116, 101, 114, 45, 116, 111, 45, 108, 105, 103, 104, 116]
    } else if k == 4 {
        seq![108u8, 105, 103, 104, 116, 45, 116, 111, 45, 116, 101, 109, 112, 101, 114, 97, 116, 117, 114, 101]
    } else if k == 5 {
        seq![116u8, 101, 109, 112, 101, 114, 97, 116, 117, 114, 101, 45, 116, 111, 45, 104, 117, 109, 105, 100, 105, 116, 121]
    } else {
        seq![104u8, 117, 109, 105, 100, 105, 116, 121, 45, 116, 111, 45, 108, 111, 99, 97, 116, 105, 111, 110]
    }
}

/// The bytes `seeds: `.
pub open spec fn seeds_label() -> Seq<u8> {
    seq![115u8, 101, 101, 100, 115, 58, 32]
}

/// `l` begins with `p`.
pub open spec fn begins_with(l: Seq<u8>, p: Seq<u8>) -> bool {
    l.len() >= p.len() && l.subrange(0, p.len() as int) == p
}

/// The value of a token, where it is a number that fits `u64`.
pub open spec fn u64_of(t: Seq<u8>) -> Option<u64> {
    match nat_of(t) {
        Some(v) => if v <= u64::MAX {
            Some(v as u64)
        } else {
            None
        },
        None => None,
    }
}

/// The range of a map line, `<destination> <source> <length>`.
pub open spec fn entry_of(line: Seq<u8>) -> Result<MapEntry, PuzzleError> {
    let t = words(line);
    if t.len() < 1 {
        Err(PuzzleError::MissingField)
    } else {
        match u64_of(t[0]) {
            None => Err(PuzzleError::InvalidNumber),
            Some(d) => if t.len() < 2 {
                Err(PuzzleError::MissingField)
            } else {
                match u64_of(t[1]) {
                    None => Err(PuzzleError::InvalidNumber),
                    Some(s) => if t.len() < 3 {
                        Err(PuzzleError::MissingField)
                    } else {
                        match u64_of(t[2]) {
                            None => Err(PuzzleError::InvalidNumber),
                            Some(n) => Ok((d, s, n)),
                        }
                    },
                }
            },
        }
    }
}

/// The map read from line `i` on, up to and past the next empty line, and
/// the line after it. Lines that begin with the map's name are headers.
pub open spec fn map_from(lines: Seq<Seq<u8>>, i: int, name: Seq<u8>) -> Result<
    (Seq<MapEntry>, int),
    PuzzleError,
>
    decreases lines.len() - i,
{
    if i < 0 || i >= lines.len() {
        Ok((Seq::<MapEntry>::empty(), i))
    } else if lines[i].len() == 0 {
        Ok((Seq::<MapEntry>::empty(), i + 1))
    } else if begins_with(lines[i], name) {
        map_from(lines, i + 1, name)
    } else {
        match entry_of(lines[i]) {
            Err(e) => Err(e),
            Ok(e) => match map_from(lines, i + 1, name) {
                Err(f) => Err(f),
                Ok((es, j)) => Ok((seq![e] + es, j)),
            },
        }
    }
}

/// Maps `k` to 6, read in turn from line `i` on.
pub open spec fn maps_from(lines: Seq<Seq<u8>>, i: int, k: int) -> Result<
    Seq<Seq<MapEntry>>,
    PuzzleError,
>
    decreases 7 - k,
{
    if k < 0 || k >= 7 {
        Ok(Seq::<Seq<MapEntry>>::empty())
    } else {
        match map_from(lines, i, map_name(k)) {
            Err(e) => Err(e),
            Ok((m, j)) => match maps_from(lines, j, k + 1) {
                Err(e) => Err(e),
                Ok(ms) => Ok(seq![m] + ms),
            },
        }
    }
}

/// The seeds, after `seeds: ` on the first line, and the seven maps, which
/// start on the third line.
pub open spec fn almanac_of(lines: Seq<Seq<u8>>) -> Result<
    (Seq<nat>, Seq<Seq<MapEntry>>),
    PuzzleError,
> {
    if lines.len() == 0 {
        Err(PuzzleError::MissingField)
    } else {
        match line_numbers(lines[0], seeds_label()) {
            None => Err(PuzzleError::InvalidNumber),
            Some(seeds) => match maps_from(lines, 2, 0) {
                Err(e) => Err(e),
                Ok(maps) => Ok((seeds, maps)),
            },
        }
    }
}

/// A seed almanac: the seeds and the seven maps.
#[derive(Debug)]
pub struct Almanac {
    pub seeds: Vec<u64>,
    pub maps: Vec<Vec<MapEntry>>,
}

fn map_name_bytes(k: usize) -> (r: Vec<u8>)
    requires
        k < 7,
    ensures
        r@ == map_name(k as int),
{
    let r: Vec<u8> = if k == 0 {
        vec![115u8, 101, 101, 100, 45, 116, 111, 45, 115, 111, 105, 108]
    } else if k == 1 {
        vec![115u8, 111, 105, 108, 45, 116, 111, 45, 102, 101, 114, 116, 105, 108, 105, 122, 101, 114]
    } else if k == 2 {
        vec![102u8, 101, 114, 116, 105, 108, 105, 122, 101, 114, 45, 116, 111, 45, 119, 97, 116, 101, 114]
    } else if k == 3 {
        vec![119u8, 97, 116, 101, 114, 45, 116, 111, 45, 108, 105, 103, 104, 116]
    } else if k == 4 {
        vec![108u8, 105, 103, 104, 116, 45, 116, 111, 45, 116, 101, 109, 112, 101, 114, 97, 116, 117, 114, 101]
    } else if k == 5 {
        vec![116u8, 101, 109, 112, 101, 114, 97, 116, 117, 114, 101, 45, 116, 111, 45, 104, 117, 109, 105, 100, 105, 116, 121]
    } else {
        vec![104u8, 117, 109, 105, 100, 105, 116, 121, 45, 116, 111, 45, 108, 111, 99, 97, 116, 105, 111, 110]
    };
    assert(r@ =~= map_name(k as int));
    r
}

/// Whether `l` begins with `p`.
fn begins(l: &Vec<u8>, p: &Vec<u8>) -> (r: bool)
    ensures
        r == begins_with(l@, p@),
{
    if l.len() < p.len() {
        return false;
    }
    let mut i: usize = 0;
    while i < p.len()
        invariant
            l@.len() >= p@.len(),
            i <= p@.len(),
            forall|k: int| 0 <= k < i ==> l@[k] == p@[k],
        decreases p@.len() - i,
    {
        if l[i] != p[i] {
            assert(l@.subrange(0, p@.len() as int)[i as int] != p@[i as int]);
            return false;
        }
        i = i + 1;
    }
    assert(l@.subrange(0, p@.len() as int) =~= p@);
    true
}

fn read_u64(t: &Vec<u8>) -> (r: Option<u64>)
    ensures
        r == u64_of(t@),
{
    parse_u64(t)
}

/// Reads a map line, `<destination> <source> <length>`.
fn parse_entry(line: &Vec<u8>) -> (r: Result<MapEntry, PuzzleError>)
    ensures
        r == entry_of(line@),
{
    let t = split_words(line);
    let ghost tv = t@.map_values(|v: Vec<u8>| v@);
    if t.len() < 1 {
        return Err(PuzzleError::MissingField);
    }
    assert(tv[0] == t@[0]@);
    let d = match read_u64(&t[0]) {
        Some(v) => v,
        None => {
            return Err(PuzzleError::InvalidNumber);
        },
    };
    if t.len() < 2 {
        return Err(PuzzleError::MissingField);
    }
    assert(tv[1] == t@[1]@);
    let s = match read_u64(&t[1]) {
        Some(v) => v,
        None => {
            return Err(PuzzleError::InvalidNumber);
        },
    };
    if t.len() < 3 {
        return Err(PuzzleError::MissingField);
    }
    assert(tv[2] == t@[2]@);
    let n = match read_u64(&t[2]) {
        Some(v) => v,
        None => {
            return Err(PuzzleError::InvalidNumber);
        },
    };
    Ok((d, s, n))
}

/// Reads a map from line `i` on; returns it and the line after it.
fn parse_map(lines: &Vec<Vec<u8>>, i: usize, name: &Vec<u8>) -> (r: Result<
    (Vec<MapEntry>, usize),
    PuzzleError,
>)
    ensures
        match map_from(lines@.map_values(|v: Vec<u8>| v@), i as int, name@) {
            Ok((es, j)) => r matches Ok((m, k)) && m@ == es && k == j,
            Err(e) => r == Err::<(Vec<MapEntry>, usize), PuzzleError>(e),
        },
{
    let ghost lv = lines@.map_values(|v: Vec<u8>| v@);
    let mut out: Vec<MapEntry> = Vec::new();
    let mut k: usize = i;
    assert(out@ + Seq::<MapEntry>::empty() =~= out@);
    while k < lines.len()
        invariant
            lv == lines@.map_values(|v: Vec<u8>| v@),
            i <= k,
            match map_from(lv, i as int, name@) {
                Ok((es, j)) => map_from(lv, k as int, name@) matches Ok((es2, j2)) && es == out@
                    + es2 && j == j2,
                Err(e) => map_from(lv, k as int, name@) == Err::<(Seq<MapEntry>, int), PuzzleError>(
                    e,
                ),
            },
        decreases lines@.len() - k,
    {
        let line = &lines[k];
        assert(line@ == lv[k as int]);
        if line.len() == 0 {
            return Ok((out, k + 1));
        }
        if begins(line, name) {
            k = k + 1;
        } else {
            match parse_entry(line) {
                Ok(e) => {
                    let ghost before = out@;
                    out.push(e);
                    proof {
                        if let Ok((es, j)) = map_from(lv, i as int, name@) {
                            let r2 = map_from(lv, k + 1, name@);
                            assert(r2 is Ok);
                            let (es3, j3) = r2->Ok_0;
                            assert(es == before + (seq![e] + es3));
                            assert(es =~= out@ + es3);
                        }
                    }
                    k = k + 1;
                },
                Err(e) => {
                    return Err(e);
                },
            }
        }
    }
    proof {
        if let Ok((es, j)) = map_from(lv, i as int, name@) {
            assert(es =~= out@);
        }
    }
    Ok((out, k))
}

/// Reads the almanac of `input`.
pub fn parse_almanac(input: &str) -> (r: Result<Almanac, PuzzleError>)
    ensures
        match almanac_of(lines_of(input.spec_bytes())) {
            Ok((seeds, maps)) => r matches Ok(a) && a.seeds@.map_values(|x: u64| x as nat)
                == seeds && a.maps@.map_values(|m: Vec<MapEntry>| m@) == maps,
            Err(e) => r matches Err(f) && f == e,
        },
{
    let lines = split_lines(input.as_bytes());
    let ghost lv = lines_of(input.spec_bytes());
    if lines.len() == 0 {
        return Err(PuzzleError::MissingField);
    }
    assert(lines@[0]@ == lv[0]);
    let label: Vec<u8> = vec![115u8, 101, 101, 100, 115, 58, 32];
    assert(label@ =~= seeds_label());
    let seeds = match labelled_numbers(&lines[0], &label) {
        Some(s) => s,
        None => {
            return Err(PuzzleError::InvalidNumber);
        },
    };
    let mut maps: Vec<Vec<MapEntry>> = Vec::new();
    let mut at: usize = 2;
    let mut k: usize = 0;
    assert(maps_from(lv, 2, 0) == maps_from(lv, 2, 0));
    while k < 7
        invariant
            lv == lines_of(input.spec_bytes()),
            lines@.map_values(|v: Vec<u8>| v@) == lv,
            lv.len() > 0,
            line_numbers(lv[0], seeds_label()) == Some(seeds@.map_values(|x: u64| x as nat)),
            k <= 7,
            match maps_from(lv, 2, 0) {
                Ok(all) => maps_from(lv, at as int, k as int) matches Ok(rest) && all
                    == maps@.map_values(|m: Vec<MapEntry>| m@) + rest,
                Err(e) => maps_from(lv, at as int, k as int) == Err::<
                    Seq<Seq<MapEntry>>,
                    PuzzleError,
                >(e),
            },
        decreases 7 - k,
    {
        let name = map_name_bytes(k);
        match parse_map(&lines, at, &name) {
            Ok((m, next)) => {
                let ghost before = maps@;
                maps.push(m);
                proof {
                    assert(maps@.map_values(|x: Vec<MapEntry>| x@) =~= before.map_values(
                        |x: Vec<MapEntry>| x@,
                    ).push(m@));
                    if let Ok(all) = maps_from(lv, 2, 0) {
                        let rest = maps_from(lv, at as int, k as int)->Ok_0;
                        let rest2 = maps_from(lv, next as int, k + 1)->Ok_0;
                        assert(rest == seq![m@] + rest2);
                        assert(all =~= maps@.map_values(|x: Vec<MapEntry>| x@) + rest2);
                    }
                }
                at = next;
            },
            Err(e) => {
                return Err(e);
            },
        }
        k = k + 1;
    }
    proof {
        if let Ok(all) = maps_from(lv, 2, 0) {
            assert(all =~= maps@.map_values(|x: Vec<MapEntry>| x@));
        }
    }
    Ok(Almanac { seeds, maps })
}


/// The answer from the lowest location: `Overflow` where a location
/// overflowed, `MissingField` where there was no seed.
pub open spec fn lowest_answer(b: Option<Option<nat>>) -> Result<u64, PuzzleError> {
    match b {
        None => Err(PuzzleError::Overflow),
        Some(None) => Err(PuzzleError::MissingField),
        Some(Some(m)) => Ok(m as u64),
    }
}

proof fn lemma_lowest_stays_none(maps: Seq<Seq<MapEntry>>, seeds: Seq<nat>, k: int, n: int)
    requires
        k <= n,
        lowest_of(maps, seeds, k) is None,
    ensures
        lowest_of(maps, seeds, n) is None,
    decreases n - k,
{
    if k < n {
        lemma_lowest_stays_none(maps, seeds, k, n - 1);
    }
}

/// The lowest location of any seed of `input`.
pub fn solve_part_1(input: &str) -> (r: Result<u64, PuzzleError>)
    ensures
        match almanac_of(lines_of(input.spec_bytes())) {
            Err(e) => r == Err::<u64, PuzzleError>(e),
            Ok((seeds, maps)) => r == lowest_answer(lowest_of(maps, seeds, seeds.len() as int)),
        },
{
    let a = match parse_almanac(input) {
        Ok(a) => a,
        Err(e) => {
            return Err(e);
        },
    };
    let ghost ms = a.maps@.map_values(|m: Vec<MapEntry>| m@);
    let ghost ss = a.seeds@.map_values(|x: u64| x as nat);
    let mut best: Option<u64> = None;
    let mut i: usize = 0;
    while i < a.seeds.len()
        invariant
            ms == a.maps@.map_values(|m: Vec<MapEntry>| m@),
            ss == a.seeds@.map_values(|x: u64| x as nat),
            almanac_of(lines_of(input.spec_bytes())) == Ok::<
                (Seq<nat>, Seq<Seq<MapEntry>>),
                PuzzleError,
            >((ss, ms)),
            i <= a.seeds@.len(),
            lowest_of(ms, ss, i as int) == Some(
                match best {
                    Some(b) => Some(b as nat),
                    None => None::<nat>,
                },
            ),
        decreases a.seeds@.len() - i,
    {
        match seed_location(&a.maps, a.seeds[i]) {
            Some(l) => {
                best = match best {
                    Some(b) => if l < b {
                        Some(l)
                    } else {
                        Some(b)
                    },
                    None => Some(l),
                };
            },
            None => {
                proof {
                    lemma_lowest_stays_none(ms, ss, i as int + 1, ss.len() as int);
                }
                return Err(PuzzleError::Overflow);
            },
        }
        i = i + 1;
    }
    match best {
        Some(b) => Ok(b),
        None => Err(PuzzleError::MissingField),
    }
}

/// The seeds come in pairs, start and length, and no range ends beyond
/// `u64::MAX`; checked pair by pair from index `i` on.
pub open spec fn check_pairs(seeds: Seq<nat>, i: int) -> Result<(), PuzzleError>
    decreases seeds.len() - i,
{
    if i < 0 || i >= seeds.len() {
        Ok(())
    } else if i + 1 >= seeds.len() {
        Err(PuzzleError::MissingField)
    } else if seeds[i] + seeds[i + 1] > u64::MAX {
        Err(PuzzleError::Overflow)
    } else {
        check_pairs(seeds, i + 2)
    }
}

/// `acc` folded with the locations of the `n` seeds from `start` on; none
/// where a location overflows.
pub open spec fn range_fold(maps: Seq<Seq<MapEntry>>, acc: Option<nat>, start: nat, n: nat) -> Option<
    Option<nat>,
>
    decreases n,
{
    if n == 0 {
        Some(acc)
    } else {
        match range_fold(maps, acc, start, (n - 1) as nat) {
            None => None,
            Some(b) => match chain(maps, maps.len() as int, (start + n - 1) as nat) {
                None => None,
                Some(l) => Some(keep_min(b, l)),
            },
        }
    }
}

/// The lowest location over the seed ranges of the first `p` pairs.
pub open spec fn pairs_fold(maps: Seq<Seq<MapEntry>>, seeds: Seq<nat>, p: int) -> Option<
    Option<nat>,
>
    decreases p,
{
    if p <= 0 {
        Some(None)
    } else {
        match pairs_fold(maps, seeds, p - 1) {
            None => None,
            Some(b) => range_fold(maps, b, seeds[2 * p - 2], seeds[2 * p - 1]),
        }
    }
}

proof fn lemma_range_stays_none(
    maps: Seq<Seq<MapEntry>>,
    acc: Option<nat>,
    start: nat,
    k: nat,
    n: nat,
)
    requires
        k <= n,
        range_fold(maps, acc, start, k) is None,
    ensures
        range_fold(maps, acc, start, n) is None,
    decreases n - k,
{
    if k < n {
        lemma_range_stays_none(maps, acc, start, k, (n - 1) as nat);
    }
}

proof fn lemma_pairs_stay_none(maps: Seq<Seq<MapEntry>>, seeds: Seq<nat>, k: int, n: int)
    requires
        k <= n,
        pairs_fold(maps, seeds, k) is None,
    ensures
        pairs_fold(maps, seeds, n) is None,
    decreases n - k,
{
    if k < n {
        lemma_pairs_stay_none(maps, seeds, k, n - 1);
    }
}

/// Expands the seeds into ranges, start and length, checked in order.
fn check_seed_pairs(seeds: &Vec<u64>) -> (r: Result<(), PuzzleError>)
    ensures
        r == check_pairs(seeds@.map_values(|x: u64| x as nat), 0),
{
    let ghost ss = seeds@.map_values(|x: u64| x as nat);
    let n = seeds.len();
    let mut i: usize = 0;
    while i < n
        invariant
            ss == seeds@.map_values(|x: u64| x as nat),
            n == seeds@.len(),
            i <= n,
            check_pairs(ss, 0) == check_pairs(ss, i as int),
        decreases n - i,
    {
        if i + 1 >= n {
            return Err(PuzzleError::MissingField);
        }
        if seeds[i + 1] > u64::MAX - seeds[i] {
            return Err(PuzzleError::Overflow);
        }
        i = i + 2;
    }
    Ok(())
}

/// The lowest location of any seed of `input`, where the seeds line holds
/// pairs of range start and length. A start without a length is
/// `MissingField`.
pub fn solve_part_2(input: &str) -> (r: Result<u64, PuzzleError>)
    ensures
        match almanac_of(lines_of(input.spec_bytes())) {
            Err(e) => r == Err::<u64, PuzzleError>(e),
            Ok((seeds, maps)) => match check_pairs(seeds, 0) {
                Err(e) => r == Err::<u64, PuzzleError>(e),
                Ok(_) => r == lowest_answer(pairs_fold(maps, seeds, (seeds.len() / 2) as int)),
            },
        },
{
    let a = match parse_almanac(input) {
        Ok(a) => a,
        Err(e) => {
            return Err(e);
        },
    };
    let ghost ms = a.maps@.map_values(|m: Vec<MapEntry>| m@);
    let ghost ss = a.seeds@.map_values(|x: u64| x as nat);
    if let Err(e) = check_seed_pairs(&a.seeds) {
        return Err(e);
    }
    let pairs = a.seeds.len() / 2;
    let mut best: Option<u64> = None;
    let mut p: usize = 0;
    while p < pairs
        invariant
            ms == a.maps@.map_values(|m: Vec<MapEntry>| m@),
            ss == a.seeds@.map_values(|x: u64| x as nat),
            almanac_of(lines_of(input.spec_bytes())) == Ok::<
                (Seq<nat>, Seq<Seq<MapEntry>>),
                PuzzleError,
            >((ss, ms)),
            pairs == ss.len() / 2,
            check_pairs(ss, 0) is Ok,
            p <= pairs,
            pairs_fold(ms, ss, p as int) == Some(
                match best {
                    Some(b) => Some(b as nat),
                    None => None::<nat>,
                },
            ),
        decreases pairs - p,
    {
        let start = a.seeds[2 * p];
        let len = a.seeds[2 * p + 1];
        proof {
            lemma_pair_fits(ss, 0, 2 * p as int);
        }
        let ghost b0 = match best {
            Some(b) => Some(b as nat),
            None => None::<nat>,
        };
        let mut s: u64 = start;
        while s < start + len
            invariant
                ms == a.maps@.map_values(|m: Vec<MapEntry>| m@),
                ss == a.seeds@.map_values(|x: u64| x as nat),
                almanac_of(lines_of(input.spec_bytes())) == Ok::<
                    (Seq<nat>, Seq<Seq<MapEntry>>),
                    PuzzleError,
                >((ss, ms)),
                pairs == ss.len() / 2,
                check_pairs(ss, 0) is Ok,
                p < pairs,
                start == ss[2 * p as int],
                len == ss[2 * p + 1],
                start + len <= u64::MAX,
                start <= s <= start + len,
                pairs_fold(ms, ss, p as int) == Some(b0),
                range_fold(ms, b0, start as nat, (s - start) as nat) == Some(
                    match best {
                        Some(b) => Some(b as nat),
                        None => None::<nat>,
                    },
                ),
            decreases start + len - s,
        {
            match seed_location(&a.maps, s) {
                Some(l) => {
                    best = match best {
                        Some(b) => if l < b {
                            Some(l)
                        } else {
                            Some(b)
                        },
                        None => Some(l),
                    };
                },
                None => {
                    proof {
                        lemma_range_stays_none(
                            ms,
                            b0,
                            start as nat,
                            (s - start + 1) as nat,
                            len as nat,
                        );
                        lemma_pairs_stay_none(ms, ss, p as int + 1, pairs as int);
                    }
                    return Err(PuzzleError::Overflow);
                },
            }
            s = s + 1;
        }
        p = p + 1;
    }
    match best {
        Some(b) => Ok(b),
        None => Err(PuzzleError::MissingField),
    }
}

proof fn lemma_pair_fits(seeds: Seq<nat>, i: int, k: int)
    requires
        0 <= i <= k,
        (k - i) % 2 == 0,
        k + 1 < seeds.len(),
        check_pairs(seeds, i) is Ok,
    ensures
        seeds[k] + seeds[k + 1] <= u64::MAX,
    decreases k - i,
{
    if i < k {
        lemma_pair_fits(seeds, i + 2, k);
    }
}

} // verus!
