//! Day 12: Hot Springs. Each line is a row of springs, operational (`.`),
//! broken (`#`) or unknown (`?`), and the sizes of its runs of broken
//! springs; the answer counts the ways to fill in the unknown springs.
use itertools::Itertools;
use vstd::prelude::*;
use vstd::string::StringSliceAdditionalSpecFns;

use crate::text::{lines_of, nat_of, parse_u64, split_either, split_lines, split_pieces, split_words, words, PuzzleError};

verus! {

pub open spec fn spring_ok(b: u8) -> bool {
    b == 46 || b == 35 || b == 63
}

/// The group sizes of a token `a,b,c`, where each is a number that fits
/// `usize`.
pub open spec fn sizes_of(pieces: Seq<Seq<u8>>) -> Option<Seq<nat>>
    decreases pieces.len(),
{
    if pieces.len() == 0 {
        Some(Seq::<nat>::empty())
    } else {
        match sizes_of(pieces.drop_last()) {
            None => None,
            Some(ns) => match nat_of(pieces.last()) {
                Some(v) => if v <= usize::MAX {
                    Some(ns.push(v))
                } else {
                    None
                },
                None => None,
            },
        }
    }
}

/// The springs and group sizes of a line `<springs> <sizes>`.
pub open spec fn row_of(line: Seq<u8>) -> Result<(Seq<u8>, Seq<nat>), PuzzleError> {
    let t = words(line);
    if t.len() < 1 {
        Err(PuzzleError::MissingField)
    } else if exists|i: int| 0 <= i < t[0].len() && !spring_ok(#[trigger] t[0][i]) {
        Err(PuzzleError::InvalidSpring)
    } else if t.len() < 2 {
        Err(PuzzleError::MissingField)
    } else {
        match sizes_of(split_either(t[1], 44, 44)) {
            None => Err(PuzzleError::InvalidNumber),
            Some(g) => Ok((t[0], g)),
        }
    }
}

/// A row unfolded: five copies of the springs joined by unknown springs,
/// and five copies of the sizes.
pub open spec fn unfold(springs: Seq<u8>, groups: Seq<nat>) -> (Seq<u8>, Seq<nat>) {
    (
        Seq::new(
            (5 * springs.len() + 4) as nat,
            |i: int|
                if i % (springs.len() as int + 1) == springs.len() as int {
                    63u8
                } else {
                    springs[i % (springs.len() as int + 1)]
                },
        ),
        Seq::new((5 * groups.len()) as nat, |i: int| groups[i % (groups.len() as int)]),
    )
}

/// The sum of the sizes.
pub open spec fn total(g: Seq<nat>) -> nat
    decreases g.len(),
{
    if g.len() == 0 {
        0
    } else {
        g[0] + total(g.skip(1))
    }
}

/// No spring of the first `n` is operational.
pub open spec fn no_operational(s: Seq<u8>, n: nat) -> bool {
    forall|i: int| 0 <= i < n ==> s[i] != 46
}

/// The ways to fill in the unknown springs of `s` so that its runs of
/// broken springs have sizes `g`, where `s` ends in an operational spring.
pub open spec fn count(s: Seq<u8>, g: Seq<nat>) -> nat
    decreases s.len(),
{
    if g.len() == 0 {
        if s.contains(35) {
            0
        } else {
            1
        }
    } else if s.len() < total(g) + g.len() {
        0
    } else {
        let a = if s[0] != 35 {
            count(s.skip(1), g)
        } else {
            0
        };
        let b = if no_operational(s, g[0]) && s[g[0] as int] != 35 {
            count(s.skip(g[0] as int + 1), g.skip(1))
        } else {
            0
        };
        a + b
    }
}

/// The ways to fill in a row, an operational spring appended; `Overflow`
/// where the sizes and their number sum beyond `usize::MAX` or the count
/// exceeds `u64::MAX`.
pub open spec fn row_count(springs: Seq<u8>, groups: Seq<nat>) -> Result<nat, PuzzleError> {
    if groups.len() > 0 && total(groups) + groups.len() > usize::MAX {
        Err(PuzzleError::Overflow)
    } else {
        let c = count(springs.push(46u8), groups);
        if c > u64::MAX {
            Err(PuzzleError::Overflow)
        } else {
            Ok(c)
        }
    }
}

/// The rows of all lines, or the first failure.
pub open spec fn rows_of(lines: Seq<Seq<u8>>) -> Result<Seq<(Seq<u8>, Seq<nat>)>, PuzzleError>
    decreases lines.len(),
{
    if lines.len() == 0 {
        Ok(Seq::<(Seq<u8>, Seq<nat>)>::empty())
    } else {
        match rows_of(lines.drop_last()) {
            Err(e) => Err(e),
            Ok(rs) => match row_of(lines.last()) {
                Err(e) => Err(e),
                Ok(r) => Ok(rs.push(r)),
            },
        }
    }
}

/// The sum of the unfolded rows' counts, or the first failure.
pub open spec fn unfolded_total(rows: Seq<(Seq<u8>, Seq<nat>)>) -> Result<nat, PuzzleError>
    decreases rows.len(),
{
    if rows.len() == 0 {
        Ok(0)
    } else {
        match unfolded_total(rows.drop_last()) {
            Err(e) => Err(e),
            Ok(t) => {
                let r = rows.last();
                if 5 * r.0.len() + 5 > usize::MAX || 5 * r.1.len() > usize::MAX {
                    Err(PuzzleError::Overflow)
                } else {
                    let u = unfold(r.0, r.1);
                    match row_count(u.0, u.1) {
                        Err(e) => Err(e),
                        Ok(c) => Ok(t + c),
                    }
                }
            },
        }
    }
}

/// The answer of the second part.
pub open spec fn unfolded_answer(lines: Seq<Seq<u8>>) -> Result<u64, PuzzleError> {
    match rows_of(lines) {
        Err(e) => Err(e),
        Ok(rows) => match unfolded_total(rows) {
            Err(e) => Err(e),
            Ok(t) => if t > u64::MAX {
                Err(PuzzleError::Overflow)
            } else {
                Ok(t as u64)
            },
        },
    }
}

/// A row: springs and group sizes.
#[derive(Debug)]
pub struct SpringRow {
    pub springs: Vec<u8>,
    pub groups: Vec<usize>,
}

proof fn lemma_sizes_stay_none(pieces: Seq<Seq<u8>>, k: int)
    requires
        0 <= k <= pieces.len(),
        sizes_of(pieces.subrange(0, k)) is None,
    ensures
        sizes_of(pieces) is None,
    decreases pieces.len() - k,
{
    if k == pieces.len() {
        assert(pieces.subrange(0, k) =~= pieces);
    } else {
        assert(pieces.subrange(0, k + 1).drop_last() =~= pieces.subrange(0, k));
        lemma_sizes_stay_none(pieces, k + 1);
    }
}

impl SpringRow {
    /// Reads a line `<springs> <sizes>`.
    pub fn parse(line: &Vec<u8>) -> (r: Result<SpringRow, PuzzleError>)
        ensures
            match row_of(line@) {
                Ok((s, g)) => r matches Ok(row) && row.springs@ == s && row.groups@.map_values(
                    |x: usize| x as nat,
                ) == g,
                Err(e) => r matches Err(f) && f == e,
            },
    {
        let t = split_words(line);
        let ghost tv = t@.map_values(|v: Vec<u8>| v@);
        if t.len() < 1 {
            return Err(PuzzleError::MissingField);
        }
        assert(tv[0] == t@[0]@);
        let springs = &t[0];
        let mut i: usize = 0;
        while i < springs.len()
            invariant
                tv == t@.map_values(|v: Vec<u8>| v@),
                tv == words(line@),
                tv.len() >= 1,
                tv[0] == springs@,
                i <= springs@.len(),
                forall|k: int| 0 <= k < i ==> spring_ok(springs@[k]),
            decreases springs@.len() - i,
        {
            let b = springs[i];
            if !(b == 46 || b == 35 || b == 63) {
                assert(!spring_ok(tv[0][i as int]));
                return Err(PuzzleError::InvalidSpring);
            }
            i = i + 1;
        }
        assert(forall|q: int| 0 <= q < tv[0].len() ==> spring_ok(#[trigger] tv[0][q]));
        if t.len() < 2 {
            return Err(PuzzleError::MissingField);
        }
        assert(tv[1] == t@[1]@);
        let pieces = split_pieces(&t[1], 44, 44);
        let ghost pv = pieces@.map_values(|v: Vec<u8>| v@);
        let mut groups: Vec<usize> = Vec::new();
        let mut k: usize = 0;
        assert(pv.subrange(0, 0) =~= Seq::<Seq<u8>>::empty());
        assert(groups@.map_values(|x: usize| x as nat) =~= Seq::<nat>::empty());
        while k < pieces.len()
            invariant
                pv == pieces@.map_values(|v: Vec<u8>| v@),
                tv == words(line@),
                tv.len() >= 2,
                pv == split_either(tv[1], 44, 44),
                forall|q: int| 0 <= q < tv[0].len() ==> spring_ok(#[trigger] tv[0][q]),
                k <= pieces@.len(),
                sizes_of(pv.subrange(0, k as int)) == Some(groups@.map_values(|x: usize| x as nat)),
            decreases pieces@.len() - k,
        {
            proof {
                let next = pv.subrange(0, k as int + 1);
                assert(next.drop_last() =~= pv.subrange(0, k as int));
                assert(next.last() == pieces@[k as int]@);
            }
            match parse_u64(&pieces[k]) {
                Some(v) => {
                    if v > usize::MAX as u64 {
                        proof {
                            lemma_sizes_stay_none(pv, k as int + 1);
                        }
                        return Err(PuzzleError::InvalidNumber);
                    }
                    let ghost before = groups@;
                    groups.push(v as usize);
                    assert(groups@.map_values(|x: usize| x as nat) =~= before.map_values(
                        |x: usize| x as nat,
                    ).push(v as nat));
                },
                None => {
                    proof {
                        lemma_sizes_stay_none(pv, k as int + 1);
                    }
                    return Err(PuzzleError::InvalidNumber);
                },
            }
            k = k + 1;
        }
        assert(pv.subrange(0, k as int) =~= pv);
        let mut out: Vec<u8> = Vec::new();
        let mut j: usize = 0;
        while j < springs.len()
            invariant
                j <= springs@.len(),
                out@ =~= springs@.subrange(0, j as int),
            decreases springs@.len() - j,
        {
            out.push(springs[j]);
            j = j + 1;
        }
        assert(out@ =~= springs@);
        Ok(SpringRow { springs: out, groups })
    }
}


/// One more than `u64::MAX`: counts at least this large are all alike.
pub open spec fn cap() -> nat {
    u64::MAX as nat + 1
}

pub open spec fn capped(n: nat) -> nat {
    if n < cap() {
        n
    } else {
        cap()
    }
}

proof fn lemma_capped_sum(a: nat, b: nat)
    ensures
        capped(a + b) == capped(capped(a) + capped(b)),
{
}

proof fn lemma_total_step(g: Seq<nat>, i: int)
    requires
        0 <= i < g.len(),
    ensures
        total(g.skip(i)) == g[i] + total(g.skip(i + 1)),
{
    assert(g.skip(i).skip(1) =~= g.skip(i + 1));
}

/// The sum of the sizes from index `i` on, and their number.
fn need_from(g: &Vec<usize>, i: usize) -> (r: u128)
    requires
        i <= g@.len(),
    ensures
        r == total(g@.map_values(|x: usize| x as nat).skip(i as int)) + (g@.len() - i),
{
    let ghost gv = g@.map_values(|x: usize| x as nat);
    let len = g.len();
    let mut acc: u128 = 0;
    let mut k: usize = len;
    assert(gv.skip(k as int) =~= Seq::<nat>::empty());
    while k > i
        invariant
            gv == g@.map_values(|x: usize| x as nat),
            len == g@.len(),
            i <= k <= g@.len(),
            acc == total(gv.skip(k as int)) + (g@.len() - k),
            acc <= (g@.len() - k) * (usize::MAX as u128 + 1),
        decreases k - i,
    {
        proof {
            lemma_total_step(gv, k - 1);
        }
        assert((g@.len() - k + 1) * (usize::MAX as u128 + 1) == (g@.len() - k) * (usize::MAX as u128
            + 1) + (usize::MAX as u128 + 1)) by (nonlinear_arith);
        assert((g@.len() - k + 1) * (usize::MAX as u128 + 1) <= (usize::MAX as u128 + 1) * (
        usize::MAX as u128 + 1)) by (nonlinear_arith)
            requires
                g@.len() - k + 1 <= usize::MAX,
        ;
        acc = acc + g[k - 1] as u128 + 1;
        k = k - 1;
    }
    acc
}

/// The ways to fill in the unknown springs of `s` for sizes `g`, capped.
fn count_arrangements(s: &Vec<u8>, g: &Vec<usize>) -> (r: u128)
    ensures
        r == capped(count(s@, g@.map_values(|x: usize| x as nat))),
{
    let ghost gv = g@.map_values(|x: usize| x as nat);
    let n = s.len();
    let ng = g.len();
    let mut rows: Vec<Vec<u128>> = Vec::new();
    let mut si: usize = n;
    loop
        invariant_except_break
            rows@.len() == n - si,
            forall|x: int| si < x <= n ==> (#[trigger] rows@[n - x])@.len() == ng + 1,
            forall|x: int, gi: int|
                si < x <= n && 0 <= gi <= ng ==> #[trigger] rows@[n - x]@[gi] == capped(
                    count(s@.skip(x), gv.skip(gi)),
                ),
        invariant
            gv == g@.map_values(|x: usize| x as nat),
            n == s@.len(),
            ng == g@.len(),
            si <= n,
        ensures
            rows@.len() == n + 1,
            (rows@[n as int])@.len() == ng + 1,
            rows@[n as int]@[0] == capped(count(s@.skip(0), gv.skip(0))),
        decreases si,
    {
        let mut broken = false;
        let mut q: usize = si;
        while q < n
            invariant
                si <= q <= n,
                n == s@.len(),
                broken <==> exists|k: int| si <= k < q && s@[k] == 35,
            decreases n - q,
        {
            if s[q] == 35 {
                broken = true;
            }
            q = q + 1;
        }
        assert(broken == s@.skip(si as int).contains(35)) by {
            if broken {
                let k = choose|k: int| si <= k < n && s@[k] == 35;
                assert(s@.skip(si as int)[k - si] == 35);
            }
            if s@.skip(si as int).contains(35) {
                let k = choose|k: int| 0 <= k < s@.skip(si as int).len() && s@.skip(si as int)[k] == 35;
                assert(s@[si + k] == 35);
            }
        }
        let mut row: Vec<u128> = Vec::new();
        let mut gi: usize = 0;
        while gi < ng
            invariant
                gv == g@.map_values(|x: usize| x as nat),
                n == s@.len(),
                ng == g@.len(),
                si <= n,
                gi <= ng,
                rows@.len() == n - si,
                forall|x: int| si < x <= n ==> (#[trigger] rows@[n - x])@.len() == ng + 1,
                forall|x: int, gj: int|
                    si < x <= n && 0 <= gj <= ng ==> #[trigger] rows@[n - x]@[gj] == capped(
                        count(s@.skip(x), gv.skip(gj)),
                    ),
                broken == s@.skip(si as int).contains(35),
                row@.len() == gi,
                forall|gj: int| 0 <= gj < gi ==> row@[gj] == capped(count(s@.skip(si as int), gv.skip(gj))),
            decreases ng + 1 - gi,
        {
            let ghost sv = s@.skip(si as int);
            let ghost gs = gv.skip(gi as int);
            let v: u128 = {
                let need = need_from(g, gi);
                if ((n - si) as u128) < need {
                    0
                } else {
                    proof {
                        lemma_total_step(gv, gi as int);
                        assert(gs[0] == g@[gi as int] as nat);
                        assert(sv.skip(1) =~= s@.skip(si + 1));
                        assert(gs.skip(1) =~= gv.skip(gi + 1));
                    }
                    let a: u128 = if s[si] != 35 {
                        rows[n - (si + 1)][gi]
                    } else {
                        0
                    };
                    let g0 = g[gi];
                    let mut ok = true;
                    let mut w: usize = 0;
                    while w < g0
                        invariant
                            si + g0 < n,
                            n == s@.len(),
                            sv == s@.skip(si as int),
                            w <= g0,
                            ok <==> forall|k: int| 0 <= k < w ==> #[trigger] sv[k] != 46,
                        decreases g0 - w,
                    {
                        assert(sv[w as int] == s@[si + w]);
                        if s[si + w] == 46 {
                            ok = false;
                        }
                        w = w + 1;
                    }
                    assert(ok == no_operational(sv, g0 as nat));
                    let b: u128 = if ok && s[si + g0] != 35 {
                        proof {
                            assert(sv.skip(g0 + 1) =~= s@.skip(si + g0 + 1));
                            assert(sv[g0 as int] == s@[si + g0]);
                        }
                        rows[n - (si + g0 + 1)][gi + 1]
                    } else {
                        proof {
                            assert(sv[g0 as int] == s@[si + g0]);
                        }
                        0
                    };
                    proof {
                        assert(sv[0] == s@[si as int]);
                        let ca = if sv[0] != 35 { count(sv.skip(1), gs) } else { 0 };
                        let cb = if no_operational(sv, gs[0]) && sv[gs[0] as int] != 35 {
                            count(sv.skip(gs[0] as int + 1), gs.skip(1))
                        } else {
                            0
                        };
                        lemma_capped_sum(ca, cb);
                    }
                    let sum = a + b;
                    if sum > u64::MAX as u128 + 1 {
                        u64::MAX as u128 + 1
                    } else {
                        sum
                    }
                }
            };
            row.push(v);
            gi = gi + 1;
        }
        assert(gv.skip(ng as int).len() == 0);
        row.push(if broken {
            0
        } else {
            1
        });
        rows.push(row);
        if si == 0 {
            break;
        }
        si = si - 1;
    }
    assert(s@.skip(0) =~= s@);
    assert(gv.skip(0) =~= gv);
    rows[n][0]
}


/// The ways to fill in a row, an operational spring appended.
fn arrangements_of(springs: &Vec<u8>, groups: &Vec<usize>) -> (r: Result<u64, PuzzleError>)
    ensures
        match row_count(springs@, groups@.map_values(|x: usize| x as nat)) {
            Ok(c) => r == Ok::<u64, PuzzleError>(c as u64),
            Err(e) => r == Err::<u64, PuzzleError>(e),
        },
{
    let ghost gv = groups@.map_values(|x: usize| x as nat);
    if groups.len() > 0 {
        let need = need_from(groups, 0);
        assert(gv.skip(0) =~= gv);
        if need > usize::MAX as u128 {
            return Err(PuzzleError::Overflow);
        }
    }
    let mut s: Vec<u8> = Vec::new();
    let mut i: usize = 0;
    while i < springs.len()
        invariant
            i <= springs@.len(),
            s@ =~= springs@.subrange(0, i as int),
        decreases springs@.len() - i,
    {
        s.push(springs[i]);
        i = i + 1;
    }
    s.push(46);
    assert(s@ =~= springs@.push(46u8));
    let c = count_arrangements(&s, groups);
    if c > u64::MAX as u128 {
        return Err(PuzzleError::Overflow);
    }
    Ok(c as u64)
}

/// Five copies of the springs joined by unknown springs, and five copies
/// of the sizes.
fn unfold_row(springs: &Vec<u8>, groups: &Vec<usize>) -> (r: (Vec<u8>, Vec<usize>))
    requires
        5 * springs@.len() + 5 <= usize::MAX,
        5 * groups@.len() <= usize::MAX,
    ensures
        r.0@ == unfold(springs@, groups@.map_values(|x: usize| x as nat)).0,
        r.1@.map_values(|x: usize| x as nat) == unfold(
            springs@,
            groups@.map_values(|x: usize| x as nat),
        ).1,
{
    let ghost u = unfold(springs@, groups@.map_values(|x: usize| x as nat));
    let len = springs.len();
    let total = 5 * len + 4;
    let mut out: Vec<u8> = Vec::new();
    let mut i: usize = 0;
    while i < total
        invariant
            len == springs@.len(),
            total == 5 * len + 4,
            u == unfold(springs@, groups@.map_values(|x: usize| x as nat)),
            i <= total,
            out@ =~= u.0.subrange(0, i as int),
        decreases total - i,
    {
        let m = i % (len + 1);
        out.push(if m == len {
            63u8
        } else {
            springs[m]
        });
        i = i + 1;
    }
    assert(out@ =~= u.0);
    let glen = groups.len();
    let gtotal = 5 * glen;
    let mut gout: Vec<usize> = Vec::new();
    let mut k: usize = 0;
    while k < gtotal
        invariant
            glen == groups@.len(),
            gtotal == 5 * glen,
            u == unfold(springs@, groups@.map_values(|x: usize| x as nat)),
            k <= gtotal,
            gout@.map_values(|x: usize| x as nat) =~= u.1.subrange(0, k as int),
        decreases gtotal - k,
    {
        let v = groups[k % glen];
        let ghost before = gout@;
        gout.push(v);
        assert(gout@.map_values(|x: usize| x as nat) =~= before.map_values(|x: usize| x as nat).push(
            v as nat,
        ));
        k = k + 1;
    }
    assert(gout@.map_values(|x: usize| x as nat) =~= u.1);
    (out, gout)
}

proof fn lemma_rows_stay_err(lines: Seq<Seq<u8>>, k: int)
    requires
        0 <= k <= lines.len(),
        rows_of(lines.subrange(0, k)) is Err,
    ensures
        rows_of(lines) == rows_of(lines.subrange(0, k)),
    decreases lines.len() - k,
{
    if k == lines.len() {
        assert(lines.subrange(0, k) =~= lines);
    } else {
        assert(lines.subrange(0, k + 1).drop_last() =~= lines.subrange(0, k));
        lemma_rows_stay_err(lines, k + 1);
    }
}

proof fn lemma_unfolded_stay_err(rows: Seq<(Seq<u8>, Seq<nat>)>, k: int)
    requires
        0 <= k <= rows.len(),
        unfolded_total(rows.subrange(0, k)) is Err,
    ensures
        unfolded_total(rows) == unfolded_total(rows.subrange(0, k)),
    decreases rows.len() - k,
{
    if k == rows.len() {
        assert(rows.subrange(0, k) =~= rows);
    } else {
        assert(rows.subrange(0, k + 1).drop_last() =~= rows.subrange(0, k));
        lemma_unfolded_stay_err(rows, k + 1);
    }
}

pub open spec fn row_view(r: SpringRow) -> (Seq<u8>, Seq<nat>) {
    (r.springs@, r.groups@.map_values(|x: usize| x as nat))
}

/// Reads every line of `input` as a row.
fn read_rows(input: &str) -> (r: Result<Vec<SpringRow>, PuzzleError>)
    ensures
        match rows_of(lines_of(input.spec_bytes())) {
            Ok(rs) => r matches Ok(v) && v@.map_values(|x: SpringRow| row_view(x)) == rs,
            Err(e) => r matches Err(f) && f == e,
        },
{
    let lines = split_lines(input.as_bytes());
    let ghost ls = lines_of(input.spec_bytes());
    let mut rows: Vec<SpringRow> = Vec::new();
    let mut i: usize = 0;
    assert(ls.subrange(0, 0) =~= Seq::<Seq<u8>>::empty());
    assert(rows@.map_values(|x: SpringRow| row_view(x)) =~= Seq::<(Seq<u8>, Seq<nat>)>::empty());
    while i < lines.len()
        invariant
            ls == lines_of(input.spec_bytes()),
            lines@.map_values(|v: Vec<u8>| v@) == ls,
            i <= lines@.len(),
            rows_of(ls.subrange(0, i as int)) == Ok::<Seq<(Seq<u8>, Seq<nat>)>, PuzzleError>(
                rows@.map_values(|x: SpringRow| row_view(x)),
            ),
        decreases lines@.len() - i,
    {
        proof {
            let next = ls.subrange(0, i as int + 1);
            assert(next.drop_last() =~= ls.subrange(0, i as int));
            assert(next.last() == lines@[i as int]@);
        }
        match SpringRow::parse(&lines[i]) {
            Ok(row) => {
                let ghost before = rows@;
                let ghost rv = row_view(row);
                rows.push(row);
                assert(rows@.map_values(|x: SpringRow| row_view(x)) =~= before.map_values(
                    |x: SpringRow| row_view(x),
                ).push(rv));
            },
            Err(e) => {
                proof {
                    lemma_rows_stay_err(ls, i as int + 1);
                }
                return Err(e);
            },
        }
        i = i + 1;
    }
    assert(ls.subrange(0, i as int) =~= ls);
    Ok(rows)
}

/// The sum, over the rows of `input` unfolded five times, of the ways to
/// fill in their unknown springs.
pub fn solve_part_2(input: &str) -> (r: Result<u64, PuzzleError>)
    ensures
        r == unfolded_answer(lines_of(input.spec_bytes())),
{
    let rows = match read_rows(input) {
        Ok(v) => v,
        Err(e) => {
            return Err(e);
        },
    };
    let ghost rs = rows@.map_values(|x: SpringRow| row_view(x));
    let mut total: u128 = 0;
    let mut i: usize = 0;
    assert(rs.subrange(0, 0) =~= Seq::<(Seq<u8>, Seq<nat>)>::empty());
    while i < rows.len()
        invariant
            rows_of(lines_of(input.spec_bytes())) == Ok::<
                Seq<(Seq<u8>, Seq<nat>)>,
                PuzzleError,
            >(rs),
            rs == rows@.map_values(|x: SpringRow| row_view(x)),
            i <= rows@.len(),
            unfolded_total(rs.subrange(0, i as int)) == Ok::<nat, PuzzleError>(total as nat),
            total <= i * (u64::MAX as u128),
        decreases rows@.len() - i,
    {
        proof {
            let next = rs.subrange(0, i as int + 1);
            assert(next.drop_last() =~= rs.subrange(0, i as int));
            assert(next.last() == row_view(rows@[i as int]));
        }
        let row = &rows[i];
        let sl = row.springs.len();
        let gl = row.groups.len();
        if sl > (usize::MAX - 5) / 5 || gl > usize::MAX / 5 {
            proof {
                lemma_unfolded_stay_err(rs, i as int + 1);
            }
            return Err(PuzzleError::Overflow);
        }
        let (us, ug) = unfold_row(&row.springs, &row.groups);
        match arrangements_of(&us, &ug) {
            Ok(c) => {
                total = total + c as u128;
            },
            Err(e) => {
                proof {
                    lemma_unfolded_stay_err(rs, i as int + 1);
                }
                return Err(e);
            },
        }
        i = i + 1;
    }
    assert(rs.subrange(0, i as int) =~= rs);
    if total > u64::MAX as u128 {
        return Err(PuzzleError::Overflow);
    }
    Ok(total as u64)
}


/// The maximal runs of equal springs, each with its length, in order.
pub open spec fn runs(s: Seq<u8>) -> Seq<(u8, nat)>
    decreases s.len(),
{
    if s.len() == 0 {
        Seq::<(u8, nat)>::empty()
    } else {
        let r = runs(s.drop_last());
        if r.len() > 0 && r.last().0 == s.last() {
            r.update(r.len() - 1, (s.last(), r.last().1 + 1))
        } else {
            r.push((s.last(), 1nat))
        }
    }
}

/// Relies on `itertools::Itertools::group_by`: consecutive equal springs
/// form one group; each group is given with its length.
#[verifier::external_body]
fn runs_of(springs: &Vec<u8>) -> (r: Vec<(u8, usize)>)
    ensures
        r@.map_values(|p: (u8, usize)| (p.0, p.1 as nat)) == runs(springs@),
{
    let grouped = springs.iter().group_by(|b| **b);
    let out: Vec<(u8, usize)> = grouped.into_iter().map(|(k, g)| (k, g.count())).collect();
    out
}

/// The lengths of the runs of broken springs, in order.
pub open spec fn broken_sizes(rs: Seq<(u8, nat)>) -> Seq<nat>
    decreases rs.len(),
{
    if rs.len() == 0 {
        Seq::<nat>::empty()
    } else {
        let b = broken_sizes(rs.drop_last());
        if rs.last().0 == 35 {
            b.push(rs.last().1)
        } else {
            b
        }
    }
}

/// The ways to fill in the unknown springs of `rest`, after the springs
/// `done`, so that the runs of broken springs have sizes `g`.
pub open spec fn ways(done: Seq<u8>, rest: Seq<u8>, g: Seq<nat>) -> nat
    decreases rest.len(),
{
    if rest.len() == 0 {
        if broken_sizes(runs(done)) == g {
            1
        } else {
            0
        }
    } else if rest[0] == 63 {
        ways(done.push(35u8), rest.skip(1), g) + ways(done.push(46u8), rest.skip(1), g)
    } else {
        ways(done.push(rest[0]), rest.skip(1), g)
    }
}

/// Whether the runs of broken springs of `s` have sizes `g`.
fn is_valid(s: &Vec<u8>, g: &Vec<usize>) -> (r: bool)
    ensures
        r == (broken_sizes(runs(s@)) == g@.map_values(|x: usize| x as nat)),
{
    let rs = runs_of(s);
    let ghost rv = rs@.map_values(|p: (u8, usize)| (p.0, p.1 as nat));
    let mut sizes: Vec<usize> = Vec::new();
    let mut i: usize = 0;
    assert(rv.subrange(0, 0) =~= Seq::<(u8, nat)>::empty());
    assert(sizes@.map_values(|x: usize| x as nat) =~= Seq::<nat>::empty());
    while i < rs.len()
        invariant
            rv == rs@.map_values(|p: (u8, usize)| (p.0, p.1 as nat)),
            i <= rs@.len(),
            sizes@.map_values(|x: usize| x as nat) == broken_sizes(rv.subrange(0, i as int)),
        decreases rs@.len() - i,
    {
        proof {
            let next = rv.subrange(0, i as int + 1);
            assert(next.drop_last() =~= rv.subrange(0, i as int));
        }
        let (k, n) = rs[i];
        if k == 35 {
            let ghost before = sizes@;
            sizes.push(n);
            assert(sizes@.map_values(|x: usize| x as nat) =~= before.map_values(|x: usize| x as nat).push(
                n as nat,
            ));
        }
        i = i + 1;
    }
    assert(rv.subrange(0, i as int) =~= rv);
    if sizes.len() != g.len() {
        assert(sizes@.map_values(|x: usize| x as nat).len() != g@.map_values(|x: usize| x as nat).len());
        return false;
    }
    let mut k: usize = 0;
    while k < sizes.len()
        invariant
            sizes@.map_values(|x: usize| x as nat) == broken_sizes(runs(s@)),
            sizes@.len() == g@.len(),
            k <= sizes@.len(),
            forall|t: int| 0 <= t < k ==> sizes@[t] == g@[t],
        decreases sizes@.len() - k,
    {
        if sizes[k] != g[k] {
            assert(sizes@.map_values(|x: usize| x as nat)[k as int] != g@.map_values(
                |x: usize| x as nat,
            )[k as int]);
            return false;
        }
        k = k + 1;
    }
    assert(sizes@.map_values(|x: usize| x as nat) =~= g@.map_values(|x: usize| x as nat));
    true
}

/// The ways to fill in the unknown springs from position `i` of `springs`
/// on, after `done`, where their number fits `u32`.
fn arrangements(done: Vec<u8>, springs: &Vec<u8>, i: usize, g: &Vec<usize>) -> (r: Option<u32>)
    requires
        i <= springs@.len(),
    ensures
        r is Some <==> ways(done@, springs@.skip(i as int), g@.map_values(|x: usize| x as nat))
            <= u32::MAX,
        r matches Some(v) ==> v == ways(
            done@,
            springs@.skip(i as int),
            g@.map_values(|x: usize| x as nat),
        ),
    decreases springs@.len() - i,
{
    let ghost rest = springs@.skip(i as int);
    if i == springs.len() {
        if is_valid(&done, g) {
            return Some(1);
        }
        return Some(0);
    }
    assert(rest[0] == springs@[i as int]);
    assert(rest.skip(1) =~= springs@.skip(i + 1));
    let c = springs[i];
    if c == 63 {
        let mut broken = done.clone();
        broken.push(35);
        let mut operational = done;
        operational.push(46);
        let a = match arrangements(broken, springs, i + 1, g) {
            Some(a) => a,
            None => {
                return None;
            },
        };
        let b = match arrangements(operational, springs, i + 1, g) {
            Some(b) => b,
            None => {
                return None;
            },
        };
        a.checked_add(b)
    } else {
        let mut next = done;
        next.push(c);
        arrangements(next, springs, i + 1, g)
    }
}

/// The sum of the rows' counts, or `Overflow` where a count leaves `u32`.
pub open spec fn ways_total(rows: Seq<(Seq<u8>, Seq<nat>)>) -> Result<nat, PuzzleError>
    decreases rows.len(),
{
    if rows.len() == 0 {
        Ok(0)
    } else {
        match ways_total(rows.drop_last()) {
            Err(e) => Err(e),
            Ok(t) => {
                let w = ways(Seq::<u8>::empty(), rows.last().0, rows.last().1);
                if w > u32::MAX {
                    Err(PuzzleError::Overflow)
                } else {
                    Ok(t + w)
                }
            },
        }
    }
}

/// The answer of the first part.
pub open spec fn ways_answer(lines: Seq<Seq<u8>>) -> Result<u32, PuzzleError> {
    match rows_of(lines) {
        Err(e) => Err(e),
        Ok(rows) => match ways_total(rows) {
            Err(e) => Err(e),
            Ok(t) => if t > u32::MAX {
                Err(PuzzleError::Overflow)
            } else {
                Ok(t as u32)
            },
        },
    }
}

proof fn lemma_ways_stay_err(rows: Seq<(Seq<u8>, Seq<nat>)>, k: int)
    requires
        0 <= k <= rows.len(),
        ways_total(rows.subrange(0, k)) is Err,
    ensures
        ways_total(rows) == ways_total(rows.subrange(0, k)),
    decreases rows.len() - k,
{
    if k == rows.len() {
        assert(rows.subrange(0, k) =~= rows);
    } else {
        assert(rows.subrange(0, k + 1).drop_last() =~= rows.subrange(0, k));
        lemma_ways_stay_err(rows, k + 1);
    }
}

/// The sum, over the rows of `input`, of the ways to fill in their unknown
/// springs so that the runs of broken springs have the listed sizes.
pub fn solve_part_1(input: &str) -> (r: Result<u32, PuzzleError>)
    ensures
        r == ways_answer(lines_of(input.spec_bytes())),
{
    let rows = match read_rows(input) {
        Ok(v) => v,
        Err(e) => {
            return Err(e);
        },
    };
    let ghost rs = rows@.map_values(|x: SpringRow| row_view(x));
    let mut total: u64 = 0;
    let mut i: usize = 0;
    assert(rs.subrange(0, 0) =~= Seq::<(Seq<u8>, Seq<nat>)>::empty());
    while i < rows.len()
        invariant
            rows_of(lines_of(input.spec_bytes())) == Ok::<
                Seq<(Seq<u8>, Seq<nat>)>,
                PuzzleError,
            >(rs),
            rs == rows@.map_values(|x: SpringRow| row_view(x)),
            i <= rows@.len(),
            ways_total(rs.subrange(0, i as int)) == Ok::<nat, PuzzleError>(total as nat),
            total <= u32::MAX,
        decreases rows@.len() - i,
    {
        proof {
            let next = rs.subrange(0, i as int + 1);
            assert(next.drop_last() =~= rs.subrange(0, i as int));
            assert(next.last() == row_view(rows@[i as int]));
        }
        let row = &rows[i];
        assert(row.springs@.skip(0) =~= row.springs@);
        let w = match arrangements(Vec::new(), &row.springs, 0, &row.groups) {
            Some(w) => w,
            None => {
                proof {
                    lemma_ways_stay_err(rs, i as int + 1);
                }
                return Err(PuzzleError::Overflow);
            },
        };
        if total + w as u64 > u32::MAX as u64 {
            proof {
                lemma_ways_total_grows(rs, i as int + 1, rs.len() as int);
                assert(rs.subrange(0, rs.len() as int) =~= rs);
                lemma_ways_total_err(rs);
            }
            return Err(PuzzleError::Overflow);
        }
        total = total + w as u64;
        i = i + 1;
    }
    assert(rs.subrange(0, i as int) =~= rs);
    Ok(total as u32)
}

proof fn lemma_ways_total_err(rows: Seq<(Seq<u8>, Seq<nat>)>)
    ensures
        ways_total(rows) is Err ==> ways_total(rows) == Err::<nat, PuzzleError>(
            PuzzleError::Overflow,
        ),
    decreases rows.len(),
{
    if rows.len() > 0 {
        lemma_ways_total_err(rows.drop_last());
    }
}

proof fn lemma_ways_total_grows(rows: Seq<(Seq<u8>, Seq<nat>)>, k: int, n: int)
    requires
        0 <= k <= n <= rows.len(),
        ways_total(rows.subrange(0, k)) is Ok,
    ensures
        ways_total(rows.subrange(0, n)) is Err || ways_total(rows.subrange(0, n))->Ok_0
            >= ways_total(rows.subrange(0, k))->Ok_0,
    decreases n - k,
{
    if k < n {
        lemma_ways_total_grows(rows, k, n - 1);
        assert(rows.subrange(0, n).drop_last() =~= rows.subrange(0, n - 1));
    }
}

} // verus!
