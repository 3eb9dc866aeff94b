//! Day 11: Cosmic Expansion. Galaxies (`#`) lie in a grid of space (`.`);
//! every row or column without a galaxy counts as wider, and the answer is
//! the sum of the distances between all pairs of galaxies.
use itertools::Itertools;
use vstd::prelude::*;
use vstd::string::StringSliceAdditionalSpecFns;

use crate::text::{lines_of, split_lines, PuzzleError};

verus! {

/// The pairs `(i, j)`, `lo <= i < j < n`, in lexicographic order.
pub open spec fn pairs_from(lo: int, n: int) -> Seq<(usize, usize)>
    decreases n - lo,
{
    if lo < 0 || lo >= n {
        Seq::<(usize, usize)>::empty()
    } else {
        Seq::new((n - lo - 1) as nat, |k: int| (lo as usize, (lo + 1 + k) as usize)) + pairs_from(
            lo + 1,
            n,
        )
    }
}

/// Relies on `itertools::Itertools::combinations`: the combinations of two
/// of `0..n`, each in increasing order, come in lexicographic order.
#[verifier::external_body]
fn index_pairs(n: usize) -> (r: Vec<(usize, usize)>)
    ensures
        r@ == pairs_from(0, n as int),
{
    (0..n).combinations(2).map(|c| (c[0], c[1])).collect()
}

proof fn lemma_pairs_ordered(lo: int, n: int)
    requires
        0 <= lo,
        n <= usize::MAX,
    ensures
        forall|p: int|
            0 <= p < pairs_from(lo, n).len() ==> lo <= (#[trigger] pairs_from(lo, n)[p]).0
                < pairs_from(lo, n)[p].1 < n,
    decreases n - lo,
{
    if lo < n {
        lemma_pairs_ordered(lo + 1, n);
        let row = Seq::new((n - lo - 1) as nat, |k: int| (lo as usize, (lo + 1 + k) as usize));
        assert forall|p: int| 0 <= p < pairs_from(lo, n).len() implies lo <= (#[trigger] pairs_from(
            lo,
            n,
        )[p]).0 < pairs_from(lo, n)[p].1 < n by {
            if p < row.len() {
                assert(pairs_from(lo, n)[p] == row[p]);
            } else {
                assert(pairs_from(lo, n)[p] == pairs_from(lo + 1, n)[p - row.len()]);
            }
        }
    }
}

/// Some row is longer than the first.
pub open spec fn too_wide(lines: Seq<Seq<u8>>) -> bool {
    exists|y: int| 0 <= y < lines.len() && #[trigger] lines[y].len() > lines[0].len()
}

/// Row `y` holds no galaxy.
pub open spec fn empty_row(lines: Seq<Seq<u8>>, y: int) -> bool {
    forall|x: int| 0 <= x < lines[y].len() ==> lines[y][x] == 46
}

/// Column `x` holds no galaxy in the rows that reach it.
pub open spec fn empty_col(lines: Seq<Seq<u8>>, x: int) -> bool {
    forall|y: int| 0 <= y < lines.len() && x < lines[y].len() ==> #[trigger] lines[y][x] == 46
}

/// Some row is too short to take a column inserted before empty column `x`.
pub open spec fn short_under_empty_col(lines: Seq<Seq<u8>>) -> bool {
    exists|x: int, y: int|
        0 <= x < lines[0].len() && 0 <= y < lines.len() && #[trigger] empty_col(lines, x)
            && #[trigger] lines[y].len() < x
}

/// The empty rows with index in `lo..=hi`.
pub open spec fn rows_between(lines: Seq<Seq<u8>>, lo: int, hi: int) -> nat
    decreases hi - lo + 1,
{
    if hi < lo {
        0
    } else {
        rows_between(lines, lo, hi - 1) + if empty_row(lines, hi) {
            1nat
        } else {
            0nat
        }
    }
}

/// The empty columns with index in `lo..=hi`.
pub open spec fn cols_between(lines: Seq<Seq<u8>>, lo: int, hi: int) -> nat
    decreases hi - lo + 1,
{
    if hi < lo {
        0
    } else {
        cols_between(lines, lo, hi - 1) + if empty_col(lines, hi) {
            1nat
        } else {
            0nat
        }
    }
}

/// The galaxies of the first `x` bytes of row `y`, left to right.
pub open spec fn row_galaxies(lines: Seq<Seq<u8>>, y: int, x: int) -> Seq<(usize, usize)>
    decreases x,
{
    if x <= 0 {
        Seq::<(usize, usize)>::empty()
    } else if lines[y][x - 1] == 35 {
        row_galaxies(lines, y, x - 1).push((y as usize, (x - 1) as usize))
    } else {
        row_galaxies(lines, y, x - 1)
    }
}

/// The galaxies of the first `y` rows, in reading order.
pub open spec fn galaxies(lines: Seq<Seq<u8>>, y: int) -> Seq<(usize, usize)>
    decreases y,
{
    if y <= 0 {
        Seq::<(usize, usize)>::empty()
    } else {
        galaxies(lines, y - 1) + row_galaxies(lines, y - 1, lines[y - 1].len() as int)
    }
}

pub open spec fn gap(a: int, b: int) -> int {
    if a < b {
        b - a
    } else {
        a - b
    }
}

pub open spec fn min(a: int, b: int) -> int {
    if a < b {
        a
    } else {
        b
    }
}

pub open spec fn max(a: int, b: int) -> int {
    if a < b {
        b
    } else {
        a
    }
}

/// `m * n - n`, or 0 where that is negative.
pub open spec fn widened(m: nat, n: nat) -> nat {
    if m * n >= n {
        (m * n - n) as nat
    } else {
        0
    }
}

/// The distance between two galaxies when every empty row or column counts
/// `m` times; none where a product or sum on the way leaves `u64`.
pub open spec fn distance(lines: Seq<Seq<u8>>, a: (usize, usize), b: (usize, usize), m: nat) -> Option<
    nat,
> {
    pair_distance(
        a,
        b,
        rows_between(lines, min(a.0 as int, b.0 as int), max(a.0 as int, b.0 as int)),
        cols_between(lines, min(a.1 as int, b.1 as int), max(a.1 as int, b.1 as int)),
        m,
    )
}

/// The distance between two galaxies with `er` empty rows and `ec` empty
/// columns between them, each counting `m` times.
pub open spec fn pair_distance(a: (usize, usize), b: (usize, usize), er: nat, ec: nat, m: nat) -> Option<
    nat,
> {
    let d = gap(a.0 as int, b.0 as int) + gap(a.1 as int, b.1 as int) + widened(m, er) + widened(
        m,
        ec,
    );
    if m * er > u64::MAX || m * ec > u64::MAX || d > u64::MAX {
        None
    } else {
        Some(d as nat)
    }
}

/// The sum of the distances of the pairs, in order; none where a distance
/// or a partial sum leaves `u64`.
pub open spec fn distance_total(
    lines: Seq<Seq<u8>>,
    gs: Seq<(usize, usize)>,
    ps: Seq<(usize, usize)>,
    m: nat,
) -> Option<nat>
    decreases ps.len(),
{
    if ps.len() == 0 {
        Some(0)
    } else {
        match distance_total(lines, gs, ps.drop_last(), m) {
            None => None,
            Some(t) => match distance(lines, gs[ps.last().0 as int], gs[ps.last().1 as int], m) {
                None => None,
                Some(d) => if t + d > u64::MAX {
                    None
                } else {
                    Some(t + d)
                },
            },
        }
    }
}

/// The answer for expansion factor `m`: the sum over all pairs of galaxies.
pub open spec fn universe_answer(lines: Seq<Seq<u8>>, m: nat) -> Result<u64, PuzzleError> {
    if too_wide(lines) {
        Err(PuzzleError::RaggedMap)
    } else {
        let gs = galaxies(lines, lines.len() as int);
        match distance_total(lines, gs, pairs_from(0, gs.len() as int), m) {
            None => Err(PuzzleError::Overflow),
            Some(t) => Ok(t as u64),
        }
    }
}


/// The number of set flags with index in `lo..=hi`.
pub open spec fn flag_count(flags: Seq<bool>, lo: int, hi: int) -> nat
    decreases hi - lo + 1,
{
    if hi < lo {
        0
    } else {
        flag_count(flags, lo, hi - 1) + if flags[hi] {
            1nat
        } else {
            0nat
        }
    }
}

proof fn lemma_flags_count_rows(lines: Seq<Seq<u8>>, flags: Seq<bool>, lo: int, hi: int)
    requires
        0 <= lo,
        hi < flags.len(),
        forall|k: int| 0 <= k < flags.len() ==> flags[k] == empty_row(lines, k),
    ensures
        flag_count(flags, lo, hi) == rows_between(lines, lo, hi),
    decreases hi - lo + 1,
{
    if lo <= hi {
        lemma_flags_count_rows(lines, flags, lo, hi - 1);
    }
}

/// The set flags with index in `lo..=hi`.
fn count_flags(flags: &Vec<bool>, lo: usize, hi: usize) -> (r: u64)
    requires
        lo <= hi < flags@.len(),
    ensures
        r == flag_count(flags@, lo as int, hi as int),
{
    let n = flags.len();
    let mut count: u64 = 0;
    let mut k: usize = lo;
    while k <= hi
        invariant
            n == flags@.len(),
            lo <= k <= hi + 1,
            hi < n,
            count == flag_count(flags@, lo as int, k - 1),
            count <= k - lo,
        decreases hi + 1 - k,
    {
        if flags[k] {
            count = count + 1;
        }
        k = k + 1;
    }
    count
}

proof fn lemma_row_galaxies_in_grid(lines: Seq<Seq<u8>>, y: int, x: int)
    requires
        0 <= y < lines.len(),
        lines.len() <= usize::MAX,
        x <= lines[y].len(),
        lines[y].len() <= usize::MAX,
    ensures
        forall|g: int|
            0 <= g < row_galaxies(lines, y, x).len() ==> (#[trigger] row_galaxies(lines, y, x)[g]).0
                == y && row_galaxies(lines, y, x)[g].1 < x,
    decreases x,
{
    if x > 0 {
        lemma_row_galaxies_in_grid(lines, y, x - 1);
        let prev = row_galaxies(lines, y, x - 1);
        assert forall|g: int| 0 <= g < row_galaxies(lines, y, x).len() implies (
        #[trigger] row_galaxies(lines, y, x)[g]).0 == y && row_galaxies(lines, y, x)[g].1 < x by {
            if g < prev.len() {
                assert(row_galaxies(lines, y, x)[g] == prev[g]);
            }
        }
    }
}

proof fn lemma_galaxies_in_grid(lines: Seq<Seq<u8>>, y: int)
    requires
        0 <= y <= lines.len(),
        lines.len() <= usize::MAX,
        forall|k: int| 0 <= k < lines.len() ==> (#[trigger] lines[k]).len() <= usize::MAX,
    ensures
        forall|g: int|
            0 <= g < galaxies(lines, y).len() ==> (#[trigger] galaxies(lines, y)[g]).0 < y
                && galaxies(lines, y)[g].1 < lines[galaxies(lines, y)[g].0 as int].len(),
    decreases y,
{
    if y > 0 {
        lemma_galaxies_in_grid(lines, y - 1);
        lemma_row_galaxies_in_grid(lines, y - 1, lines[y - 1].len() as int);
        let a = galaxies(lines, y - 1);
        let b = row_galaxies(lines, y - 1, lines[y - 1].len() as int);
        assert forall|g: int| 0 <= g < galaxies(lines, y).len() implies (#[trigger] galaxies(
            lines,
            y,
        )[g]).0 < y && galaxies(lines, y)[g].1 < lines[galaxies(lines, y)[g].0 as int].len() by {
            if g < a.len() {
                assert(galaxies(lines, y)[g] == a[g]);
            } else {
                assert(galaxies(lines, y)[g] == b[g - a.len()]);
            }
        }
    }
}

/// The galaxies of the grid, in reading order.
fn find_galaxies(lines: &Vec<Vec<u8>>) -> (r: Vec<(usize, usize)>)
    ensures
        r@ == galaxies(lines@.map_values(|v: Vec<u8>| v@), lines@.len() as int),
        lines@.len() <= usize::MAX,
        forall|k: int| 0 <= k < lines@.len() ==> (#[trigger] lines@[k])@.len() <= usize::MAX,
{
    let ghost lv = lines@.map_values(|v: Vec<u8>| v@);
    let n = lines.len();
    let mut out: Vec<(usize, usize)> = Vec::new();
    let mut y: usize = 0;
    while y < n
        invariant
            lv == lines@.map_values(|v: Vec<u8>| v@),
            n == lines@.len(),
            y <= lines@.len(),
            out@ == galaxies(lv, y as int),
            forall|k: int| 0 <= k < y ==> (#[trigger] lines@[k])@.len() <= usize::MAX,
        decreases lines@.len() - y,
    {
        let line = &lines[y];
        let w = line.len();
        assert(lines@[y as int]@.len() == w);
        let ghost before = out@;
        let mut x: usize = 0;
        while x < line.len()
            invariant
                lv == lines@.map_values(|v: Vec<u8>| v@),
                y < lines@.len(),
                line@ == lv[y as int],
                x <= line@.len(),
                out@ == before + row_galaxies(lv, y as int, x as int),
            decreases line@.len() - x,
        {
            if line[x] == 35 {
                out.push((y, x));
                assert(out@ =~= before + row_galaxies(lv, y as int, x + 1));
            } else {
                assert(out@ =~= before + row_galaxies(lv, y as int, x + 1));
            }
            x = x + 1;
        }
        y = y + 1;
    }
    out
}

/// Which rows and which columns (of the first row's width) are empty.
fn empty_lines_columns(lines: &Vec<Vec<u8>>) -> (r: (Vec<bool>, Vec<bool>))
    requires
        lines@.len() > 0,
    ensures
        r.0@.len() == lines@.len(),
        forall|y: int|
            0 <= y < lines@.len() ==> #[trigger] r.0@[y] == empty_row(
                lines@.map_values(|v: Vec<u8>| v@),
                y,
            ),
        r.1@.len() == lines@[0]@.len(),
        forall|x: int|
            0 <= x < lines@[0]@.len() ==> #[trigger] r.1@[x] == empty_col(
                lines@.map_values(|v: Vec<u8>| v@),
                x,
            ),
{
    let ghost lv = lines@.map_values(|v: Vec<u8>| v@);
    let mut rows: Vec<bool> = Vec::new();
    let mut y: usize = 0;
    while y < lines.len()
        invariant
            lv == lines@.map_values(|v: Vec<u8>| v@),
            y <= lines@.len(),
            rows@.len() == y,
            forall|k: int| 0 <= k < y ==> #[trigger] rows@[k] == empty_row(lv, k),
        decreases lines@.len() - y,
    {
        let line = &lines[y];
        let mut all = true;
        let mut x: usize = 0;
        while x < line.len()
            invariant
                x <= line@.len(),
                all <==> forall|t: int| 0 <= t < x ==> line@[t] == 46,
            decreases line@.len() - x,
        {
            if line[x] != 46 {
                all = false;
            }
            x = x + 1;
        }
        assert(line@ == lv[y as int]);
        rows.push(all);
        y = y + 1;
    }
    let w = lines[0].len();
    let mut cols: Vec<bool> = Vec::new();
    let mut x: usize = 0;
    while x < w
        invariant
            lv == lines@.map_values(|v: Vec<u8>| v@),
            w == lines@[0]@.len(),
            x <= w,
            cols@.len() == x,
            forall|k: int| 0 <= k < x ==> #[trigger] cols@[k] == empty_col(lv, k),
        decreases w - x,
    {
        let mut all = true;
        let mut t: usize = 0;
        while t < lines.len()
            invariant
                lv == lines@.map_values(|v: Vec<u8>| v@),
                t <= lines@.len(),
                all <==> forall|u: int|
                    0 <= u < t && x < lv[u].len() ==> #[trigger] lv[u][x as int] == 46,
            decreases lines@.len() - t,
        {
            assert(lines@[t as int]@ == lv[t as int]);
            if x < lines[t].len() && lines[t][x] != 46 {
                all = false;
            }
            t = t + 1;
        }
        cols.push(all);
        x = x + 1;
    }
    (rows, cols)
}


/// The distance between galaxies `a` and `b`, given which rows and columns
/// are empty.
fn galaxy_distance(rows: &Vec<bool>, cols: &Vec<bool>, a: (usize, usize), b: (usize, usize), m: u64) -> (r:
    Option<u64>)
    requires
        a.0 < rows@.len(),
        b.0 < rows@.len(),
        a.1 < cols@.len(),
        b.1 < cols@.len(),
    ensures
        match pair_distance(
            a,
            b,
            flag_count(rows@, min(a.0 as int, b.0 as int), max(a.0 as int, b.0 as int)),
            flag_count(cols@, min(a.1 as int, b.1 as int), max(a.1 as int, b.1 as int)),
            m as nat,
        ) {
            Some(d) => r == Some(d as u64),
            None => r is None,
        },
{
    let (ylo, yhi) = if a.0 < b.0 {
        (a.0, b.0)
    } else {
        (b.0, a.0)
    };
    let (xlo, xhi) = if a.1 < b.1 {
        (a.1, b.1)
    } else {
        (b.1, a.1)
    };
    let er = count_flags(rows, ylo, yhi);
    let ec = count_flags(cols, xlo, xhi);
    let wr = match m.checked_mul(er) {
        Some(v) => v,
        None => {
            return None;
        },
    };
    let wc = match m.checked_mul(ec) {
        Some(v) => v,
        None => {
            return None;
        },
    };
    let xr = wr.saturating_sub(er);
    let xc = wc.saturating_sub(ec);
    let dy = (yhi - ylo) as u64;
    let dx = (xhi - xlo) as u64;
    let d1 = match dy.checked_add(dx) {
        Some(v) => v,
        None => {
            return None;
        },
    };
    let d2 = match d1.checked_add(xr) {
        Some(v) => v,
        None => {
            return None;
        },
    };
    match d2.checked_add(xc) {
        Some(v) => Some(v),
        None => None,
    }
}

proof fn lemma_totals_stay_none(
    lines: Seq<Seq<u8>>,
    gs: Seq<(usize, usize)>,
    ps: Seq<(usize, usize)>,
    m: nat,
    k: int,
)
    requires
        0 <= k <= ps.len(),
        distance_total(lines, gs, ps.subrange(0, k), m) is None,
    ensures
        distance_total(lines, gs, ps, m) is None,
    decreases ps.len() - k,
{
    if k == ps.len() {
        assert(ps.subrange(0, k) =~= ps);
    } else {
        assert(ps.subrange(0, k + 1).drop_last() =~= ps.subrange(0, k));
        lemma_totals_stay_none(lines, gs, ps, m, k + 1);
    }
}

/// Whether some row is longer than the first.
fn any_too_wide(lines: &Vec<Vec<u8>>) -> (r: bool)
    requires
        lines@.len() > 0,
    ensures
        r == too_wide(lines@.map_values(|v: Vec<u8>| v@)),
{
    let ghost lv = lines@.map_values(|v: Vec<u8>| v@);
    let w = lines[0].len();
    let mut y: usize = 0;
    while y < lines.len()
        invariant
            lv == lines@.map_values(|v: Vec<u8>| v@),
            w == lv[0].len(),
            y <= lines@.len(),
            forall|k: int| 0 <= k < y ==> !(#[trigger] lv[k].len() > lv[0].len()),
        decreases lines@.len() - y,
    {
        assert(lines@[y as int]@ == lv[y as int]);
        if lines[y].len() > w {
            return true;
        }
        y = y + 1;
    }
    false
}

/// The sum of the distances between all pairs of galaxies of `lines`, no
/// row longer than the first, every empty row or column counting `m` times.
fn sum_of_distances(lines: &Vec<Vec<u8>>, m: u64) -> (r: Result<u64, PuzzleError>)
    requires
        lines@.len() > 0,
        !too_wide(lines@.map_values(|v: Vec<u8>| v@)),
    ensures
        r == universe_answer(lines@.map_values(|v: Vec<u8>| v@), m as nat),
{
    let ghost lv = lines@.map_values(|v: Vec<u8>| v@);
    let (rows, cols) = empty_lines_columns(lines);
    let gs = find_galaxies(lines);
    let ps = index_pairs(gs.len());
    proof {
        lemma_pairs_ordered(0, gs@.len() as int);
        assert forall|k: int| 0 <= k < lv.len() implies (#[trigger] lv[k]).len() <= usize::MAX by {
            assert(lv[k] == lines@[k]@);
            assert(lines@[k]@.len() <= usize::MAX);
        }
        lemma_galaxies_in_grid(lv, lv.len() as int);
        assert forall|k: int| 0 <= k < lv.len() implies (#[trigger] lv[k]).len() <= lv[0].len() by {
            if lv[k].len() > lv[0].len() {
                assert(too_wide(lv));
            }
        }
    }
    let ghost gv = gs@;
    let ghost pv = ps@;
    let mut total: u64 = 0;
    let mut i: usize = 0;
    assert(pv.subrange(0, 0) =~= Seq::<(usize, usize)>::empty());
    while i < ps.len()
        invariant
            lv == lines@.map_values(|v: Vec<u8>| v@),
            gv == gs@,
            gv == galaxies(lv, lv.len() as int),
            pv == ps@,
            pv == pairs_from(0, gv.len() as int),
            !too_wide(lv),
            rows@.len() == lv.len(),
            cols@.len() == lv[0].len(),
            forall|y: int| 0 <= y < lv.len() ==> #[trigger] rows@[y] == empty_row(lv, y),
            forall|x: int| 0 <= x < lv[0].len() ==> #[trigger] cols@[x] == empty_col(lv, x),
            forall|p: int|
                0 <= p < pv.len() ==> 0 <= (#[trigger] pv[p]).0 < pv[p].1 < gv.len(),
            forall|g: int|
                0 <= g < gv.len() ==> (#[trigger] gv[g]).0 < lv.len() && gv[g].1 < lv[gv[g].0 as int].len(),
            forall|k: int| 0 <= k < lv.len() ==> (#[trigger] lv[k]).len() <= lv[0].len(),
            i <= pv.len(),
            distance_total(lv, gv, pv.subrange(0, i as int), m as nat) == Some(total as nat),
        decreases pv.len() - i,
    {
        let p = ps[i];
        let a = gs[p.0];
        let b = gs[p.1];
        assert(a == gv[p.0 as int] && b == gv[p.1 as int]);
        assert(lv[a.0 as int].len() <= lv[0].len());
        assert(lv[b.0 as int].len() <= lv[0].len());
        proof {
            let ylo = min(a.0 as int, b.0 as int);
            let yhi = max(a.0 as int, b.0 as int);
            let xlo = min(a.1 as int, b.1 as int);
            let xhi = max(a.1 as int, b.1 as int);
            lemma_flags_count_rows(lv, rows@, ylo, yhi);
            lemma_flags_count_cols(lv, cols@, xlo, xhi);
            let next = pv.subrange(0, i as int + 1);
            assert(next.drop_last() =~= pv.subrange(0, i as int));
            assert(next.last() == p);
        }
        let d = match galaxy_distance(&rows, &cols, a, b, m) {
            Some(d) => d,
            None => {
                proof {
                    lemma_totals_stay_none(lv, gv, pv, m as nat, i as int + 1);
                }
                return Err(PuzzleError::Overflow);
            },
        };
        match total.checked_add(d) {
            Some(t) => {
                total = t;
            },
            None => {
                proof {
                    lemma_totals_stay_none(lv, gv, pv, m as nat, i as int + 1);
                }
                return Err(PuzzleError::Overflow);
            },
        }
        i = i + 1;
    }
    assert(pv.subrange(0, i as int) =~= pv);
    Ok(total)
}

proof fn lemma_flags_count_cols(lines: Seq<Seq<u8>>, flags: Seq<bool>, lo: int, hi: int)
    requires
        0 <= lo,
        hi < flags.len(),
        forall|k: int| 0 <= k < flags.len() ==> #[trigger] flags[k] == empty_col(lines, k),
    ensures
        flag_count(flags, lo, hi) == cols_between(lines, lo, hi),
    decreases hi - lo + 1,
{
    if lo <= hi {
        lemma_flags_count_cols(lines, flags, lo, hi - 1);
    }
}

/// The sum of the distances between all pairs of galaxies of `input`, where
/// every empty row and column counts `multiplier` times (a product of zero
/// counts as no width). A row longer than the first is `RaggedMap`.
pub fn solve_part_2(input: &str, multiplier: u64) -> (r: Result<u64, PuzzleError>)
    ensures
        r == universe_answer(lines_of(input.spec_bytes()), multiplier as nat),
{
    let lines = split_lines(input.as_bytes());
    let ghost lv = lines_of(input.spec_bytes());
    if lines.len() == 0 {
        assert(galaxies(lv, 0) =~= Seq::<(usize, usize)>::empty());
        return Ok(0);
    }
    if any_too_wide(&lines) {
        return Err(PuzzleError::RaggedMap);
    }
    sum_of_distances(&lines, multiplier)
}

/// Whether some row is shorter than an empty column's index.
fn any_short_under_empty_col(lines: &Vec<Vec<u8>>) -> (r: bool)
    requires
        lines@.len() > 0,
    ensures
        r == short_under_empty_col(lines@.map_values(|v: Vec<u8>| v@)),
{
    let ghost lv = lines@.map_values(|v: Vec<u8>| v@);
    let (_, cols) = empty_lines_columns(lines);
    let mut x: usize = 0;
    while x < cols.len()
        invariant
            lv == lines@.map_values(|v: Vec<u8>| v@),
            cols@.len() == lv[0].len(),
            forall|c: int| 0 <= c < lv[0].len() ==> #[trigger] cols@[c] == empty_col(lv, c),
            x <= cols@.len(),
            forall|c: int, y: int|
                0 <= c < x && 0 <= y < lv.len() && #[trigger] empty_col(lv, c) ==> !(
                #[trigger] lv[y].len() < c),
        decreases cols@.len() - x,
    {
        if cols[x] {
            assert(empty_col(lv, x as int));
            let mut y: usize = 0;
            while y < lines.len()
                invariant
                    lv == lines@.map_values(|v: Vec<u8>| v@),
                    x < lv[0].len(),
                    empty_col(lv, x as int),
                    y <= lines@.len(),
                    forall|t: int| 0 <= t < y ==> !(#[trigger] lv[t].len() < x),
                decreases lines@.len() - y,
            {
                assert(lines@[y as int]@ == lv[y as int]);
                if lines[y].len() < x {
                    assert(empty_col(lv, x as int));
                    return true;
                }
                y = y + 1;
            }
        }
        x = x + 1;
    }
    false
}

/// The sum of the distances between all pairs of galaxies of `input`, where
/// every empty row and column counts twice. A row longer than the first, or
/// too short to widen at an empty column, is `RaggedMap`.
pub fn solve_part_1(input: &str) -> (r: Result<u64, PuzzleError>)
    ensures
        lines_of(input.spec_bytes()).len() > 0 && (too_wide(lines_of(input.spec_bytes()))
            || short_under_empty_col(lines_of(input.spec_bytes()))) ==> r == Err::<
            u64,
            PuzzleError,
        >(PuzzleError::RaggedMap),
        !(lines_of(input.spec_bytes()).len() > 0 && (too_wide(lines_of(input.spec_bytes()))
            || short_under_empty_col(lines_of(input.spec_bytes())))) ==> r == universe_answer(
            lines_of(input.spec_bytes()),
            2,
        ),
{
    let lines = split_lines(input.as_bytes());
    let ghost lv = lines_of(input.spec_bytes());
    if lines.len() == 0 {
        assert(galaxies(lv, 0) =~= Seq::<(usize, usize)>::empty());
        return Ok(0);
    }
    if any_too_wide(&lines) {
        return Err(PuzzleError::RaggedMap);
    }
    if any_short_under_empty_col(&lines) {
        return Err(PuzzleError::RaggedMap);
    }
    sum_of_distances(&lines, 2)
}

} // verus!
