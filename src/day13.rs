//! Day 13: Point of Incidence. The input holds maps of ash (`.`) and rock
//! (`#`), separated by blank lines; each map mirrors about a line between
//! two rows or two columns.
use vstd::prelude::*;
use vstd::string::StringSliceAdditionalSpecFns;

use crate::text::{lines_of, split_at_word, split_lines, split_str, PuzzleError};

verus! {

/// Every byte of a row is `.` or `#`.
pub open spec fn terrain_row(row: Seq<u8>) -> bool {
    forall|i: int| 0 <= i < row.len() ==> row[i] == 46 || row[i] == 35
}

/// The map mirrors about the line after row `i`: rows `i - d` and
/// `i + 1 + d` agree for every `d` that keeps both inside the map.
pub open spec fn mirror_at(rows: Seq<Seq<u8>>, i: int) -> bool {
    &&& 0 <= i
    &&& i + 1 < rows.len()
    &&& forall|d: int|
        0 <= d && i - d >= 0 && i + 1 + d < rows.len() ==> #[trigger] rows[i - d] == rows[i + 1 + d]
}

/// The first mirror line from row `i` on.
pub open spec fn first_mirror(rows: Seq<Seq<u8>>, i: int) -> Option<int>
    decreases rows.len() - i,
{
    if i < 0 || i >= rows.len() {
        None
    } else if mirror_at(rows, i) {
        Some(i)
    } else {
        first_mirror(rows, i + 1)
    }
}

/// The columns of the map, as wide as its first row.
pub open spec fn columns(rows: Seq<Seq<u8>>) -> Seq<Seq<u8>> {
    Seq::new(rows[0].len(), |j: int| Seq::new(rows.len(), |i: int| rows[i][j]))
}

/// Some row is shorter than the first.
pub open spec fn ragged(rows: Seq<Seq<u8>>) -> bool {
    exists|i: int| 0 <= i < rows.len() && #[trigger] rows[i].len() < rows[0].len()
}

/// The score of a map: 100 times the rows above its first horizontal
/// mirror line, or else the columns left of its first vertical one.
pub open spec fn map_score(rows: Seq<Seq<u8>>) -> Result<nat, PuzzleError> {
    if exists|i: int| 0 <= i < rows.len() && !terrain_row(#[trigger] rows[i]) {
        Err(PuzzleError::InvalidTerrain)
    } else {
        match first_mirror(rows, 0) {
            Some(i) => Ok(((i + 1) * 100) as nat),
            None => if rows.len() == 0 {
                Err(PuzzleError::MissingField)
            } else if ragged(rows) {
                Err(PuzzleError::RaggedMap)
            } else {
                match first_mirror(columns(rows), 0) {
                    Some(j) => Ok((j + 1) as nat),
                    None => Err(PuzzleError::NoReflection),
                }
            },
        }
    }
}

/// The bytes of a blank line between maps.
pub open spec fn blank_line() -> Seq<u8> {
    seq![10u8, 10]
}

/// The sum of the scores of the maps, in order, or the first failure; a
/// score or a partial sum beyond `u32::MAX` is `Overflow`.
pub open spec fn scores_total(blocks: Seq<Seq<u8>>) -> Result<nat, PuzzleError>
    decreases blocks.len(),
{
    if blocks.len() == 0 {
        Ok(0)
    } else {
        match scores_total(blocks.drop_last()) {
            Err(e) => Err(e),
            Ok(t) => match map_score(lines_of(blocks.last())) {
                Err(e) => Err(e),
                Ok(v) => if v > u32::MAX || t + v > u32::MAX {
                    Err(PuzzleError::Overflow)
                } else {
                    Ok(t + v)
                },
            },
        }
    }
}

/// Whether two rows agree.
fn same_row(a: &Vec<u8>, b: &Vec<u8>) -> (r: bool)
    ensures
        r == (a@ == b@),
{
    if a.len() != b.len() {
        return false;
    }
    let mut i: usize = 0;
    while i < a.len()
        invariant
            a@.len() == b@.len(),
            i <= a@.len(),
            forall|j: int| 0 <= j < i ==> a@[j] == b@[j],
        decreases a@.len() - i,
    {
        if a[i] != b[i] {
            return false;
        }
        i = i + 1;
    }
    assert(a@ =~= b@);
    true
}

/// Whether the rows before `i` and after `i + 1` mirror each other, pair by
/// pair outwards.
pub fn is_reflection(rows: &Vec<Vec<u8>>, i: usize) -> (r: bool)
    requires
        i + 1 < rows@.len(),
    ensures
        r == forall|d: int|
            1 <= d && i - d >= 0 && i + 1 + d < rows@.len() ==> #[trigger] rows@[i - d]@ == rows@[i
                + 1 + d]@,
{
    let n = rows.len();
    let mut start: usize = i;
    let mut offset: usize = 2;
    while start > 0 && n - i > offset
        invariant
            n == rows@.len(),
            i + 1 < n,
            start <= i,
            offset == i - start + 2,
            forall|d: int| 1 <= d && d < offset - 1 ==> #[trigger] rows@[i - d]@ == rows@[i + 1 + d]@,
        decreases start,
    {
        start = start - 1;
        if !same_row(&rows[start], &rows[i + offset]) {
            assert(rows@[i - (offset - 1)]@ != rows@[i + 1 + (offset - 1)]@);
            return false;
        }
        offset = offset + 1;
    }
    true
}

/// The first mirror line of `rows`.
fn find_mirror(rows: &Vec<Vec<u8>>) -> (r: Option<usize>)
    ensures
        r matches Some(i) ==> first_mirror(rows@.map_values(|v: Vec<u8>| v@), 0) == Some(i as int)
            && i + 1 < rows@.len(),
        r is None ==> first_mirror(rows@.map_values(|v: Vec<u8>| v@), 0) is None,
{
    let ghost rv = rows@.map_values(|v: Vec<u8>| v@);
    let mut i: usize = 0;
    let n = rows.len();
    while i < n && i + 1 < n
        invariant
            rv == rows@.map_values(|v: Vec<u8>| v@),
            n == rows@.len(),
            i <= rows@.len(),
            first_mirror(rv, 0) == first_mirror(rv, i as int),
        decreases rows@.len() - i,
    {
        let m = same_row(&rows[i], &rows[i + 1]) && is_reflection(rows, i);
        proof {
            if m {
                assert forall|d: int|
                    0 <= d && i - d >= 0 && i + 1 + d < rv.len() implies #[trigger] rv[i - d]
                    == rv[i + 1 + d] by {
                    if d == 0 {
                        assert(rows@[i as int]@ == rows@[i + 1]@);
                    } else {
                        assert(rows@[i - d]@ == rows@[i + 1 + d]@);
                    }
                }
            } else {
                if !(rows@[i as int]@ == rows@[i + 1]@) {
                    assert(rv[i - 0] != rv[i + 1 + 0]);
                } else {
                    let d = choose|d: int|
                        1 <= d && i - d >= 0 && i + 1 + d < rows@.len() && !(#[trigger] rows@[i
                            - d]@ == rows@[i + 1 + d]@);
                    assert(rv[i - d] != rv[i + 1 + d]);
                }
            }
        }
        if m {
            return Some(i);
        }
        i = i + 1;
    }
    proof {
        if i < rv.len() {
            assert(!mirror_at(rv, i as int));
            assert(first_mirror(rv, i as int + 1) is None);
        }
    }
    None
}


/// A line of reflection: between rows `i` and `i + 1`, or between columns
/// `i` and `i + 1`.
#[derive(Clone, Copy, Debug, PartialEq, Eq)]
pub enum ReflectionLine {
    Horizontal(usize, usize),
    Vertical(usize, usize),
}

/// A map of ash and rock, row by row.
#[derive(Debug)]
pub struct TerrainMap {
    rows: Vec<Vec<u8>>,
}

/// The columns of a map whose rows are at least as wide as the first.
fn transpose(rows: &Vec<Vec<u8>>) -> (r: Vec<Vec<u8>>)
    requires
        rows@.len() > 0,
        forall|i: int| 0 <= i < rows@.len() ==> (#[trigger] rows@[i])@.len() >= rows@[0]@.len(),
    ensures
        r@.map_values(|v: Vec<u8>| v@) == columns(rows@.map_values(|v: Vec<u8>| v@)),
{
    let ghost rv = rows@.map_values(|v: Vec<u8>| v@);
    let w = rows[0].len();
    let n = rows.len();
    let mut out: Vec<Vec<u8>> = Vec::new();
    let mut j: usize = 0;
    while j < w
        invariant
            rv == rows@.map_values(|v: Vec<u8>| v@),
            n == rows@.len(),
            n > 0,
            w == rows@[0]@.len(),
            forall|i: int| 0 <= i < rows@.len() ==> (#[trigger] rows@[i])@.len() >= w,
            j <= w,
            out@.len() == j,
            forall|k: int| 0 <= k < j ==> (#[trigger] out@[k])@ == columns(rv)[k],
        decreases w - j,
    {
        let mut col: Vec<u8> = Vec::new();
        let mut i: usize = 0;
        while i < n
            invariant
                n == rows@.len(),
                j < w,
                forall|t: int| 0 <= t < rows@.len() ==> (#[trigger] rows@[t])@.len() >= w,
                i <= n,
                col@.len() == i,
                forall|t: int| 0 <= t < i ==> col@[t] == rows@[t]@[j as int],
            decreases n - i,
        {
            col.push(rows[i][j]);
            i = i + 1;
        }
        assert(col@ =~= columns(rv)[j as int]);
        out.push(col);
        j = j + 1;
    }
    assert(out@.map_values(|v: Vec<u8>| v@) =~= columns(rv));
    out
}

impl TerrainMap {
    /// The rows of the map.
    pub closed spec fn spec_rows(&self) -> Seq<Seq<u8>> {
        self.rows@.map_values(|v: Vec<u8>| v@)
    }

    /// Reads the lines of `s` as rows of `.` and `#`.
    pub fn parse(s: &Vec<u8>) -> (r: Result<TerrainMap, PuzzleError>)
        ensures
            (exists|i: int|
                0 <= i < lines_of(s@).len() && !terrain_row(#[trigger] lines_of(s@)[i])) ==> r
                == Err::<TerrainMap, PuzzleError>(PuzzleError::InvalidTerrain),
            (forall|i: int|
                0 <= i < lines_of(s@).len() ==> terrain_row(#[trigger] lines_of(s@)[i])) ==> (r
                matches Ok(m) && m.spec_rows() == lines_of(s@)),
    {
        let rows = split_lines(s.as_slice());
        let ghost rv = rows@.map_values(|v: Vec<u8>| v@);
        let mut i: usize = 0;
        while i < rows.len()
            invariant
                rv == rows@.map_values(|v: Vec<u8>| v@),
                rv == lines_of(s@),
                i <= rows@.len(),
                forall|k: int| 0 <= k < i ==> terrain_row(#[trigger] rv[k]),
            decreases rows@.len() - i,
        {
            let row = &rows[i];
            let mut j: usize = 0;
            while j < row.len()
                invariant
                    rv == rows@.map_values(|v: Vec<u8>| v@),
                    rv == lines_of(s@),
                    i < rows@.len(),
                    row@ == rv[i as int],
                    j <= row@.len(),
                    forall|t: int| 0 <= t < j ==> row@[t] == 46 || row@[t] == 35,
                decreases row@.len() - j,
            {
                if row[j] != 46 && row[j] != 35 {
                    assert(!terrain_row(rv[i as int]));
                    return Err(PuzzleError::InvalidTerrain);
                }
                j = j + 1;
            }
            assert(terrain_row(rv[i as int]));
            i = i + 1;
        }
        Ok(TerrainMap { rows })
    }

    /// The first horizontal line of reflection, or else the first vertical
    /// one.
    pub fn find_line_of_reflection(&self) -> (r: Result<ReflectionLine, PuzzleError>)
        ensures
            r matches Ok(ReflectionLine::Horizontal(i, _)) ==> first_mirror(self.spec_rows(), 0)
                == Some(i as int),
            r matches Ok(ReflectionLine::Vertical(j, _)) ==> first_mirror(self.spec_rows(), 0) is None
                && self.spec_rows().len() > 0 && !ragged(self.spec_rows()) && first_mirror(
                columns(self.spec_rows()),
                0,
            ) == Some(j as int),
            match first_mirror(self.spec_rows(), 0) {
                Some(i) => r == Ok::<ReflectionLine, PuzzleError>(
                    ReflectionLine::Horizontal(i as usize, (i + 1) as usize),
                ),
                None => if self.spec_rows().len() == 0 {
                    r == Err::<ReflectionLine, PuzzleError>(PuzzleError::MissingField)
                } else if ragged(self.spec_rows()) {
                    r == Err::<ReflectionLine, PuzzleError>(PuzzleError::RaggedMap)
                } else {
                    match first_mirror(columns(self.spec_rows()), 0) {
                        Some(j) => r == Ok::<ReflectionLine, PuzzleError>(
                            ReflectionLine::Vertical(j as usize, (j + 1) as usize),
                        ),
                        None => r == Err::<ReflectionLine, PuzzleError>(
                            PuzzleError::NoReflection,
                        ),
                    }
                },
            },
    {
        let ghost rv = self.spec_rows();
        let total = self.rows.len();
        match find_mirror(&self.rows) {
            Some(i) => {
                assert(i + 1 < total);
                return Ok(ReflectionLine::Horizontal(i, i + 1));
            },
            None => {},
        }
        let n = self.rows.len();
        if n == 0 {
            return Err(PuzzleError::MissingField);
        }
        let w = self.rows[0].len();
        let mut i: usize = 0;
        while i < n
            invariant
                n == self.rows@.len(),
                n > 0,
                rv == self.spec_rows(),
                first_mirror(rv, 0) is None,
                w == rv[0].len(),
                i <= n,
                forall|k: int| 0 <= k < i ==> (#[trigger] self.rows@[k])@.len() >= w,
            decreases n - i,
        {
            if self.rows[i].len() < w {
                assert(rv[i as int].len() < rv[0].len());
                return Err(PuzzleError::RaggedMap);
            }
            i = i + 1;
        }
        proof {
            assert forall|k: int| 0 <= k < rv.len() implies !(#[trigger] rv[k].len() < rv[0].len()) by {
                assert(self.rows@[k]@.len() >= w);
            }
        }
        let cols = transpose(&self.rows);
        match find_mirror(&cols) {
            Some(j) => Ok(ReflectionLine::Vertical(j, j + 1)),
            None => Err(PuzzleError::NoReflection),
        }
    }
}


proof fn lemma_first_mirror_is_mirror(rows: Seq<Seq<u8>>, k: int)
    ensures
        first_mirror(rows, k) matches Some(i) ==> k <= i && mirror_at(rows, i),
    decreases rows.len() - k,
{
    if 0 <= k < rows.len() && !mirror_at(rows, k) {
        lemma_first_mirror_is_mirror(rows, k + 1);
    }
}

/// The score of the map written by `block`.
fn block_score(block: &Vec<u8>) -> (r: Result<u32, PuzzleError>)
    ensures
        match map_score(lines_of(block@)) {
            Ok(v) => if v <= u32::MAX {
                r == Ok::<u32, PuzzleError>(v as u32)
            } else {
                r == Err::<u32, PuzzleError>(PuzzleError::Overflow)
            },
            Err(e) => r == Err::<u32, PuzzleError>(e),
        },
{
    let map = match TerrainMap::parse(block) {
        Ok(m) => m,
        Err(e) => {
            return Err(e);
        },
    };
    proof {
        lemma_first_mirror_is_mirror(map.spec_rows(), 0);
        if map.spec_rows().len() > 0 {
            lemma_first_mirror_is_mirror(columns(map.spec_rows()), 0);
        }
    }
    match map.find_line_of_reflection() {
        Ok(ReflectionLine::Horizontal(i, _)) => {
            if i >= 42949672 {
                assert((i + 1) * 100 > u32::MAX) by (nonlinear_arith)
                    requires
                        i >= 42949672,
                ;
                return Err(PuzzleError::Overflow);
            }
            assert((i + 1) * 100 <= u32::MAX) by (nonlinear_arith)
                requires
                    i < 42949672,
            ;
            Ok(((i + 1) * 100) as u32)
        },
        Ok(ReflectionLine::Vertical(j, _)) => {
            if j >= 4294967295 {
                return Err(PuzzleError::Overflow);
            }
            Ok((j + 1) as u32)
        },
        Err(e) => Err(e),
    }
}

proof fn lemma_scores_stay_err(blocks: Seq<Seq<u8>>, k: int)
    requires
        0 <= k <= blocks.len(),
        scores_total(blocks.subrange(0, k)) is Err,
    ensures
        scores_total(blocks) == scores_total(blocks.subrange(0, k)),
    decreases blocks.len() - k,
{
    if k == blocks.len() {
        assert(blocks.subrange(0, k) =~= blocks);
    } else {
        assert(blocks.subrange(0, k + 1).drop_last() =~= blocks.subrange(0, k));
        lemma_scores_stay_err(blocks, k + 1);
    }
}

/// The sum of the scores of the maps of `input`, which blank lines
/// separate: 100 times the rows above each horizontal line of reflection,
/// and the columns left of each vertical one.
pub fn solve_part_1(input: &str) -> (r: Result<u32, PuzzleError>)
    ensures
        r == (match scores_total(split_str(input.spec_bytes(), blank_line())) {
            Ok(t) => Ok::<u32, PuzzleError>(t as u32),
            Err(e) => Err(e),
        }),
{
    let bytes = vstd::slice::slice_to_vec(input.as_bytes());
    let blank: Vec<u8> = vec![10u8, 10];
    assert(blank@ =~= blank_line());
    let blocks = split_at_word(&bytes, &blank);
    let ghost bs = blocks@.map_values(|v: Vec<u8>| v@);
    let mut total: u32 = 0;
    let mut i: usize = 0;
    assert(bs.subrange(0, 0) =~= Seq::<Seq<u8>>::empty());
    while i < blocks.len()
        invariant
            bs == blocks@.map_values(|v: Vec<u8>| v@),
            bs == split_str(input.spec_bytes(), blank_line()),
            i <= blocks@.len(),
            scores_total(bs.subrange(0, i as int)) == Ok::<nat, PuzzleError>(total as nat),
        decreases blocks@.len() - i,
    {
        proof {
            let next = bs.subrange(0, i as int + 1);
            assert(next.drop_last() =~= bs.subrange(0, i as int));
            assert(next.last() == blocks@[i as int]@);
        }
        let v = match block_score(&blocks[i]) {
            Ok(v) => v,
            Err(e) => {
                proof {
                    lemma_scores_stay_err(bs, i as int + 1);
                }
                return Err(e);
            },
        };
        match total.checked_add(v) {
            Some(t) => {
                total = t;
            },
            None => {
                proof {
                    lemma_scores_stay_err(bs, i as int + 1);
                }
                return Err(PuzzleError::Overflow);
            },
        }
        i = i + 1;
    }
    assert(bs.subrange(0, i as int) =~= bs);
    Ok(total)
}

} // verus!
