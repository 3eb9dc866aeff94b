//! Day 10: Pipe Maze. Every tile is a pipe joining two neighbours, ground
//! (`.`), or the start (`S`); the loop through the start is walked, and the
//! tiles that it encloses are counted.
use vstd::prelude::*;
use vstd::string::StringSliceAdditionalSpecFns;

use crate::text::{lines_of, split_lines, PuzzleError};

verus! {

/// The shape of a tile, for ray casting.
#[derive(Clone, Copy, Debug, PartialEq, Eq, Structural)]
pub enum Direction {
    NorthEast,
    NorthWest,
    SouthEast,
    SouthWest,
    SouthNorth,
    EastWest,
}

/// A position, `(x, y)`.
pub type Position = (int, int);

pub open spec fn tile_ok(c: u8) -> bool {
    c == 45 || c == 46 || c == 55 || c == 70 || c == 74 || c == 76 || c == 83 || c == 124
}

/// The two neighbours that tile `c` at `(x, y)` joins; ground and the
/// start join nothing and carry `(0, 0)` twice.
pub open spec fn gates(c: u8, x: int, y: int) -> (Position, Position) {
    if c == 45 {
        ((x - 1, y), (x + 1, y))
    } else if c == 55 {
        ((x, y + 1), (x - 1, y))
    } else if c == 70 {
        ((x, y + 1), (x + 1, y))
    } else if c == 74 {
        ((x, y - 1), (x - 1, y))
    } else if c == 76 {
        ((x, y - 1), (x + 1, y))
    } else if c == 124 {
        ((x, y - 1), (x, y + 1))
    } else {
        ((0, 0), (0, 0))
    }
}

/// The shape of tile `c`.
pub open spec fn tile_direction(c: u8) -> Direction {
    if c == 45 {
        Direction::EastWest
    } else if c == 55 {
        Direction::SouthWest
    } else if c == 70 {
        Direction::SouthEast
    } else if c == 76 {
        Direction::NorthEast
    } else if c == 124 {
        Direction::SouthNorth
    } else {
        Direction::NorthWest
    }
}

pub open spec fn in_grid(lines: Seq<Seq<u8>>, p: Position) -> bool {
    0 <= p.1 < lines.len() && 0 <= p.0 < lines[p.1].len()
}

pub open spec fn gates_at(lines: Seq<Seq<u8>>, p: Position) -> (Position, Position) {
    gates(lines[p.1][p.0], p.0, p.1)
}

/// Every tile is known.
pub open spec fn grid_ok(lines: Seq<Seq<u8>>) -> bool {
    forall|y: int, x: int| 0 <= y < lines.len() && 0 <= x < lines[y].len() ==> tile_ok(
        #[trigger] lines[y][x],
    )
}

/// The last `S` among the first `x` tiles of a row, or -1.
pub open spec fn row_last_start(line: Seq<u8>, x: int) -> int
    decreases x,
{
    if x <= 0 {
        -1
    } else if line[x - 1] == 83 {
        x - 1
    } else {
        row_last_start(line, x - 1)
    }
}

/// The last `S` of the first `y` rows in reading order, or `(0, 0)`.
pub open spec fn start_of(lines: Seq<Seq<u8>>, y: int) -> Position
    decreases y,
{
    if y <= 0 {
        (0, 0)
    } else if row_last_start(lines[y - 1], lines[y - 1].len() as int) >= 0 {
        (row_last_start(lines[y - 1], lines[y - 1].len() as int), y - 1)
    } else {
        start_of(lines, y - 1)
    }
}

pub open spec fn imax(a: int, b: int) -> int {
    if a > b {
        a
    } else {
        b
    }
}

pub open spec fn imin(a: int, b: int) -> int {
    if a < b {
        a
    } else {
        b
    }
}

/// The neighbourhood of the start: columns `x0..=x1`, rows `y0..=y1`.
pub open spec fn around(lines: Seq<Seq<u8>>, s: Position) -> (int, int, int, int) {
    (
        imax(s.0 - 1, 0),
        imin(s.0 + 1, lines[0].len() - 1),
        imax(s.1 - 1, 0),
        imin(s.1 + 1, lines.len() - 1),
    )
}

/// Column `j` of row `i`, not the start, lies beyond its row.
pub open spec fn beyond_row(lines: Seq<Seq<u8>>, s: Position, i: int, j: int) -> bool {
    (j, i) != s && j >= lines[i].len()
}

/// Some tile of the neighbourhood but the start lies beyond its row.
pub open spec fn ragged_around(lines: Seq<Seq<u8>>, s: Position) -> bool {
    let (x0, x1, y0, y1) = around(lines, s);
    exists|i: int, j: int| y0 <= i <= y1 && x0 <= j <= x1 && #[trigger] beyond_row(lines, s, i, j)
}

/// The tile at `(j, i)` is a neighbour (not the start itself) that joins
/// the start.
pub open spec fn entry(lines: Seq<Seq<u8>>, s: Position, i: int, j: int) -> bool {
    (j, i) != s && (gates_at(lines, (j, i)).0 == s || gates_at(lines, (j, i)).1 == s)
}

/// The entries of columns `x0..x`, column by column, each top to bottom:
/// the order of `(x, y)`.
pub open spec fn entries_upto(lines: Seq<Seq<u8>>, s: Position, x: int) -> Seq<Position>
    decreases x - around(lines, s).0,
{
    let (x0, x1, y0, y1) = around(lines, s);
    if x <= x0 {
        Seq::<Position>::empty()
    } else {
        entries_upto(lines, s, x - 1) + column_entries(lines, s, x - 1, y1 + 1)
    }
}

/// The entries of column `j` in rows `y0..i`.
pub open spec fn column_entries(lines: Seq<Seq<u8>>, s: Position, j: int, i: int) -> Seq<Position>
    decreases i - around(lines, s).2,
{
    let (x0, x1, y0, y1) = around(lines, s);
    if i <= y0 {
        Seq::<Position>::empty()
    } else if entry(lines, s, i - 1, j) {
        column_entries(lines, s, j, i - 1).push((j, i - 1))
    } else {
        column_entries(lines, s, j, i - 1)
    }
}

/// The start's two neighbours: the first two entries in `(x, y)` order,
/// or `(0, 0)` twice where there are fewer.
pub open spec fn start_gates(lines: Seq<Seq<u8>>, s: Position) -> (Position, Position) {
    let es = entries_upto(lines, s, around(lines, s).1 + 1);
    if es.len() > 1 {
        (es[0], es[1])
    } else {
        ((0, 0), (0, 0))
    }
}

/// The start's shape, from its two neighbours.
pub open spec fn start_direction(g: (Position, Position), s: Position) -> Direction {
    let (a, b) = g;
    if a.0 == b.0 && a.1 != b.1 {
        Direction::SouthNorth
    } else if a.0 < b.0 && a.1 == b.1 {
        Direction::EastWest
    } else if a.0 < b.0 && a.1 > b.1 && s.1 < a.1 {
        Direction::SouthEast
    } else if a.0 < b.0 && a.1 < b.1 && s.0 > a.0 {
        Direction::SouthWest
    } else if a.0 < b.0 && a.1 > b.1 {
        Direction::NorthWest
    } else if a.0 < b.0 && a.1 < b.1 {
        Direction::NorthEast
    } else {
        Direction::NorthWest
    }
}

/// Leaves a tile with gates `g`, entered from `from`, by its other gate.
pub open spec fn exit(g: (Position, Position), from: Position) -> Position {
    if g.0 == from {
        g.1
    } else {
        g.0
    }
}

/// The walk's previous and next position after `k` moves, staying put
/// once back on the start; none once it leaves the maze.
pub open spec fn walk_state(lines: Seq<Seq<u8>>, s: Position, k: nat) -> Option<(Position, Position)>
    decreases k,
{
    if k == 0 {
        Some((s, start_gates(lines, s).0))
    } else {
        match walk_state(lines, s, (k - 1) as nat) {
            None => None,
            Some((p, n)) => if n == s {
                Some((p, n))
            } else if !in_grid(lines, n) {
                None
            } else {
                Some((n, exit(gates_at(lines, n), p)))
            },
        }
    }
}

/// The number of tiles.
pub open spec fn tile_count(lines: Seq<Seq<u8>>, y: int) -> nat
    decreases y,
{
    if y <= 0 {
        0
    } else {
        tile_count(lines, y - 1) + lines[y - 1].len()
    }
}

/// A walk state that stands on the start.
pub open spec fn on_start(st: Option<(Position, Position)>, s: Position) -> bool {
    st matches Some((p, n)) && n == s
}

/// A walk state inside the walk, off the start.
pub open spec fn moving(st: Option<(Position, Position)>, s: Position) -> bool {
    st matches Some((p, n)) && n != s
}

/// The walk ends on the start after `k` moves and not before.
pub open spec fn returns_at(lines: Seq<Seq<u8>>, s: Position, k: nat) -> bool {
    &&& on_start(walk_state(lines, s, k), s)
    &&& forall|j: nat| j < k ==> moving(#[trigger] walk_state(lines, s, j), s)
}

/// The maze is usable: it has a row, every tile is known, and the start's
/// neighbourhood lies inside it.
pub open spec fn maze_ok(lines: Seq<Seq<u8>>) -> bool {
    &&& lines.len() > 0
    &&& grid_ok(lines)
    &&& !ragged_around(lines, start_of(lines, lines.len() as int))
    &&& in_grid(lines, start_of(lines, lines.len() as int))
}


/// Whether every tile is known.
fn all_tiles_ok(lines: &Vec<Vec<u8>>) -> (r: bool)
    ensures
        r == grid_ok(lines@.map_values(|v: Vec<u8>| v@)),
{
    let ghost lv = lines@.map_values(|v: Vec<u8>| v@);
    let mut y: usize = 0;
    while y < lines.len()
        invariant
            lv == lines@.map_values(|v: Vec<u8>| v@),
            y <= lines@.len(),
            forall|p: int, q: int| 0 <= p < y && 0 <= q < lv[p].len() ==> tile_ok(#[trigger] lv[p][q]),
        decreases lines@.len() - y,
    {
        let row = &lines[y];
        assert(row@ == lv[y as int]);
        let mut x: usize = 0;
        while x < row.len()
            invariant
                lv == lines@.map_values(|v: Vec<u8>| v@),
                y < lines@.len(),
                row@ == lv[y as int],
                x <= row@.len(),
                forall|p: int, q: int|
                    0 <= p < y && 0 <= q < lv[p].len() ==> tile_ok(#[trigger] lv[p][q]),
                forall|q: int| 0 <= q < x ==> tile_ok(#[trigger] lv[y as int][q]),
            decreases row@.len() - x,
        {
            let c = row[x];
            if !(c == 45 || c == 46 || c == 55 || c == 70 || c == 74 || c == 76 || c == 83 || c == 124) {
                assert(!tile_ok(lv[y as int][x as int]));
                return false;
            }
            x = x + 1;
        }
        y = y + 1;
    }
    true
}

/// The last `S` in reading order, or `(0, 0)`.
fn find_start(lines: &Vec<Vec<u8>>) -> (r: (usize, usize))
    ensures
        (r.0 as int, r.1 as int) == start_of(
            lines@.map_values(|v: Vec<u8>| v@),
            lines@.len() as int,
        ),
{
    let ghost lv = lines@.map_values(|v: Vec<u8>| v@);
    let mut best: (usize, usize) = (0, 0);
    let mut y: usize = 0;
    while y < lines.len()
        invariant
            lv == lines@.map_values(|v: Vec<u8>| v@),
            y <= lines@.len(),
            (best.0 as int, best.1 as int) == start_of(lv, y as int),
        decreases lines@.len() - y,
    {
        let row = &lines[y];
        assert(row@ == lv[y as int]);
        let mut x: usize = 0;
        let mut last: Option<usize> = None;
        while x < row.len()
            invariant
                x <= row@.len(),
                last matches Some(l) ==> l as int == row_last_start(row@, x as int),
                last is None ==> row_last_start(row@, x as int) < 0,
            decreases row@.len() - x,
        {
            if row[x] == 83 {
                last = Some(x);
            }
            x = x + 1;
        }
        if let Some(l) = last {
            best = (l, y);
        }
        y = y + 1;
    }
    best
}

/// The tile of the grid at `(x, y)`, if the position lies in it.
fn tile_at(lines: &Vec<Vec<u8>>, x: i128, y: i128) -> (r: Option<u8>)
    ensures
        r is Some <==> in_grid(lines@.map_values(|v: Vec<u8>| v@), (x as int, y as int)),
        r matches Some(c) ==> c == lines@.map_values(|v: Vec<u8>| v@)[y as int][x as int],
{
    let ghost lv = lines@.map_values(|v: Vec<u8>| v@);
    if y < 0 || x < 0 || y >= lines.len() as i128 {
        return None;
    }
    let row = &lines[y as usize];
    assert(row@ == lv[y as int]);
    if x >= row.len() as i128 {
        return None;
    }
    Some(row[x as usize])
}

/// The two neighbours that tile `c` at `(x, y)` joins.
fn gates_of(c: u8, x: i128, y: i128) -> (r: ((i128, i128), (i128, i128)))
    requires
        0 <= x <= usize::MAX,
        0 <= y <= usize::MAX,
    ensures
        ((r.0.0 as int, r.0.1 as int), (r.1.0 as int, r.1.1 as int)) == gates(c, x as int, y as int),
{
    if c == 45 {
        ((x - 1, y), (x + 1, y))
    } else if c == 55 {
        ((x, y + 1), (x - 1, y))
    } else if c == 70 {
        ((x, y + 1), (x + 1, y))
    } else if c == 74 {
        ((x, y - 1), (x - 1, y))
    } else if c == 76 {
        ((x, y - 1), (x + 1, y))
    } else if c == 124 {
        ((x, y - 1), (x, y + 1))
    } else {
        ((0, 0), (0, 0))
    }
}


/// The start's two neighbours; `RaggedMap` where its neighbourhood leaves
/// the maze.
fn start_neighbours(lines: &Vec<Vec<u8>>, sx: usize, sy: usize) -> (r: Result<
    ((i128, i128), (i128, i128)),
    PuzzleError,
>)
    requires
        lines@.len() > 0,
    ensures
        ragged_around(lines@.map_values(|v: Vec<u8>| v@), (sx as int, sy as int)) ==> r == Err::<
            ((i128, i128), (i128, i128)),
            PuzzleError,
        >(PuzzleError::RaggedMap),
        !ragged_around(lines@.map_values(|v: Vec<u8>| v@), (sx as int, sy as int)) ==> (r matches Ok(
            g,
        ) && ((g.0.0 as int, g.0.1 as int), (g.1.0 as int, g.1.1 as int)) == start_gates(
            lines@.map_values(|v: Vec<u8>| v@),
            (sx as int, sy as int),
        )),
{
    let ghost lv = lines@.map_values(|v: Vec<u8>| v@);
    let ghost st = (sx as int, sy as int);
    let n = lines.len();
    let w0 = lines[0].len();
    assert(lines@[0]@ == lv[0]);
    let x0: i128 = if sx == 0 { 0 } else { sx as i128 - 1 };
    let x1: i128 = if (sx as i128) + 1 < (w0 as i128) - 1 { sx as i128 + 1 } else { w0 as i128 - 1 };
    let y0: i128 = if sy == 0 { 0 } else { sy as i128 - 1 };
    let y1: i128 = if (sy as i128) + 1 < (n as i128) - 1 { sy as i128 + 1 } else { n as i128 - 1 };
    assert(around(lv, st) == (x0 as int, x1 as int, y0 as int, y1 as int));
    let sxi = sx as i128;
    let syi = sy as i128;
    let mut i: i128 = y0;
    while i <= y1
        invariant
            lv == lines@.map_values(|v: Vec<u8>| v@),
            n == lines@.len(),
            st == (sx as int, sy as int),
            sxi == sx,
            syi == sy,
            around(lv, st) == (x0 as int, x1 as int, y0 as int, y1 as int),
            0 <= y0 <= i,
            y0 <= y1 ==> i <= y1 + 1,
            y1 < y0 ==> i == y0,
            y1 < n,
            0 <= x0,
            x1 <= usize::MAX,
            forall|p: int, q: int|
                y0 <= p < i && x0 <= q <= x1 ==> !#[trigger] beyond_row(lv, st, p, q),
        decreases y1 + 1 - i,
    {
        let row = &lines[i as usize];
        assert(row@ == lv[i as int]);
        let mut j: i128 = x0;
        while j <= x1
            invariant
                lv == lines@.map_values(|v: Vec<u8>| v@),
                st == (sx as int, sy as int),
                sxi == sx,
                syi == sy,
                row@ == lv[i as int],
                around(lv, st) == (x0 as int, x1 as int, y0 as int, y1 as int),
                y0 <= i <= y1,
                0 <= x0 <= j,
                x0 <= x1 ==> j <= x1 + 1,
                x1 < x0 ==> j == x0,
                x1 <= usize::MAX,
                0 <= i < n,
                n == lines@.len(),
                forall|q: int| x0 <= q < j ==> !#[trigger] beyond_row(lv, st, i as int, q),
            decreases x1 + 1 - j,
        {
            if !(j == sxi && i == syi) && j >= row.len() as i128 {
                assert(beyond_row(lv, st, i as int, j as int));
                assert(y0 <= i <= y1 && x0 <= j <= x1);
                assert(ragged_around(lv, st));
                return Err(PuzzleError::RaggedMap);
            }
            j = j + 1;
        }
        i = i + 1;
    }
    assert(!ragged_around(lv, st));
    let mut es: Vec<(i128, i128)> = Vec::new();
    let mut j: i128 = x0;
    while j <= x1
        invariant
            lv == lines@.map_values(|v: Vec<u8>| v@),
            n == lines@.len(),
            st == (sx as int, sy as int),
            sxi == sx,
            syi == sy,
            around(lv, st) == (x0 as int, x1 as int, y0 as int, y1 as int),
            !ragged_around(lv, st),
            0 <= y0,
            y1 < n,
            0 <= x0 <= j,
            x0 <= x1 ==> j <= x1 + 1,
            x1 < x0 ==> j == x0,
            x1 <= usize::MAX,
            es@.map_values(|e: (i128, i128)| (e.0 as int, e.1 as int)) == entries_upto(
                lv,
                st,
                j as int,
            ),
        decreases x1 + 1 - j,
    {
        let mut i: i128 = y0;
        let ghost base = es@.map_values(|e: (i128, i128)| (e.0 as int, e.1 as int));
        while i <= y1
            invariant
                lv == lines@.map_values(|v: Vec<u8>| v@),
                n == lines@.len(),
                st == (sx as int, sy as int),
                sxi == sx,
                syi == sy,
                around(lv, st) == (x0 as int, x1 as int, y0 as int, y1 as int),
                !ragged_around(lv, st),
                0 <= y0 <= i,
            y0 <= y1 ==> i <= y1 + 1,
            y1 < y0 ==> i == y0,
                y1 < n,
                x0 <= j <= x1,
                x1 <= usize::MAX,
                base == entries_upto(lv, st, j as int),
                es@.map_values(|e: (i128, i128)| (e.0 as int, e.1 as int)) == base
                    + column_entries(lv, st, j as int, i as int),
            decreases y1 + 1 - i,
        {
            if !(j == sxi && i == syi) {
                assert(!beyond_row(lv, st, i as int, j as int));
                let c = match tile_at(lines, j, i) {
                    Some(c) => c,
                    None => {
                        return Err(PuzzleError::RaggedMap);
                    },
                };
                let g = gates_of(c, j, i);
                if (g.0.0 == sxi && g.0.1 == syi) || (g.1.0 == sxi && g.1.1 == syi) {
                    let ghost before = es@;
                    es.push((j, i));
                    assert(es@.map_values(|e: (i128, i128)| (e.0 as int, e.1 as int)) =~= before.map_values(
                        |e: (i128, i128)| (e.0 as int, e.1 as int),
                    ).push((j as int, i as int)));
                }
            }
            i = i + 1;
        }
        j = j + 1;
    }
    if es.len() > 1 {
        Ok((es[0], es[1]))
    } else {
        Ok(((0, 0), (0, 0)))
    }
}


/// The walk from step `k` on, with `fuel` moves left: the step at which it
/// stands on the start again.
pub open spec fn walk_search(lines: Seq<Seq<u8>>, s: Position, k: nat, fuel: nat) -> Result<
    nat,
    PuzzleError,
>
    decreases fuel,
{
    match walk_state(lines, s, k) {
        None => Err(PuzzleError::OffMaze),
        Some((p, n)) => if n == s {
            Ok(k)
        } else if fuel == 0 {
            Err(PuzzleError::StepLimit)
        } else {
            walk_search(lines, s, k + 1, (fuel - 1) as nat)
        },
    }
}

/// The start and the number of moves of the loop through it. The walk may
/// take one move more than there are tiles.
pub open spec fn maze_walk(lines: Seq<Seq<u8>>) -> Result<(Position, nat), PuzzleError> {
    let s = start_of(lines, lines.len() as int);
    if lines.len() == 0 {
        Err(PuzzleError::MissingField)
    } else if !grid_ok(lines) {
        Err(PuzzleError::InvalidTile)
    } else if ragged_around(lines, s) || !in_grid(lines, s) {
        Err(PuzzleError::RaggedMap)
    } else {
        match walk_search(lines, s, 0, tile_count(lines, lines.len() as int) + 1) {
            Err(e) => Err(e),
            Ok(k) => Ok((s, k)),
        }
    }
}

/// The answer of the first part: half the tiles of the walk, the start
/// counted at both ends.
pub open spec fn farthest_answer(lines: Seq<Seq<u8>>) -> Result<u32, PuzzleError> {
    match maze_walk(lines) {
        Err(e) => Err(e),
        Ok((s, k)) => if (k + 1) / 2 > u32::MAX {
            Err(PuzzleError::Overflow)
        } else {
            Ok(((k + 1) / 2) as u32)
        },
    }
}

/// A walk state stands on `p`.
pub open spec fn passes(st: Option<(Position, Position)>, p: Position) -> bool {
    st matches Some((q, n)) && n == p
}

/// Tile `(x, y)` is on the loop: a start, or a tile that the walk passed in
/// its first `k` moves.
pub open spec fn on_loop(lines: Seq<Seq<u8>>, s: Position, k: nat, x: int, y: int) -> bool {
    lines[y][x] == 83 || exists|j: nat| j < k && #[trigger] passes(walk_state(lines, s, j), (x, y))
}

/// The shape of tile `(x, y)`, the start's as its neighbours make it.
pub open spec fn shape_at(lines: Seq<Seq<u8>>, s: Position, x: int, y: int) -> Direction {
    if (x, y) == s {
        start_direction(start_gates(lines, s), s)
    } else {
        tile_direction(lines[y][x])
    }
}

/// A shape that a ray along the row crosses.
pub open spec fn crosses(d: Direction) -> bool {
    d == Direction::SouthNorth || d == Direction::SouthWest || d == Direction::SouthEast
}

/// The loop tiles left of column `x` in row `y` that a ray crosses.
pub open spec fn crossings(lines: Seq<Seq<u8>>, s: Position, k: nat, y: int, x: int) -> nat
    decreases x,
{
    if x <= 0 {
        0
    } else {
        crossings(lines, s, k, y, x - 1) + if on_loop(lines, s, k, x - 1, y) && crosses(
            shape_at(lines, s, x - 1, y),
        ) {
            1nat
        } else {
            0nat
        }
    }
}

pub open spec fn at_edge(lines: Seq<Seq<u8>>, x: int, y: int) -> bool {
    x == 0 || x == lines[y].len() - 1 || y == 0 || y == lines.len() - 1
}

/// Tile `(x, y)` is enclosed: off the loop and the edge, with an odd number
/// of crossings to its left.
pub open spec fn enclosed_at(lines: Seq<Seq<u8>>, s: Position, k: nat, x: int, y: int) -> nat {
    if !on_loop(lines, s, k, x, y) && !at_edge(lines, x, y) && crossings(lines, s, k, y, x) % 2
        == 1 {
        1
    } else {
        0
    }
}

pub open spec fn row_enclosed(lines: Seq<Seq<u8>>, s: Position, k: nat, y: int, x: int) -> nat
    decreases x,
{
    if x <= 0 {
        0
    } else {
        row_enclosed(lines, s, k, y, x - 1) + enclosed_at(lines, s, k, x - 1, y)
    }
}

pub open spec fn enclosed(lines: Seq<Seq<u8>>, s: Position, k: nat, y: int) -> nat
    decreases y,
{
    if y <= 0 {
        0
    } else {
        enclosed(lines, s, k, y - 1) + row_enclosed(lines, s, k, y - 1, lines[y - 1].len() as int)
    }
}

/// The answer of the second part: the enclosed tiles.
pub open spec fn enclosed_answer(lines: Seq<Seq<u8>>) -> Result<u32, PuzzleError> {
    match maze_walk(lines) {
        Err(e) => Err(e),
        Ok((s, k)) => {
            let c = enclosed(lines, s, k, lines.len() as int);
            if c > i32::MAX {
                Err(PuzzleError::Overflow)
            } else {
                Ok(c as u32)
            }
        },
    }
}


/// Sets mark `(x, y)`.
fn mark(marks: &mut Vec<Vec<bool>>, y: usize, x: usize)
    requires
        y < old(marks)@.len(),
        x < old(marks)@[y as int]@.len(),
    ensures
        final(marks)@.len() == old(marks)@.len(),
        forall|i: int| 0 <= i < old(marks)@.len() && i != y ==> (#[trigger] final(marks)@[i])@ == old(
            marks,
        )@[i]@,
        final(marks)@[y as int]@ == old(marks)@[y as int]@.update(x as int, true),
{
    let mut row = marks.remove(y);
    row.set(x, true);
    marks.insert(y, row);
}

/// The tile count, plus one.
fn walk_fuel(lines: &Vec<Vec<u8>>) -> (r: u128)
    ensures
        r == tile_count(lines@.map_values(|v: Vec<u8>| v@), lines@.len() as int) + 1,
{
    let ghost lv = lines@.map_values(|v: Vec<u8>| v@);
    let mut t: u128 = 0;
    let mut y: usize = 0;
    while y < lines.len()
        invariant
            lv == lines@.map_values(|v: Vec<u8>| v@),
            y <= lines@.len(),
            t == tile_count(lv, y as int),
            t <= y * (usize::MAX as u128),
        decreases lines@.len() - y,
    {
        assert(lines@[y as int]@ == lv[y as int]);
        assert((y + 1) * (usize::MAX as u128) == y * (usize::MAX as u128) + usize::MAX as u128)
            by (nonlinear_arith);
        assert((y + 1) * (usize::MAX as u128) <= (usize::MAX as u128) * (usize::MAX as u128))
            by (nonlinear_arith)
            requires
                y < usize::MAX,
        ;
        t = t + lines[y].len() as u128;
        y = y + 1;
    }
    assert(t <= (usize::MAX as u128) * (usize::MAX as u128)) by (nonlinear_arith)
        requires
            t <= y * (usize::MAX as u128),
            y <= usize::MAX,
    ;
    t + 1
}

/// Walks the loop from the start: the number of moves back to the start,
/// and which tiles are on the loop.
fn walk_maze(
    lines: &Vec<Vec<u8>>,
    sx: usize,
    sy: usize,
    sg: ((i128, i128), (i128, i128)),
) -> (r: Result<(u128, Vec<Vec<bool>>), PuzzleError>)
    requires
        in_grid(lines@.map_values(|v: Vec<u8>| v@), (sx as int, sy as int)),
        ((sg.0.0 as int, sg.0.1 as int), (sg.1.0 as int, sg.1.1 as int)) == start_gates(
            lines@.map_values(|v: Vec<u8>| v@),
            (sx as int, sy as int),
        ),
    ensures
        match walk_search(
            lines@.map_values(|v: Vec<u8>| v@),
            (sx as int, sy as int),
            0,
            tile_count(lines@.map_values(|v: Vec<u8>| v@), lines@.len() as int) + 1,
        ) {
            Err(e) => r == Err::<(u128, Vec<Vec<bool>>), PuzzleError>(e),
            Ok(k) => r matches Ok((kk, marks)) && kk == k && marks@.len() == lines@.len() && (
            forall|y: int|
                0 <= y < lines@.len() ==> (#[trigger] marks@[y])@.len() == lines@[y]@.len()) && (
            forall|y: int, x: int|
                0 <= y < lines@.len() && 0 <= x < lines@[y]@.len() ==> #[trigger] marks@[y]@[x]
                    == on_loop(
                    lines@.map_values(|v: Vec<u8>| v@),
                    (sx as int, sy as int),
                    k,
                    x,
                    y,
                )),
        },
{
    let ghost lv = lines@.map_values(|v: Vec<u8>| v@);
    let ghost st = (sx as int, sy as int);
    let fuel = walk_fuel(lines);
    let mut marks: Vec<Vec<bool>> = Vec::new();
    let mut y: usize = 0;
    while y < lines.len()
        invariant
            lv == lines@.map_values(|v: Vec<u8>| v@),
            y <= lines@.len(),
            marks@.len() == y,
            forall|p: int| 0 <= p < y ==> (#[trigger] marks@[p])@.len() == lines@[p]@.len(),
            forall|p: int, q: int|
                0 <= p < y && 0 <= q < lines@[p]@.len() ==> #[trigger] marks@[p]@[q] == (lv[p][q]
                    == 83),
        decreases lines@.len() - y,
    {
        let row = &lines[y];
        assert(row@ == lv[y as int]);
        let mut m: Vec<bool> = Vec::new();
        let mut x: usize = 0;
        while x < row.len()
            invariant
                x <= row@.len(),
                m@.len() == x,
                forall|q: int| 0 <= q < x ==> m@[q] == (row@[q] == 83),
            decreases row@.len() - x,
        {
            m.push(row[x] == 83);
            x = x + 1;
        }
        marks.push(m);
        y = y + 1;
    }
    let sxi = sx as i128;
    let syi = sy as i128;
    let mut prev: (i128, i128) = (sxi, syi);
    let mut next: (i128, i128) = sg.0;
    let mut k: u128 = 0;
    loop
        invariant
            lv == lines@.map_values(|v: Vec<u8>| v@),
            st == (sx as int, sy as int),
            sxi == sx,
            syi == sy,
            fuel == tile_count(lv, lv.len() as int) + 1,
            k <= fuel,
            walk_state(lv, st, k as nat) == Some(
                ((prev.0 as int, prev.1 as int), (next.0 as int, next.1 as int)),
            ),
            walk_search(lv, st, 0, fuel as nat) == walk_search(
                lv,
                st,
                k as nat,
                (fuel - k) as nat,
            ),
            marks@.len() == lines@.len(),
            forall|p: int| 0 <= p < lines@.len() ==> (#[trigger] marks@[p])@.len() == lines@[p]@.len(),
            forall|p: int, q: int|
                0 <= p < lines@.len() && 0 <= q < lines@[p]@.len() ==> #[trigger] marks@[p]@[q]
                    == on_loop(lv, st, k as nat, q, p),
        decreases fuel - k,
    {
        if next.0 == sxi && next.1 == syi {
            return Ok((k, marks));
        }
        if k == fuel {
            return Err(PuzzleError::StepLimit);
        }
        let c = match tile_at(lines, next.0, next.1) {
            Some(c) => c,
            None => {
                assert(walk_state(lv, st, (k + 1) as nat) is None);
                assert(walk_search(lv, st, (k + 1) as nat, (fuel - k - 1) as nat) == Err::<
                    nat,
                    PuzzleError,
                >(PuzzleError::OffMaze));
                return Err(PuzzleError::OffMaze);
            },
        };
        let ghost n = (next.0 as int, next.1 as int);
        let ghost old_marks = marks@;
        let nl = lines.len();
        assert(0 <= next.1 < nl);
        let ny = next.1 as usize;
        assert(lines@[ny as int]@ == lv[ny as int]);
        let rl = lines[ny].len();
        assert(0 <= next.0 < rl);
        let nx = next.0 as usize;
        assert(ny as int == n.1 && nx as int == n.0);
        assert(marks@[ny as int]@.len() == lines@[ny as int]@.len());
        mark(&mut marks, ny, nx);
        proof {
            assert forall|p: int, q: int|
                0 <= p < lines@.len() && 0 <= q < lines@[p]@.len() implies #[trigger] marks@[p]@[q]
                == on_loop(lv, st, (k + 1) as nat, q, p) by {
                if lv[p][q] != 83 {
                    if (q, p) == n {
                        assert(passes(walk_state(lv, st, k as nat), (q, p)));
                    } else {
                        assert(marks@[p]@[q] == old_marks[p]@[q]);
                        if exists|j: nat| j < k + 1 && #[trigger] passes(walk_state(lv, st, j), (q, p)) {
                            let j = choose|j: nat|
                                j < k + 1 && #[trigger] passes(walk_state(lv, st, j), (q, p));
                            assert(j < k);
                        }
                    }
                } else {
                    assert(lines@[p]@[q] == 83);
                }
            }
        }
        let g = gates_of(c, next.0, next.1);
        let after = if g.0.0 == prev.0 && g.0.1 == prev.1 {
            g.1
        } else {
            g.0
        };
        prev = next;
        next = after;
        k = k + 1;
    }
}


/// The shape of the start, from its two neighbours.
fn start_shape(g: ((i128, i128), (i128, i128)), sx: usize, sy: usize) -> (r: Direction)
    ensures
        r == start_direction(
            ((g.0.0 as int, g.0.1 as int), (g.1.0 as int, g.1.1 as int)),
            (sx as int, sy as int),
        ),
{
    let (a, b) = g;
    let sxi = sx as i128;
    let syi = sy as i128;
    if a.0 == b.0 && a.1 != b.1 {
        Direction::SouthNorth
    } else if a.0 < b.0 && a.1 == b.1 {
        Direction::EastWest
    } else if a.0 < b.0 && a.1 > b.1 && syi < a.1 {
        Direction::SouthEast
    } else if a.0 < b.0 && a.1 < b.1 && sxi > a.0 {
        Direction::SouthWest
    } else if a.0 < b.0 && a.1 > b.1 {
        Direction::NorthWest
    } else if a.0 < b.0 && a.1 < b.1 {
        Direction::NorthEast
    } else {
        Direction::NorthWest
    }
}

fn shape_of_tile(c: u8) -> (r: Direction)
    ensures
        r == tile_direction(c),
{
    if c == 45 {
        Direction::EastWest
    } else if c == 55 {
        Direction::SouthWest
    } else if c == 70 {
        Direction::SouthEast
    } else if c == 76 {
        Direction::NorthEast
    } else if c == 124 {
        Direction::SouthNorth
    } else {
        Direction::NorthWest
    }
}

/// A maze whose loop has been walked.
#[derive(Debug)]
pub struct Maze {
    lines: Vec<Vec<u8>>,
    sx: usize,
    sy: usize,
    start_shape: Direction,
    steps: u128,
    on_loop: Vec<Vec<bool>>,
}

impl Maze {
    /// The rows of tiles.
    pub closed spec fn spec_lines(&self) -> Seq<Seq<u8>> {
        self.lines@.map_values(|v: Vec<u8>| v@)
    }

    /// The start.
    pub closed spec fn spec_start(&self) -> Position {
        (self.sx as int, self.sy as int)
    }

    /// The moves of the loop.
    pub closed spec fn spec_steps(&self) -> nat {
        self.steps as nat
    }

    /// The recorded start shape and loop tiles agree with the rows.
    pub closed spec fn wf(&self) -> bool {
        let lv = self.spec_lines();
        let st = self.spec_start();
        &&& self.start_shape == start_direction(start_gates(lv, st), st)
        &&& self.on_loop@.len() == self.lines@.len()
        &&& forall|y: int|
            0 <= y < self.lines@.len() ==> (#[trigger] self.on_loop@[y])@.len()
                == self.lines@[y]@.len()
        &&& forall|y: int, x: int|
            0 <= y < self.lines@.len() && 0 <= x < self.lines@[y]@.len() ==> #[trigger] self.on_loop@[y]@[x]
                == on_loop(lv, st, self.spec_steps(), x, y)
    }

    /// Reads the maze of `input` and walks the loop through its start.
    pub fn parse(input: &str) -> (r: Result<Maze, PuzzleError>)
        ensures
            match maze_walk(lines_of(input.spec_bytes())) {
                Err(e) => r matches Err(f) && f == e,
                Ok((s, k)) => r matches Ok(m) && m.wf() && m.spec_lines() == lines_of(
                    input.spec_bytes(),
                ) && m.spec_start() == s && m.spec_steps() == k,
            },
    {
        let lines = split_lines(input.as_bytes());
        let ghost lv = lines_of(input.spec_bytes());
        if lines.len() == 0 {
            return Err(PuzzleError::MissingField);
        }
        if !all_tiles_ok(&lines) {
            return Err(PuzzleError::InvalidTile);
        }
        let (sx, sy) = find_start(&lines);
        let g = match start_neighbours(&lines, sx, sy) {
            Ok(g) => g,
            Err(e) => {
                return Err(e);
            },
        };
        if tile_at(&lines, sx as i128, sy as i128).is_none() {
            return Err(PuzzleError::RaggedMap);
        }
        let (steps, marks) = match walk_maze(&lines, sx, sy, g) {
            Ok(w) => w,
            Err(e) => {
                return Err(e);
            },
        };
        let shape = start_shape(g, sx, sy);
        Ok(Maze { lines, sx, sy, start_shape: shape, steps, on_loop: marks })
    }

    /// The number of tiles that the loop encloses.
    pub fn count_enclosed(&self) -> (r: Result<u32, PuzzleError>)
        requires
            self.wf(),
        ensures
            enclosed(self.spec_lines(), self.spec_start(), self.spec_steps(), self.spec_lines().len() as int)
                > i32::MAX ==> r == Err::<u32, PuzzleError>(PuzzleError::Overflow),
            enclosed(self.spec_lines(), self.spec_start(), self.spec_steps(), self.spec_lines().len() as int)
                <= i32::MAX ==> r == Ok::<u32, PuzzleError>(
                enclosed(
                    self.spec_lines(),
                    self.spec_start(),
                    self.spec_steps(),
                    self.spec_lines().len() as int,
                ) as u32,
            ),
    {
        let ghost lv = self.spec_lines();
        let ghost st = self.spec_start();
        let ghost k = self.spec_steps();
        let n = self.lines.len();
        let mut total: u128 = 0;
        let mut y: usize = 0;
        while y < n
            invariant
                self.wf(),
                lv == self.spec_lines(),
                st == self.spec_start(),
                k == self.spec_steps(),
                n == self.lines@.len(),
                y <= n,
                total == enclosed(lv, st, k, y as int),
                total <= y * (usize::MAX as u128),
            decreases n - y,
        {
            let row = &self.lines[y];
            assert(row@ == lv[y as int]);
            let marks = &self.on_loop[y];
            let w = row.len();
            let mut cross: u128 = 0;
            let mut inside: u128 = 0;
            let mut x: usize = 0;
            while x < w
                invariant
                    self.wf(),
                    lv == self.spec_lines(),
                    st == self.spec_start(),
                    k == self.spec_steps(),
                    n == self.lines@.len(),
                    y < n,
                    row@ == lv[y as int],
                    w == row@.len(),
                    marks@ == self.on_loop@[y as int]@,
                    marks@.len() == w,
                    x <= w,
                    cross == crossings(lv, st, k, y as int, x as int),
                    cross <= x,
                    inside == row_enclosed(lv, st, k, y as int, x as int),
                    inside <= x,
                decreases w - x,
            {
                assert(marks@[x as int] == on_loop(lv, st, k, x as int, y as int));
                let here = marks[x];
                let edge = x == 0 || x == w - 1 || y == 0 || y == n - 1;
                if !here && !edge && cross % 2 == 1 {
                    inside = inside + 1;
                }
                if here {
                    let shape = if x == self.sx && y == self.sy {
                        self.start_shape
                    } else {
                        shape_of_tile(row[x])
                    };
                    if shape == Direction::SouthNorth || shape == Direction::SouthWest || shape
                        == Direction::SouthEast {
                        cross = cross + 1;
                    }
                }
                x = x + 1;
            }
            assert(inside <= usize::MAX);
            assert((y + 1) * (usize::MAX as u128) == y * (usize::MAX as u128) + usize::MAX as u128)
                by (nonlinear_arith);
            assert((y + 1) * (usize::MAX as u128) <= (usize::MAX as u128) * (usize::MAX as u128))
                by (nonlinear_arith)
                requires
                    y < usize::MAX,
            ;
            total = total + inside;
            y = y + 1;
        }
        if total > i32::MAX as u128 {
            return Err(PuzzleError::Overflow);
        }
        Ok(total as u32)
    }
}

/// Half the number of tiles of the loop through the start of the maze of
/// `input`, the start counted at both ends: the distance to the farthest
/// tile.
pub fn solve_part_1(input: &str) -> (r: Result<u32, PuzzleError>)
    ensures
        r == farthest_answer(lines_of(input.spec_bytes())),
{
    let maze = match Maze::parse(input) {
        Ok(m) => m,
        Err(e) => {
            return Err(e);
        },
    };
    if maze.steps > 2 * (u32::MAX as u128) {
        return Err(PuzzleError::Overflow);
    }
    let half = (maze.steps + 1) / 2;
    Ok(half as u32)
}

/// The number of tiles that the loop through the start of the maze of
/// `input` encloses, edge tiles excepted.
pub fn solve_part_2(input: &str) -> (r: Result<u32, PuzzleError>)
    ensures
        r == enclosed_answer(lines_of(input.spec_bytes())),
{
    let maze = match Maze::parse(input) {
        Ok(m) => m,
        Err(e) => {
            return Err(e);
        },
    };
    maze.count_enclosed()
}

} // verus!
