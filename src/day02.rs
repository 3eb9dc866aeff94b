//! Day 02: Cube Conundrum. Each line is a game, `Game <id>: ` followed by
//! draws of coloured cubes, separated by `,` and `;`.
use vstd::prelude::*;
use vstd::string::StringSliceAdditionalSpecFns;

use crate::text::{
    lines_of, nat_of, parse_u64, remove_bytes, remove_word, split_either, split_lines,
    split_pieces, split_words, trim, trim_bytes, words, PuzzleError,
};

verus! {

/// The largest number of cubes of each colour that a game showed.
#[derive(Clone, Copy, Debug, PartialEq, Eq, Structural)]
pub struct Cube {
    pub game: u32,
    pub red: u32,
    pub green: u32,
    pub blue: u32,
}

/// ASCII upper case letters turned to lower case.
pub open spec fn lower(b: u8) -> u8 {
    if 65 <= b && b <= 90 {
        (b + 32) as u8
    } else {
        b
    }
}

/// `token` spells `word`, ignoring ASCII case.
pub open spec fn names(token: Seq<u8>, word: Seq<u8>) -> bool {
    token.len() == word.len() && forall|i: int| 0 <= i < word.len() ==> lower(token[i]) == word[i]
}

pub open spec fn red_word() -> Seq<u8> {
    seq![114u8, 101, 100]
}

pub open spec fn green_word() -> Seq<u8> {
    seq![103u8, 114, 101, 101, 110]
}

pub open spec fn blue_word() -> Seq<u8> {
    seq![98u8, 108, 117, 101]
}

pub open spec fn game_word() -> Seq<u8> {
    seq![71u8, 97, 109, 101]
}

pub open spec fn max(a: u32, b: u32) -> u32 {
    if a >= b {
        a
    } else {
        b
    }
}

/// What one draw, `<count> <colour>`, does to the maxima.
pub open spec fn apply_draw(c: Cube, draw: Seq<u8>) -> Result<Cube, PuzzleError> {
    let t = words(draw);
    if t.len() < 1 {
        Err(PuzzleError::MissingField)
    } else {
        match nat_of(t[0]) {
            None => Err(PuzzleError::InvalidNumber),
            Some(n) => if n > u32::MAX {
                Err(PuzzleError::InvalidNumber)
            } else if t.len() < 2 {
                Err(PuzzleError::MissingField)
            } else if names(t[1], red_word()) {
                Ok(Cube { red: max(c.red, n as u32), ..c })
            } else if names(t[1], green_word()) {
                Ok(Cube { green: max(c.green, n as u32), ..c })
            } else if names(t[1], blue_word()) {
                Ok(Cube { blue: max(c.blue, n as u32), ..c })
            } else {
                Err(PuzzleError::UnknownColor)
            },
        }
    }
}

/// The maxima after the draws, in order, or the first failure.
pub open spec fn apply_draws(c: Cube, draws: Seq<Seq<u8>>) -> Result<Cube, PuzzleError>
    decreases draws.len(),
{
    if draws.len() == 0 {
        Ok(c)
    } else {
        match apply_draws(c, draws.drop_last()) {
            Err(e) => Err(e),
            Ok(d) => apply_draw(d, draws.last()),
        }
    }
}

/// The game of a line: its number, from the text before the first `:`
/// with every `Game` and the surrounding spaces removed, and the largest
/// count of each colour in the draws after the last `:`.
pub open spec fn game_of(line: Seq<u8>) -> Result<Cube, PuzzleError> {
    let parts = split_either(line, 58, 58);
    match nat_of(trim(remove_word(parts[0], game_word()))) {
        None => Err(PuzzleError::InvalidNumber),
        Some(g) => if g > u32::MAX {
            Err(PuzzleError::InvalidNumber)
        } else if parts.len() < 2 {
            Err(PuzzleError::MissingField)
        } else {
            apply_draws(
                Cube { game: g as u32, red: 0, green: 0, blue: 0 },
                split_either(parts.last(), 59, 44),
            )
        },
    }
}

fn word_bytes(k: u8) -> (r: Vec<u8>)
    requires
        k < 4,
    ensures
        k == 0 ==> r@ == red_word(),
        k == 1 ==> r@ == green_word(),
        k == 2 ==> r@ == blue_word(),
        k == 3 ==> r@ == game_word(),
{
    let r: Vec<u8> = if k == 0 {
        vec![114u8, 101, 100]
    } else if k == 1 {
        vec![103u8, 114, 101, 101, 110]
    } else if k == 2 {
        vec![98u8, 108, 117, 101]
    } else {
        vec![71u8, 97, 109, 101]
    };
    assert(k == 0 ==> r@ =~= red_word());
    assert(k == 1 ==> r@ =~= green_word());
    assert(k == 2 ==> r@ =~= blue_word());
    assert(k == 3 ==> r@ =~= game_word());
    r
}

/// Whether `token` spells `word`, ignoring ASCII case.
fn spells(token: &Vec<u8>, word: &Vec<u8>) -> (r: bool)
    ensures
        r == names(token@, word@),
{
    if token.len() != word.len() {
        return false;
    }
    let mut i: usize = 0;
    while i < word.len()
        invariant
            token@.len() == word@.len(),
            i <= word@.len(),
            forall|j: int| 0 <= j < i ==> lower(token@[j]) == word@[j],
        decreases word@.len() - i,
    {
        let b = token[i];
        let l = if 65 <= b && b <= 90 {
            b + 32
        } else {
            b
        };
        if l != word[i] {
            return false;
        }
        i = i + 1;
    }
    true
}

fn apply_draw_exec(c: Cube, draw: &Vec<u8>) -> (r: Result<Cube, PuzzleError>)
    ensures
        r == apply_draw(c, draw@),
{
    let t = split_words(draw);
    let ghost tv = t@.map_values(|v: Vec<u8>| v@);
    if t.len() < 1 {
        return Err(PuzzleError::MissingField);
    }
    assert(tv[0] == t@[0]@);
    let n = match parse_u64(&t[0]) {
        Some(n) => n,
        None => {
            return Err(PuzzleError::InvalidNumber);
        },
    };
    if n > u32::MAX as u64 {
        return Err(PuzzleError::InvalidNumber);
    }
    let n = n as u32;
    if t.len() < 2 {
        return Err(PuzzleError::MissingField);
    }
    assert(tv[1] == t@[1]@);
    if spells(&t[1], &word_bytes(0)) {
        Ok(Cube { red: if c.red >= n { c.red } else { n }, ..c })
    } else if spells(&t[1], &word_bytes(1)) {
        Ok(Cube { green: if c.green >= n { c.green } else { n }, ..c })
    } else if spells(&t[1], &word_bytes(2)) {
        Ok(Cube { blue: if c.blue >= n { c.blue } else { n }, ..c })
    } else {
        Err(PuzzleError::UnknownColor)
    }
}

proof fn lemma_draws_stay_err(c: Cube, draws: Seq<Seq<u8>>, k: int)
    requires
        0 <= k <= draws.len(),
        apply_draws(c, draws.subrange(0, k)) is Err,
    ensures
        apply_draws(c, draws) == apply_draws(c, draws.subrange(0, k)),
    decreases draws.len() - k,
{
    if k == draws.len() {
        assert(draws.subrange(0, k) =~= draws);
    } else {
        assert(draws.subrange(0, k + 1).drop_last() =~= draws.subrange(0, k));
        lemma_draws_stay_err(c, draws, k + 1);
    }
}

/// Reads the game of a line and the largest count of each colour in it.
pub fn max_cubes_per_color(line: &Vec<u8>) -> (r: Result<Cube, PuzzleError>)
    ensures
        r == game_of(line@),
{
    let parts = split_pieces(line, 58, 58);
    let ghost pv = parts@.map_values(|v: Vec<u8>| v@);
    assert(pv[0] == parts@[0]@);
    let name = remove_bytes(&parts[0], &word_bytes(3));
    let name = trim_bytes(&name);
    let g = match parse_u64(&name) {
        Some(g) => g,
        None => {
            return Err(PuzzleError::InvalidNumber);
        },
    };
    if g > u32::MAX as u64 {
        return Err(PuzzleError::InvalidNumber);
    }
    if parts.len() < 2 {
        return Err(PuzzleError::MissingField);
    }
    let last = parts.len() - 1;
    assert(pv.last() == parts@[last as int]@);
    let draws = split_pieces(&parts[last], 59, 44);
    let ghost dv = draws@.map_values(|v: Vec<u8>| v@);
    let ghost start = Cube { game: g as u32, red: 0, green: 0, blue: 0 };
    let mut c = Cube { game: g as u32, red: 0, green: 0, blue: 0 };
    let mut i: usize = 0;
    assert(dv.subrange(0, 0) =~= Seq::<Seq<u8>>::empty());
    while i < draws.len()
        invariant
            i <= draws@.len(),
            dv == draws@.map_values(|v: Vec<u8>| v@),
            dv == split_either(pv.last(), 59, 44),
            game_of(line@) == apply_draws(start, dv),
            apply_draws(start, dv.subrange(0, i as int)) == Ok::<Cube, PuzzleError>(c),
        decreases draws@.len() - i,
    {
        proof {
            let next = dv.subrange(0, i as int + 1);
            assert(next.drop_last() =~= dv.subrange(0, i as int));
            assert(next.last() == draws@[i as int]@);
        }
        match apply_draw_exec(c, &draws[i]) {
            Ok(d) => {
                c = d;
            },
            Err(e) => {
                proof {
                    lemma_draws_stay_err(start, dv, i as int + 1);
                }
                return Err(e);
            },
        }
        i = i + 1;
    }
    assert(dv.subrange(0, i as int) =~= dv);
    Ok(c)
}


/// A game that 12 red, 13 green and 14 blue cubes could have given.
pub open spec fn possible(c: Cube) -> bool {
    c.red <= 12 && c.green <= 13 && c.blue <= 14
}

/// The power of a game's cube set, red times green times blue, multiplied
/// in that order; `Overflow` where a product leaves `u32`.
pub open spec fn power(c: Cube) -> Result<nat, PuzzleError> {
    if c.red as nat * c.green as nat > u32::MAX {
        Err(PuzzleError::Overflow)
    } else if c.red as nat * c.green as nat * c.blue as nat > u32::MAX {
        Err(PuzzleError::Overflow)
    } else {
        Ok(c.red as nat * c.green as nat * c.blue as nat)
    }
}

/// What a non-empty line adds: the game's id if the game is possible, or
/// the power of its cube set.
pub open spec fn line_score(c: Cube, by_power: bool) -> Result<nat, PuzzleError> {
    if by_power {
        power(c)
    } else if possible(c) {
        Ok(c.game as nat)
    } else {
        Ok(0)
    }
}

/// The sum of the scores of the non-empty lines, or the first failure.
pub open spec fn games_total(lines: Seq<Seq<u8>>, by_power: bool) -> Result<nat, PuzzleError>
    decreases lines.len(),
{
    if lines.len() == 0 {
        Ok(0)
    } else {
        match games_total(lines.drop_last(), by_power) {
            Err(e) => Err(e),
            Ok(t) => if lines.last().len() == 0 {
                Ok(t)
            } else {
                match game_of(lines.last()) {
                    Err(e) => Err(e),
                    Ok(c) => match line_score(c, by_power) {
                        Err(e) => Err(e),
                        Ok(v) => Ok(t + v),
                    },
                }
            },
        }
    }
}

/// A total as a `u32` answer.
pub open spec fn games_answer(t: Result<nat, PuzzleError>) -> Result<u32, PuzzleError> {
    match t {
        Err(e) => Err(e),
        Ok(v) => if v <= u32::MAX {
            Ok(v as u32)
        } else {
            Err(PuzzleError::Overflow)
        },
    }
}

fn line_score_exec(c: Cube, by_power: bool) -> (r: Result<u32, PuzzleError>)
    ensures
        match line_score(c, by_power) {
            Ok(v) => r == Ok::<u32, PuzzleError>(v as u32) && v <= u32::MAX,
            Err(e) => r == Err::<u32, PuzzleError>(e),
        },
{
    if by_power {
        let rg = match c.red.checked_mul(c.green) {
            Some(x) => x,
            None => {
                return Err(PuzzleError::Overflow);
            },
        };
        match rg.checked_mul(c.blue) {
            Some(x) => Ok(x),
            None => Err(PuzzleError::Overflow),
        }
    } else if c.red <= 12 && c.green <= 13 && c.blue <= 14 {
        Ok(c.game)
    } else {
        Ok(0)
    }
}

proof fn lemma_games_stay_err(lines: Seq<Seq<u8>>, by_power: bool, k: int)
    requires
        0 <= k <= lines.len(),
        games_total(lines.subrange(0, k), by_power) is Err,
    ensures
        games_total(lines, by_power) == games_total(lines.subrange(0, k), by_power),
    decreases lines.len() - k,
{
    if k == lines.len() {
        assert(lines.subrange(0, k) =~= lines);
    } else {
        assert(lines.subrange(0, k + 1).drop_last() =~= lines.subrange(0, k));
        lemma_games_stay_err(lines, by_power, k + 1);
    }
}

fn total_of_games(input: &str, by_power: bool) -> (r: Result<u32, PuzzleError>)
    ensures
        r == games_answer(games_total(lines_of(input.spec_bytes()), by_power)),
{
    let lines = split_lines(input.as_bytes());
    let ghost ls = lines_of(input.spec_bytes());
    let mut total: u128 = 0;
    let mut i: usize = 0;
    assert(ls.subrange(0, 0) =~= Seq::<Seq<u8>>::empty());
    while i < lines.len()
        invariant
            ls == lines_of(input.spec_bytes()),
            lines@.map_values(|v: Vec<u8>| v@) == ls,
            i <= lines@.len(),
            games_total(ls.subrange(0, i as int), by_power) == Ok::<nat, PuzzleError>(
                total as nat,
            ),
            total <= i * (u32::MAX as u128),
        decreases lines@.len() - i,
    {
        proof {
            let next = ls.subrange(0, i as int + 1);
            assert(next.drop_last() =~= ls.subrange(0, i as int));
            assert(next.last() == lines@[i as int]@);
        }
        if lines[i].len() > 0 {
            let c = match max_cubes_per_color(&lines[i]) {
                Ok(c) => c,
                Err(e) => {
                    proof {
                        lemma_games_stay_err(ls, by_power, i as int + 1);
                    }
                    return Err(e);
                },
            };
            match line_score_exec(c, by_power) {
                Ok(v) => {
                    total = total + v as u128;
                },
                Err(e) => {
                    proof {
                        lemma_games_stay_err(ls, by_power, i as int + 1);
                    }
                    return Err(e);
                },
            }
        }
        i = i + 1;
    }
    assert(ls.subrange(0, i as int) =~= ls);
    if total > u32::MAX as u128 {
        Err(PuzzleError::Overflow)
    } else {
        Ok(total as u32)
    }
}

/// The sum of the ids of the games of `input`, one per non-empty line, that
/// 12 red, 13 green and 14 blue cubes could have given.
pub fn solve_part_1(input: &str) -> (r: Result<u32, PuzzleError>)
    ensures
        r == games_answer(games_total(lines_of(input.spec_bytes()), false)),
{
    total_of_games(input, false)
}

/// The sum of the powers of the least cube sets of the games of `input`,
/// one per non-empty line.
pub fn solve_part_2(input: &str) -> (r: Result<u32, PuzzleError>)
    ensures
        r == games_answer(games_total(lines_of(input.spec_bytes()), true)),
{
    total_of_games(input, true)
}

} // verus!
