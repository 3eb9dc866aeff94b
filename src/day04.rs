//! Day 04: Scratchcards. Each line is a card, `Card <id>: ` followed by the
//! winning numbers, `|`, and the numbers you have.
use vstd::prelude::*;
use vstd::string::StringSliceAdditionalSpecFns;

use crate::text::{
    lines_of, nat_of, parse_u64, remove_bytes, remove_word, split_either, split_lines,
    split_pieces, split_words, trim, trim_bytes, words, PuzzleError,
};

verus! {

/// A card: its id, and how many of your numbers are winning numbers.
#[derive(Clone, Copy, Debug, PartialEq, Eq, Structural)]
pub struct ScratchCard {
    pub card: u32,
    pub matches: u64,
}

pub open spec fn card_word() -> Seq<u8> {
    seq![67u8, 97, 114, 100]
}

/// The values of the tokens, where each is a number that fits `u32`.
pub open spec fn numbers_u32(tokens: Seq<Seq<u8>>) -> Option<Seq<u32>>
    decreases tokens.len(),
{
    if tokens.len() == 0 {
        Some(Seq::<u32>::empty())
    } else {
        match numbers_u32(tokens.drop_last()) {
            None => None,
            Some(ns) => match nat_of(tokens.last()) {
                Some(v) => if v <= u32::MAX {
                    Some(ns.push(v as u32))
                } else {
                    None
                },
                None => None,
            },
        }
    }
}

/// How many of `yours` are among `winning`, counting repeats in `yours`.
pub open spec fn match_count(yours: Seq<u32>, winning: Seq<u32>) -> nat
    decreases yours.len(),
{
    if yours.len() == 0 {
        0
    } else {
        match_count(yours.drop_last(), winning) + if winning.contains(yours.last()) {
            1nat
        } else {
            0nat
        }
    }
}

/// The card of a line: the id from the text before the first `:`, with
/// every `Card` and the surrounding spaces removed; after the last `:`, the
/// winning numbers before the first `|` and your numbers after it.
pub open spec fn card_of(line: Seq<u8>) -> Result<ScratchCard, PuzzleError> {
    let parts = split_either(line, 58, 58);
    match nat_of(trim(remove_word(parts[0], card_word()))) {
        None => Err(PuzzleError::InvalidNumber),
        Some(id) => if id > u32::MAX {
            Err(PuzzleError::InvalidNumber)
        } else if parts.len() < 2 {
            Err(PuzzleError::MissingField)
        } else {
            let halves = split_either(parts.last(), 124, 124);
            match numbers_u32(words(halves[0])) {
                None => Err(PuzzleError::InvalidNumber),
                Some(winning) => if halves.len() < 2 {
                    Err(PuzzleError::MissingField)
                } else {
                    match numbers_u32(words(halves[1])) {
                        None => Err(PuzzleError::InvalidNumber),
                        Some(yours) => Ok(
                            ScratchCard {
                                card: id as u32,
                                matches: match_count(yours, winning) as u64,
                            },
                        ),
                    }
                },
            }
        },
    }
}

proof fn lemma_numbers_u32_stay_none(tokens: Seq<Seq<u8>>, k: int)
    requires
        0 <= k <= tokens.len(),
        numbers_u32(tokens.subrange(0, k)) is None,
    ensures
        numbers_u32(tokens) is None,
    decreases tokens.len() - k,
{
    if k == tokens.len() {
        assert(tokens.subrange(0, k) =~= tokens);
    } else {
        assert(tokens.subrange(0, k + 1).drop_last() =~= tokens.subrange(0, k));
        lemma_numbers_u32_stay_none(tokens, k + 1);
    }
}

/// The numbers of a piece of a card, where each fits `u32`.
fn parse_numbers_u32(s: &Vec<u8>) -> (r: Option<Vec<u32>>)
    ensures
        numbers_u32(words(s@)) is None ==> r is None,
        numbers_u32(words(s@)) matches Some(ns) ==> (r matches Some(v) && v@ == ns),
{
    let tokens = split_words(s);
    let ghost ts = tokens@.map_values(|v: Vec<u8>| v@);
    let mut out: Vec<u32> = Vec::new();
    let mut i: usize = 0;
    assert(ts.subrange(0, 0) =~= Seq::<Seq<u8>>::empty());
    while i < tokens.len()
        invariant
            ts == tokens@.map_values(|v: Vec<u8>| v@),
            ts == words(s@),
            i <= tokens@.len(),
            numbers_u32(ts.subrange(0, i as int)) == Some(out@),
        decreases tokens@.len() - i,
    {
        let ghost next = ts.subrange(0, i as int + 1);
        proof {
            assert(next.drop_last() =~= ts.subrange(0, i as int));
            assert(next.last() == tokens@[i as int]@);
        }
        match parse_u64(&tokens[i]) {
            Some(v) => {
                if v > u32::MAX as u64 {
                    proof {
                        lemma_numbers_u32_stay_none(ts, i as int + 1);
                    }
                    return None;
                }
                out.push(v as u32);
            },
            None => {
                proof {
                    lemma_numbers_u32_stay_none(ts, i as int + 1);
                }
                return None;
            },
        }
        i = i + 1;
    }
    assert(ts.subrange(0, i as int) =~= ts);
    Some(out)
}

/// Whether `winning` holds `x`.
fn holds(winning: &Vec<u32>, x: u32) -> (r: bool)
    ensures
        r == winning@.contains(x),
{
    let mut i: usize = 0;
    while i < winning.len()
        invariant
            i <= winning@.len(),
            forall|j: int| 0 <= j < i ==> winning@[j] != x,
        decreases winning@.len() - i,
    {
        if winning[i] == x {
            assert(winning@[i as int] == x);
            return true;
        }
        i = i + 1;
    }
    false
}

fn count_matches(yours: &Vec<u32>, winning: &Vec<u32>) -> (r: u64)
    ensures
        r == match_count(yours@, winning@),
{
    let mut count: u64 = 0;
    let mut i: usize = 0;
    assert(yours@.subrange(0, 0) =~= Seq::<u32>::empty());
    while i < yours.len()
        invariant
            i <= yours@.len(),
            count == match_count(yours@.subrange(0, i as int), winning@),
            count <= i,
        decreases yours@.len() - i,
    {
        proof {
            let next = yours@.subrange(0, i as int + 1);
            assert(next.drop_last() =~= yours@.subrange(0, i as int));
        }
        if holds(winning, yours[i]) {
            count = count + 1;
        }
        i = i + 1;
    }
    assert(yours@.subrange(0, i as int) =~= yours@);
    count
}

fn card_word_bytes() -> (r: Vec<u8>)
    ensures
        r@ == card_word(),
{
    let r: Vec<u8> = vec![67u8, 97, 114, 100];
    assert(r@ =~= card_word());
    r
}

/// Reads a card and counts its matches.
pub fn parse_scratch_card(line: &Vec<u8>) -> (r: Result<ScratchCard, PuzzleError>)
    ensures
        r == card_of(line@),
{
    let parts = split_pieces(line, 58, 58);
    let ghost pv = parts@.map_values(|v: Vec<u8>| v@);
    assert(pv[0] == parts@[0]@);
    let name = remove_bytes(&parts[0], &card_word_bytes());
    let name = trim_bytes(&name);
    let id = match parse_u64(&name) {
        Some(g) => g,
        None => {
            return Err(PuzzleError::InvalidNumber);
        },
    };
    if id > u32::MAX as u64 {
        return Err(PuzzleError::InvalidNumber);
    }
    if parts.len() < 2 {
        return Err(PuzzleError::MissingField);
    }
    let last = parts.len() - 1;
    assert(pv.last() == parts@[last as int]@);
    let halves = split_pieces(&parts[last], 124, 124);
    let ghost hv = halves@.map_values(|v: Vec<u8>| v@);
    assert(hv[0] == halves@[0]@);
    let winning = match parse_numbers_u32(&halves[0]) {
        Some(w) => w,
        None => {
            return Err(PuzzleError::InvalidNumber);
        },
    };
    if halves.len() < 2 {
        return Err(PuzzleError::MissingField);
    }
    assert(hv[1] == halves@[1]@);
    let yours = match parse_numbers_u32(&halves[1]) {
        Some(y) => y,
        None => {
            return Err(PuzzleError::InvalidNumber);
        },
    };
    let m = count_matches(&yours, &winning);
    Ok(ScratchCard { card: id as u32, matches: m })
}


/// The points of a card with `m` matches: one for the first match, doubled
/// for each further one.
pub open spec fn card_points(m: nat) -> nat
    decreases m,
{
    if m == 0 {
        0
    } else if m == 1 {
        1
    } else {
        2 * card_points((m - 1) as nat)
    }
}

proof fn lemma_points_monotone(a: nat, b: nat)
    requires
        a <= b,
    ensures
        card_points(a) <= card_points(b),
    decreases b,
{
    if a < b {
        lemma_points_monotone(a, (b - 1) as nat);
    }
}

/// The sum of the points of the cards on the non-empty lines, or the first
/// failure; a card worth more than `u32::MAX` points is `Overflow`.
pub open spec fn points_total(lines: Seq<Seq<u8>>) -> Result<nat, PuzzleError>
    decreases lines.len(),
{
    if lines.len() == 0 {
        Ok(0)
    } else {
        match points_total(lines.drop_last()) {
            Err(e) => Err(e),
            Ok(t) => if lines.last().len() == 0 {
                Ok(t)
            } else {
                match card_of(lines.last()) {
                    Err(e) => Err(e),
                    Ok(c) => if card_points(c.matches as nat) > u32::MAX {
                        Err(PuzzleError::Overflow)
                    } else {
                        Ok(t + card_points(c.matches as nat))
                    },
                }
            },
        }
    }
}

/// A total as a `u32` answer.
pub open spec fn cards_answer(t: Result<nat, PuzzleError>) -> Result<u32, PuzzleError> {
    match t {
        Err(e) => Err(e),
        Ok(v) => if v <= u32::MAX {
            Ok(v as u32)
        } else {
            Err(PuzzleError::Overflow)
        },
    }
}

/// The points of a card with `m` matches, where they fit `u32`.
fn points_of(m: u64) -> (r: Option<u32>)
    ensures
        r is Some <==> card_points(m as nat) <= u32::MAX,
        r matches Some(p) ==> p == card_points(m as nat),
{
    let mut points: u32 = 0;
    let mut i: u64 = 0;
    while i < m
        invariant
            i <= m,
            points == card_points(i as nat),
        decreases m - i,
    {
        if i == 0 {
            points = 1;
        } else {
            match points.checked_mul(2) {
                Some(p) => {
                    points = p;
                },
                None => {
                    proof {
                        lemma_points_monotone((i + 1) as nat, m as nat);
                    }
                    return None;
                },
            }
        }
        i = i + 1;
    }
    Some(points)
}

proof fn lemma_points_stay_err(lines: Seq<Seq<u8>>, k: int)
    requires
        0 <= k <= lines.len(),
        points_total(lines.subrange(0, k)) is Err,
    ensures
        points_total(lines) == points_total(lines.subrange(0, k)),
    decreases lines.len() - k,
{
    if k == lines.len() {
        assert(lines.subrange(0, k) =~= lines);
    } else {
        assert(lines.subrange(0, k + 1).drop_last() =~= lines.subrange(0, k));
        lemma_points_stay_err(lines, k + 1);
    }
}

/// The sum of the points of the cards of `input`, one per non-empty line.
pub fn solve_part_1(input: &str) -> (r: Result<u32, PuzzleError>)
    ensures
        r == cards_answer(points_total(lines_of(input.spec_bytes()))),
{
    let lines = split_lines(input.as_bytes());
    let ghost ls = lines_of(input.spec_bytes());
    let mut total: u128 = 0;
    let mut i: usize = 0;
    assert(ls.subrange(0, 0) =~= Seq::<Seq<u8>>::empty());
    while i < lines.len()
        invariant
            ls == lines_of(input.spec_bytes()),
            lines@.map_values(|v: Vec<u8>| v@) == ls,
            i <= lines@.len(),
            points_total(ls.subrange(0, i as int)) == Ok::<nat, PuzzleError>(total as nat),
            total <= i * (u32::MAX as u128),
        decreases lines@.len() - i,
    {
        proof {
            let next = ls.subrange(0, i as int + 1);
            assert(next.drop_last() =~= ls.subrange(0, i as int));
            assert(next.last() == lines@[i as int]@);
        }
        if lines[i].len() > 0 {
            let c = match parse_scratch_card(&lines[i]) {
                Ok(c) => c,
                Err(e) => {
                    proof {
                        lemma_points_stay_err(ls, i as int + 1);
                    }
                    return Err(e);
                },
            };
            match points_of(c.matches) {
                Some(p) => {
                    total = total + p as u128;
                },
                None => {
                    proof {
                        lemma_points_stay_err(ls, i as int + 1);
                    }
                    return Err(PuzzleError::Overflow);
                },
            }
        }
        i = i + 1;
    }
    assert(ls.subrange(0, i as int) =~= ls);
    if total > u32::MAX as u128 {
        Err(PuzzleError::Overflow)
    } else {
        Ok(total as u32)
    }
}


/// The cards of the non-empty lines, in order, or the first failure.
pub open spec fn cards_in(lines: Seq<Seq<u8>>) -> Result<Seq<ScratchCard>, PuzzleError>
    decreases lines.len(),
{
    if lines.len() == 0 {
        Ok(Seq::<ScratchCard>::empty())
    } else {
        match cards_in(lines.drop_last()) {
            Err(e) => Err(e),
            Ok(cs) => if lines.last().len() == 0 {
                Ok(cs)
            } else {
                match card_of(lines.last()) {
                    Err(e) => Err(e),
                    Ok(c) => Ok(cs.push(c)),
                }
            },
        }
    }
}

/// The matches of the card with id `id`; where ids repeat, the last card
/// counts.
pub open spec fn lookup(cards: Seq<ScratchCard>, id: int) -> Option<u64>
    decreases cards.len(),
{
    if cards.len() == 0 {
        None
    } else if cards.last().card == id {
        Some(cards.last().matches)
    } else {
        lookup(cards.drop_last(), id)
    }
}

/// The copies that card `id`, with `m` matches, wins from its `num`-th
/// match on, added to `acc`: each match `num` wins one copy of card
/// `id + num` and all that copy wins in turn. A card that is not there is
/// `MissingField`; a count or an id beyond `u32::MAX` is `Overflow`.
pub open spec fn won_from(
    cards: Seq<ScratchCard>,
    id: int,
    m: int,
    num: int,
    acc: int,
) -> Result<int, PuzzleError>
    decreases u32::MAX - id, m + 1 - num,
{
    if id < 0 || id > u32::MAX || num < 1 || num > m {
        Ok(acc)
    } else if acc + 1 > u32::MAX {
        Err(PuzzleError::Overflow)
    } else if id + num > u32::MAX {
        Err(PuzzleError::Overflow)
    } else {
        match lookup(cards, id + num) {
            None => Err(PuzzleError::MissingField),
            Some(m2) => match won_from(cards, id + num, m2 as int, 1, 0) {
                Err(e) => Err(e),
                Ok(w) => if acc + 1 + w > u32::MAX {
                    Err(PuzzleError::Overflow)
                } else {
                    won_from(cards, id, m, num + 1, acc + 1 + w)
                },
            },
        }
    }
}

/// The matches of the card with id `id`, the last one where ids repeat.
fn lookup_card(cards: &Vec<ScratchCard>, id: u32) -> (r: Option<u64>)
    ensures
        r == lookup(cards@, id as int),
{
    let mut i: usize = cards.len();
    assert(cards@.subrange(0, i as int) =~= cards@);
    while i > 0
        invariant
            i <= cards@.len(),
            lookup(cards@, id as int) == lookup(cards@.subrange(0, i as int), id as int),
        decreases i,
    {
        let c = cards[i - 1];
        assert(cards@.subrange(0, i as int).drop_last() =~= cards@.subrange(0, i - 1));
        if c.card == id {
            return Some(c.matches);
        }
        i = i - 1;
    }
    None
}

/// Counts the copies that card `id`, with `m` matches, wins from its
/// `num`-th match on, added to `acc`.
fn get_won_cards(cards: &Vec<ScratchCard>, id: u32, m: u64, num: u64, acc: u32) -> (r: Result<
    u32,
    PuzzleError,
>)
    requires
        num >= 1,
    ensures
        match won_from(cards@, id as int, m as int, num as int, acc as int) {
            Ok(v) => r == Ok::<u32, PuzzleError>(v as u32) && 0 <= v <= u32::MAX,
            Err(e) => r == Err::<u32, PuzzleError>(e),
        },
    decreases u32::MAX - id, m + 1 - num,
{
    if num > m {
        return Ok(acc);
    }
    if acc == u32::MAX {
        return Err(PuzzleError::Overflow);
    }
    if num > (u32::MAX - id) as u64 {
        return Err(PuzzleError::Overflow);
    }
    let next = id + num as u32;
    let m2 = match lookup_card(cards, next) {
        Some(m2) => m2,
        None => {
            return Err(PuzzleError::MissingField);
        },
    };
    let w = match get_won_cards(cards, next, m2, 1, 0) {
        Ok(w) => w,
        Err(e) => {
            return Err(e);
        },
    };
    if w > u32::MAX - (acc + 1) {
        return Err(PuzzleError::Overflow);
    }
    get_won_cards(cards, id, m, num + 1, acc + 1 + w)
}

/// `acc` plus the copies won by each card, taken by ascending id from `lo`
/// on; a sum beyond `u32::MAX` is `Overflow`.
pub open spec fn total_from(cards: Seq<ScratchCard>, lo: int, acc: int) -> Result<
    int,
    PuzzleError,
>
    decreases u32::MAX + 1 - lo,
{
    if lo < 0 || lo > u32::MAX {
        Ok(acc)
    } else {
        match lookup(cards, lo) {
            None => total_from(cards, lo + 1, acc),
            Some(m) => match won_from(cards, lo, m as int, 1, 0) {
                Err(e) => Err(e),
                Ok(w) => if acc + w > u32::MAX {
                    Err(PuzzleError::Overflow)
                } else {
                    total_from(cards, lo + 1, acc + w)
                },
            },
        }
    }
}

/// The answer of the second part: the number of cards, those dealt and
/// won copies.
pub open spec fn copies_answer(lines: Seq<Seq<u8>>) -> Result<u32, PuzzleError> {
    match cards_in(lines) {
        Err(e) => Err(e),
        Ok(cs) => match total_from(cs, 0, (cs.len() % 4294967296) as int) {
            Err(e) => Err(e),
            Ok(t) => Ok(t as u32),
        },
    }
}

proof fn lemma_lookup_some(cards: Seq<ScratchCard>, id: int)
    ensures
        lookup(cards, id) is Some <==> exists|i: int| 0 <= i < cards.len() && cards[i].card == id,
    decreases cards.len(),
{
    if cards.len() > 0 {
        lemma_lookup_some(cards.drop_last(), id);
        if lookup(cards.drop_last(), id) is Some {
            let i = choose|i: int| 0 <= i < cards.len() - 1 && cards.drop_last()[i].card == id;
            assert(cards[i].card == id);
        }
        if exists|i: int| 0 <= i < cards.len() && cards[i].card == id {
            let i = choose|i: int| 0 <= i < cards.len() && cards[i].card == id;
            if i < cards.len() - 1 {
                assert(cards.drop_last()[i].card == id);
            }
        }
    }
}

proof fn lemma_total_skip(cards: Seq<ScratchCard>, lo: int, k: int, acc: int)
    requires
        0 <= lo <= k <= u32::MAX + 1,
        forall|j: int| lo <= j < k ==> lookup(cards, j) is None,
    ensures
        total_from(cards, lo, acc) == total_from(cards, k, acc),
    decreases k - lo,
{
    if lo < k {
        lemma_total_skip(cards, lo + 1, k, acc);
    }
}

/// The least card id from `lo` on.
fn next_id(cards: &Vec<ScratchCard>, lo: u64) -> (r: Option<u32>)
    ensures
        r matches Some(k) ==> lo <= k && lookup(cards@, k as int) is Some && forall|j: int|
            lo <= j < k ==> lookup(cards@, j) is None,
        r is None ==> forall|j: int| lo <= j <= u32::MAX ==> lookup(cards@, j) is None,
{
    let mut best: Option<u32> = None;
    let mut i: usize = 0;
    while i < cards.len()
        invariant
            i <= cards@.len(),
            best matches Some(b) ==> lo <= b && exists|t: int|
                0 <= t < i && cards@[t].card == b,
            forall|t: int|
                0 <= t < i && cards@[t].card >= lo ==> (best matches Some(b) && b <= cards@[t].card),
        decreases cards@.len() - i,
    {
        let c = cards[i].card;
        if c as u64 >= lo {
            match best {
                Some(b) => {
                    if c < b {
                        best = Some(c);
                    }
                },
                None => {
                    best = Some(c);
                },
            }
        }
        i = i + 1;
    }
    proof {
        assert forall|j: int| lo <= j && (best is None || j < best->Some_0) && j <= u32::MAX
            implies lookup(cards@, j) is None by {
            lemma_lookup_some(cards@, j);
        }
        if let Some(b) = best {
            lemma_lookup_some(cards@, b as int);
        }
    }
    best
}

proof fn lemma_cards_stay_err(lines: Seq<Seq<u8>>, k: int)
    requires
        0 <= k <= lines.len(),
        cards_in(lines.subrange(0, k)) is Err,
    ensures
        cards_in(lines) == cards_in(lines.subrange(0, k)),
    decreases lines.len() - k,
{
    if k == lines.len() {
        assert(lines.subrange(0, k) =~= lines);
    } else {
        assert(lines.subrange(0, k + 1).drop_last() =~= lines.subrange(0, k));
        lemma_cards_stay_err(lines, k + 1);
    }
}

/// The number of cards that `input` ends with: each card on a non-empty
/// line, and every copy that cards win, taken by ascending id.
pub fn solve_part_2(input: &str) -> (r: Result<u32, PuzzleError>)
    ensures
        r == copies_answer(lines_of(input.spec_bytes())),
{
    let lines = split_lines(input.as_bytes());
    let ghost ls = lines_of(input.spec_bytes());
    let mut cards: Vec<ScratchCard> = Vec::new();
    let mut i: usize = 0;
    assert(ls.subrange(0, 0) =~= Seq::<Seq<u8>>::empty());
    while i < lines.len()
        invariant
            ls == lines_of(input.spec_bytes()),
            lines@.map_values(|v: Vec<u8>| v@) == ls,
            i <= lines@.len(),
            cards_in(ls.subrange(0, i as int)) == Ok::<Seq<ScratchCard>, PuzzleError>(cards@),
        decreases lines@.len() - i,
    {
        proof {
            let next = ls.subrange(0, i as int + 1);
            assert(next.drop_last() =~= ls.subrange(0, i as int));
            assert(next.last() == lines@[i as int]@);
        }
        if lines[i].len() > 0 {
            match parse_scratch_card(&lines[i]) {
                Ok(c) => {
                    cards.push(c);
                },
                Err(e) => {
                    proof {
                        lemma_cards_stay_err(ls, i as int + 1);
                    }
                    return Err(e);
                },
            }
        }
        i = i + 1;
    }
    assert(ls.subrange(0, i as int) =~= ls);
    let ghost cs = cards@;
    let mut acc: u32 = (cards.len() as u64 % 4294967296u64) as u32;
    let mut lo: u64 = 0;
    while lo <= u32::MAX as u64
        invariant
            cards_in(ls) == Ok::<Seq<ScratchCard>, PuzzleError>(cs),
            cs == cards@,
            ls == lines_of(input.spec_bytes()),
            lo <= u32::MAX as u64 + 1,
            total_from(cs, 0, (cs.len() % 4294967296) as int) == total_from(cs, lo as int, acc as int),
        decreases u32::MAX as u64 + 1 - lo,
    {
        match next_id(&cards, lo) {
            None => {
                proof {
                    lemma_total_skip(cs, lo as int, u32::MAX + 1, acc as int);
                }
                return Ok(acc);
            },
            Some(k) => {
                proof {
                    lemma_total_skip(cs, lo as int, k as int, acc as int);
                }
                let m = match lookup_card(&cards, k) {
                    Some(m) => m,
                    None => {
                        return Err(PuzzleError::MissingField);
                    },
                };
                let w = match get_won_cards(&cards, k, m, 1, 0) {
                    Ok(w) => w,
                    Err(e) => {
                        return Err(e);
                    },
                };
                match acc.checked_add(w) {
                    Some(a) => {
                        acc = a;
                    },
                    None => {
                        return Err(PuzzleError::Overflow);
                    },
                }
                lo = k as u64 + 1;
            },
        }
    }
    Ok(acc)
}

} // verus!
