//! Day 07: Camel Cards. Each line is a hand of five cards and a bid; hands
//! rank by type, then card by card, and each wins its bid times its rank.
use vstd::prelude::*;
use vstd::string::StringSliceAdditionalSpecFns;

use crate::text::{lines_of, nat_of, parse_u64, split_lines, split_words, words, PuzzleError};

verus! {

/// The strength of card `b`, 0 to 12; with jokers, `J` is the weakest.
pub open spec fn card_value(b: u8, joker: bool) -> Option<u8> {
    if b == 65 {
        Some(12u8)
    } else if b == 75 {
        Some(11u8)
    } else if b == 81 {
        Some(10u8)
    } else if b == 74 {
        Some(if joker { 0u8 } else { 9u8 })
    } else if b == 84 {
        Some(if joker { 9u8 } else { 8u8 })
    } else if 50 <= b && b <= 57 {
        Some(if joker { (b - 49) as u8 } else { (b - 50) as u8 })
    } else {
        None
    }
}

/// The strengths of the cards of a token, where every card is valid.
pub open spec fn cards_of(tok: Seq<u8>, joker: bool) -> Option<Seq<u8>>
    decreases tok.len(),
{
    if tok.len() == 0 {
        Some(Seq::<u8>::empty())
    } else {
        match cards_of(tok.drop_last(), joker) {
            None => None,
            Some(cs) => match card_value(tok.last(), joker) {
                Some(v) => Some(cs.push(v)),
                None => None,
            },
        }
    }
}

/// How many cards of `h` have strength `c`.
pub open spec fn count(h: Seq<u8>, c: u8) -> nat
    decreases h.len(),
{
    if h.len() == 0 {
        0
    } else {
        count(h.drop_last(), c) + if h.last() == c {
            1nat
        } else {
            0nat
        }
    }
}

/// How many strengths in `lo..hi` occur in `h`.
pub open spec fn distinct(h: Seq<u8>, lo: int, hi: int) -> nat
    decreases hi - lo,
{
    if hi <= lo {
        0
    } else {
        distinct(h, lo, hi - 1) + if count(h, (hi - 1) as u8) > 0 {
            1nat
        } else {
            0nat
        }
    }
}

/// The largest count of a strength in `lo..hi`.
pub open spec fn most(h: Seq<u8>, lo: int, hi: int) -> nat
    decreases hi - lo,
{
    if hi <= lo {
        0
    } else {
        let m = most(h, lo, hi - 1);
        let c = count(h, (hi - 1) as u8);
        if c > m {
            c
        } else {
            m
        }
    }
}

/// The type of a hand with `d` distinct kinds whose largest group has `m`
/// cards: 6 five of a kind, 5 four of a kind, 4 full house, 3 three of a
/// kind, 2 two pair, 1 one pair, 0 high card.
pub open spec fn classify(d: nat, m: nat) -> u8 {
    if d <= 1 {
        6
    } else if d == 2 {
        if m >= 4 {
            5
        } else {
            4
        }
    } else if d == 3 {
        if m >= 3 {
            3
        } else {
            2
        }
    } else if d == 4 {
        1
    } else {
        0
    }
}

/// The type of a hand; with jokers, the jokers join the largest group of
/// the other cards.
pub open spec fn hand_type(h: Seq<u8>, joker: bool) -> u8 {
    if joker {
        if count(h, 0) == 5 {
            6
        } else {
            classify(distinct(h, 1, 13), most(h, 1, 13) + count(h, 0))
        }
    } else {
        classify(distinct(h, 0, 13), most(h, 0, 13))
    }
}

/// A hand: the strengths of its five cards, its bid and its type.
#[derive(Debug)]
pub struct CamelCardHand {
    pub cards: Vec<u8>,
    pub bid: u32,
    pub hand_type: u8,
}

/// The hand of a line, `<cards> <bid>`.
pub open spec fn hand_of(line: Seq<u8>, joker: bool) -> Result<(Seq<u8>, u32, u8), PuzzleError> {
    let t = words(line);
    if t.len() < 1 {
        Err(PuzzleError::MissingField)
    } else {
        match cards_of(t[0], joker) {
            None => Err(PuzzleError::InvalidCard),
            Some(cs) => if cs.len() != 5 {
                Err(PuzzleError::InvalidHand)
            } else if t.len() < 2 {
                Err(PuzzleError::MissingField)
            } else {
                match nat_of(t[1]) {
                    Some(b) => if b <= u32::MAX {
                        Ok((cs, b as u32, hand_type(cs, joker)))
                    } else {
                        Err(PuzzleError::InvalidNumber)
                    },
                    None => Err(PuzzleError::InvalidNumber),
                }
            },
        }
    }
}

/// The strength of a card.
fn card_strength(b: u8, joker: bool) -> (r: Option<u8>)
    ensures
        r == card_value(b, joker),
        r matches Some(v) ==> v < 13,
{
    if b == 65 {
        Some(12)
    } else if b == 75 {
        Some(11)
    } else if b == 81 {
        Some(10)
    } else if b == 74 {
        Some(if joker { 0 } else { 9 })
    } else if b == 84 {
        Some(if joker { 9 } else { 8 })
    } else if 50 <= b && b <= 57 {
        Some(if joker { b - 49 } else { b - 50 })
    } else {
        None
    }
}

proof fn lemma_cards_stay_none(tok: Seq<u8>, joker: bool, k: int)
    requires
        0 <= k <= tok.len(),
        cards_of(tok.subrange(0, k), joker) is None,
    ensures
        cards_of(tok, joker) is None,
    decreases tok.len() - k,
{
    if k == tok.len() {
        assert(tok.subrange(0, k) =~= tok);
    } else {
        assert(tok.subrange(0, k + 1).drop_last() =~= tok.subrange(0, k));
        lemma_cards_stay_none(tok, joker, k + 1);
    }
}

/// The type of a hand of strengths below 13.
fn type_of(h: &Vec<u8>, joker: bool) -> (r: u8)
    requires
        h@.len() == 5,
        forall|i: int| 0 <= i < h@.len() ==> h@[i] < 13,
    ensures
        r == hand_type(h@, joker),
{
    let mut counts: Vec<u64> = Vec::new();
    let mut c: usize = 0;
    while c < 13
        invariant
            c <= 13,
            counts@.len() == c,
            forall|k: int| 0 <= k < c ==> counts@[k] == 0,
        decreases 13 - c,
    {
        counts.push(0);
        c = c + 1;
    }
    let mut i: usize = 0;
    assert(h@.subrange(0, 0) =~= Seq::<u8>::empty());
    while i < h.len()
        invariant
            i <= h@.len(),
            counts@.len() == 13,
            forall|k: int| 0 <= k < h@.len() ==> h@[k] < 13,
            forall|k: int| 0 <= k < 13 ==> #[trigger] counts@[k] == count(h@.subrange(0, i as int), k as u8),
            forall|k: int| 0 <= k < 13 ==> counts@[k] <= i,
        decreases h@.len() - i,
    {
        let v = h[i] as usize;
        proof {
            let next = h@.subrange(0, i as int + 1);
            assert(next.drop_last() =~= h@.subrange(0, i as int));
            assert(next.last() == h@[i as int]);
        }
        let old_count = counts[v];
        counts.set(v, old_count + 1);
        i = i + 1;
    }
    assert(h@.subrange(0, i as int) =~= h@);
    let lo: usize = if joker { 1 } else { 0 };
    let mut d: u64 = 0;
    let mut m: u64 = 0;
    let mut k: usize = lo;
    while k < 13
        invariant
            lo <= k <= 13,
            counts@.len() == 13,
            forall|t: int| 0 <= t < 13 ==> #[trigger] counts@[t] == count(h@, t as u8),
            d == distinct(h@, lo as int, k as int),
            m == most(h@, lo as int, k as int),
            d <= k,
            forall|t: int| 0 <= t < 13 ==> counts@[t] <= h@.len(),
            m <= h@.len(),
        decreases 13 - k,
    {
        assert(counts@[k as int] == count(h@, k as u8));
        if counts[k] > 0 {
            d = d + 1;
        }
        if counts[k] > m {
            m = counts[k];
        }
        k = k + 1;
    }
    if joker {
        assert(counts@[0] == count(h@, 0u8));
        let j = counts[0];
        if j == 5 {
            return 6;
        }
        m = m + j;
    }
    if d <= 1 {
        6
    } else if d == 2 {
        if m >= 4 {
            5
        } else {
            4
        }
    } else if d == 3 {
        if m >= 3 {
            3
        } else {
            2
        }
    } else if d == 4 {
        1
    } else {
        0
    }
}

/// Reads a hand, `<cards> <bid>`.
fn parse_hand(line: &Vec<u8>, joker: bool) -> (r: Result<CamelCardHand, PuzzleError>)
    ensures
        match hand_of(line@, joker) {
            Ok((cs, b, t)) => r matches Ok(h) && h.cards@ == cs && h.bid == b && h.hand_type == t,
            Err(e) => r == Err::<CamelCardHand, PuzzleError>(e),
        },
        r matches Ok(h) ==> forall|i: int| 0 <= i < h.cards@.len() ==> h.cards@[i] < 13,
{
    let t = split_words(line);
    let ghost tv = t@.map_values(|v: Vec<u8>| v@);
    if t.len() < 1 {
        return Err(PuzzleError::MissingField);
    }
    assert(tv[0] == t@[0]@);
    let tok = &t[0];
    let mut cards: Vec<u8> = Vec::new();
    let mut i: usize = 0;
    assert(tok@.subrange(0, 0) =~= Seq::<u8>::empty());
    while i < tok.len()
        invariant
            tv == t@.map_values(|v: Vec<u8>| v@),
            tv == words(line@),
            tv.len() >= 1,
            tv[0] == tok@,
            i <= tok@.len(),
            cards_of(tok@.subrange(0, i as int), joker) == Some(cards@),
            forall|k: int| 0 <= k < cards@.len() ==> cards@[k] < 13,
        decreases tok@.len() - i,
    {
        proof {
            let next = tok@.subrange(0, i as int + 1);
            assert(next.drop_last() =~= tok@.subrange(0, i as int));
            assert(next.last() == tok@[i as int]);
        }
        match card_strength(tok[i], joker) {
            Some(v) => {
                cards.push(v);
            },
            None => {
                proof {
                    lemma_cards_stay_none(tok@, joker, i as int + 1);
                }
                return Err(PuzzleError::InvalidCard);
            },
        }
        i = i + 1;
    }
    assert(tok@.subrange(0, i as int) =~= tok@);
    if cards.len() != 5 {
        return Err(PuzzleError::InvalidHand);
    }
    if t.len() < 2 {
        return Err(PuzzleError::MissingField);
    }
    assert(tv[1] == t@[1]@);
    let bid = match parse_u64(&t[1]) {
        Some(b) => b,
        None => {
            return Err(PuzzleError::InvalidNumber);
        },
    };
    if bid > u32::MAX as u64 {
        return Err(PuzzleError::InvalidNumber);
    }
    let hand_type = type_of(&cards, joker);
    Ok(CamelCardHand { cards, bid: bid as u32, hand_type })
}

/// Reads a hand in which `J` is a jack.
pub fn parse_camel_card_hand(line: &Vec<u8>) -> (r: Result<CamelCardHand, PuzzleError>)
    ensures
        match hand_of(line@, false) {
            Ok((cs, b, t)) => r matches Ok(h) && h.cards@ == cs && h.bid == b && h.hand_type == t,
            Err(e) => r == Err::<CamelCardHand, PuzzleError>(e),
        },
{
    parse_hand(line, false)
}

/// Reads a hand in which `J` is a joker.
pub fn parse_camel_card_hand_with_joker(line: &Vec<u8>) -> (r: Result<CamelCardHand, PuzzleError>)
    ensures
        match hand_of(line@, true) {
            Ok((cs, b, t)) => r matches Ok(h) && h.cards@ == cs && h.bid == b && h.hand_type == t,
            Err(e) => r == Err::<CamelCardHand, PuzzleError>(e),
        },
{
    parse_hand(line, true)
}


/// `a` comes before `b` card by card.
pub open spec fn lex_less(a: Seq<u8>, b: Seq<u8>) -> bool
    decreases a.len(),
{
    if a.len() == 0 || b.len() == 0 {
        a.len() < b.len()
    } else if a[0] != b[0] {
        a[0] < b[0]
    } else {
        lex_less(a.skip(1), b.skip(1))
    }
}

/// Hand `a` ranks below hand `b`: a weaker type, or the same type and
/// weaker cards.
pub open spec fn key_less(a: (Seq<u8>, u32, u8), b: (Seq<u8>, u32, u8)) -> bool {
    a.2 < b.2 || (a.2 == b.2 && lex_less(a.0, b.0))
}

/// Hands `a` and `b` tie.
pub open spec fn key_same(a: (Seq<u8>, u32, u8), b: (Seq<u8>, u32, u8)) -> bool {
    a.2 == b.2 && a.0 == b.0
}

/// How many of the first `n` hands rank below hand `i`.
pub open spec fn below(hs: Seq<(Seq<u8>, u32, u8)>, i: int, n: int) -> nat
    decreases n,
{
    if n <= 0 {
        0
    } else {
        below(hs, i, n - 1) + if key_less(hs[n - 1], hs[i]) {
            1nat
        } else {
            0nat
        }
    }
}

/// How many of the first `n` hands tie with hand `i`.
pub open spec fn ties(hs: Seq<(Seq<u8>, u32, u8)>, i: int, n: int) -> nat
    decreases n,
{
    if n <= 0 {
        0
    } else {
        ties(hs, i, n - 1) + if key_same(hs[n - 1], hs[i]) {
            1nat
        } else {
            0nat
        }
    }
}

/// The rank of hand `i` once the hands are sorted by strength, ties kept in
/// input order.
pub open spec fn rank(hs: Seq<(Seq<u8>, u32, u8)>, i: int) -> nat {
    1 + below(hs, i, hs.len() as int) + ties(hs, i, i)
}

/// The winnings of the first `n` hands, each bid times rank; none where a
/// product or a partial sum leaves `u32`.
pub open spec fn winnings(hs: Seq<(Seq<u8>, u32, u8)>, n: int) -> Option<nat>
    decreases n,
{
    if n <= 0 {
        Some(0)
    } else {
        match winnings(hs, n - 1) {
            None => None,
            Some(w) => {
                let p = hs[n - 1].1 as nat * rank(hs, n - 1);
                if p > u32::MAX || w + p > u32::MAX {
                    None
                } else {
                    Some(w + p)
                }
            },
        }
    }
}

/// The hands of all lines, or the first failure.
pub open spec fn hands_of(lines: Seq<Seq<u8>>, joker: bool) -> Result<
    Seq<(Seq<u8>, u32, u8)>,
    PuzzleError,
>
    decreases lines.len(),
{
    if lines.len() == 0 {
        Ok(Seq::<(Seq<u8>, u32, u8)>::empty())
    } else {
        match hands_of(lines.drop_last(), joker) {
            Err(e) => Err(e),
            Ok(hs) => match hand_of(lines.last(), joker) {
                Err(e) => Err(e),
                Ok(h) => Ok(hs.push(h)),
            },
        }
    }
}

/// The total winnings of the hands of `lines`.
pub open spec fn camel_answer(lines: Seq<Seq<u8>>, joker: bool) -> Result<u32, PuzzleError> {
    match hands_of(lines, joker) {
        Err(e) => Err(e),
        Ok(hs) => match winnings(hs, hs.len() as int) {
            None => Err(PuzzleError::Overflow),
            Some(w) => Ok(w as u32),
        },
    }
}

/// Whether `a` comes before `b` card by card.
fn cards_less(a: &Vec<u8>, b: &Vec<u8>) -> (r: bool)
    ensures
        r == lex_less(a@, b@),
{
    let mut k: usize = 0;
    assert(a@.skip(0) =~= a@ && b@.skip(0) =~= b@);
    while k < a.len() && k < b.len()
        invariant
            k <= a@.len(),
            k <= b@.len(),
            lex_less(a@, b@) == lex_less(a@.skip(k as int), b@.skip(k as int)),
        decreases a@.len() - k,
    {
        assert(a@.skip(k as int)[0] == a@[k as int]);
        assert(b@.skip(k as int)[0] == b@[k as int]);
        if a[k] != b[k] {
            return a[k] < b[k];
        }
        assert(a@.skip(k as int).skip(1) =~= a@.skip(k + 1));
        assert(b@.skip(k as int).skip(1) =~= b@.skip(k + 1));
        k = k + 1;
    }
    a.len() < b.len()
}

/// Whether two hands' cards are the same.
fn cards_same(a: &Vec<u8>, b: &Vec<u8>) -> (r: bool)
    ensures
        r == (a@ == b@),
{
    if a.len() != b.len() {
        return false;
    }
    let mut k: usize = 0;
    while k < a.len()
        invariant
            a@.len() == b@.len(),
            k <= a@.len(),
            forall|t: int| 0 <= t < k ==> a@[t] == b@[t],
        decreases a@.len() - k,
    {
        if a[k] != b[k] {
            return false;
        }
        k = k + 1;
    }
    assert(a@ =~= b@);
    true
}

pub open spec fn hand_view(h: CamelCardHand) -> (Seq<u8>, u32, u8) {
    (h.cards@, h.bid, h.hand_type)
}

proof fn lemma_hands_stay_err(lines: Seq<Seq<u8>>, joker: bool, k: int)
    requires
        0 <= k <= lines.len(),
        hands_of(lines.subrange(0, k), joker) is Err,
    ensures
        hands_of(lines, joker) == hands_of(lines.subrange(0, k), joker),
    decreases lines.len() - k,
{
    if k == lines.len() {
        assert(lines.subrange(0, k) =~= lines);
    } else {
        assert(lines.subrange(0, k + 1).drop_last() =~= lines.subrange(0, k));
        lemma_hands_stay_err(lines, joker, k + 1);
    }
}

proof fn lemma_winnings_stay_none(hs: Seq<(Seq<u8>, u32, u8)>, k: int, n: int)
    requires
        0 <= k <= n,
        winnings(hs, k) is None,
    ensures
        winnings(hs, n) is None,
    decreases n - k,
{
    if k < n {
        lemma_winnings_stay_none(hs, k + 1, n);
    }
}

/// The total winnings of the hands of `input`, one per line.
fn total_winnings(input: &str, joker: bool) -> (r: Result<u32, PuzzleError>)
    ensures
        r == camel_answer(lines_of(input.spec_bytes()), joker),
{
    let lines = split_lines(input.as_bytes());
    let ghost ls = lines_of(input.spec_bytes());
    let mut hands: Vec<CamelCardHand> = Vec::new();
    let mut i: usize = 0;
    assert(ls.subrange(0, 0) =~= Seq::<Seq<u8>>::empty());
    assert(hands@.map_values(|h: CamelCardHand| hand_view(h)) =~= Seq::<
        (Seq<u8>, u32, u8),
    >::empty());
    while i < lines.len()
        invariant
            ls == lines_of(input.spec_bytes()),
            lines@.map_values(|v: Vec<u8>| v@) == ls,
            i <= lines@.len(),
            hands_of(ls.subrange(0, i as int), joker) == Ok::<
                Seq<(Seq<u8>, u32, u8)>,
                PuzzleError,
            >(hands@.map_values(|h: CamelCardHand| hand_view(h))),
        decreases lines@.len() - i,
    {
        proof {
            let next = ls.subrange(0, i as int + 1);
            assert(next.drop_last() =~= ls.subrange(0, i as int));
            assert(next.last() == lines@[i as int]@);
        }
        match parse_hand(&lines[i], joker) {
            Ok(h) => {
                let ghost before = hands@;
                let ghost hv = hand_view(h);
                hands.push(h);
                assert(hands@.map_values(|h: CamelCardHand| hand_view(h)) =~= before.map_values(
                    |h: CamelCardHand| hand_view(h),
                ).push(hv));
            },
            Err(e) => {
                proof {
                    lemma_hands_stay_err(ls, joker, i as int + 1);
                }
                return Err(e);
            },
        }
        i = i + 1;
    }
    assert(ls.subrange(0, i as int) =~= ls);
    let ghost hs = hands@.map_values(|h: CamelCardHand| hand_view(h));
    let n = hands.len();
    let mut total: u32 = 0;
    let mut k: usize = 0;
    while k < n
        invariant
            ls == lines_of(input.spec_bytes()),
            hands_of(ls, joker) == Ok::<Seq<(Seq<u8>, u32, u8)>, PuzzleError>(hs),
            hs == hands@.map_values(|h: CamelCardHand| hand_view(h)),
            n == hands@.len(),
            k <= n,
            winnings(hs, k as int) == Some(total as nat),
        decreases n - k,
    {
        let mut less: u64 = 0;
        let mut same: u64 = 0;
        let mut j: usize = 0;
        while j < n
            invariant
                hs == hands@.map_values(|h: CamelCardHand| hand_view(h)),
                n == hands@.len(),
                k < n,
                j <= n,
                less == below(hs, k as int, j as int),
                same == ties(hs, k as int, if j < k { j as int } else { k as int }),
                less <= j,
                same <= j,
            decreases n - j,
        {
            let a = &hands[j];
            let b = &hands[k];
            assert(hs[j as int] == hand_view(*a) && hs[k as int] == hand_view(*b));
            if a.hand_type < b.hand_type || (a.hand_type == b.hand_type && cards_less(
                &a.cards,
                &b.cards,
            )) {
                less = less + 1;
            }
            if j < k && a.hand_type == b.hand_type && cards_same(&a.cards, &b.cards) {
                same = same + 1;
            }
            j = j + 1;
        }
        let r = 1 + (less as u128) + (same as u128);
        assert(r == rank(hs, k as int));
        let bid = hands[k].bid;
        assert(hs[k as int].1 == bid);
        assert((bid as u128) * r <= (u32::MAX as u128) * (3 * (u64::MAX as u128)))
            by (nonlinear_arith)
            requires
                bid <= u32::MAX,
                r <= 3 * (u64::MAX as u128),
        ;
        let p = (bid as u128) * r;
        if p > u32::MAX as u128 || (total as u128) + p > u32::MAX as u128 {
            proof {
                lemma_winnings_stay_none(hs, k as int + 1, hs.len() as int);
            }
            return Err(PuzzleError::Overflow);
        }
        total = total + p as u32;
        k = k + 1;
    }
    Ok(total)
}

/// The total winnings of the hands of `input`, where `J` is a jack.
pub fn solve_part_1(input: &str) -> (r: Result<u32, PuzzleError>)
    ensures
        r == camel_answer(lines_of(input.spec_bytes()), false),
{
    total_winnings(input, false)
}

/// The total winnings of the hands of `input`, where `J` is a joker: the
/// weakest card, but it joins the largest group for the hand's type.
pub fn solve_part_2(input: &str) -> (r: Result<u32, PuzzleError>)
    ensures
        r == camel_answer(lines_of(input.spec_bytes()), true),
{
    total_winnings(input, true)
}

} // verus!
