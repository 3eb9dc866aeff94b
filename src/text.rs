//! Byte-level text handling shared by the puzzle solvers: lines, words,
//! separators and numbers, each with the spec function it computes, and the
//! solvers' error type.
use vstd::prelude::*;

use crate::error::DispatchError;

verus! {

/// Why a puzzle input could not be solved.
#[derive(Clone, Copy, Debug, PartialEq, Eq, Structural)]
pub enum PuzzleError {
    /// A token that should be a number is not one, or does not fit its type.
    InvalidNumber,
    /// A line that needs a digit has none.
    MissingDigit,
    /// A line lacks a part that the puzzle format requires.
    MissingField,
    /// A cube colour other than red, green or blue.
    UnknownColor,
    /// A difference table ran out of values before it became all zeros.
    EmptyHistory,
    /// The answer, or a value on the way to it, does not fit its type.
    Overflow,
    /// A direction other than `L` or `R`.
    InvalidDirection,
    /// A node label that is not three bytes long.
    InvalidLabel,
    /// A node that the network does not define.
    UnknownNode,
    /// A walk took more steps than it may.
    StepLimit,
    /// A map byte other than `.` or `#`.
    InvalidTerrain,
    /// A map row shorter than the first.
    RaggedMap,
    /// A map with no line of reflection.
    NoReflection,
    /// A card other than `2`-`9`, `T`, `J`, `Q`, `K` or `A`.
    InvalidCard,
    /// A hand of other than five cards.
    InvalidHand,
    /// A spring other than `.`, `#` or `?`.
    InvalidSpring,
    /// A maze tile other than `|`, `-`, `L`, `J`, `7`, `F`, `.` or `S`.
    InvalidTile,
    /// A walk left the maze.
    OffMaze,
    /// The dispatch layer failed.
    Dispatch(DispatchError),
}

pub open spec fn newline() -> u8 {
    10
}

/// The pieces of `s` between occurrences of `sep`; there is always at least
/// one piece.
pub open spec fn split_on(s: Seq<u8>, sep: u8) -> Seq<Seq<u8>>
    decreases s.len(),
{
    if s.len() == 0 {
        seq![Seq::<u8>::empty()]
    } else {
        let p = split_on(s.drop_last(), sep);
        if s.last() == sep {
            p.push(Seq::<u8>::empty())
        } else {
            p.update(p.len() - 1, p.last().push(s.last()))
        }
    }
}

pub proof fn lemma_split_on_nonempty(s: Seq<u8>, sep: u8)
    ensures
        split_on(s, sep).len() >= 1,
    decreases s.len(),
{
    if s.len() > 0 {
        lemma_split_on_nonempty(s.drop_last(), sep);
    }
}

/// A line without the carriage return that may end it.
pub open spec fn strip_cr(l: Seq<u8>) -> Seq<u8> {
    if l.len() > 0 && l.last() == 13 {
        l.drop_last()
    } else {
        l
    }
}

/// The lines of `s`: the pieces between line feeds, a final line feed
/// ending the last line rather than starting an empty one, each without a
/// trailing carriage return.
pub open spec fn lines_of(s: Seq<u8>) -> Seq<Seq<u8>> {
    let parts = split_on(s, newline());
    let kept = if s.len() == 0 || s.last() == newline() {
        parts.drop_last()
    } else {
        parts
    };
    kept.map_values(|l: Seq<u8>| strip_cr(l))
}

fn strip_cr_vec(mut l: Vec<u8>) -> (r: Vec<u8>)
    ensures
        r@ == strip_cr(l@),
{
    let n = l.len();
    if n > 0 && l[n - 1] == 13 {
        l.pop();
    }
    l
}

/// Splits `s` into its lines.
pub fn split_lines(s: &[u8]) -> (r: Vec<Vec<u8>>)
    ensures
        r@.map_values(|v: Vec<u8>| v@) == lines_of(s@),
{
    let mut done: Vec<Vec<u8>> = Vec::new();
    let mut cur: Vec<u8> = Vec::new();
    let mut i: usize = 0;
    proof {
        assert(s@.subrange(0, 0) =~= Seq::<u8>::empty());
    }
    while i < s.len()
        invariant
            i <= s@.len(),
            split_on(s@.subrange(0, i as int), newline()).len() >= 1,
            done@.map_values(|v: Vec<u8>| v@) =~= split_on(s@.subrange(0, i as int), newline()).drop_last().map_values(
                |l: Seq<u8>| strip_cr(l),
            ),
            cur@ == split_on(s@.subrange(0, i as int), newline()).last(),
        decreases s@.len() - i,
    {
        let c = s[i];
        let ghost pre = s@.subrange(0, i as int);
        let ghost next = s@.subrange(0, i as int + 1);
        proof {
            assert(next.drop_last() =~= pre);
            assert(next.last() == c);
            lemma_split_on_nonempty(pre, newline());
        }
        if c == 10 {
            let ghost p = split_on(pre, newline());
            let ghost before = done@;
            proof {
                assert(split_on(next, newline()) == p.push(Seq::<u8>::empty()));
                assert(split_on(next, newline()).drop_last() =~= p);
                assert(p =~= p.drop_last().push(p.last()));
            }
            let line = strip_cr_vec(cur);
            done.push(line);
            cur = Vec::new();
            proof {
                assert(done@ == before.push(line));
                assert(done@.map_values(|v: Vec<u8>| v@) =~= before.map_values(|v: Vec<u8>| v@).push(
                    strip_cr(p.last()),
                ));
                assert(p.map_values(|l: Seq<u8>| strip_cr(l)) =~= p.drop_last().map_values(
                    |l: Seq<u8>| strip_cr(l),
                ).push(strip_cr(p.last())));
            }
            assert(done@.map_values(|v: Vec<u8>| v@) =~= split_on(next, newline()).drop_last().map_values(
                |l: Seq<u8>| strip_cr(l),
            ));
        } else {
            cur.push(c);
            assert(done@.map_values(|v: Vec<u8>| v@) =~= split_on(next, newline()).drop_last().map_values(
                |l: Seq<u8>| strip_cr(l),
            ));
        }
        i = i + 1;
    }
    proof {
        assert(s@.subrange(0, s@.len() as int) =~= s@);
    }
    let n = s.len();
    proof {
        lemma_split_on_nonempty(s@, newline());
        let p = split_on(s@, newline());
        assert(p =~= p.drop_last().push(p.last()));
    }
    if n > 0 && s[n - 1] != 10 {
        let ghost p = split_on(s@, newline());
        let ghost before = done@;
        let line = strip_cr_vec(cur);
        done.push(line);
        proof {
            assert(done@ == before.push(line));
            assert(done@.map_values(|v: Vec<u8>| v@) =~= before.map_values(|v: Vec<u8>| v@).push(
                strip_cr(p.last()),
            ));
            assert(p.map_values(|l: Seq<u8>| strip_cr(l)) =~= p.drop_last().map_values(
                |l: Seq<u8>| strip_cr(l),
            ).push(strip_cr(p.last())));
        }
        assert(done@.map_values(|v: Vec<u8>| v@) =~= lines_of(s@));
    } else {
        assert(done@.map_values(|v: Vec<u8>| v@) =~= lines_of(s@));
    }
    done
}

/// Space, tab, line feed, vertical tab, form feed or carriage return.
pub open spec fn is_space(b: u8) -> bool {
    b == 32 || (9 <= b && b <= 13)
}

/// The maximal runs of non-space bytes of `s`, in order.
pub open spec fn words(s: Seq<u8>) -> Seq<Seq<u8>>
    decreases s.len(),
{
    if s.len() == 0 {
        Seq::<Seq<u8>>::empty()
    } else {
        let w = words(s.drop_last());
        let c = s.last();
        if is_space(c) {
            w
        } else if s.len() >= 2 && !is_space(s[s.len() - 2]) {
            w.update(w.len() - 1, w.last().push(c))
        } else {
            w.push(seq![c])
        }
    }
}

proof fn lemma_words_open(s: Seq<u8>)
    requires
        s.len() > 0,
        !is_space(s.last()),
    ensures
        words(s).len() > 0,
    decreases s.len(),
{
    if s.len() >= 2 && !is_space(s[s.len() - 2]) {
        lemma_words_open(s.drop_last());
    }
}

/// Splits `s` at runs of spaces, dropping empty pieces.
pub fn split_words(s: &Vec<u8>) -> (r: Vec<Vec<u8>>)
    ensures
        r@.map_values(|v: Vec<u8>| v@) == words(s@),
{
    let mut done: Vec<Vec<u8>> = Vec::new();
    let mut i: usize = 0;
    proof {
        assert(s@.subrange(0, 0) =~= Seq::<u8>::empty());
    }
    while i < s.len()
        invariant
            i <= s@.len(),
            done@.map_values(|v: Vec<u8>| v@) =~= words(s@.subrange(0, i as int)),
        decreases s@.len() - i,
    {
        let c = s[i];
        let ghost pre = s@.subrange(0, i as int);
        let ghost next = s@.subrange(0, i as int + 1);
        proof {
            assert(next.drop_last() =~= pre);
            assert(next.last() == c);
        }
        if c == 32 || (9 <= c && c <= 13) {
        } else if i >= 1 && !(s[i - 1] == 32 || (9 <= s[i - 1] && s[i - 1] <= 13)) {
            proof {
                assert(pre.last() == s@[i - 1]);
                lemma_words_open(pre);
            }
            let k = done.len() - 1;
            let mut last = done.remove(k);
            last.push(c);
            done.push(last);
            assert(done@.map_values(|v: Vec<u8>| v@) =~= words(next));
        } else {
            let mut w: Vec<u8> = Vec::new();
            w.push(c);
            done.push(w);
            assert(done@.map_values(|v: Vec<u8>| v@) =~= words(next));
        }
        i = i + 1;
    }
    proof {
        assert(s@.subrange(0, s@.len() as int) =~= s@);
    }
    done
}


/// An ASCII decimal digit.
pub open spec fn is_digit(b: u8) -> bool {
    48 <= b && b <= 57
}

pub open spec fn digit_value(b: u8) -> nat {
    (b - 48) as nat
}

pub open spec fn all_digits(s: Seq<u8>) -> bool {
    forall|i: int| 0 <= i < s.len() ==> is_digit(#[trigger] s[i])
}

/// The number that a string of decimal digits writes.
pub open spec fn decimal_value(s: Seq<u8>) -> nat
    decreases s.len(),
{
    if s.len() == 0 {
        0
    } else {
        decimal_value(s.drop_last()) * 10 + digit_value(s.last())
    }
}

/// The number written by `s` if it is one or more decimal digits.
pub open spec fn digits_value(s: Seq<u8>) -> Option<nat> {
    if s.len() > 0 && all_digits(s) {
        Some(decimal_value(s))
    } else {
        None
    }
}

/// The natural number that `s` writes: digits, after an optional `+`.
pub open spec fn nat_of(s: Seq<u8>) -> Option<nat> {
    if s.len() > 0 && s[0] == 43 {
        digits_value(s.skip(1))
    } else {
        digits_value(s)
    }
}

/// The integer that `s` writes: digits, after an optional `+` or `-`.
pub open spec fn int_of(s: Seq<u8>) -> Option<int> {
    if s.len() > 0 && s[0] == 45 {
        match digits_value(s.skip(1)) {
            Some(v) => Some(-v),
            None => None,
        }
    } else {
        match nat_of(s) {
            Some(v) => Some(v as int),
            None => None,
        }
    }
}

pub proof fn lemma_decimal_prefix(d: Seq<u8>, k: int)
    requires
        all_digits(d),
        0 <= k <= d.len(),
    ensures
        decimal_value(d.subrange(0, k)) <= decimal_value(d),
    decreases d.len(),
{
    if k == d.len() {
        assert(d.subrange(0, k) =~= d);
    } else {
        let e = d.drop_last();
        assert(all_digits(e));
        lemma_decimal_prefix(e, k);
        assert(e.subrange(0, k) =~= d.subrange(0, k));
    }
}

/// The value of the digits of `s` from `start` on, where they are one or
/// more digits whose value fits `u64`.
fn digits_from(s: &Vec<u8>, start: usize) -> (r: Option<u64>)
    requires
        start <= s@.len(),
    ensures
        r is Some <==> (digits_value(s@.skip(start as int)) matches Some(v) && v <= u64::MAX),
        r matches Some(v) ==> digits_value(s@.skip(start as int)) == Some(v as nat),
{
    let ghost d = s@.skip(start as int);
    if start >= s.len() {
        return None;
    }
    let mut acc: u64 = 0;
    let mut i: usize = start;
    proof {
        assert(d.subrange(0, 0) =~= Seq::<u8>::empty());
    }
    while i < s.len()
        invariant
            start <= i <= s@.len(),
            d == s@.skip(start as int),
            all_digits(d.subrange(0, i - start)),
            acc == decimal_value(d.subrange(0, i - start)),
        decreases s@.len() - i,
    {
        let c = s[i];
        let ghost pre = d.subrange(0, i - start);
        let ghost next = d.subrange(0, i - start + 1);
        proof {
            assert(next.drop_last() =~= pre);
            assert(next.last() == c);
        }
        if !(48 <= c && c <= 57) {
            assert(!all_digits(d));
            return None;
        }
        let v = acc.checked_mul(10);
        let w = match v {
            Some(m) => m.checked_add((c - 48) as u64),
            None => None,
        };
        match w {
            Some(x) => {
                acc = x;
            },
            None => {
                proof {
                    if all_digits(d) {
                        lemma_decimal_prefix(d, i - start + 1);
                    }
                }
                return None;
            },
        }
        i = i + 1;
    }
    proof {
        assert(d.subrange(0, i - start) =~= d);
    }
    Some(acc)
}

/// Reads an unsigned number: digits after an optional `+`.
pub fn parse_u64(s: &Vec<u8>) -> (r: Option<u64>)
    ensures
        r is Some <==> (nat_of(s@) matches Some(v) && v <= u64::MAX),
        r matches Some(v) ==> nat_of(s@) == Some(v as nat),
{
    if s.len() > 0 && s[0] == 43 {
        digits_from(s, 1)
    } else {
        proof {
            assert(s@.skip(0) =~= s@);
        }
        digits_from(s, 0)
    }
}

/// Reads a signed number that fits `i32`: digits after an optional `+` or
/// `-`.
pub fn parse_i32(s: &Vec<u8>) -> (r: Option<i32>)
    ensures
        r is Some <==> (int_of(s@) matches Some(v) && i32::MIN <= v <= i32::MAX),
        r matches Some(v) ==> int_of(s@) == Some(v as int),
{
    if s.len() > 0 && s[0] == 45 {
        match digits_from(s, 1) {
            Some(m) => {
                if m <= 2147483648 {
                    Some((0 - (m as i64)) as i32)
                } else {
                    None
                }
            },
            None => None,
        }
    } else {
        match parse_u64(s) {
            Some(m) => {
                if m <= 2147483647 {
                    Some(m as i32)
                } else {
                    None
                }
            },
            None => None,
        }
    }
}


/// The pieces of `s` between occurrences of `a` or `b`; there is always at
/// least one piece.
pub open spec fn split_either(s: Seq<u8>, a: u8, b: u8) -> Seq<Seq<u8>>
    decreases s.len(),
{
    if s.len() == 0 {
        seq![Seq::<u8>::empty()]
    } else {
        let p = split_either(s.drop_last(), a, b);
        if s.last() == a || s.last() == b {
            p.push(Seq::<u8>::empty())
        } else {
            p.update(p.len() - 1, p.last().push(s.last()))
        }
    }
}

/// Splits `s` at every `a` and every `b`.
pub fn split_pieces(s: &Vec<u8>, a: u8, b: u8) -> (r: Vec<Vec<u8>>)
    ensures
        r@.map_values(|v: Vec<u8>| v@) == split_either(s@, a, b),
        r@.len() >= 1,
{
    let mut done: Vec<Vec<u8>> = Vec::new();
    let mut cur: Vec<u8> = Vec::new();
    let mut i: usize = 0;
    assert(s@.subrange(0, 0) =~= Seq::<u8>::empty());
    assert(done@.map_values(|v: Vec<u8>| v@).push(cur@) =~= split_either(s@.subrange(0, 0), a, b));
    while i < s.len()
        invariant
            i <= s@.len(),
            done@.map_values(|v: Vec<u8>| v@).push(cur@) == split_either(
                s@.subrange(0, i as int),
                a,
                b,
            ),
        decreases s@.len() - i,
    {
        let c = s[i];
        let ghost pre = s@.subrange(0, i as int);
        let ghost next = s@.subrange(0, i as int + 1);
        let ghost before = done@;
        proof {
            assert(next.drop_last() =~= pre);
            assert(next.last() == c);
        }
        if c == a || c == b {
            let piece = cur;
            done.push(piece);
            cur = Vec::new();
            assert(done@.map_values(|v: Vec<u8>| v@) =~= before.map_values(|v: Vec<u8>| v@).push(
                piece@,
            ));
            assert(done@.map_values(|v: Vec<u8>| v@).push(cur@) =~= split_either(next, a, b));
        } else {
            cur.push(c);
            assert(done@.map_values(|v: Vec<u8>| v@).push(cur@) =~= split_either(next, a, b));
        }
        i = i + 1;
    }
    assert(s@.subrange(0, i as int) =~= s@);
    let ghost before = done@;
    done.push(cur);
    assert(done@.map_values(|v: Vec<u8>| v@) =~= before.map_values(|v: Vec<u8>| v@).push(cur@));
    done
}

/// `s` without leading spaces.
pub open spec fn trim_start(s: Seq<u8>) -> Seq<u8>
    decreases s.len(),
{
    if s.len() > 0 && is_space(s[0]) {
        trim_start(s.skip(1))
    } else {
        s
    }
}

/// `s` without trailing spaces.
pub open spec fn trim_end(s: Seq<u8>) -> Seq<u8>
    decreases s.len(),
{
    if s.len() > 0 && is_space(s.last()) {
        trim_end(s.drop_last())
    } else {
        s
    }
}

/// `s` without leading and trailing spaces.
pub open spec fn trim(s: Seq<u8>) -> Seq<u8> {
    trim_end(trim_start(s))
}

/// Removes leading and trailing spaces.
pub fn trim_bytes(s: &Vec<u8>) -> (r: Vec<u8>)
    ensures
        r@ == trim(s@),
{
    let n = s.len();
    let mut lo: usize = 0;
    assert(s@.skip(0) =~= s@);
    while lo < n && (s[lo] == 32 || (9 <= s[lo] && s[lo] <= 13))
        invariant
            lo <= n,
            n == s@.len(),
            trim_start(s@) == trim_start(s@.skip(lo as int)),
        decreases n - lo,
    {
        assert(s@.skip(lo as int).skip(1) =~= s@.skip(lo as int + 1));
        lo = lo + 1;
    }
    let ghost st = s@.skip(lo as int);
    assert(trim_start(s@) == st);
    let mut hi: usize = n;
    assert(st.subrange(0, (hi - lo) as int) =~= st);
    while hi > lo && (s[hi - 1] == 32 || (9 <= s[hi - 1] && s[hi - 1] <= 13))
        invariant
            lo <= hi <= n,
            n == s@.len(),
            st == s@.skip(lo as int),
            trim_end(st) == trim_end(st.subrange(0, (hi - lo) as int)),
        decreases hi,
    {
        assert(st.subrange(0, (hi - lo) as int).drop_last() =~= st.subrange(0, (hi - lo - 1) as int));
        hi = hi - 1;
    }
    let mut out: Vec<u8> = Vec::new();
    let mut i: usize = lo;
    while i < hi
        invariant
            lo <= i <= hi,
            hi <= n,
            n == s@.len(),
            out@ =~= s@.subrange(lo as int, i as int),
        decreases hi - i,
    {
        out.push(s[i]);
        i = i + 1;
    }
    assert(out@ =~= st.subrange(0, (hi - lo) as int));
    out
}

/// `s` with every occurrence of `w` removed, scanning from the front.
pub open spec fn remove_word(s: Seq<u8>, w: Seq<u8>) -> Seq<u8>
    decreases s.len(),
{
    if s.len() == 0 {
        s
    } else if w.len() > 0 && s.len() >= w.len() && s.subrange(0, w.len() as int) == w {
        remove_word(s.skip(w.len() as int), w)
    } else {
        seq![s[0]] + remove_word(s.skip(1), w)
    }
}

/// `s` holds `w` at position `i`.
fn holds_at(s: &Vec<u8>, i: usize, w: &Vec<u8>) -> (r: bool)
    requires
        i <= s@.len(),
    ensures
        r == (w@.len() <= s@.len() - i && s@.subrange(i as int, i + w@.len()) == w@),
{
    let n = s.len();
    let m = w.len();
    if m > n - i {
        return false;
    }
    let mut j: usize = 0;
    while j < m
        invariant
            n == s@.len(),
            m == w@.len(),
            i + m <= n,
            j <= m,
            forall|k: int| 0 <= k < j ==> s@[i + k] == w@[k],
        decreases m - j,
    {
        if s[i + j] != w[j] {
            assert(s@.subrange(i as int, i + m)[j as int] != w@[j as int]);
            return false;
        }
        j = j + 1;
    }
    assert(s@.subrange(i as int, i + m) =~= w@);
    true
}

/// Removes every occurrence of `w` from `s`, scanning from the front.
pub fn remove_bytes(s: &Vec<u8>, w: &Vec<u8>) -> (r: Vec<u8>)
    ensures
        r@ == remove_word(s@, w@),
{
    let n = s.len();
    let m = w.len();
    let mut out: Vec<u8> = Vec::new();
    let mut i: usize = 0;
    assert(s@.skip(0) =~= s@);
    while i < n
        invariant
            i <= n,
            n == s@.len(),
            m == w@.len(),
            remove_word(s@, w@) == out@ + remove_word(s@.skip(i as int), w@),
        decreases n - i,
    {
        let ghost rest = s@.skip(i as int);
        if m > 0 && holds_at(s, i, w) {
            assert(rest.subrange(0, m as int) =~= s@.subrange(i as int, i + m));
            assert(rest.skip(m as int) =~= s@.skip(i + m));
            i = i + m;
        } else {
            proof {
                if m > 0 && rest.len() >= m {
                    assert(rest.subrange(0, m as int) =~= s@.subrange(i as int, i + m));
                }
                assert(rest.skip(1) =~= s@.skip(i + 1));
            }
            let ghost before = out@;
            out.push(s[i]);
            assert(before + (seq![s@[i as int]] + remove_word(rest.skip(1), w@)) =~= out@
                + remove_word(rest.skip(1), w@));
            i = i + 1;
        }
    }
    assert(s@.skip(i as int) =~= Seq::<u8>::empty());
    assert(out@ + Seq::<u8>::empty() =~= out@);
    out
}


/// The pieces of `s` between non-overlapping occurrences of `w`, found
/// from the front; there is always at least one piece.
pub open spec fn split_str(s: Seq<u8>, w: Seq<u8>) -> Seq<Seq<u8>>
    decreases s.len(),
{
    if s.len() == 0 {
        seq![Seq::<u8>::empty()]
    } else if w.len() > 0 && s.len() >= w.len() && s.subrange(0, w.len() as int) == w {
        seq![Seq::<u8>::empty()] + split_str(s.skip(w.len() as int), w)
    } else {
        let r = split_str(s.skip(1), w);
        r.update(0, seq![s[0]] + r[0])
    }
}

pub proof fn lemma_split_str_nonempty(s: Seq<u8>, w: Seq<u8>)
    ensures
        split_str(s, w).len() >= 1,
    decreases s.len(),
{
    if s.len() > 0 {
        if w.len() > 0 && s.len() >= w.len() && s.subrange(0, w.len() as int) == w {
            lemma_split_str_nonempty(s.skip(w.len() as int), w);
        } else {
            lemma_split_str_nonempty(s.skip(1), w);
        }
    }
}

/// Splits `s` at every occurrence of `w`, scanning from the front.
pub fn split_at_word(s: &Vec<u8>, w: &Vec<u8>) -> (r: Vec<Vec<u8>>)
    ensures
        r@.map_values(|v: Vec<u8>| v@) == split_str(s@, w@),
{
    let n = s.len();
    let m = w.len();
    let mut done: Vec<Vec<u8>> = Vec::new();
    let mut cur: Vec<u8> = Vec::new();
    let mut i: usize = 0;
    assert(s@.skip(0) =~= s@);
    proof {
        lemma_split_str_nonempty(s@, w@);
        let r = split_str(s@, w@);
        assert(r =~= Seq::<Seq<u8>>::empty() + seq![Seq::<u8>::empty() + r[0]] + r.skip(1));
    }
    while i < n
        invariant
            i <= n,
            n == s@.len(),
            m == w@.len(),
            split_str(s@.skip(i as int), w@).len() >= 1,
            split_str(s@, w@) == done@.map_values(|v: Vec<u8>| v@) + seq![
                cur@ + split_str(s@.skip(i as int), w@)[0],
            ] + split_str(s@.skip(i as int), w@).skip(1),
        decreases n - i,
    {
        let ghost rest = s@.skip(i as int);
        let ghost r = split_str(rest, w@);
        let ghost before = done@;
        if m > 0 && holds_at(s, i, w) {
            proof {
                assert(rest.subrange(0, m as int) =~= s@.subrange(i as int, i + m));
                assert(rest.skip(m as int) =~= s@.skip(i + m));
                lemma_split_str_nonempty(rest.skip(m as int), w@);
            }
            let piece = cur;
            done.push(piece);
            cur = Vec::new();
            i = i + m;
            proof {
                let r2 = split_str(s@.skip(i as int), w@);
                assert(r == seq![Seq::<u8>::empty()] + r2);
                assert(r[0] =~= Seq::<u8>::empty());
                assert(r.skip(1) =~= r2);
                assert(done@.map_values(|v: Vec<u8>| v@) =~= before.map_values(|v: Vec<u8>| v@).push(
                    piece@,
                ));
                assert(piece@ + Seq::<u8>::empty() =~= piece@);
                assert(cur@ + r2[0] =~= r2[0]);
                assert(r2 =~= seq![r2[0]] + r2.skip(1));
                assert(split_str(s@, w@) =~= done@.map_values(|v: Vec<u8>| v@) + seq![
                    cur@ + r2[0],
                ] + r2.skip(1));
            }
        } else {
            proof {
                if m > 0 && rest.len() >= m {
                    assert(rest.subrange(0, m as int) =~= s@.subrange(i as int, i + m));
                }
                assert(rest.skip(1) =~= s@.skip(i + 1));
                lemma_split_str_nonempty(rest.skip(1), w@);
            }
            let ghost old_cur = cur@;
            cur.push(s[i]);
            i = i + 1;
            proof {
                let r2 = split_str(s@.skip(i as int), w@);
                assert(r == r2.update(0, seq![rest[0]] + r2[0]));
                assert(old_cur + r[0] =~= cur@ + r2[0]);
                assert(r.skip(1) =~= r2.skip(1));
            }
        }
    }
    proof {
        assert(s@.skip(i as int) =~= Seq::<u8>::empty());
        assert(cur@ + Seq::<u8>::empty() =~= cur@);
    }
    let ghost before = done@;
    let last = cur;
    done.push(last);
    assert(done@.map_values(|v: Vec<u8>| v@) =~= before.map_values(|v: Vec<u8>| v@).push(last@));
    assert(split_str(s@, w@) =~= done@.map_values(|v: Vec<u8>| v@));
    done
}

/// `s` without leading and trailing bytes equal to `a` or `b`.
pub open spec fn trim_either(s: Seq<u8>, a: u8, b: u8) -> Seq<u8> {
    trim_end_either(trim_start_either(s, a, b), a, b)
}

pub open spec fn trim_start_either(s: Seq<u8>, a: u8, b: u8) -> Seq<u8>
    decreases s.len(),
{
    if s.len() > 0 && (s[0] == a || s[0] == b) {
        trim_start_either(s.skip(1), a, b)
    } else {
        s
    }
}

pub open spec fn trim_end_either(s: Seq<u8>, a: u8, b: u8) -> Seq<u8>
    decreases s.len(),
{
    if s.len() > 0 && (s.last() == a || s.last() == b) {
        trim_end_either(s.drop_last(), a, b)
    } else {
        s
    }
}

/// Removes leading and trailing bytes equal to `a` or `b`.
pub fn trim_bytes_either(s: &Vec<u8>, a: u8, b: u8) -> (r: Vec<u8>)
    ensures
        r@ == trim_either(s@, a, b),
{
    let n = s.len();
    let mut lo: usize = 0;
    assert(s@.skip(0) =~= s@);
    while lo < n && (s[lo] == a || s[lo] == b)
        invariant
            lo <= n,
            n == s@.len(),
            trim_start_either(s@, a, b) == trim_start_either(s@.skip(lo as int), a, b),
        decreases n - lo,
    {
        assert(s@.skip(lo as int).skip(1) =~= s@.skip(lo as int + 1));
        lo = lo + 1;
    }
    let ghost st = s@.skip(lo as int);
    let mut hi: usize = n;
    assert(st.subrange(0, (hi - lo) as int) =~= st);
    while hi > lo && (s[hi - 1] == a || s[hi - 1] == b)
        invariant
            lo <= hi <= n,
            n == s@.len(),
            st == s@.skip(lo as int),
            trim_end_either(st, a, b) == trim_end_either(st.subrange(0, (hi - lo) as int), a, b),
        decreases hi,
    {
        assert(st.subrange(0, (hi - lo) as int).drop_last() =~= st.subrange(0, (hi - lo - 1) as int));
        hi = hi - 1;
    }
    let mut out: Vec<u8> = Vec::new();
    let mut i: usize = lo;
    while i < hi
        invariant
            lo <= i <= hi,
            hi <= n,
            n == s@.len(),
            out@ =~= s@.subrange(lo as int, i as int),
        decreases hi - i,
    {
        out.push(s[i]);
        i = i + 1;
    }
    assert(out@ =~= st.subrange(0, (hi - lo) as int));
    out
}

} // verus!
