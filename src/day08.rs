//! Day 08: Haunted Wasteland. The first line is a cycle of `L`/`R` moves;
//! each further non-empty line, `AAA = (BBB, CCC)`, names a node and its
//! left and right successors.
use vstd::prelude::*;
use vstd::string::StringSliceAdditionalSpecFns;

use crate::text::{
    lines_of, split_at_word, split_lines, split_str, trim, trim_bytes, trim_bytes_either,
    trim_either, PuzzleError,
};

verus! {

/// A node label: three bytes.
pub type Label = (u8, u8, u8);

/// One move of the cycle.
#[derive(Clone, Copy, Debug, PartialEq, Eq, Structural)]
pub enum Direction {
    Left,
    Right,
}

/// The direction that byte `c` writes, if any.
pub open spec fn direction_of(c: u8) -> Option<Direction> {
    if c == 76 {
        Some(Direction::Left)
    } else if c == 82 {
        Some(Direction::Right)
    } else {
        None
    }
}

impl Direction {
    /// `L` is left and `R` is right; anything else is `InvalidDirection`.
    pub fn parse(c: u8) -> (r: Result<Direction, PuzzleError>)
        ensures
            r == (match direction_of(c) {
                Some(d) => Ok::<Direction, PuzzleError>(d),
                None => Err(PuzzleError::InvalidDirection),
            }),
    {
        if c == 76 {
            Ok(Direction::Left)
        } else if c == 82 {
            Ok(Direction::Right)
        } else {
            Err(PuzzleError::InvalidDirection)
        }
    }
}

/// A node and its left and right successors.
#[derive(Clone, Copy, Debug, PartialEq, Eq)]
pub struct Instruction {
    pub label: Label,
    pub values: (Label, Label),
}

/// The label that three bytes write.
pub open spec fn label_of(s: Seq<u8>) -> Option<Label> {
    if s.len() == 3 {
        Some((s[0], s[1], s[2]))
    } else {
        None
    }
}

/// The bytes ` = `.
pub open spec fn assign_word() -> Seq<u8> {
    seq![32u8, 61, 32]
}

/// The bytes `, `.
pub open spec fn comma_word() -> Seq<u8> {
    seq![44u8, 32]
}

/// The instruction of a line `<label> = (<left>, <right>)`: the label is
/// the text before the first ` = `, without surrounding spaces; after it
/// and up to any next ` = `, without surrounding parentheses, come the left
/// and right labels, separated by `, `.
pub open spec fn instruction_of(line: Seq<u8>) -> Result<Instruction, PuzzleError> {
    let parts = split_str(line, assign_word());
    if parts.len() < 2 {
        Err(PuzzleError::MissingField)
    } else {
        let values = split_str(trim_either(parts[1], 40, 41), comma_word());
        match label_of(values[0]) {
            None => Err(PuzzleError::InvalidLabel),
            Some(left) => if values.len() < 2 {
                Err(PuzzleError::MissingField)
            } else {
                match label_of(values[1]) {
                    None => Err(PuzzleError::InvalidLabel),
                    Some(right) => match label_of(trim(parts[0])) {
                        None => Err(PuzzleError::InvalidLabel),
                        Some(label) => Ok(Instruction { label, values: (left, right) }),
                    },
                }
            },
        }
    }
}

/// The label of three bytes.
fn read_label(s: &Vec<u8>) -> (r: Option<Label>)
    ensures
        r == label_of(s@),
{
    if s.len() == 3 {
        Some((s[0], s[1], s[2]))
    } else {
        None
    }
}

impl Instruction {
    /// Reads a line `<label> = (<left>, <right>)`.
    pub fn parse(s: &Vec<u8>) -> (r: Result<Instruction, PuzzleError>)
        ensures
            r == instruction_of(s@),
    {
        let assign: Vec<u8> = vec![32u8, 61, 32];
        assert(assign@ =~= assign_word());
        let parts = split_at_word(s, &assign);
        let ghost pv = parts@.map_values(|v: Vec<u8>| v@);
        proof {
            crate::text::lemma_split_str_nonempty(s@, assign_word());
        }
        if parts.len() < 2 {
            return Err(PuzzleError::MissingField);
        }
        assert(pv[0] == parts@[0]@ && pv[1] == parts@[1]@);
        let inner = trim_bytes_either(&parts[1], 40, 41);
        let comma: Vec<u8> = vec![44u8, 32];
        assert(comma@ =~= comma_word());
        let values = split_at_word(&inner, &comma);
        let ghost vv = values@.map_values(|v: Vec<u8>| v@);
        proof {
            crate::text::lemma_split_str_nonempty(inner@, comma_word());
        }
        assert(vv[0] == values@[0]@);
        let left = match read_label(&values[0]) {
            Some(l) => l,
            None => {
                return Err(PuzzleError::InvalidLabel);
            },
        };
        if values.len() < 2 {
            return Err(PuzzleError::MissingField);
        }
        assert(vv[1] == values@[1]@);
        let right = match read_label(&values[1]) {
            Some(l) => l,
            None => {
                return Err(PuzzleError::InvalidLabel);
            },
        };
        let name = trim_bytes(&parts[0]);
        let label = match read_label(&name) {
            Some(l) => l,
            None => {
                return Err(PuzzleError::InvalidLabel);
            },
        };
        Ok(Instruction { label, values: (left, right) })
    }
}


/// The position of a label in byte-wise order.
pub open spec fn code(l: Label) -> int {
    l.0 as int * 65536 + l.1 as int * 256 + l.2 as int
}

/// The label at position `c` of byte-wise order.
pub open spec fn label_at(c: int) -> Label {
    ((c / 65536) as u8, ((c / 256) % 256) as u8, (c % 256) as u8)
}

pub open spec fn label_count() -> int {
    16777216
}

proof fn lemma_code_round_trip(l: Label)
    ensures
        0 <= code(l) < label_count(),
        label_at(code(l)) == l,
{
    let a = l.0 as int;
    let b = l.1 as int;
    let c = l.2 as int;
    let x = code(l);
    assert(x / 65536 == a) by {
        vstd::arithmetic::div_mod::lemma_fundamental_div_mod_converse(x, 65536, a, b * 256 + c);
    }
    assert(x / 256 == a * 256 + b) by {
        vstd::arithmetic::div_mod::lemma_fundamental_div_mod_converse(x, 256, a * 256 + b, c);
    }
    assert((a * 256 + b) % 256 == b) by {
        vstd::arithmetic::div_mod::lemma_fundamental_div_mod_converse(a * 256 + b, 256, a, b);
    }
    assert(x % 256 == c) by {
        vstd::arithmetic::div_mod::lemma_fundamental_div_mod_converse(x, 256, a * 256 + b, c);
    }
}

proof fn lemma_label_at_code(j: int)
    requires
        0 <= j < label_count(),
    ensures
        code(label_at(j)) == j,
{
    assert(j == (j / 65536) * 65536 + (j % 65536)) by {
        vstd::arithmetic::div_mod::lemma_fundamental_div_mod(j, 65536);
    }
    assert(code(label_at(j)) == j) by {
        vstd::arithmetic::div_mod::lemma_fundamental_div_mod(j, 256);
        vstd::arithmetic::div_mod::lemma_fundamental_div_mod(j / 256, 256);
        vstd::arithmetic::div_mod::lemma_div_denominator(j, 256, 256);
        vstd::arithmetic::div_mod::lemma_div_pos_is_pos(j, 65536);
        vstd::arithmetic::div_mod::lemma_div_is_ordered(j, label_count() - 1, 65536);
        vstd::arithmetic::div_mod::lemma_mod_bound(j, 256);
        vstd::arithmetic::div_mod::lemma_mod_bound(j / 256, 256);
    }
}

/// The successors of `l`, from the last instruction that names it.
pub open spec fn lookup(instrs: Seq<Instruction>, l: Label) -> Option<(Label, Label)>
    decreases instrs.len(),
{
    if instrs.len() == 0 {
        None
    } else if instrs.last().label == l {
        Some(instrs.last().values)
    } else {
        lookup(instrs.drop_last(), l)
    }
}

proof fn lemma_lookup_some(instrs: Seq<Instruction>, l: Label)
    ensures
        lookup(instrs, l) is Some <==> exists|i: int| 0 <= i < instrs.len() && instrs[i].label == l,
    decreases instrs.len(),
{
    if instrs.len() > 0 {
        lemma_lookup_some(instrs.drop_last(), l);
        if lookup(instrs.drop_last(), l) is Some {
            let i = choose|i: int| 0 <= i < instrs.len() - 1 && instrs.drop_last()[i].label == l;
            assert(instrs[i].label == l);
        }
        if exists|i: int| 0 <= i < instrs.len() && instrs[i].label == l {
            let i = choose|i: int| 0 <= i < instrs.len() && instrs[i].label == l;
            if i < instrs.len() - 1 {
                assert(instrs.drop_last()[i].label == l);
            }
        }
    }
}

/// The labels that instructions name, in byte-wise order from position
/// `lo` on.
pub open spec fn keys_from(instrs: Seq<Instruction>, lo: int) -> Seq<Label>
    decreases label_count() - lo,
{
    if lo < 0 || lo >= label_count() {
        Seq::<Label>::empty()
    } else if lookup(instrs, label_at(lo)) is Some {
        seq![label_at(lo)] + keys_from(instrs, lo + 1)
    } else {
        keys_from(instrs, lo + 1)
    }
}

/// The labels that instructions name, each once, in byte-wise order.
pub open spec fn sorted_keys(instrs: Seq<Instruction>) -> Seq<Label> {
    keys_from(instrs, 0)
}

proof fn lemma_keys_skip(instrs: Seq<Instruction>, lo: int, k: int)
    requires
        0 <= lo <= k <= label_count(),
        forall|j: int| lo <= j < k ==> lookup(instrs, label_at(j)) is None,
    ensures
        keys_from(instrs, lo) == keys_from(instrs, k),
    decreases k - lo,
{
    if lo < k {
        lemma_keys_skip(instrs, lo + 1, k);
    }
}

/// The network: every instruction read, the last one for a label counting.
#[derive(Debug)]
pub struct InstructionMap {
    instructions: Vec<Instruction>,
}

/// The least position in byte-wise order, from `lo` on, of a label that
/// the instructions name, and that label.
fn next_label(instrs: &Vec<Instruction>, lo: u32) -> (r: Option<(u32, Label)>)
    ensures
        r matches Some((c, l)) ==> lo <= c < label_count() && l == label_at(c as int) && lookup(
            instrs@,
            l,
        ) is Some && forall|j: int| lo <= j < c ==> lookup(instrs@, label_at(j)) is None,
        r is None ==> forall|j: int| lo <= j < label_count() ==> lookup(instrs@, label_at(j)) is None,
{
    let mut best: Option<(u32, Label)> = None;
    let mut i: usize = 0;
    while i < instrs.len()
        invariant
            i <= instrs@.len(),
            best matches Some((c, l)) ==> lo <= c && c == code(l) && exists|t: int|
                0 <= t < i && instrs@[t].label == l,
            forall|t: int|
                0 <= t < i && code(instrs@[t].label) >= lo ==> (best matches Some((c, l)) && c
                    <= code(instrs@[t].label)),
        decreases instrs@.len() - i,
    {
        let l = instrs[i].label;
        let c = (l.0 as u32) * 65536 + (l.1 as u32) * 256 + (l.2 as u32);
        if c >= lo {
            match best {
                Some((b, _)) => {
                    if c < b {
                        best = Some((c, l));
                    }
                },
                None => {
                    best = Some((c, l));
                },
            }
        }
        i = i + 1;
    }
    proof {
        assert forall|j: int|
            lo <= j < label_count() && (best is None || j < best->Some_0.0) implies lookup(
            instrs@,
            label_at(j),
        ) is None by {
            lemma_lookup_some(instrs@, label_at(j));
            if lookup(instrs@, label_at(j)) is Some {
                let t = choose|t: int| 0 <= t < instrs@.len() && instrs@[t].label == label_at(j);
                lemma_code_round_trip(instrs@[t].label);
                lemma_label_at_code(j);
            }
        }
        if let Some((c, l)) = best {
            lemma_code_round_trip(l);
            lemma_lookup_some(instrs@, l);
        }
    }
    best
}

impl InstructionMap {
    /// The instructions read, in order.
    pub closed spec fn entries(&self) -> Seq<Instruction> {
        self.instructions@
    }

    /// The successors of `label`; `UnknownNode` where no instruction names
    /// it.
    pub fn get(&self, label: &Label) -> (r: Result<(Label, Label), PuzzleError>)
        ensures
            r == (match lookup(self.entries(), *label) {
                Some(v) => Ok::<(Label, Label), PuzzleError>(v),
                None => Err(PuzzleError::UnknownNode),
            }),
    {
        let mut i: usize = self.instructions.len();
        assert(self.instructions@.subrange(0, i as int) =~= self.instructions@);
        while i > 0
            invariant
                i <= self.instructions@.len(),
                lookup(self.instructions@, *label) == lookup(
                    self.instructions@.subrange(0, i as int),
                    *label,
                ),
            decreases i,
        {
            let ins = self.instructions[i - 1];
            assert(self.instructions@.subrange(0, i as int).drop_last() =~= self.instructions@.subrange(
                0,
                i - 1,
            ));
            if ins.label.0 == label.0 && ins.label.1 == label.1 && ins.label.2 == label.2 {
                return Ok(ins.values);
            }
            i = i - 1;
        }
        Err(PuzzleError::UnknownNode)
    }

    /// The left successor of `label`.
    pub fn get_left(&self, label: &Label) -> (r: Result<Label, PuzzleError>)
        ensures
            r == (match lookup(self.entries(), *label) {
                Some(v) => Ok::<Label, PuzzleError>(v.0),
                None => Err(PuzzleError::UnknownNode),
            }),
    {
        match self.get(label) {
            Ok(v) => Ok(v.0),
            Err(e) => Err(e),
        }
    }

    /// The right successor of `label`.
    pub fn get_right(&self, label: &Label) -> (r: Result<Label, PuzzleError>)
        ensures
            r == (match lookup(self.entries(), *label) {
                Some(v) => Ok::<Label, PuzzleError>(v.1),
                None => Err(PuzzleError::UnknownNode),
            }),
    {
        match self.get(label) {
            Ok(v) => Ok(v.1),
            Err(e) => Err(e),
        }
    }

    /// The labels of the network, each once, in byte-wise order.
    pub fn keys(&self) -> (r: Vec<Label>)
        ensures
            r@ == sorted_keys(self.entries()),
    {
        let mut out: Vec<Label> = Vec::new();
        let mut lo: u32 = 0;
        assert(sorted_keys(self.entries()) =~= out@ + keys_from(self.entries(), 0));
        while lo < 16777216
            invariant
                lo <= label_count(),
                sorted_keys(self.entries()) == out@ + keys_from(self.entries(), lo as int),
            decreases label_count() - lo,
        {
            match next_label(&self.instructions, lo) {
                None => {
                    proof {
                        lemma_keys_skip(self.entries(), lo as int, label_count());
                        assert(out@ + Seq::<Label>::empty() =~= out@);
                    }
                    return out;
                },
                Some((c, l)) => {
                    proof {
                        lemma_keys_skip(self.entries(), lo as int, c as int);
                        assert(out@.push(l) + keys_from(self.entries(), c + 1) =~= out@ + (seq![l]
                            + keys_from(self.entries(), c + 1)));
                    }
                    out.push(l);
                    lo = c + 1;
                },
            }
        }
        assert(out@ + Seq::<Label>::empty() =~= out@);
        out
    }

    /// The successors of each label, in the order of `keys`.
    pub fn values(&self) -> (r: Vec<(Label, Label)>)
        ensures
            r@.len() == sorted_keys(self.entries()).len(),
            forall|i: int|
                0 <= i < r@.len() ==> lookup(self.entries(), sorted_keys(self.entries())[i])
                    == Some(#[trigger] r@[i]),
    {
        let keys = self.keys();
        let mut out: Vec<(Label, Label)> = Vec::new();
        let mut i: usize = 0;
        while i < keys.len()
            invariant
                keys@ == sorted_keys(self.entries()),
                i <= keys@.len(),
                out@.len() == i,
                forall|j: int|
                    0 <= j < i ==> lookup(self.entries(), keys@[j]) == Some(#[trigger] out@[j]),
            decreases keys@.len() - i,
        {
            proof {
                lemma_keys_present(self.entries(), 0, i as int);
            }
            match self.get(&keys[i]) {
                Ok(v) => {
                    out.push(v);
                },
                Err(_) => {
                    assert(false);
                    return out;
                },
            }
            i = i + 1;
        }
        out
    }
}

proof fn lemma_keys_present(instrs: Seq<Instruction>, lo: int, i: int)
    requires
        0 <= i < keys_from(instrs, lo).len(),
    ensures
        lookup(instrs, keys_from(instrs, lo)[i]) is Some,
    decreases label_count() - lo,
{
    if 0 <= lo < label_count() {
        if lookup(instrs, label_at(lo)) is Some {
            if i > 0 {
                lemma_keys_present(instrs, lo + 1, i - 1);
            }
        } else {
            lemma_keys_present(instrs, lo + 1, i);
        }
    }
}


/// The directions of the first line, where every byte is `L` or `R`.
pub open spec fn directions_of(line: Seq<u8>) -> Option<Seq<Direction>>
    decreases line.len(),
{
    if line.len() == 0 {
        Some(Seq::<Direction>::empty())
    } else {
        match directions_of(line.drop_last()) {
            None => None,
            Some(ds) => match direction_of(line.last()) {
                Some(d) => Some(ds.push(d)),
                None => None,
            },
        }
    }
}

/// The instructions of the non-empty lines, in order, or the first failure.
pub open spec fn instructions_of(lines: Seq<Seq<u8>>) -> Result<Seq<Instruction>, PuzzleError>
    decreases lines.len(),
{
    if lines.len() == 0 {
        Ok(Seq::<Instruction>::empty())
    } else {
        match instructions_of(lines.drop_last()) {
            Err(e) => Err(e),
            Ok(is) => if lines.last().len() == 0 {
                Ok(is)
            } else {
                match instruction_of(lines.last()) {
                    Err(e) => Err(e),
                    Ok(i) => Ok(is.push(i)),
                }
            },
        }
    }
}

/// The directions and the instructions of a network's lines.
pub open spec fn network_of(lines: Seq<Seq<u8>>) -> Result<
    (Seq<Direction>, Seq<Instruction>),
    PuzzleError,
> {
    if lines.len() == 0 {
        Err(PuzzleError::MissingField)
    } else {
        match directions_of(lines[0]) {
            None => Err(PuzzleError::InvalidDirection),
            Some(ds) => match instructions_of(lines.skip(1)) {
                Err(e) => Err(e),
                Ok(is) => Ok((ds, is)),
            },
        }
    }
}

proof fn lemma_directions_stay_none(line: Seq<u8>, k: int)
    requires
        0 <= k <= line.len(),
        directions_of(line.subrange(0, k)) is None,
    ensures
        directions_of(line) is None,
    decreases line.len() - k,
{
    if k == line.len() {
        assert(line.subrange(0, k) =~= line);
    } else {
        assert(line.subrange(0, k + 1).drop_last() =~= line.subrange(0, k));
        lemma_directions_stay_none(line, k + 1);
    }
}

proof fn lemma_instructions_stay_err(lines: Seq<Seq<u8>>, k: int)
    requires
        0 <= k <= lines.len(),
        instructions_of(lines.subrange(0, k)) is Err,
    ensures
        instructions_of(lines) == instructions_of(lines.subrange(0, k)),
    decreases lines.len() - k,
{
    if k == lines.len() {
        assert(lines.subrange(0, k) =~= lines);
    } else {
        assert(lines.subrange(0, k + 1).drop_last() =~= lines.subrange(0, k));
        lemma_instructions_stay_err(lines, k + 1);
    }
}

/// Reads the direction cycle and the network of `input`.
pub fn parse_directions_and_instructions(input: &str) -> (r: Result<
    (Vec<Direction>, InstructionMap),
    PuzzleError,
>)
    ensures
        match network_of(lines_of(input.spec_bytes())) {
            Err(e) => r matches Err(f) && f == e,
            Ok((ds, is)) => r matches Ok((d, m)) && d@ == ds && m.entries() == is,
        },
{
    let lines = split_lines(input.as_bytes());
    let ghost ls = lines_of(input.spec_bytes());
    if lines.len() == 0 {
        return Err(PuzzleError::MissingField);
    }
    let first = &lines[0];
    assert(first@ == ls[0]);
    let mut directions: Vec<Direction> = Vec::new();
    let mut i: usize = 0;
    assert(first@.subrange(0, 0) =~= Seq::<u8>::empty());
    while i < first.len()
        invariant
            ls == lines_of(input.spec_bytes()),
            ls.len() >= 1,
            first@ == ls[0],
            i <= first@.len(),
            directions_of(first@.subrange(0, i as int)) == Some(directions@),
        decreases first@.len() - i,
    {
        proof {
            let next = first@.subrange(0, i as int + 1);
            assert(next.drop_last() =~= first@.subrange(0, i as int));
            assert(next.last() == first@[i as int]);
        }
        match Direction::parse(first[i]) {
            Ok(d) => {
                directions.push(d);
            },
            Err(e) => {
                proof {
                    lemma_directions_stay_none(first@, i as int + 1);
                }
                return Err(e);
            },
        }
        i = i + 1;
    }
    assert(first@.subrange(0, i as int) =~= first@);
    let ghost rest = ls.skip(1);
    let mut instructions: Vec<Instruction> = Vec::new();
    let mut k: usize = 1;
    assert(rest.subrange(0, 0) =~= Seq::<Seq<u8>>::empty());
    while k < lines.len()
        invariant
            ls == lines_of(input.spec_bytes()),
            lines@.map_values(|v: Vec<u8>| v@) == ls,
            ls.len() >= 1,
            directions_of(ls[0]) == Some(directions@),
            rest == ls.skip(1),
            1 <= k <= lines@.len(),
            instructions_of(rest.subrange(0, k - 1)) == Ok::<Seq<Instruction>, PuzzleError>(
                instructions@,
            ),
        decreases lines@.len() - k,
    {
        proof {
            let next = rest.subrange(0, k as int);
            assert(next.drop_last() =~= rest.subrange(0, k - 1));
            assert(next.last() == lines@[k as int]@);
        }
        if lines[k].len() > 0 {
            match Instruction::parse(&lines[k]) {
                Ok(ins) => {
                    instructions.push(ins);
                },
                Err(e) => {
                    proof {
                        lemma_instructions_stay_err(rest, k as int);
                    }
                    return Err(e);
                },
            }
        }
        k = k + 1;
    }
    assert(rest.subrange(0, k - 1) =~= rest);
    Ok((directions, InstructionMap { instructions }))
}

/// Where a walk from `start` stands after `k` moves, or none once it has
/// stepped from a node that no instruction names.
pub open spec fn walk(
    instrs: Seq<Instruction>,
    directions: Seq<Direction>,
    start: Label,
    k: nat,
) -> Option<Label>
    decreases k,
{
    if k == 0 {
        Some(start)
    } else {
        match walk(instrs, directions, start, (k - 1) as nat) {
            None => None,
            Some(l) => match lookup(instrs, l) {
                None => None,
                Some(v) => Some(
                    if directions[((k - 1) % directions.len() as int)] == Direction::Left {
                        v.0
                    } else {
                        v.1
                    },
                ),
            },
        }
    }
}

pub open spec fn start_label() -> Label {
    (65u8, 65u8, 65u8)
}

pub open spec fn end_label() -> Label {
    (90u8, 90u8, 90u8)
}

/// The number of moves from `AAA` to `ZZZ` through the network of `input`.
/// An empty direction cycle is `InvalidDirection`, stepping from a node
/// that no instruction names is `UnknownNode`, and a walk of more than
/// `u64::MAX` moves is `StepLimit`.
pub fn solve_part_1(input: &str) -> (r: Result<u64, PuzzleError>)
    ensures
        network_of(lines_of(input.spec_bytes())) matches Err(e) ==> r == Err::<u64, PuzzleError>(
            e,
        ),
        network_of(lines_of(input.spec_bytes())) matches Ok((ds, is)) ==> {
            &&& ds.len() == 0 ==> r == Err::<u64, PuzzleError>(PuzzleError::InvalidDirection)
            &&& r matches Ok(k) ==> walk(is, ds, start_label(), k as nat) == Some(end_label())
                && forall|j: nat|
                j < k ==> #[trigger] walk(is, ds, start_label(), j) is Some && walk(
                    is,
                    ds,
                    start_label(),
                    j,
                ) != Some(end_label())
            &&& r == Err::<u64, PuzzleError>(PuzzleError::UnknownNode) ==> exists|j: nat|
                #[trigger] walk(is, ds, start_label(), j) is None
            &&& r == Err::<u64, PuzzleError>(PuzzleError::StepLimit) ==> forall|j: nat|
                j <= u64::MAX ==> #[trigger] walk(is, ds, start_label(), j) is Some && walk(
                    is,
                    ds,
                    start_label(),
                    j,
                ) != Some(end_label())
            &&& ds.len() > 0 ==> (r is Ok || r == Err::<u64, PuzzleError>(PuzzleError::UnknownNode)
                || r == Err::<u64, PuzzleError>(PuzzleError::StepLimit))
        },
{
    let (directions, map) = match parse_directions_and_instructions(input) {
        Ok(p) => p,
        Err(e) => {
            return Err(e);
        },
    };
    let ghost ds = directions@;
    let ghost is = map.entries();
    if directions.len() == 0 {
        return Err(PuzzleError::InvalidDirection);
    }
    let mut cur: Label = (65u8, 65u8, 65u8);
    let mut steps: u64 = 0;
    while !(cur.0 == 90 && cur.1 == 90 && cur.2 == 90)
        invariant
            ds == directions@,
            is == map.entries(),
            ds.len() > 0,
            network_of(lines_of(input.spec_bytes())) == Ok::<
                (Seq<Direction>, Seq<Instruction>),
                PuzzleError,
            >((ds, is)),
            walk(is, ds, start_label(), steps as nat) == Some(cur),
            forall|j: nat|
                j < steps ==> #[trigger] walk(is, ds, start_label(), j) is Some && walk(
                    is,
                    ds,
                    start_label(),
                    j,
                ) != Some(end_label()),
        decreases u64::MAX - steps,
    {
        if steps == u64::MAX {
            assert forall|j: nat| j <= u64::MAX implies #[trigger] walk(
                is,
                ds,
                start_label(),
                j,
            ) is Some && walk(is, ds, start_label(), j) != Some(end_label()) by {
                if j == steps {
                }
            }
            return Err(PuzzleError::StepLimit);
        }
        let d = directions[(steps % directions.len() as u64) as usize];
        let next = match d {
            Direction::Left => map.get_left(&cur),
            Direction::Right => map.get_right(&cur),
        };
        match next {
            Ok(l) => {
                cur = l;
            },
            Err(e) => {
                assert(walk(is, ds, start_label(), (steps + 1) as nat) is None);
                assert(e == PuzzleError::UnknownNode);
                return Err(e);
            },
        }
        steps = steps + 1;
    }
    Ok(steps)
}


/// The labels among the first `n` of `ks` that end in `c`, in order.
pub open spec fn labels_ending(ks: Seq<Label>, c: u8, n: int) -> Seq<Label>
    decreases n,
{
    if n <= 0 {
        Seq::<Label>::empty()
    } else if ks[n - 1].2 == c {
        labels_ending(ks, c, n - 1).push(ks[n - 1])
    } else {
        labels_ending(ks, c, n - 1)
    }
}

/// Every walker's position after `k` moves, while every walk is still on
/// named nodes.
pub open spec fn all_walk(
    instrs: Seq<Instruction>,
    directions: Seq<Direction>,
    starts: Seq<Label>,
    k: nat,
) -> Option<Seq<Label>> {
    if forall|i: int|
        0 <= i < starts.len() ==> (#[trigger] walk(instrs, directions, starts[i], k)) is Some {
        Some(Seq::new(starts.len(), |i: int| walk(instrs, directions, starts[i], k)->Some_0))
    } else {
        None
    }
}

/// The last position of label `l` in a record, or -1.
pub open spec fn rec_index(rec: Seq<(Label, u64)>, l: Label) -> int
    decreases rec.len(),
{
    if rec.len() == 0 {
        -1
    } else if rec.last().0 == l {
        rec.len() - 1
    } else {
        rec_index(rec.drop_last(), l)
    }
}

proof fn lemma_rec_index(rec: Seq<(Label, u64)>, l: Label)
    ensures
        -1 <= rec_index(rec, l) < rec.len(),
        rec_index(rec, l) >= 0 ==> rec[rec_index(rec, l)].0 == l,
        rec_index(rec, l) < 0 ==> forall|i: int| 0 <= i < rec.len() ==> rec[i].0 != l,
    decreases rec.len(),
{
    if rec.len() > 0 && rec.last().0 != l {
        lemma_rec_index(rec.drop_last(), l);
        if rec_index(rec, l) < 0 {
            assert forall|i: int| 0 <= i < rec.len() implies rec[i].0 != l by {
                if i < rec.len() - 1 {
                    assert(rec.drop_last()[i] == rec[i]);
                }
            }
        }
    }
}

/// The record after a walker stood on goal `l` at step `s`: the step of
/// `l` becomes `s`, and a new goal joins at the end.
pub open spec fn record(rec: Seq<(Label, u64)>, l: Label, s: u64) -> Seq<(Label, u64)> {
    let i = rec_index(rec, l);
    if i >= 0 {
        rec.update(i, (l, s))
    } else {
        rec.push((l, s))
    }
}

/// The record after the first `m` walkers, at positions `ps`, took step
/// `s`: each one on a label ending in `Z` records it.
pub open spec fn record_goals(rec: Seq<(Label, u64)>, ps: Seq<Label>, s: u64, m: int) -> Seq<
    (Label, u64),
>
    decreases m,
{
    if m <= 0 {
        rec
    } else {
        let r = record_goals(rec, ps, s, m - 1);
        if ps[m - 1].2 == 90 {
            record(r, ps[m - 1], s)
        } else {
            r
        }
    }
}

/// The goals reached in the first `k` moves, each with the last step at
/// which a walker stood on it, in order of first arrival.
pub open spec fn rec_at(
    instrs: Seq<Instruction>,
    directions: Seq<Direction>,
    starts: Seq<Label>,
    k: nat,
) -> Seq<(Label, u64)>
    decreases k,
{
    if k == 0 {
        Seq::<(Label, u64)>::empty()
    } else {
        match all_walk(instrs, directions, starts, k) {
            Some(ps) => record_goals(
                rec_at(instrs, directions, starts, (k - 1) as nat),
                ps,
                k as u64,
                starts.len() as int,
            ),
            None => rec_at(instrs, directions, starts, (k - 1) as nat),
        }
    }
}

/// The walkers move from step `k` on until as many goals have been reached
/// as there are walkers; at most `fuel` more moves.
pub open spec fn cycle_search(
    instrs: Seq<Instruction>,
    directions: Seq<Direction>,
    starts: Seq<Label>,
    k: nat,
    fuel: nat,
) -> Result<Seq<(Label, u64)>, PuzzleError>
    decreases fuel,
{
    if rec_at(instrs, directions, starts, k).len() == starts.len() {
        Ok(rec_at(instrs, directions, starts, k))
    } else if directions.len() == 0 {
        Err(PuzzleError::InvalidDirection)
    } else if fuel == 0 {
        Err(PuzzleError::StepLimit)
    } else if all_walk(instrs, directions, starts, k + 1) is None {
        Err(PuzzleError::UnknownNode)
    } else {
        cycle_search(instrs, directions, starts, k + 1, (fuel - 1) as nat)
    }
}

pub open spec fn gcd(a: nat, b: nat) -> nat
    decreases b,
{
    if b == 0 {
        a
    } else {
        gcd(b, a % b)
    }
}

/// The step recorded for label `l`.
pub open spec fn rec_lookup(rec: Seq<(Label, u64)>, l: Label) -> Option<u64> {
    if rec_index(rec, l) >= 0 {
        Some(rec[rec_index(rec, l)].1)
    } else {
        None
    }
}

/// `acc` folded, by least common multiple, with the steps recorded for the
/// labels from position `lo` of byte-wise order on; none where a product
/// leaves `u64` or a divisor is zero.
pub open spec fn lcm_from(rec: Seq<(Label, u64)>, lo: int, acc: nat) -> Option<nat>
    decreases label_count() - lo,
{
    if lo < 0 || lo >= label_count() {
        Some(acc)
    } else {
        match rec_lookup(rec, label_at(lo)) {
            None => lcm_from(rec, lo + 1, acc),
            Some(v) => if acc * v > u64::MAX || gcd(acc, v as nat) == 0 {
                None
            } else {
                lcm_from(rec, lo + 1, ((acc * v) as nat / gcd(acc, v as nat)) as nat)
            },
        }
    }
}

/// The answer of the second part.
pub open spec fn ghost_answer(lines: Seq<Seq<u8>>) -> Result<u64, PuzzleError> {
    match network_of(lines) {
        Err(e) => Err(e),
        Ok((ds, is)) => {
            let ks = sorted_keys(is);
            match cycle_search(is, ds, labels_ending(ks, 65, ks.len() as int), 0, u64::MAX as nat) {
                Err(e) => Err(e),
                Ok(rec) => match lcm_from(rec, 0, 1) {
                    None => Err(PuzzleError::Overflow),
                    Some(v) => Ok(v as u64),
                },
            }
        },
    }
}


/// The labels of `ks` that end in `c`, in order.
fn labels_with_end(ks: &Vec<Label>, c: u8) -> (r: Vec<Label>)
    ensures
        r@ == labels_ending(ks@, c, ks@.len() as int),
{
    let mut out: Vec<Label> = Vec::new();
    let mut i: usize = 0;
    while i < ks.len()
        invariant
            i <= ks@.len(),
            out@ == labels_ending(ks@, c, i as int),
        decreases ks@.len() - i,
    {
        if ks[i].2 == c {
            out.push(ks[i]);
        }
        i = i + 1;
    }
    out
}

/// The last position of label `l` in a record.
fn rec_find(rec: &Vec<(Label, u64)>, l: Label) -> (r: Option<usize>)
    ensures
        r matches Some(i) ==> i == rec_index(rec@, l),
        r is None ==> rec_index(rec@, l) < 0,
{
    let mut i: usize = rec.len();
    assert(rec@.subrange(0, i as int) =~= rec@);
    while i > 0
        invariant
            i <= rec@.len(),
            rec_index(rec@, l) == rec_index(rec@.subrange(0, i as int), l),
        decreases i,
    {
        let e = rec[i - 1];
        assert(rec@.subrange(0, i as int).drop_last() =~= rec@.subrange(0, i - 1));
        if e.0.0 == l.0 && e.0.1 == l.1 && e.0.2 == l.2 {
            return Some(i - 1);
        }
        i = i - 1;
    }
    None
}

/// Records that a walker stood on goal `l` at step `s`.
fn record_exec(rec: &mut Vec<(Label, u64)>, l: Label, s: u64)
    ensures
        final(rec)@ == record(old(rec)@, l, s),
{
    match rec_find(rec, l) {
        Some(i) => {
            proof {
                lemma_rec_index(old(rec)@, l);
            }
            rec.set(i, (l, s));
        },
        None => {
            rec.push((l, s));
        },
    }
}

proof fn lemma_record_goals_prefix(
    rec: Seq<(Label, u64)>,
    ps1: Seq<Label>,
    ps2: Seq<Label>,
    s: u64,
    m: int,
)
    requires
        m <= ps1.len(),
        m <= ps2.len(),
        forall|j: int| 0 <= j < m ==> ps1[j] == ps2[j],
    ensures
        record_goals(rec, ps1, s, m) == record_goals(rec, ps2, s, m),
    decreases m,
{
    if m > 0 {
        lemma_record_goals_prefix(rec, ps1, ps2, s, m - 1);
    }
}

/// The least position in byte-wise order, from `lo` on, of a recorded
/// label, and that label.
fn next_recorded(rec: &Vec<(Label, u64)>, lo: u32) -> (r: Option<(u32, Label)>)
    ensures
        r matches Some((c, l)) ==> lo <= c < label_count() && l == label_at(c as int)
            && rec_lookup(rec@, l) is Some && forall|j: int|
            lo <= j < c ==> rec_lookup(rec@, label_at(j)) is None,
        r is None ==> forall|j: int|
            lo <= j < label_count() ==> rec_lookup(rec@, label_at(j)) is None,
{
    let mut best: Option<(u32, Label)> = None;
    let mut i: usize = 0;
    while i < rec.len()
        invariant
            i <= rec@.len(),
            best matches Some((c, l)) ==> lo <= c && c == code(l) && exists|t: int|
                0 <= t < i && rec@[t].0 == l,
            forall|t: int|
                0 <= t < i && code(rec@[t].0) >= lo ==> (best matches Some((c, l)) && c <= code(
                    rec@[t].0,
                )),
        decreases rec@.len() - i,
    {
        let l = rec[i].0;
        let c = (l.0 as u32) * 65536 + (l.1 as u32) * 256 + (l.2 as u32);
        if c >= lo {
            match best {
                Some((b, _)) => {
                    if c < b {
                        best = Some((c, l));
                    }
                },
                None => {
                    best = Some((c, l));
                },
            }
        }
        i = i + 1;
    }
    proof {
        assert forall|j: int|
            lo <= j < label_count() && (best is None || j < best->Some_0.0) implies rec_lookup(
            rec@,
            label_at(j),
        ) is None by {
            lemma_rec_index(rec@, label_at(j));
            if rec_lookup(rec@, label_at(j)) is Some {
                let t = rec_index(rec@, label_at(j));
                lemma_code_round_trip(rec@[t].0);
                lemma_label_at_code(j);
            }
        }
        if let Some((c, l)) = best {
            lemma_code_round_trip(l);
            lemma_rec_index(rec@, l);
        }
    }
    best
}

fn gcd_exec(a: u64, b: u64) -> (r: u64)
    ensures
        r == gcd(a as nat, b as nat),
    decreases b,
{
    if b == 0 {
        a
    } else {
        gcd_exec(b, a % b)
    }
}

proof fn lemma_lcm_skip(rec: Seq<(Label, u64)>, lo: int, k: int, acc: nat)
    requires
        0 <= lo <= k <= label_count(),
        forall|j: int| lo <= j < k ==> rec_lookup(rec, label_at(j)) is None,
    ensures
        lcm_from(rec, lo, acc) == lcm_from(rec, k, acc),
    decreases k - lo,
{
    if lo < k {
        lemma_lcm_skip(rec, lo + 1, k, acc);
    }
}

/// The least common multiple of the recorded steps, folded in byte-wise
/// order of their labels.
fn lcm_of_record(rec: &Vec<(Label, u64)>) -> (r: Result<u64, PuzzleError>)
    ensures
        r == (match lcm_from(rec@, 0, 1) {
            None => Err::<u64, PuzzleError>(PuzzleError::Overflow),
            Some(v) => Ok(v as u64),
        }),
{
    let mut acc: u64 = 1;
    let mut lo: u32 = 0;
    while lo < 16777216
        invariant
            lo <= label_count(),
            lcm_from(rec@, 0, 1) == lcm_from(rec@, lo as int, acc as nat),
        decreases label_count() - lo,
    {
        match next_recorded(rec, lo) {
            None => {
                proof {
                    lemma_lcm_skip(rec@, lo as int, label_count(), acc as nat);
                }
                return Ok(acc);
            },
            Some((c, l)) => {
                proof {
                    lemma_lcm_skip(rec@, lo as int, c as int, acc as nat);
                    lemma_rec_index(rec@, l);
                }
                let i = match rec_find(rec, l) {
                    Some(i) => i,
                    None => {
                        return Err(PuzzleError::Overflow);
                    },
                };
                let v = rec[i].1;
                assert((acc as u128) * (v as u128) <= u64::MAX as u128 * u64::MAX as u128)
                    by (nonlinear_arith)
                    requires
                        acc <= u64::MAX,
                        v <= u64::MAX,
                ;
                let p = (acc as u128) * (v as u128);
                if p > u64::MAX as u128 {
                    return Err(PuzzleError::Overflow);
                }
                let g = gcd_exec(acc, v);
                if g == 0 {
                    return Err(PuzzleError::Overflow);
                }
                let q = (p as u64) / g;
                acc = q;
                lo = c + 1;
            },
        }
    }
    Ok(acc)
}


/// Every walker from a node ending in `A` moves in lock-step through the
/// network of `input` until as many distinct nodes ending in `Z` have been
/// reached as there are walkers; the answer is the least common multiple
/// of the last step at which each such node was reached, folded in
/// byte-wise order of the labels. An empty direction cycle is
/// `InvalidDirection`, stepping from an unnamed node `UnknownNode`, more
/// than `u64::MAX` moves `StepLimit`, and a product beyond `u64::MAX`
/// `Overflow`.
pub fn solve_part_2(input: &str) -> (r: Result<u64, PuzzleError>)
    ensures
        r == ghost_answer(lines_of(input.spec_bytes())),
{
    let (directions, map) = match parse_directions_and_instructions(input) {
        Ok(p) => p,
        Err(e) => {
            return Err(e);
        },
    };
    let ghost ds = directions@;
    let ghost is = map.entries();
    let keys = map.keys();
    let mut walkers = labels_with_end(&keys, 65);
    let ghost starts = walkers@;
    let n = walkers.len();
    let mut rec: Vec<(Label, u64)> = Vec::new();
    let mut steps: u64 = 0;
    assert(rec@ =~= rec_at(is, ds, starts, 0));
    loop
        invariant
            network_of(lines_of(input.spec_bytes())) == Ok::<
                (Seq<Direction>, Seq<Instruction>),
                PuzzleError,
            >((ds, is)),
            ds == directions@,
            is == map.entries(),
            starts == labels_ending(sorted_keys(is), 65, sorted_keys(is).len() as int),
            n == starts.len(),
            walkers@.len() == n,
            forall|j: int| 0 <= j < n ==> walk(is, ds, starts[j], steps as nat) == Some(
                #[trigger] walkers@[j],
            ),
            rec@ == rec_at(is, ds, starts, steps as nat),
            cycle_search(is, ds, starts, 0, u64::MAX as nat) == cycle_search(
                is,
                ds,
                starts,
                steps as nat,
                (u64::MAX - steps) as nat,
            ),
        ensures
            rec@.len() == n,
            rec@ == rec_at(is, ds, starts, steps as nat),
            cycle_search(is, ds, starts, 0, u64::MAX as nat) == cycle_search(
                is,
                ds,
                starts,
                steps as nat,
                (u64::MAX - steps) as nat,
            ),
        decreases u64::MAX - steps,
    {
        if rec.len() == n {
            break;
        }
        if directions.len() == 0 {
            return Err(PuzzleError::InvalidDirection);
        }
        if steps == u64::MAX {
            return Err(PuzzleError::StepLimit);
        }
        let d = directions[(steps % directions.len() as u64) as usize];
        let ghost rec0 = rec@;
        let ghost old_w = walkers@;
        let s = steps + 1;
        let mut i: usize = 0;
        while i < n
            invariant
                network_of(lines_of(input.spec_bytes())) == Ok::<
                    (Seq<Direction>, Seq<Instruction>),
                    PuzzleError,
                >((ds, is)),
                starts == labels_ending(sorted_keys(is), 65, sorted_keys(is).len() as int),
                cycle_search(is, ds, starts, 0, u64::MAX as nat) == cycle_search(
                    is,
                    ds,
                    starts,
                    steps as nat,
                    (u64::MAX - steps) as nat,
                ),
                rec0 == rec_at(is, ds, starts, steps as nat),
                rec0.len() != n,
                steps < u64::MAX,
                ds == directions@,
                is == map.entries(),
                ds.len() > 0,
                d == ds[((steps as int) % (ds.len() as int)) as int],
                s == steps + 1,
                n == starts.len(),
                walkers@.len() == n,
                old_w.len() == n,
                i <= n,
                forall|j: int| 0 <= j < n ==> walk(is, ds, starts[j], steps as nat) == Some(
                    #[trigger] old_w[j],
                ),
                forall|j: int|
                    0 <= j < i ==> walk(is, ds, starts[j], s as nat) == Some(#[trigger] walkers@[j]),
                forall|j: int| i <= j < n ==> #[trigger] walkers@[j] == old_w[j],
                rec@ == record_goals(rec0, walkers@, s, i as int),
            decreases n - i,
        {
            let w = walkers[i];
            let next = match d {
                Direction::Left => map.get_left(&w),
                Direction::Right => map.get_right(&w),
            };
            let l = match next {
                Ok(l) => l,
                Err(e) => {
                    proof {
                        assert(walk(is, ds, starts[i as int], s as nat) is None);
                        assert(all_walk(is, ds, starts, s as nat) is None);
                    }
                    return Err(e);
                },
            };
            let ghost before = walkers@;
            walkers.set(i, l);
            proof {
                lemma_record_goals_prefix(rec0, walkers@, before, s, i as int);
            }
            if l.2 == 90 {
                record_exec(&mut rec, l, s);
            }
            assert(rec@ == record_goals(rec0, walkers@, s, i + 1));
            i = i + 1;
        }
        proof {
            assert forall|j: int| 0 <= j < starts.len() implies (#[trigger] walk(
                is,
                ds,
                starts[j],
                s as nat,
            )) is Some by {
                assert(walk(is, ds, starts[j], s as nat) == Some(walkers@[j]));
            }
            let ps = Seq::new(starts.len(), |j: int| walk(is, ds, starts[j], s as nat)->Some_0);
            assert(all_walk(is, ds, starts, s as nat) == Some(ps));
            assert(ps =~= walkers@);
            assert(rec@ == rec_at(is, ds, starts, s as nat));
        }
        steps = s;
    }
    assert(cycle_search(is, ds, starts, 0, u64::MAX as nat) == Ok::<
        Seq<(Label, u64)>,
        PuzzleError,
    >(rec@));
    lcm_of_record(&rec)
}

} // verus!
