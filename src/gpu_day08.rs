//! Day 08, part two, on the dispatch layer: every node whose label ends in
//! `A` starts a walker, and the walkers move in lock-step until all stand on
//! nodes whose labels end in `Z`.
use vstd::prelude::*;
use vstd::string::StringSliceAdditionalSpecFns;

use crate::convergence::{converge, converged_at, ready_to_converge};
use crate::day08::{
    keys_from, label_count, lookup, network_of, parse_directions_and_instructions, sorted_keys,
    Direction, Instruction, Label,
};
use crate::text::{lines_of, PuzzleError};

verus! {

/// Block size of the host runs of the graph-step kernel.
pub const HOST_BLOCK_SIZE: u32 = 256;

/// Cap on the steps of the host runs of the convergence loop.
pub const MAX_STEPS: u64 = 1000000;

/// The network as the graph-step kernel takes it: nodes are the positions
/// of their labels in byte-wise order.
#[derive(Debug)]
pub struct Network {
    /// The left and right successor of each node.
    pub graph: Vec<(u32, u32)>,
    /// The nodes whose labels end in `A`, in order.
    pub starts: Vec<u32>,
    /// The nodes whose labels end in `Z`, in order.
    pub goals: Vec<u32>,
    /// The direction cycle, `true` for left.
    pub directions: Vec<bool>,
}

/// The last position of `l` in `ks`, or -1.
pub open spec fn index_in(ks: Seq<Label>, l: Label) -> int
    decreases ks.len(),
{
    if ks.len() == 0 {
        -1
    } else if ks.last() == l {
        ks.len() - 1
    } else {
        index_in(ks.drop_last(), l)
    }
}

/// Every labelled node's successors are labelled nodes.
pub open spec fn successors_known(instrs: Seq<Instruction>, ks: Seq<Label>) -> bool {
    forall|i: int|
        0 <= i < ks.len() ==> match lookup(instrs, #[trigger] ks[i]) {
            Some(v) => index_in(ks, v.0) >= 0 && index_in(ks, v.1) >= 0,
            None => false,
        }
}

/// The successor table over positions in `ks`.
pub open spec fn graph_of(instrs: Seq<Instruction>, ks: Seq<Label>) -> Seq<(u32, u32)> {
    Seq::new(
        ks.len(),
        |i: int|
            match lookup(instrs, ks[i]) {
                Some(v) => (index_in(ks, v.0) as u32, index_in(ks, v.1) as u32),
                None => (0u32, 0u32),
            },
    )
}

/// The positions among the first `n` of `ks` whose labels end in `c`.
pub open spec fn ending_in(ks: Seq<Label>, c: u8, n: int) -> Seq<u32>
    decreases n,
{
    if n <= 0 {
        Seq::<u32>::empty()
    } else if ks[n - 1].2 == c {
        ending_in(ks, c, n - 1).push((n - 1) as u32)
    } else {
        ending_in(ks, c, n - 1)
    }
}

/// The directions as kernel flags, `true` for left.
pub open spec fn left_flags(ds: Seq<Direction>) -> Seq<bool> {
    ds.map_values(|d: Direction| d == Direction::Left)
}

proof fn lemma_keys_count(instrs: Seq<Instruction>, lo: int)
    requires
        0 <= lo <= label_count(),
    ensures
        keys_from(instrs, lo).len() <= label_count() - lo,
    decreases label_count() - lo,
{
    if lo < label_count() {
        lemma_keys_count(instrs, lo + 1);
    }
}

/// The last position of `l` in `ks`.
fn find_index(ks: &Vec<Label>, l: Label) -> (r: Option<u32>)
    requires
        ks@.len() <= u32::MAX,
    ensures
        r is None <==> index_in(ks@, l) < 0,
        r matches Some(i) ==> i == index_in(ks@, l),
{
    let mut i: usize = ks.len();
    assert(ks@.subrange(0, i as int) =~= ks@);
    while i > 0
        invariant
            i <= ks@.len(),
            ks@.len() <= u32::MAX,
            index_in(ks@, l) == index_in(ks@.subrange(0, i as int), l),
        decreases i,
    {
        let k = ks[i - 1];
        assert(ks@.subrange(0, i as int).drop_last() =~= ks@.subrange(0, i - 1));
        if k.0 == l.0 && k.1 == l.1 && k.2 == l.2 {
            return Some((i - 1) as u32);
        }
        i = i - 1;
    }
    None
}

/// The positions in `ks` whose labels end in `c`.
fn positions_ending_in(ks: &Vec<Label>, c: u8) -> (r: Vec<u32>)
    requires
        ks@.len() <= u32::MAX,
    ensures
        r@ == ending_in(ks@, c, ks@.len() as int),
{
    let mut out: Vec<u32> = Vec::new();
    let mut i: usize = 0;
    while i < ks.len()
        invariant
            i <= ks@.len(),
            ks@.len() <= u32::MAX,
            out@ == ending_in(ks@, c, i as int),
        decreases ks@.len() - i,
    {
        if ks[i].2 == c {
            out.push(i as u32);
        }
        i = i + 1;
    }
    out
}

/// Builds the kernel's view of the network of `input`. A successor that no
/// instruction names is `UnknownNode`.
pub fn build_network(input: &str) -> (r: Result<Network, PuzzleError>)
    ensures
        network_of(lines_of(input.spec_bytes())) matches Err(e) ==> r == Err::<Network, PuzzleError>(
            e,
        ),
        network_of(lines_of(input.spec_bytes())) matches Ok((ds, is)) ==> {
            let ks = sorted_keys(is);
            &&& !successors_known(is, ks) ==> r == Err::<Network, PuzzleError>(
                PuzzleError::UnknownNode,
            )
            &&& successors_known(is, ks) ==> (r matches Ok(n) && n.graph@ == graph_of(is, ks)
                && n.starts@ == ending_in(ks, 65, ks.len() as int) && n.goals@ == ending_in(
                ks,
                90,
                ks.len() as int,
            ) && n.directions@ == left_flags(ds))
        },
{
    let (directions, map) = match parse_directions_and_instructions(input) {
        Ok(p) => p,
        Err(e) => {
            return Err(e);
        },
    };
    let ghost is = map.entries();
    let keys = map.keys();
    let ghost ks = keys@;
    proof {
        lemma_keys_count(is, 0);
    }
    let values = map.values();
    let mut graph: Vec<(u32, u32)> = Vec::new();
    let mut i: usize = 0;
    while i < keys.len()
        invariant
            network_of(lines_of(input.spec_bytes())) == Ok::<
                (Seq<Direction>, Seq<Instruction>),
                PuzzleError,
            >((directions@, is)),
            ks == keys@,
            ks == sorted_keys(is),
            is == map.entries(),
            ks.len() <= u32::MAX,
            values@.len() == ks.len(),
            forall|j: int| 0 <= j < values@.len() ==> lookup(is, ks[j]) == Some(#[trigger] values@[j]),
            i <= ks.len(),
            graph@ =~= graph_of(is, ks).subrange(0, i as int),
            forall|j: int|
                0 <= j < i ==> match lookup(is, #[trigger] ks[j]) {
                    Some(v) => index_in(ks, v.0) >= 0 && index_in(ks, v.1) >= 0,
                    None => false,
                },
        decreases ks.len() - i,
    {
        let v = values[i];
        assert(lookup(is, ks[i as int]) == Some(values@[i as int]));
        let a = match find_index(&keys, v.0) {
            Some(a) => a,
            None => {
                assert(!successors_known(is, ks)) by {
                    assert(lookup(is, ks[i as int]) == Some(v));
                }
                return Err(PuzzleError::UnknownNode);
            },
        };
        let b = match find_index(&keys, v.1) {
            Some(b) => b,
            None => {
                assert(!successors_known(is, ks)) by {
                    assert(lookup(is, ks[i as int]) == Some(v));
                }
                return Err(PuzzleError::UnknownNode);
            },
        };
        graph.push((a, b));
        i = i + 1;
    }
    let starts = positions_ending_in(&keys, 65);
    let goals = positions_ending_in(&keys, 90);
    let mut flags: Vec<bool> = Vec::new();
    let mut k: usize = 0;
    while k < directions.len()
        invariant
            k <= directions@.len(),
            flags@ =~= left_flags(directions@).subrange(0, k as int),
        decreases directions@.len() - k,
    {
        flags.push(
            match directions[k] {
                Direction::Left => true,
                Direction::Right => false,
            },
        );
        k = k + 1;
    }
    assert(flags@ =~= left_flags(directions@));
    assert(graph@ =~= graph_of(is, ks));
    Ok(Network { graph, starts, goals, directions: flags })
}

/// The number of lock-step moves after which every walker from a node
/// ending in `A` stands on a node ending in `Z`, computed on the host with
/// the verified graph-step kernel: the least such count, if it is at most
/// `MAX_STEPS`. Failures of the loop come back as `Dispatch`.
pub fn solve_part_2(input: &str) -> (r: Result<u64, PuzzleError>)
    ensures
        network_of(lines_of(input.spec_bytes())) matches Err(e) ==> r == Err::<u64, PuzzleError>(
            e,
        ),
        network_of(lines_of(input.spec_bytes())) matches Ok((ds, is)) ==> {
            let ks = sorted_keys(is);
            let g = graph_of(is, ks);
            let s = ending_in(ks, 65, ks.len() as int);
            let z = ending_in(ks, 90, ks.len() as int);
            let d = left_flags(ds);
            &&& !successors_known(is, ks) ==> r == Err::<u64, PuzzleError>(
                PuzzleError::UnknownNode,
            )
            &&& r matches Ok(k) ==> converged_at(g, d, s, z, k as nat) && forall|j: nat|
                j < k ==> !#[trigger] converged_at(g, d, s, z, j)
            &&& successors_known(is, ks) && ready_to_converge(g, d, s, HOST_BLOCK_SIZE as nat) ==> (
            r is Ok <==> exists|k: nat| k <= MAX_STEPS && #[trigger] converged_at(g, d, s, z, k))
        },
{
    let n = match build_network(input) {
        Ok(n) => n,
        Err(e) => {
            return Err(e);
        },
    };
    match converge(&n.graph, &n.starts, &n.goals, &n.directions, HOST_BLOCK_SIZE, MAX_STEPS) {
        Ok(k) => Ok(k),
        Err(e) => Err(PuzzleError::Dispatch(e)),
    }
}

} // verus!
