//! Kernel bodies run on the host: the graph-step kernel, one thread per
//! walker, and the input checks of the add kernel.
use vstd::prelude::*;

use crate::error::DispatchError;
use crate::launch::{covers, plan_launch, plan_outcome, LaunchConfig};

verus! {

/// The node that a walker on `node` moves to: the first successor for a
/// "left" move, the second for a "right" one.
pub open spec fn successor(graph: Seq<(u32, u32)>, node: u32, left: bool) -> u32 {
    if left {
        graph[node as int].0
    } else {
        graph[node as int].1
    }
}

/// Every successor in the adjacency table names a node of the table.
pub open spec fn graph_closed(graph: Seq<(u32, u32)>) -> bool {
    forall|i: int|
        0 <= i < graph.len() ==> (#[trigger] graph[i]).0 < graph.len() && graph[i].1
            < graph.len()
}

/// Every walker stands on a node of the table.
pub open spec fn nodes_in(graph: Seq<(u32, u32)>, nodes: Seq<u32>) -> bool {
    forall|i: int| 0 <= i < nodes.len() ==> (#[trigger] nodes[i]) < graph.len()
}

/// The positions after every walker took one step in the same direction.
pub open spec fn stepped(graph: Seq<(u32, u32)>, nodes: Seq<u32>, left: bool) -> Seq<u32> {
    Seq::new(nodes.len(), |i: int| successor(graph, nodes[i], left))
}

/// The body of one thread of the graph-step kernel. The thread at `index`
/// writes its own output slot only, and a thread beyond the walker count
/// does nothing.
fn graph_step_thread(
    graph: &Vec<(u32, u32)>,
    positions: &Vec<u32>,
    left: bool,
    index: u64,
    out: &mut Vec<u32>,
)
    requires
        old(out)@.len() == positions@.len(),
        nodes_in(graph@, positions@),
    ensures
        index < positions@.len() ==> final(out)@ == old(out)@.update(
            index as int,
            successor(graph@, positions@[index as int], left),
        ),
        index >= positions@.len() ==> final(out)@ == old(out)@,
{
    if index < positions.len() as u64 {
        let i = index as usize;
        let node = positions[i];
        let next = if left {
            graph[node as usize].0
        } else {
            graph[node as usize].1
        };
        out.set(i, next);
    }
}

/// Runs the graph-step kernel under `config`: thread `t` of block `b` takes
/// the linear index `b * block_size + t`, and moves the walker of that index
/// one step. Threads past the last walker leave the output alone.
pub fn graph_step_kernel(
    graph: &Vec<(u32, u32)>,
    positions: &Vec<u32>,
    left: bool,
    config: LaunchConfig,
) -> (r: Vec<u32>)
    requires
        nodes_in(graph@, positions@),
        covers(config, positions@.len() as nat),
    ensures
        r@ == stepped(graph@, positions@, left),
{
    let mut out = positions.clone();
    let n = positions.len();
    let block = config.block_size as u64;
    let grid = config.grid_size as u64;
    let mut b: u64 = 0;
    while b < grid
        invariant
            out@.len() == n,
            n == positions@.len(),
            block == config.block_size,
            grid == config.grid_size,
            b <= grid,
            nodes_in(graph@, positions@),
            forall|i: int|
                0 <= i < n && i < b * block ==> out@[i] == successor(
                    graph@,
                    positions@[i],
                    left,
                ),
        decreases grid - b,
    {
        let mut t: u64 = 0;
        while t < block
            invariant
                out@.len() == n,
                n == positions@.len(),
                block == config.block_size,
                grid == config.grid_size,
                b < grid,
                t <= block,
                nodes_in(graph@, positions@),
                forall|i: int|
                    0 <= i < n && i < b * block + t ==> out@[i] == successor(
                        graph@,
                        positions@[i],
                        left,
                    ),
            decreases block - t,
        {
            assert(b * block + t < u32::MAX as u64 * u32::MAX as u64) by (nonlinear_arith)
                requires
                    b < grid,
                    t < block,
                    grid <= u32::MAX,
                    block <= u32::MAX,
            ;
            let index = b * block + t;
            graph_step_thread(graph, positions, left, index, &mut out);
            t = t + 1;
        }
        assert((b + 1) * block == b * block + block) by (nonlinear_arith);
        b = b + 1;
    }
    assert(grid * block >= n);
    assert(out@ =~= stepped(graph@, positions@, left));
    out
}

/// Plans the add kernel over inputs of `a_len` and `b_len` elements. Inputs
/// of different lengths fail with `TransferError` before any device work.
pub fn plan_add(a_len: usize, b_len: usize, suggested_block_size: u32) -> (r: Result<
    LaunchConfig,
    DispatchError,
>)
    ensures
        a_len != b_len ==> r == Err::<LaunchConfig, DispatchError>(DispatchError::TransferError),
        a_len == b_len ==> r == plan_outcome(a_len as nat, suggested_block_size as nat),
        r matches Ok(c) ==> covers(c, a_len as nat) && covers(c, b_len as nat),
{
    if a_len != b_len {
        return Err(DispatchError::TransferError);
    }
    plan_launch(a_len, suggested_block_size)
}

} // verus!
