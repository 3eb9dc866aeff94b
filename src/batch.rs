//! The convergence loop with a window of steps per launch: each thread of
//! the walk kernel moves its walker through the window, recording after
//! every step whether the walker stands on a goal node, and the host looks
//! for the first step of the window at which every walker does.
use vstd::prelude::*;

use crate::convergence::{
    check_traversal, contains_node, converged_at, direction_at, lemma_positions_step, position,
    positions_at, ready_to_converge, traversal_valid,
};
use crate::error::DispatchError;
use crate::kernel::{nodes_in, successor};
use crate::launch::{covers, plan_launch, plan_outcome, LaunchConfig};

verus! {

/// Where a walker on `node` stands after `t` moves that start at global
/// step `from`.
pub open spec fn walk_from(
    graph: Seq<(u32, u32)>,
    directions: Seq<bool>,
    node: u32,
    from: nat,
    t: nat,
) -> u32
    decreases t,
{
    if t == 0 {
        node
    } else {
        successor(
            graph,
            walk_from(graph, directions, node, from, (t - 1) as nat),
            direction_at(directions, (from + t - 1) as nat),
        )
    }
}

proof fn lemma_walk_from_position(
    graph: Seq<(u32, u32)>,
    directions: Seq<bool>,
    starts: Seq<u32>,
    i: int,
    from: nat,
    t: nat,
)
    requires
        traversal_valid(graph, directions, starts),
        0 <= i < starts.len(),
    ensures
        walk_from(graph, directions, position(graph, directions, starts[i], from), from, t)
            == position(graph, directions, starts[i], from + t),
        position(graph, directions, starts[i], from + t) < graph.len(),
    decreases t,
{
    lemma_positions_step(graph, directions, starts, from + t);
    assert(positions_at(graph, directions, starts, from + t)[i] == position(
        graph,
        directions,
        starts[i],
        from + t,
    ));
    if t > 0 {
        lemma_walk_from_position(graph, directions, starts, i, from, (t - 1) as nat);
    }
}

/// The body of one thread of the walk kernel: walker `index` moves through
/// `window` steps from global step `from`, and its row of goal flags and
/// its final node are written; a thread beyond the walker count does
/// nothing.
fn walk_thread(
    graph: &Vec<(u32, u32)>,
    positions: &Vec<u32>,
    goals: &Vec<u32>,
    directions: &Vec<bool>,
    from: u64,
    window: u64,
    index: u64,
    out: &mut Vec<u32>,
    flags: &mut Vec<Vec<bool>>,
)
    requires
        old(out)@.len() == positions@.len(),
        old(flags)@.len() == positions@.len(),
        directions@.len() > 0,
        crate::kernel::graph_closed(graph@),
        nodes_in(graph@, positions@),
        from + window <= u64::MAX,
    ensures
        final(out)@.len() == old(out)@.len(),
        final(flags)@.len() == old(flags)@.len(),
        index < positions@.len() ==> final(out)@ == old(out)@.update(
            index as int,
            walk_from(graph@, directions@, positions@[index as int], from as nat, window as nat),
        ) && final(flags)@[index as int]@.len() == window && (forall|t: int|
            0 <= t < window ==> #[trigger] final(flags)@[index as int]@[t] == goals@.contains(
                walk_from(
                    graph@,
                    directions@,
                    positions@[index as int],
                    from as nat,
                    (t + 1) as nat,
                ),
            )) && forall|j: int|
            0 <= j < positions@.len() && j != index ==> #[trigger] final(flags)@[j] == old(
                flags,
            )@[j],
        index >= positions@.len() ==> final(out)@ == old(out)@ && final(flags)@ == old(flags)@,
{
    if index >= positions.len() as u64 {
        return;
    }
    let i = index as usize;
    let mut node = positions[i];
    let mut row: Vec<bool> = Vec::new();
    let mut t: u64 = 0;
    while t < window
        invariant
            t <= window,
            from + window <= u64::MAX,
            directions@.len() > 0,
            crate::kernel::graph_closed(graph@),
            i < positions@.len(),
            node < graph@.len(),
            node == walk_from(graph@, directions@, positions@[i as int], from as nat, t as nat),
            row@.len() == t,
            forall|u: int|
                0 <= u < t ==> #[trigger] row@[u] == goals@.contains(
                    walk_from(graph@, directions@, positions@[i as int], from as nat, (u + 1) as nat),
                ),
        decreases window - t,
    {
        let step = from + t;
        let left = directions[(step % directions.len() as u64) as usize];
        let pair = graph[node as usize];
        node = if left {
            pair.0
        } else {
            pair.1
        };
        row.push(contains_node(goals, node));
        t = t + 1;
    }
    out.set(i, node);
    flags.set(i, row);
}

/// Runs the walk kernel under `config`: every walker moves through `window`
/// steps from global step `from`. Returns the final nodes and, per walker,
/// whether it stood on a goal after each step of the window.
pub fn walk_kernel(
    graph: &Vec<(u32, u32)>,
    positions: &Vec<u32>,
    goals: &Vec<u32>,
    directions: &Vec<bool>,
    from: u64,
    window: u64,
    config: LaunchConfig,
) -> (r: (Vec<u32>, Vec<Vec<bool>>))
    requires
        directions@.len() > 0,
        crate::kernel::graph_closed(graph@),
        nodes_in(graph@, positions@),
        covers(config, positions@.len() as nat),
        from + window <= u64::MAX,
    ensures
        r.0@.len() == positions@.len(),
        r.1@.len() == positions@.len(),
        forall|i: int|
            0 <= i < positions@.len() ==> #[trigger] r.0@[i] == walk_from(
                graph@,
                directions@,
                positions@[i],
                from as nat,
                window as nat,
            ),
        forall|i: int|
            0 <= i < positions@.len() ==> (#[trigger] r.1@[i])@.len() == window,
        forall|i: int, t: int|
            0 <= i < positions@.len() && 0 <= t < window ==> #[trigger] r.1@[i]@[t]
                == goals@.contains(
                walk_from(graph@, directions@, positions@[i], from as nat, (t + 1) as nat),
            ),
{
    let n = positions.len();
    let mut out = positions.clone();
    let mut flags: Vec<Vec<bool>> = Vec::new();
    let mut k: usize = 0;
    while k < n
        invariant
            k <= n,
            flags@.len() == k,
        decreases n - k,
    {
        flags.push(Vec::new());
        k = k + 1;
    }
    let block = config.block_size as u64;
    let grid = config.grid_size as u64;
    let mut b: u64 = 0;
    while b < grid
        invariant
            out@.len() == n,
            flags@.len() == n,
            n == positions@.len(),
            block == config.block_size,
            grid == config.grid_size,
            b <= grid,
            directions@.len() > 0,
            crate::kernel::graph_closed(graph@),
            nodes_in(graph@, positions@),
            from + window <= u64::MAX,
            forall|i: int|
                0 <= i < n && i < b * block ==> #[trigger] out@[i] == walk_from(
                    graph@,
                    directions@,
                    positions@[i],
                    from as nat,
                    window as nat,
                ),
            forall|i: int|
                0 <= i < n && i < b * block ==> (#[trigger] flags@[i])@.len() == window,
            forall|i: int, t: int|
                0 <= i < n && i < b * block && 0 <= t < window ==> #[trigger] flags@[i]@[t]
                    == goals@.contains(
                    walk_from(graph@, directions@, positions@[i], from as nat, (t + 1) as nat),
                ),
        decreases grid - b,
    {
        let mut t: u64 = 0;
        while t < block
            invariant
                out@.len() == n,
                flags@.len() == n,
                n == positions@.len(),
                block == config.block_size,
                grid == config.grid_size,
                b < grid,
                t <= block,
                directions@.len() > 0,
                crate::kernel::graph_closed(graph@),
                nodes_in(graph@, positions@),
                from + window <= u64::MAX,
                forall|i: int|
                    0 <= i < n && i < b * block + t ==> #[trigger] out@[i] == walk_from(
                        graph@,
                        directions@,
                        positions@[i],
                        from as nat,
                        window as nat,
                    ),
                forall|i: int|
                    0 <= i < n && i < b * block + t ==> (#[trigger] flags@[i])@.len() == window,
                forall|i: int, u: int|
                    0 <= i < n && i < b * block + t && 0 <= u < window ==> #[trigger] flags@[i]@[u]
                        == goals@.contains(
                        walk_from(graph@, directions@, positions@[i], from as nat, (u + 1) as nat),
                    ),
            decreases block - t,
        {
            assert(b * block + t < u32::MAX as u64 * u32::MAX as u64) by (nonlinear_arith)
                requires
                    b < grid,
                    t < block,
                    grid <= u32::MAX,
                    block <= u32::MAX,
            ;
            let index = b * block + t;
            walk_thread(graph, positions, goals, directions, from, window, index, &mut out, &mut flags);
            t = t + 1;
        }
        assert((b + 1) * block == b * block + block) by (nonlinear_arith);
        b = b + 1;
    }
    assert(grid * block >= n);
    (out, flags)
}


/// Whether every walker stood on a goal after step `t` of the window.
fn column_all(flags: &Vec<Vec<bool>>, t: u64, window: u64) -> (r: bool)
    requires
        t < window,
        forall|i: int| 0 <= i < flags@.len() ==> (#[trigger] flags@[i])@.len() == window,
    ensures
        r == forall|i: int| 0 <= i < flags@.len() ==> #[trigger] flags@[i]@[t as int],
{
    let mut i: usize = 0;
    while i < flags.len()
        invariant
            i <= flags@.len(),
            t < window,
            forall|j: int| 0 <= j < flags@.len() ==> (#[trigger] flags@[j])@.len() == window,
            forall|j: int| 0 <= j < i ==> #[trigger] flags@[j]@[t as int],
        decreases flags@.len() - i,
    {
        let row = &flags[i];
        let n = row.len();
        assert(n as int == window);
        assert((t as int) < (n as int));
        let u = t as usize;
        assert(u as int == t as int);
        if !row[u] {
            return false;
        }
        i = i + 1;
    }
    true
}

/// The convergence loop with up to `window` steps per launch of the walk
/// kernel (a window of zero is taken as one). It has the contract of
/// `converge`: the same step count, the same failures.
pub fn converge_batched(
    graph: &Vec<(u32, u32)>,
    starts: &Vec<u32>,
    goals: &Vec<u32>,
    directions: &Vec<bool>,
    suggested_block_size: u32,
    window: u64,
    max_steps: u64,
) -> (r: Result<u64, DispatchError>)
    ensures
        starts@.len() == 0 ==> r == Ok::<u64, DispatchError>(0),
        starts@.len() > 0 && !traversal_valid(graph@, directions@, starts@) ==> r == Err::<
            u64,
            DispatchError,
        >(DispatchError::KernelLaunchError),
        starts@.len() > 0 && traversal_valid(graph@, directions@, starts@) && plan_outcome(
            starts@.len() as nat,
            suggested_block_size as nat,
        ) is Err ==> r == Err::<u64, DispatchError>(DispatchError::LaunchConfigError),
        r matches Ok(k) ==> {
            &&& k <= max_steps
            &&& converged_at(graph@, directions@, starts@, goals@, k as nat)
            &&& forall|j: nat|
                j < k ==> !#[trigger] converged_at(graph@, directions@, starts@, goals@, j)
        },
        ready_to_converge(graph@, directions@, starts@, suggested_block_size as nat) ==> (r is Ok
            <==> exists|k: nat|
            k <= max_steps && #[trigger] converged_at(graph@, directions@, starts@, goals@, k)),
        ready_to_converge(graph@, directions@, starts@, suggested_block_size as nat) && r is Err
            ==> r == Err::<u64, DispatchError>(DispatchError::ConvergenceTimeout),
        r == Err::<u64, DispatchError>(DispatchError::ConvergenceTimeout) ==> forall|j: nat|
            j <= max_steps ==> !#[trigger] converged_at(graph@, directions@, starts@, goals@, j),
{
    if starts.len() == 0 {
        assert(converged_at(graph@, directions@, starts@, goals@, 0));
        return Ok(0);
    }
    if !check_traversal(graph, directions, starts) {
        return Err(DispatchError::KernelLaunchError);
    }
    let config = match plan_launch(starts.len(), suggested_block_size) {
        Ok(c) => c,
        Err(e) => {
            return Err(e);
        },
    };
    let ghost g = graph@;
    let ghost d = directions@;
    let ghost s = starts@;
    let ghost z = goals@;
    let mut positions = starts.clone();
    let mut steps: u64 = 0;
    assert(positions@ =~= positions_at(g, d, s, 0));
    loop
        invariant
            g == graph@,
            d == directions@,
            s == starts@,
            z == goals@,
            traversal_valid(g, d, s),
            s.len() > 0,
            plan_outcome(s.len() as nat, suggested_block_size as nat) is Ok,
            covers(config, s.len() as nat),
            positions@ == positions_at(g, d, s, steps as nat),
            steps <= max_steps,
            forall|j: nat| j < steps ==> !#[trigger] converged_at(g, d, s, z, j),
        decreases max_steps - steps,
    {
        proof {
            lemma_positions_step(g, d, s, steps as nat);
        }
        if crate::convergence::all_in_goals(&positions, goals) {
            assert(converged_at(g, d, s, z, steps as nat));
            return Ok(steps);
        }
        if steps >= max_steps {
            assert forall|j: nat| j <= max_steps implies !#[trigger] converged_at(g, d, s, z, j) by {
                if j == steps {
                }
            }
            return Err(DispatchError::ConvergenceTimeout);
        }
        let room = max_steps - steps;
        let w = if window == 0 {
            1
        } else if window < room {
            window
        } else {
            room
        };
        let (next, flags) = walk_kernel(graph, &positions, goals, directions, steps, w, config);
        proof {
            assert forall|i: int, t: nat| 0 <= i < s.len() && t <= w implies #[trigger] walk_from(
                g,
                d,
                positions@[i],
                steps as nat,
                t,
            ) == position(g, d, s[i], (steps + t) as nat) by {
                lemma_walk_from_position(g, d, s, i, steps as nat, t);
            }
        }
        let mut t: u64 = 0;
        while t < w
            invariant
                g == graph@,
                d == directions@,
                s == starts@,
                z == goals@,
                t <= w,
                steps + w <= max_steps,
                traversal_valid(g, d, s),
                s.len() > 0,
                plan_outcome(s.len() as nat, suggested_block_size as nat) is Ok,
                flags@.len() == s.len(),
                positions@ == positions_at(g, d, s, steps as nat),
                forall|i: int| 0 <= i < s.len() ==> (#[trigger] flags@[i])@.len() == w,
                forall|i: int, u: int|
                    0 <= i < s.len() && 0 <= u < w ==> #[trigger] flags@[i]@[u] == z.contains(
                        walk_from(g, d, positions@[i], steps as nat, (u + 1) as nat),
                    ),
                forall|i: int, u: nat|
                    0 <= i < s.len() && u <= w ==> #[trigger] walk_from(
                        g,
                        d,
                        positions@[i],
                        steps as nat,
                        u,
                    ) == position(g, d, s[i], (steps + u) as nat),
                forall|j: nat| j <= steps + t ==> !#[trigger] converged_at(g, d, s, z, j),
            decreases w - t,
        {
            let all = column_all(&flags, t, w);
            let ghost k = (steps + t + 1) as nat;
            proof {
                assert forall|i: int| 0 <= i < s.len() implies #[trigger] flags@[i]@[t as int]
                    == z.contains(positions_at(g, d, s, k)[i]) by {
                    assert(walk_from(g, d, positions@[i], steps as nat, (t + 1) as nat) == position(
                        g,
                        d,
                        s[i],
                        (steps + (t + 1)) as nat,
                    ));
                }
            }
            if all {
                assert forall|i: int|
                    0 <= i < positions_at(g, d, s, k).len() implies z.contains(
                    #[trigger] positions_at(g, d, s, k)[i],
                ) by {
                    assert(flags@[i]@[t as int]);
                }
                assert(converged_at(g, d, s, z, k));
                return Ok(steps + t + 1);
            }
            proof {
                let i = choose|i: int| 0 <= i < flags@.len() && !#[trigger] flags@[i]@[t as int];
                assert(!z.contains(positions_at(g, d, s, k)[i]));
                assert(!converged_at(g, d, s, z, k));
            }
            t = t + 1;
        }
        proof {
            assert forall|i: int| 0 <= i < s.len() implies #[trigger] next@[i] == positions_at(
                g,
                d,
                s,
                (steps + w) as nat,
            )[i] by {
                assert(walk_from(g, d, positions@[i], steps as nat, w as nat) == position(
                    g,
                    d,
                    s[i],
                    (steps + w) as nat,
                ));
            }
            assert(next@ =~= positions_at(g, d, s, (steps + w) as nat));
        }
        positions = next;
        steps = steps + w;
    }
}


/// The first step at which every walker stands on a goal is unique: a loop
/// that batches its steps into windows and a loop that launches one step at
/// a time, each stopping at such a first step, stop at the same count.
pub proof fn lemma_first_convergence_unique(
    graph: Seq<(u32, u32)>,
    directions: Seq<bool>,
    starts: Seq<u32>,
    goals: Seq<u32>,
    k1: nat,
    k2: nat,
)
    requires
        converged_at(graph, directions, starts, goals, k1),
        forall|j: nat| j < k1 ==> !#[trigger] converged_at(graph, directions, starts, goals, j),
        converged_at(graph, directions, starts, goals, k2),
        forall|j: nat| j < k2 ==> !#[trigger] converged_at(graph, directions, starts, goals, j),
    ensures
        k1 == k2,
{
    if k1 < k2 {
        assert(!converged_at(graph, directions, starts, goals, k1));
    }
    if k2 < k1 {
        assert(!converged_at(graph, directions, starts, goals, k2));
    }
}

} // verus!
