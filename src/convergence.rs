//! The convergence loop: walkers move in lock-step through a graph until
//! all of them stand on goal nodes, one kernel launch per step.
use vstd::prelude::*;

use crate::error::DispatchError;
use crate::kernel::{graph_closed, graph_step_kernel, nodes_in, stepped, successor};
use crate::launch::{plan_launch, plan_outcome};

verus! {

/// The direction of global step `step`: the directions repeat in a cycle,
/// `true` standing for "left".
pub open spec fn direction_at(directions: Seq<bool>, step: nat) -> bool {
    directions[(step % directions.len()) as int]
}

/// Where a walker that starts on `start` stands after `k` lock-step moves.
pub open spec fn position(
    graph: Seq<(u32, u32)>,
    directions: Seq<bool>,
    start: u32,
    k: nat,
) -> u32
    decreases k,
{
    if k == 0 {
        start
    } else {
        successor(
            graph,
            position(graph, directions, start, (k - 1) as nat),
            direction_at(directions, (k - 1) as nat),
        )
    }
}

/// The walker set after `k` moves.
pub open spec fn positions_at(
    graph: Seq<(u32, u32)>,
    directions: Seq<bool>,
    starts: Seq<u32>,
    k: nat,
) -> Seq<u32> {
    Seq::new(starts.len(), |i: int| position(graph, directions, starts[i], k))
}

/// Every walker stands on a goal node.
pub open spec fn all_in(nodes: Seq<u32>, goals: Seq<u32>) -> bool {
    forall|i: int| 0 <= i < nodes.len() ==> goals.contains(#[trigger] nodes[i])
}

/// After `k` moves every walker stands on a goal node.
pub open spec fn converged_at(
    graph: Seq<(u32, u32)>,
    directions: Seq<bool>,
    starts: Seq<u32>,
    goals: Seq<u32>,
    k: nat,
) -> bool {
    all_in(positions_at(graph, directions, starts, k), goals)
}

/// The walkers can move for ever: the table is closed, every walker starts
/// on a node of it, and there is at least one direction.
pub open spec fn traversal_valid(
    graph: Seq<(u32, u32)>,
    directions: Seq<bool>,
    starts: Seq<u32>,
) -> bool {
    &&& graph_closed(graph)
    &&& nodes_in(graph, starts)
    &&& directions.len() > 0
}

/// One more move of the whole walker set is one kernel step in the
/// direction of that move, and it stays on the table.
pub proof fn lemma_positions_step(
    graph: Seq<(u32, u32)>,
    directions: Seq<bool>,
    starts: Seq<u32>,
    k: nat,
)
    requires
        traversal_valid(graph, directions, starts),
    ensures
        nodes_in(graph, positions_at(graph, directions, starts, k)),
        positions_at(graph, directions, starts, k + 1) == stepped(
            graph,
            positions_at(graph, directions, starts, k),
            direction_at(directions, k),
        ),
    decreases k,
{
    if k > 0 {
        lemma_positions_step(graph, directions, starts, (k - 1) as nat);
    } else {
        assert(positions_at(graph, directions, starts, 0) =~= starts);
    }
    let now = positions_at(graph, directions, starts, k);
    assert forall|i: int| 0 <= i < now.len() implies (#[trigger] now[i]) < graph.len() by {
        if k > 0 {
            let before = positions_at(graph, directions, starts, (k - 1) as nat);
            assert(before[i] < graph.len());
            assert(graph[before[i] as int].0 < graph.len());
        }
    }
    assert(positions_at(graph, directions, starts, k + 1) =~= stepped(
        graph,
        now,
        direction_at(directions, k),
    ));
}

/// What the host decides after looking at the walker set.
#[derive(Clone, Copy, Debug, PartialEq, Eq, Structural)]
pub enum LoopDecision {
    /// Every walker stands on a goal node, after this many steps.
    Converged(u64),
    /// Dispatch one more step.
    Continue,
    /// The step cap is reached and some walker is off the goal set.
    TimedOut,
}

/// The state of the convergence loop: the walker set after `steps` global
/// steps, and the cap on steps.
#[derive(Debug)]
pub struct ConvergenceLoop {
    steps: u64,
    walkers: Vec<u32>,
    max_steps: u64,
}

/// `goals` holds `node`.
pub fn contains_node(goals: &Vec<u32>, node: u32) -> (r: bool)
    ensures
        r == goals@.contains(node),
{
    let mut i: usize = 0;
    while i < goals.len()
        invariant
            i <= goals@.len(),
            forall|j: int| 0 <= j < i ==> goals@[j] != node,
        decreases goals@.len() - i,
    {
        if goals[i] == node {
            assert(goals@[i as int] == node);
            return true;
        }
        i = i + 1;
    }
    false
}

/// Every node of `nodes` is in `goals`.
pub fn all_in_goals(nodes: &Vec<u32>, goals: &Vec<u32>) -> (r: bool)
    ensures
        r == all_in(nodes@, goals@),
{
    let mut i: usize = 0;
    while i < nodes.len()
        invariant
            i <= nodes@.len(),
            forall|j: int| 0 <= j < i ==> goals@.contains(#[trigger] nodes@[j]),
        decreases nodes@.len() - i,
    {
        if !contains_node(goals, nodes[i]) {
            return false;
        }
        i = i + 1;
    }
    true
}

impl ConvergenceLoop {
    /// Number of global steps taken so far.
    pub closed spec fn spec_steps(&self) -> nat {
        self.steps as nat
    }

    /// The current walker set.
    pub closed spec fn spec_walkers(&self) -> Seq<u32> {
        self.walkers@
    }

    /// The cap on global steps.
    pub closed spec fn spec_max_steps(&self) -> nat {
        self.max_steps as nat
    }

    /// The loop before any step, with walkers on `starts`.
    pub fn new(starts: Vec<u32>, max_steps: u64) -> (r: ConvergenceLoop)
        ensures
            r.spec_steps() == 0,
            r.spec_walkers() == starts@,
            r.spec_max_steps() == max_steps,
    {
        ConvergenceLoop { steps: 0, walkers: starts, max_steps }
    }

    /// Number of global steps taken so far.
    pub fn steps(&self) -> (r: u64)
        ensures
            r == self.spec_steps(),
    {
        self.steps
    }

    /// The current walker set, as the next kernel's input.
    pub fn walkers(&self) -> (r: &Vec<u32>)
        ensures
            r@ == self.spec_walkers(),
    {
        &self.walkers
    }

    /// The direction of the next step: the one at the global step count.
    pub fn next_direction(&self, directions: &Vec<bool>) -> (r: bool)
        requires
            directions@.len() > 0,
        ensures
            r == direction_at(directions@, self.spec_steps()),
    {
        directions[(self.steps % directions.len() as u64) as usize]
    }

    /// Converged once every walker is on a goal node; otherwise timed out
    /// once the cap is reached; otherwise one more step is due.
    pub fn decide(&self, goals: &Vec<u32>) -> (r: LoopDecision)
        ensures
            all_in(self.spec_walkers(), goals@) ==> r == LoopDecision::Converged(self.spec_steps() as u64),
            !all_in(self.spec_walkers(), goals@) && self.spec_steps() >= self.spec_max_steps()
                ==> r == LoopDecision::TimedOut,
            !all_in(self.spec_walkers(), goals@) && self.spec_steps() < self.spec_max_steps()
                ==> r == LoopDecision::Continue,
    {
        if all_in_goals(&self.walkers, goals) {
            LoopDecision::Converged(self.steps)
        } else if self.steps >= self.max_steps {
            LoopDecision::TimedOut
        } else {
            LoopDecision::Continue
        }
    }

    /// Replaces the walker set with the positions that one step produced.
    /// The set never shrinks: positions of another length are a failed
    /// transfer, and a step past the cap is a timeout; either leaves the
    /// loop as it was.
    pub fn advance(&mut self, next: Vec<u32>) -> (r: Result<(), DispatchError>)
        ensures
            old(self).spec_steps() >= old(self).spec_max_steps() ==> r == Err::<(), DispatchError>(
                DispatchError::ConvergenceTimeout,
            ),
            old(self).spec_steps() < old(self).spec_max_steps() && next@.len() != old(
                self,
            ).spec_walkers().len() ==> r == Err::<(), DispatchError>(DispatchError::TransferError),
            r is Ok <==> old(self).spec_steps() < old(self).spec_max_steps() && next@.len()
                == old(self).spec_walkers().len(),
            r is Ok ==> final(self).spec_steps() == old(self).spec_steps() + 1
                && final(self).spec_walkers() == next@ && final(self).spec_max_steps() == old(
                self,
            ).spec_max_steps(),
            r is Err ==> *final(self) == *old(self),
    {
        if self.steps >= self.max_steps {
            return Err(DispatchError::ConvergenceTimeout);
        }
        if next.len() != self.walkers.len() {
            return Err(DispatchError::TransferError);
        }
        self.walkers = next;
        self.steps = self.steps + 1;
        Ok(())
    }
}

/// `graph`, `directions` and `starts` meet `traversal_valid`.
pub fn check_traversal(graph: &Vec<(u32, u32)>, directions: &Vec<bool>, starts: &Vec<u32>) -> (r:
    bool)
    ensures
        r == traversal_valid(graph@, directions@, starts@),
{
    if directions.len() == 0 {
        return false;
    }
    let n = graph.len();
    let mut i: usize = 0;
    while i < n
        invariant
            n == graph@.len(),
            i <= n,
            forall|j: int| 0 <= j < i ==> (#[trigger] graph@[j]).0 < n && graph@[j].1 < n,
        decreases n - i,
    {
        let (l, r) = graph[i];
        if l as usize >= n || r as usize >= n {
            return false;
        }
        i = i + 1;
    }
    let mut k: usize = 0;
    while k < starts.len()
        invariant
            n == graph@.len(),
            k <= starts@.len(),
            graph_closed(graph@),
            forall|j: int| 0 <= j < k ==> (#[trigger] starts@[j]) < n,
        decreases starts@.len() - k,
    {
        if starts[k] as usize >= n {
            return false;
        }
        k = k + 1;
    }
    true
}


/// Moves the walkers on `starts` in lock-step through `graph`, step `s` in
/// the direction `direction_at(directions, s)`, until every walker stands on
/// a node of `goals`, and returns the number of steps taken: the least step
/// count at which they all do, if that is at most `max_steps`. Each step is
/// one launch of the graph-step kernel, planned with the block size that the
/// occupancy query suggested.
///
/// An empty walker set converges at once, with no launch. Otherwise a table
/// or a walker set that would send a walker off the table, or an empty
/// direction cycle, is `KernelLaunchError`; a launch that cannot be planned
/// is `LaunchConfigError`; and no convergence within `max_steps` steps is
/// `ConvergenceTimeout`.
pub fn converge(
    graph: &Vec<(u32, u32)>,
    starts: &Vec<u32>,
    goals: &Vec<u32>,
    directions: &Vec<bool>,
    suggested_block_size: u32,
    max_steps: u64,
) -> (r: Result<u64, DispatchError>)
    ensures
        starts@.len() == 0 ==> r == Ok::<u64, DispatchError>(0),
        starts@.len() > 0 && !traversal_valid(graph@, directions@, starts@) ==> r == Err::<
            u64,
            DispatchError,
        >(DispatchError::KernelLaunchError),
        starts@.len() > 0 && traversal_valid(graph@, directions@, starts@) && plan_outcome(
            starts@.len() as nat,
            suggested_block_size as nat,
        ) is Err ==> r == Err::<u64, DispatchError>(DispatchError::LaunchConfigError),
        r matches Ok(k) ==> {
            &&& k <= max_steps
            &&& converged_at(graph@, directions@, starts@, goals@, k as nat)
            &&& forall|j: nat|
                j < k ==> !#[trigger] converged_at(graph@, directions@, starts@, goals@, j)
        },
        ready_to_converge(graph@, directions@, starts@, suggested_block_size as nat) ==> (r is Ok
            <==> exists|k: nat|
            k <= max_steps && #[trigger] converged_at(graph@, directions@, starts@, goals@, k)),
        ready_to_converge(graph@, directions@, starts@, suggested_block_size as nat) && r is Err
            ==> r == Err::<u64, DispatchError>(DispatchError::ConvergenceTimeout),
        r == Err::<u64, DispatchError>(DispatchError::ConvergenceTimeout) ==> forall|j: nat|
            j <= max_steps ==> !#[trigger] converged_at(graph@, directions@, starts@, goals@, j),
{
    if starts.len() == 0 {
        assert(converged_at(graph@, directions@, starts@, goals@, 0));
        return Ok(0);
    }
    if !check_traversal(graph, directions, starts) {
        return Err(DispatchError::KernelLaunchError);
    }
    let config = match plan_launch(starts.len(), suggested_block_size) {
        Ok(c) => c,
        Err(e) => {
            return Err(e);
        },
    };
    let mut lp = ConvergenceLoop::new(starts.clone(), max_steps);
    assert(lp.spec_walkers() =~= positions_at(graph@, directions@, starts@, 0));
    loop
        invariant
            traversal_valid(graph@, directions@, starts@),
            starts@.len() > 0,
            plan_outcome(starts@.len() as nat, suggested_block_size as nat) is Ok,
            lp.spec_walkers() == positions_at(graph@, directions@, starts@, lp.spec_steps()),
            lp.spec_max_steps() == max_steps,
            lp.spec_steps() <= max_steps,
            config.block_size >= 1,
            crate::launch::covers(config, starts@.len() as nat),
            forall|j: nat|
                j < lp.spec_steps() ==> !#[trigger] converged_at(
                    graph@,
                    directions@,
                    starts@,
                    goals@,
                    j,
                ),
        decreases max_steps - lp.spec_steps(),
    {
        let ghost k = lp.spec_steps();
        match lp.decide(goals) {
            LoopDecision::Converged(n) => {
                assert(converged_at(graph@, directions@, starts@, goals@, k));
                return Ok(n);
            },
            LoopDecision::TimedOut => {
                assert forall|j: nat| j <= max_steps implies !#[trigger] converged_at(
                    graph@,
                    directions@,
                    starts@,
                    goals@,
                    j,
                ) by {
                    if j == k {
                    }
                }
                return Err(DispatchError::ConvergenceTimeout);
            },
            LoopDecision::Continue => {},
        }
        proof {
            lemma_positions_step(graph@, directions@, starts@, k);
        }
        let left = lp.next_direction(directions);
        let next = graph_step_kernel(graph, lp.walkers(), left, config);
        let res = lp.advance(next);
        assert(res is Ok);
        assert forall|j: nat| j < lp.spec_steps() implies !#[trigger] converged_at(
            graph@,
            directions@,
            starts@,
            goals@,
            j,
        ) by {
            if j == k {
            }
        }
    }
}

/// Nothing keeps the loop from running: the walker set is empty, or it is
/// valid on the table and its launch can be planned.
pub open spec fn ready_to_converge(
    graph: Seq<(u32, u32)>,
    directions: Seq<bool>,
    starts: Seq<u32>,
    block: nat,
) -> bool {
    starts.len() == 0 || (traversal_valid(graph, directions, starts) && plan_outcome(
        starts.len() as nat,
        block,
    ) is Ok)
}

} // verus!
