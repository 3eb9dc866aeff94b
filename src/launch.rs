//! The launch planner: grid and block sizes that cover a problem.
use vstd::prelude::*;

use crate::error::DispatchError;

verus! {

/// Grid and block dimensions of one kernel launch.
#[derive(Clone, Copy, Debug, PartialEq, Eq, Structural)]
pub struct LaunchConfig {
    /// Number of blocks in the grid.
    pub grid_size: u32,
    /// Number of threads in each block.
    pub block_size: u32,
}

/// `ceil(n / d)` for a positive `d`.
pub open spec fn ceil_div(n: nat, d: nat) -> nat
    recommends
        d > 0,
{
    ((n + d - 1) as nat) / d
}

/// Total number of threads that a configuration starts.
pub open spec fn thread_count(c: LaunchConfig) -> nat {
    (c.grid_size as nat) * (c.block_size as nat)
}

/// A configuration starts at least one thread per element of a problem of
/// size `n`, and every block holds at least one thread.
pub open spec fn covers(c: LaunchConfig, n: nat) -> bool {
    c.block_size >= 1 && thread_count(c) >= n
}

/// The configuration chosen for `n` elements and a suggested block size of
/// `block` threads, or the failure to choose one.
pub open spec fn plan_outcome(n: nat, block: nat) -> Result<LaunchConfig, DispatchError> {
    if block > 0 && ceil_div(n, block) <= u32::MAX {
        Ok(LaunchConfig { grid_size: ceil_div(n, block) as u32, block_size: block as u32 })
    } else {
        Err(DispatchError::LaunchConfigError)
    }
}

proof fn lemma_ceil_div_covers(n: nat, d: nat)
    requires
        d > 0,
    ensures
        ceil_div(n, d) * d >= n,
        n > 0 ==> (ceil_div(n, d) - 1) * d < n,
        ceil_div(n, d) <= n,
{
    let q = ceil_div(n, d);
    let m = (n + d - 1) as nat;
    assert(m == q * d + m % d) by (nonlinear_arith)
        requires
            d > 0,
            q == m / d,
    ;
    assert(m % d < d) by (nonlinear_arith)
        requires
            d > 0,
    ;
    assert(q * d >= n);
    if n > 0 {
        assert((q - 1) * d == q * d - d) by (nonlinear_arith);
    }
    if n == 0 {
        assert(m < d);
        assert(q == 0) by (nonlinear_arith)
            requires
                q == m / d,
                m < d,
                d > 0,
        ;
    } else {
        assert(q <= n) by (nonlinear_arith)
            requires
                q * d >= n,
                (q - 1) * d < n,
                d >= 1,
                n > 0,
        ;
    }
}

/// Chooses the launch configuration for a problem of `problem_size` elements,
/// given the block size that the device's occupancy query suggested for the
/// kernel with no dynamic shared memory. The grid is the least number of
/// such blocks that covers every element. A suggestion of zero threads is a
/// failed occupancy query, and a grid of more than `u32::MAX` blocks cannot
/// be described; both are `LaunchConfigError`.
pub fn plan_launch(problem_size: usize, suggested_block_size: u32) -> (r: Result<
    LaunchConfig,
    DispatchError,
>)
    ensures
        r == plan_outcome(problem_size as nat, suggested_block_size as nat),
        r is Ok <==> suggested_block_size > 0 && ceil_div(
            problem_size as nat,
            suggested_block_size as nat,
        ) <= u32::MAX,
        r is Err ==> r == Err::<LaunchConfig, DispatchError>(DispatchError::LaunchConfigError),
        r matches Ok(c) ==> {
            &&& c.block_size == suggested_block_size
            &&& c.grid_size as nat == ceil_div(problem_size as nat, suggested_block_size as nat)
            &&& covers(c, problem_size as nat)
        },
{
    if suggested_block_size == 0 {
        return Err(DispatchError::LaunchConfigError);
    }
    proof {
        lemma_ceil_div_covers(problem_size as nat, suggested_block_size as nat);
    }
    let n = problem_size as u128;
    let d = suggested_block_size as u128;
    let grid = (n + d - 1) / d;
    if grid > u32::MAX as u128 {
        return Err(DispatchError::LaunchConfigError);
    }
    Ok(LaunchConfig { grid_size: grid as u32, block_size: suggested_block_size })
}

} // verus!
