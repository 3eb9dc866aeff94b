use aoc_gpu::batch::{converge_batched, walk_kernel};
use aoc_gpu::convergence::{converge, ConvergenceLoop, LoopDecision};
use aoc_gpu::error::DispatchError;
use aoc_gpu::kernel::{graph_step_kernel, plan_add};
use aoc_gpu::launch::{plan_launch, LaunchConfig};
use aoc_gpu::session::Session;

#[test]
fn plan_launch_rounds_the_grid_up() {
    let c = plan_launch(1000, 256).unwrap();
    assert_eq!(c, LaunchConfig { grid_size: 4, block_size: 256 });
    let c = plan_launch(1024, 256).unwrap();
    assert_eq!(c.grid_size, 4);
    let c = plan_launch(1025, 256).unwrap();
    assert_eq!(c.grid_size, 5);
    let c = plan_launch(1, 1024).unwrap();
    assert_eq!(c, LaunchConfig { grid_size: 1, block_size: 1024 });
}

#[test]
fn plan_launch_of_nothing_has_no_blocks() {
    assert_eq!(plan_launch(0, 128).unwrap(), LaunchConfig { grid_size: 0, block_size: 128 });
}

#[test]
fn plan_launch_rejects_a_zero_block() {
    assert_eq!(plan_launch(10, 0), Err(DispatchError::LaunchConfigError));
}

#[test]
fn plan_launch_rejects_a_grid_beyond_u32() {
    let n = (u32::MAX as usize) * 2;
    assert_eq!(plan_launch(n, 1), Err(DispatchError::LaunchConfigError));
    assert_eq!(plan_launch(n + 1, 2), Err(DispatchError::LaunchConfigError));
    let c = plan_launch(n, 2).unwrap();
    assert_eq!(c.grid_size, u32::MAX);
}

#[test]
fn planned_launches_cover_every_element() {
    for n in [0usize, 1, 2, 31, 32, 33, 255, 256, 257, 10_000, 65_537] {
        for block in [1u32, 2, 3, 32, 64, 100, 256, 1024] {
            let c = plan_launch(n, block).unwrap();
            assert!(c.block_size >= 1);
            assert!(c.grid_size as u64 * c.block_size as u64 >= n as u64);
            if n > 0 {
                assert!((c.grid_size as u64 - 1) * (c.block_size as u64) < n as u64);
            }
        }
    }
}

#[test]
fn add_of_mismatched_lengths_fails_before_planning() {
    assert_eq!(plan_add(3, 4, 256), Err(DispatchError::TransferError));
    assert_eq!(plan_add(3, 4, 0), Err(DispatchError::TransferError));
    assert_eq!(plan_add(1, 1, 256).unwrap(), LaunchConfig { grid_size: 1, block_size: 256 });
    assert_eq!(plan_add(5, 5, 0), Err(DispatchError::LaunchConfigError));
}

#[test]
fn mismatched_transfer_leaves_the_session_usable() {
    let s = Session::new();
    assert_eq!(s.check_transfer(4, 5), Err(DispatchError::TransferError));
    assert_eq!(s.check_transfer(5, 5), Ok(()));
    assert_eq!(s.upload_size(5, 4), Ok(20));
}

#[test]
fn closed_session_fails_fast() {
    let mut s = Session::new();
    assert_eq!(s.require_open(), Ok(()));
    s.close();
    assert_eq!(s.require_open(), Err(DispatchError::DeviceInitError));
    assert_eq!(s.check_transfer(1, 1), Err(DispatchError::DeviceInitError));
    assert_eq!(s.upload_size(1, 1), Err(DispatchError::DeviceInitError));
    let c = LaunchConfig { grid_size: 1, block_size: 1 };
    assert_eq!(s.launch(c, 1), Err(DispatchError::DeviceInitError));
    assert_eq!(s.synchronize(false), Err(DispatchError::DeviceInitError));
}

#[test]
fn upload_size_too_large_is_an_allocation_error() {
    let s = Session::new();
    assert_eq!(s.upload_size(usize::MAX, 2), Err(DispatchError::AllocationError));
}

#[test]
fn launch_and_synchronize() {
    let mut s = Session::new();
    let small = LaunchConfig { grid_size: 1, block_size: 4 };
    assert_eq!(s.launch(small, 5), Err(DispatchError::KernelLaunchError));
    let empty_blocks = LaunchConfig { grid_size: 8, block_size: 0 };
    assert_eq!(s.launch(empty_blocks, 0), Err(DispatchError::KernelLaunchError));
    assert_eq!(s.launch(small, 4), Ok(()));
    assert_eq!(s.synchronize(true), Err(DispatchError::SynchronizationError));
    assert_eq!(s.launch(small, 3), Ok(()));
    assert_eq!(s.synchronize(false), Ok(()));
}

#[test]
fn graph_step_kernel_ignores_extra_threads() {
    let graph = vec![(1u32, 2u32), (2, 0), (0, 1)];
    let walkers = vec![0u32, 1, 2, 0, 1];
    let config = LaunchConfig { grid_size: 3, block_size: 4 };
    assert_eq!(graph_step_kernel(&graph, &walkers, true, config), vec![1, 2, 0, 1, 2]);
    assert_eq!(graph_step_kernel(&graph, &walkers, false, config), vec![2, 0, 1, 2, 0]);
}

/// The two walkers of the canonical example: `11A`..`22Z`, `XXX`, with the
/// directions `LR`. Nodes: 0 11A, 1 11B, 2 11Z, 3 22A, 4 22B, 5 22C, 6 22Z,
/// 7 XXX.
fn example_graph() -> Vec<(u32, u32)> {
    vec![(1, 7), (7, 2), (1, 7), (4, 7), (5, 5), (6, 6), (4, 4), (7, 7)]
}

#[test]
fn example_walkers_converge_after_six_steps() {
    let graph = example_graph();
    let r = converge(&graph, &vec![0, 3], &vec![2, 6], &vec![true, false], 32, 1000);
    assert_eq!(r, Ok(6));
}

#[test]
fn three_walkers_converge_at_the_common_multiple() {
    // For each walker a start node leading onto a ring of 2, 3 or 6 nodes
    // whose last node is the goal: the walkers first reach a goal after 2,
    // 3 and 6 steps, and again every 2, 3 and 6 steps.
    let mut graph: Vec<(u32, u32)> = Vec::new();
    let mut starts = Vec::new();
    let mut goals = Vec::new();
    for len in [2u32, 3, 6] {
        let start = graph.len() as u32;
        let ring = start + 1;
        graph.push((ring, ring));
        for i in 0..len {
            let next = ring + (i + 1) % len;
            graph.push((next, next));
        }
        starts.push(start);
        goals.push(ring + len - 1);
    }
    let r = converge(&graph, &starts, &goals, &vec![true, false, true], 7, 100);
    assert_eq!(r, Ok(6));
}

#[test]
fn empty_walker_set_converges_at_once() {
    let r = converge(&vec![], &vec![], &vec![], &vec![], 0, 0);
    assert_eq!(r, Ok(0));
}

#[test]
fn walkers_already_home_need_no_step() {
    let graph = example_graph();
    assert_eq!(converge(&graph, &vec![2, 6], &vec![2, 6], &vec![true], 1, 0), Ok(0));
}

#[test]
fn convergence_stops_at_the_cap() {
    let graph = example_graph();
    let r = converge(&graph, &vec![0, 3], &vec![2, 6], &vec![true, false], 32, 5);
    assert_eq!(r, Err(DispatchError::ConvergenceTimeout));
    let r = converge(&graph, &vec![0, 3], &vec![2, 6], &vec![true, false], 32, 6);
    assert_eq!(r, Ok(6));
    let r = converge(&graph, &vec![7], &vec![2], &vec![true], 32, 50);
    assert_eq!(r, Err(DispatchError::ConvergenceTimeout));
}

#[test]
fn malformed_graph_is_a_launch_error() {
    let graph = vec![(1u32, 5u32), (0, 0)];
    assert_eq!(converge(&graph, &vec![0], &vec![1], &vec![true], 32, 10), Err(DispatchError::KernelLaunchError));
    let graph = vec![(1u32, 0u32), (0, 0)];
    assert_eq!(converge(&graph, &vec![2], &vec![1], &vec![true], 32, 10), Err(DispatchError::KernelLaunchError));
    assert_eq!(converge(&graph, &vec![0], &vec![1], &vec![], 32, 10), Err(DispatchError::KernelLaunchError));
    assert_eq!(converge(&graph, &vec![0], &vec![1], &vec![true], 0, 10), Err(DispatchError::LaunchConfigError));
}

#[test]
fn loop_state_machine_steps_and_decides() {
    let goals = vec![2u32, 6];
    let directions = vec![true, false];
    let mut lp = ConvergenceLoop::new(vec![0, 3], 2);
    assert_eq!(lp.decide(&goals), LoopDecision::Continue);
    assert!(lp.next_direction(&directions));
    assert_eq!(lp.advance(vec![1]), Err(DispatchError::TransferError));
    assert_eq!(lp.steps(), 0);
    assert_eq!(lp.advance(vec![1, 4]), Ok(()));
    assert!(!lp.next_direction(&directions));
    assert_eq!(lp.walkers(), &vec![1, 4]);
    assert_eq!(lp.advance(vec![2, 5]), Ok(()));
    assert_eq!(lp.decide(&goals), LoopDecision::TimedOut);
    assert_eq!(lp.advance(vec![1, 6]), Err(DispatchError::ConvergenceTimeout));
    let mut lp = ConvergenceLoop::new(vec![1, 5], 10);
    assert_eq!(lp.advance(vec![2, 6]), Ok(()));
    assert_eq!(lp.decide(&goals), LoopDecision::Converged(1));
}

#[test]
fn batched_convergence_matches_single_steps() {
    let graph = example_graph();
    for window in [0u64, 1, 2, 3, 4, 5, 6, 7, 100] {
        for cap in [0u64, 1, 5, 6, 7, 50] {
            let single = converge(&graph, &vec![0, 3], &vec![2, 6], &vec![true, false], 32, cap);
            let batched = converge_batched(&graph, &vec![0, 3], &vec![2, 6], &vec![true, false], 32, window, cap);
            assert_eq!(single, batched);
        }
    }
    assert_eq!(converge_batched(&graph, &vec![0, 3], &vec![2, 6], &vec![true, false], 32, 4, 1000), Ok(6));
    assert_eq!(converge_batched(&vec![], &vec![], &vec![], &vec![], 0, 4, 0), Ok(0));
    assert_eq!(converge_batched(&graph, &vec![9], &vec![2], &vec![true], 32, 4, 10), Err(DispatchError::KernelLaunchError));
    assert_eq!(converge_batched(&graph, &vec![0], &vec![2], &vec![true], 0, 4, 10), Err(DispatchError::LaunchConfigError));
}

#[test]
fn walk_kernel_flags_each_step() {
    let graph = example_graph();
    let config = LaunchConfig { grid_size: 2, block_size: 2 };
    let (nodes, flags) = walk_kernel(&graph, &vec![0, 3], &vec![2, 6], &vec![true, false], 0, 6, config);
    assert_eq!(nodes, vec![2, 6]);
    assert_eq!(flags[0], vec![false, true, false, true, false, true]);
    assert_eq!(flags[1], vec![false, false, true, false, false, true]);
    // Starting at an odd global step the direction cycle is offset.
    let (nodes, _) = walk_kernel(&graph, &vec![1], &vec![2], &vec![true, false], 1, 1, config);
    assert_eq!(nodes, vec![2]);
}
