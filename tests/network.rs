use aoc_gpu::day08::{self, Direction, Instruction};
use aoc_gpu::error::DispatchError;
use aoc_gpu::gpu_day08;
use aoc_gpu::text::PuzzleError;

const GHOST_EXAMPLE: &str = "LR

11A = (11B, XXX)
11B = (XXX, 11Z)
11Z = (11B, XXX)
22A = (22B, XXX)
22B = (22C, 22C)
22C = (22Z, 22Z)
22Z = (22B, 22B)
XXX = (XXX, XXX)";

#[test]
fn gpu_day08_test_solve_part_2() {
    assert_eq!(gpu_day08::solve_part_2(GHOST_EXAMPLE).unwrap(), 6);
}

#[test]
fn network_of_the_ghost_example() {
    let n = gpu_day08::build_network(GHOST_EXAMPLE).unwrap();
    // Byte-wise order: 11A 11B 11Z 22A 22B 22C 22Z XXX.
    assert_eq!(n.graph, vec![(1, 7), (7, 2), (1, 7), (4, 7), (5, 5), (6, 6), (4, 4), (7, 7)]);
    assert_eq!(n.starts, vec![0, 3]);
    assert_eq!(n.goals, vec![2, 6]);
    assert_eq!(n.directions, vec![true, false]);
}

#[test]
fn network_with_an_unknown_successor() {
    assert_eq!(gpu_day08::build_network("L\n\nAAA = (BBB, AAA)").unwrap_err(), PuzzleError::UnknownNode);
}

#[test]
fn ghosts_without_directions_cannot_move() {
    let input = "\n\n11A = (11Z, 11Z)\n11Z = (11Z, 11Z)";
    assert_eq!(gpu_day08::solve_part_2(input), Err(PuzzleError::Dispatch(DispatchError::KernelLaunchError)));
}

#[test]
fn ghosts_that_never_meet_time_out() {
    let input = "L\n\n11A = (11B, 11B)\n11B = (11A, 11A)\n11Z = (11Z, 11Z)";
    assert_eq!(gpu_day08::solve_part_2(input), Err(PuzzleError::Dispatch(DispatchError::ConvergenceTimeout)));
}

#[test]
fn day08_example_part_1() {
    let input = "RL

AAA = (BBB, CCC)
BBB = (DDD, EEE)
CCC = (ZZZ, GGG)
DDD = (DDD, DDD)
EEE = (EEE, EEE)
GGG = (GGG, GGG)
ZZZ = (ZZZ, ZZZ)";
    assert_eq!(day08::solve_part_1(input).unwrap(), 2);
}

#[test]
fn day08_example_part_1_repeats_directions() {
    let input = "LLR\n\nAAA = (BBB, BBB)\nBBB = (AAA, ZZZ)\nZZZ = (ZZZ, ZZZ)";
    assert_eq!(day08::solve_part_1(input).unwrap(), 6);
}

#[test]
fn day08_part_1_errors() {
    assert_eq!(day08::solve_part_1(""), Err(PuzzleError::MissingField));
    assert_eq!(day08::solve_part_1("LX\n\nAAA = (ZZZ, ZZZ)"), Err(PuzzleError::InvalidDirection));
    assert_eq!(day08::solve_part_1("\n\nAAA = (ZZZ, ZZZ)"), Err(PuzzleError::InvalidDirection));
    assert_eq!(day08::solve_part_1("L\n\nAAA = (BBB, ZZZ)"), Err(PuzzleError::UnknownNode));
    assert_eq!(day08::solve_part_1("L\n\nAAA (BBB, ZZZ)"), Err(PuzzleError::MissingField));
    assert_eq!(day08::solve_part_1("L\n\nAAA = (BB, ZZZ)"), Err(PuzzleError::InvalidLabel));
    assert_eq!(day08::solve_part_1("L\n\nAAA = (BBB)"), Err(PuzzleError::MissingField));
    assert_eq!(day08::solve_part_1("L\n\nAAAA = (BBB, ZZZ)"), Err(PuzzleError::InvalidLabel));
}

#[test]
fn day08_reads_an_instruction() {
    let i = Instruction::parse(&b"  AAA = (BBB, CCC)".to_vec()).unwrap();
    assert_eq!(i, Instruction { label: (b'A', b'A', b'A'), values: ((b'B', b'B', b'B'), (b'C', b'C', b'C')) });
    assert_eq!(Direction::parse(b'L'), Ok(Direction::Left));
    assert_eq!(Direction::parse(b'R'), Ok(Direction::Right));
    assert_eq!(Direction::parse(b'l'), Err(PuzzleError::InvalidDirection));
}

#[test]
fn day08_map_keeps_the_last_instruction_and_sorts_keys() {
    let (dirs, map) = day08::parse_directions_and_instructions("RL\n\nZZZ = (AAA, AAA)\nAAA = (BBB, BBB)\nAAA = (ZZZ, BBB)\nBBB = (AAA, ZZZ)").unwrap();
    assert_eq!(dirs, vec![Direction::Right, Direction::Left]);
    let aaa = (b'A', b'A', b'A');
    let bbb = (b'B', b'B', b'B');
    let zzz = (b'Z', b'Z', b'Z');
    assert_eq!(map.keys(), vec![aaa, bbb, zzz]);
    assert_eq!(map.values(), vec![(zzz, bbb), (aaa, zzz), (aaa, aaa)]);
    assert_eq!(map.get_left(&aaa), Ok(zzz));
    assert_eq!(map.get_right(&bbb), Ok(zzz));
    assert_eq!(map.get(&(b'C', b'C', b'C')), Err(PuzzleError::UnknownNode));
}

#[test]
fn day08_example_part_2() {
    assert_eq!(day08::solve_part_2(GHOST_EXAMPLE).unwrap(), 6);
}

#[test]
fn day08_part_2_edges() {
    // No walker: nothing to wait for, and the least common multiple of
    // nothing is one.
    assert_eq!(day08::solve_part_2("L\n\nBBB = (BBB, BBB)").unwrap(), 1);
    // Cycles of 2 and 3 steps.
    let input = "L\n\nAAA = (BBZ, BBZ)\nBBZ = (AAA, AAA)\nCCA = (DDD, DDD)\nDDD = (EEZ, EEZ)\nEEZ = (CCA, CCA)";
    assert_eq!(day08::solve_part_2(input).unwrap(), 2);
    assert_eq!(day08::solve_part_2("\n\nAAA = (AAZ, AAZ)\nAAZ = (AAA, AAA)"), Err(PuzzleError::InvalidDirection));
    assert_eq!(day08::solve_part_2("L\n\nAAA = (BBB, BBB)"), Err(PuzzleError::UnknownNode));
}
