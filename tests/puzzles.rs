use aoc_gpu::day01;
use aoc_gpu::day02;
use aoc_gpu::day03;
use aoc_gpu::day04;
use aoc_gpu::day05;
use aoc_gpu::day06;
use aoc_gpu::day07;
use aoc_gpu::day09;
use aoc_gpu::day10;
use aoc_gpu::day11;
use aoc_gpu::day12;
use aoc_gpu::day13;
use aoc_gpu::text::{split_lines, split_words, PuzzleError};

#[test]
fn lines_follow_line_feeds() {
    assert_eq!(split_lines(b""), Vec::<Vec<u8>>::new());
    assert_eq!(split_lines(b"\n"), vec![Vec::<u8>::new()]);
    assert_eq!(split_lines(b"ab\r\ncd\n\nef"), vec![b"ab".to_vec(), b"cd".to_vec(), vec![], b"ef".to_vec()]);
    assert_eq!(split_lines(b"ab\n"), vec![b"ab".to_vec()]);
}

#[test]
fn words_skip_runs_of_spaces() {
    assert_eq!(split_words(&b"  7  15\t30 ".to_vec()), vec![b"7".to_vec(), b"15".to_vec(), b"30".to_vec()]);
    assert_eq!(split_words(&b"   ".to_vec()), Vec::<Vec<u8>>::new());
}

#[test]
fn day01_example_part_1() {
    let input = "1abc2\npqr3stu8vwx\na1b2c3d4e5f\ntreb7uchet";
    assert_eq!(day01::solve_part_1(input).unwrap(), 142);
}

#[test]
fn day01_example_part_2() {
    let input = "two1nine\neightwothree\nabcone2threexyz\nxtwone3four\n4nineeightseven2\nzoneight234\n7pqrstsixteen";
    assert_eq!(day01::solve_part_2(input).unwrap(), 281);
}

#[test]
fn day01_spelled_words_overlap_and_zero_counts() {
    assert_eq!(day01::solve_part_2("oneight").unwrap(), 18);
    assert_eq!(day01::solve_part_2("zero5").unwrap(), 5);
    assert_eq!(day01::solve_part_1("oneight7").unwrap(), 77);
}

#[test]
fn day01_skips_empty_lines_and_needs_a_digit() {
    assert_eq!(day01::solve_part_1("\n12\n\n3\n").unwrap(), 45);
    assert_eq!(day01::solve_part_1("12\nabc"), Err(PuzzleError::MissingDigit));
    assert_eq!(day01::solve_part_2("abc"), Err(PuzzleError::MissingDigit));
    assert_eq!(day01::solve_part_1("").unwrap(), 0);
}

const DAY02_EXAMPLE: &str = "Game 1: 3 blue, 4 red; 1 red, 2 green, 6 blue; 2 green
Game 2: 1 blue, 2 green; 3 green, 4 blue, 1 red; 1 green, 1 blue
Game 3: 8 green, 6 blue, 20 red; 5 blue, 4 red, 13 green; 5 green, 1 red
Game 4: 1 green, 3 red, 6 blue; 3 green, 6 red; 3 green, 15 blue, 14 red
Game 5: 6 red, 1 blue, 3 green; 2 blue, 1 red, 2 green";

#[test]
fn day02_example_part_1() {
    assert_eq!(day02::solve_part_1(DAY02_EXAMPLE).unwrap(), 8);
}

#[test]
fn day02_example_part_2() {
    assert_eq!(day02::solve_part_2(DAY02_EXAMPLE).unwrap(), 2286);
}

#[test]
fn day02_reads_one_game() {
    let c = day02::max_cubes_per_color(&b"Game 12: 3 Blue, 4 red; 1 RED, 2 green, 6 blue".to_vec()).unwrap();
    assert_eq!(c, day02::Cube { game: 12, red: 4, green: 2, blue: 6 });
}

#[test]
fn day02_errors() {
    assert_eq!(day02::solve_part_1("Game 1: 3 purple"), Err(PuzzleError::UnknownColor));
    assert_eq!(day02::solve_part_1("Game x: 3 red"), Err(PuzzleError::InvalidNumber));
    assert_eq!(day02::solve_part_1("Game 1"), Err(PuzzleError::MissingField));
    assert_eq!(day02::solve_part_1("Game 1: 3"), Err(PuzzleError::MissingField));
    assert_eq!(day02::solve_part_1("Game 1: red"), Err(PuzzleError::InvalidNumber));
    assert_eq!(day02::solve_part_2("Game 1: 65536 red, 65536 green, 1 blue"), Err(PuzzleError::Overflow));
}

const DAY04_EXAMPLE: &str = "Card 1: 41 48 83 86 17 | 83 86  6 31 17  9 48 53
Card 2: 13 32 20 16 61 | 61 30 68 82 17 32 24 19
Card 3:  1 21 53 59 44 | 69 82 63 72 16 21 14  1
Card 4: 41 92 73 84 69 | 59 84 76 51 58  5 54 83
Card 5: 87 83 26 28 32 | 88 30 70 12 93 22 82 36
Card 6: 31 18 13 56 72 | 74 77 10 23 35 67 36 11";

#[test]
fn day04_example_part_1() {
    assert_eq!(day04::solve_part_1(DAY04_EXAMPLE).unwrap(), 13);
}

#[test]
fn day04_example_part_2() {
    assert_eq!(day04::solve_part_2(DAY04_EXAMPLE).unwrap(), 30);
}

#[test]
fn day04_reads_one_card() {
    let c = day04::parse_scratch_card(&b"Card  3:  1 21 53 59 44 | 69 82 63 72 16 21 14  1".to_vec()).unwrap();
    assert_eq!(c, day04::ScratchCard { card: 3, matches: 2 });
}

#[test]
fn day04_errors() {
    assert_eq!(day04::solve_part_1("Card 1: 1 2"), Err(PuzzleError::MissingField));
    assert_eq!(day04::solve_part_1("Card 1 | 2"), Err(PuzzleError::InvalidNumber));
    assert_eq!(day04::solve_part_1("Card 1: 1 x | 2"), Err(PuzzleError::InvalidNumber));
    assert_eq!(day04::solve_part_2("Card 1: 1 | 1"), Err(PuzzleError::MissingField));
    let many = "Card 1: 1 2 3 4 5 6 7 8 9 10 11 12 13 14 15 16 17 18 19 20 21 22 23 24 25 26 27 28 29 30 31 32 33 | 1 2 3 4 5 6 7 8 9 10 11 12 13 14 15 16 17 18 19 20 21 22 23 24 25 26 27 28 29 30 31 32 33";
    assert_eq!(day04::solve_part_1(many), Err(PuzzleError::Overflow));
}

const DAY06_EXAMPLE: &str = "Time:      7  15   30
Distance:  9  40  200";

#[test]
fn day06_example_part_1() {
    assert_eq!(day06::solve_part_1(DAY06_EXAMPLE).unwrap(), 288);
}

#[test]
fn day06_example_part_2() {
    assert_eq!(day06::solve_part_2(DAY06_EXAMPLE).unwrap(), 71503);
}

#[test]
fn day06_counts_winning_times() {
    assert_eq!(day06::winning_times(7, 9), 4);
    assert_eq!(day06::winning_times(30, 200), 9);
    assert_eq!(day06::winning_times(0, 0), 0);
}

#[test]
fn day06_errors() {
    assert_eq!(day06::solve_part_1(""), Err(PuzzleError::MissingField));
    assert_eq!(day06::solve_part_1("Time: 7"), Err(PuzzleError::MissingField));
    assert_eq!(day06::solve_part_1("Time: 7 x\nDistance: 9"), Err(PuzzleError::InvalidNumber));
    assert_eq!(day06::solve_part_2("Time: 7 1\nDistance: 9 x"), Err(PuzzleError::InvalidNumber));
}

const DAY09_EXAMPLE: &str = "0 3 6 9 12 15
1 3 6 10 15 21
10 13 16 21 30 45";

#[test]
fn day09_test_solve_part_1() {
    assert_eq!(day09::solve_part_1(DAY09_EXAMPLE).unwrap(), 114);
}

#[test]
fn day09_test_solve_part_2() {
    assert_eq!(day09::solve_part_2(DAY09_EXAMPLE).unwrap(), 2);
}

#[test]
fn day09_extrapolates_one_history() {
    assert_eq!(day09::get_next_value(&vec![10, 13, 16, 21, 30, 45]), Ok(68));
    assert_eq!(day09::get_first_value(&vec![10, 13, 16, 21, 30, 45]), Ok(5));
    assert_eq!(day09::get_next_value(&vec![0, 0]), Ok(0));
}

#[test]
fn day09_errors() {
    assert_eq!(day09::get_next_value(&vec![]), Err(PuzzleError::EmptyHistory));
    assert_eq!(day09::get_next_value(&vec![5]), Err(PuzzleError::EmptyHistory));
    assert_eq!(day09::get_next_value(&vec![i32::MIN, i32::MAX]), Err(PuzzleError::Overflow));
    assert_eq!(day09::solve_part_1("1 2\n\n3 4"), Err(PuzzleError::EmptyHistory));
    assert_eq!(day09::solve_part_2("1 two"), Err(PuzzleError::InvalidNumber));
    assert_eq!(day09::solve_part_1("-5 -6 -7").unwrap(), (-8i32) as u32);
    assert_eq!(day09::solve_part_1("-5 -6"), Err(PuzzleError::EmptyHistory));
}

const DAY13_EXAMPLE: &str = "#.##..##.
..#.##.#.
##......#
##......#
..#.##.#.
..##..##.
#.#.##.#.

#...##..#
#....#..#
..##..###
#####.##.
#####.##.
..##..###
#....#..#";

#[test]
fn day13_test_solve_part_1() {
    assert_eq!(day13::solve_part_1(DAY13_EXAMPLE).unwrap(), 405);
}

#[test]
fn day13_finds_lines_of_reflection() {
    let map = day13::TerrainMap::parse(&b"#.##..##.\n..#.##.#.\n##......#\n##......#\n..#.##.#.\n..##..##.\n#.#.##.#.".to_vec()).unwrap();
    assert_eq!(map.find_line_of_reflection(), Ok(day13::ReflectionLine::Vertical(4, 5)));
    let map = day13::TerrainMap::parse(&b"#...##..#\n#....#..#\n..##..###\n#####.##.\n#####.##.\n..##..###\n#....#..#".to_vec()).unwrap();
    assert_eq!(map.find_line_of_reflection(), Ok(day13::ReflectionLine::Horizontal(3, 4)));
    let rows = vec![b"#.".to_vec(), b"..".to_vec(), b"..".to_vec(), b"##".to_vec()];
    assert!(!day13::is_reflection(&rows, 1));
    assert!(day13::is_reflection(&rows, 0));
}

#[test]
fn day13_errors() {
    assert_eq!(day13::solve_part_1("#.\n.x"), Err(PuzzleError::InvalidTerrain));
    assert_eq!(day13::solve_part_1("#.\n.#"), Err(PuzzleError::NoReflection));
    assert_eq!(day13::solve_part_1("#..\n.#"), Err(PuzzleError::RaggedMap));
    assert_eq!(day13::solve_part_1("##\n..\n\n"), Err(PuzzleError::MissingField));
    assert_eq!(day13::solve_part_1("#.\n#.").unwrap(), 100);
}

const DAY11_EXAMPLE: &str = "...#......
.......#..
#.........
..........
......#...
.#........
.........#
..........
.......#..
#...#.....";

#[test]
fn day11_test_solve_part_1() {
    assert_eq!(day11::solve_part_1(DAY11_EXAMPLE).unwrap(), 374);
}

#[test]
fn day11_test_solve_part_2() {
    assert_eq!(day11::solve_part_2(DAY11_EXAMPLE, 10).unwrap(), 1030);
    assert_eq!(day11::solve_part_2(DAY11_EXAMPLE, 100).unwrap(), 8410);
}

#[test]
fn day11_expansion_factors() {
    assert_eq!(day11::solve_part_2(DAY11_EXAMPLE, 2).unwrap(), 374);
    // With factor one, or zero, empty space does not widen.
    assert_eq!(day11::solve_part_2("#.#", 1).unwrap(), 2);
    assert_eq!(day11::solve_part_2("#.#", 0).unwrap(), 2);
    assert_eq!(day11::solve_part_2("#.#", 5).unwrap(), 6);
    assert_eq!(day11::solve_part_1("").unwrap(), 0);
    assert_eq!(day11::solve_part_1("#\n.\n#").unwrap(), 3);
}

#[test]
fn day11_errors() {
    assert_eq!(day11::solve_part_1("#.\n#.#"), Err(PuzzleError::RaggedMap));
    assert_eq!(day11::solve_part_2("#.\n#.#", 3), Err(PuzzleError::RaggedMap));
    assert_eq!(day11::solve_part_1("#..#\n#"), Err(PuzzleError::RaggedMap));
    assert_eq!(day11::solve_part_2("#..#\n#", 3).unwrap(), 7 + 1 + 8);
    assert_eq!(day11::solve_part_2("#.#", u64::MAX), Err(PuzzleError::Overflow));
}

const DAY07_EXAMPLE: &str = "32T3K 765
T55J5 684
KK677 28
KTJJT 220
QQQJA 483";

#[test]
fn day07_example_part_1() {
    assert_eq!(day07::solve_part_1(DAY07_EXAMPLE).unwrap(), 6440);
}

#[test]
fn day07_test_solve_part_2() {
    assert_eq!(day07::solve_part_2(DAY07_EXAMPLE).unwrap(), 5905);
}

#[test]
fn day07_hand_types() {
    let h = day07::parse_camel_card_hand(&b"KTJJT 220".to_vec()).unwrap();
    assert_eq!((h.hand_type, h.bid), (2, 220));
    assert_eq!(h.cards, vec![11, 8, 9, 9, 8]);
    let h = day07::parse_camel_card_hand_with_joker(&b"KTJJT 220".to_vec()).unwrap();
    assert_eq!(h.hand_type, 5);
    assert_eq!(h.cards, vec![11, 9, 0, 0, 9]);
    let h = day07::parse_camel_card_hand_with_joker(&b"JJJJJ 1".to_vec()).unwrap();
    assert_eq!(h.hand_type, 6);
    let h = day07::parse_camel_card_hand(&b"23456 1".to_vec()).unwrap();
    assert_eq!(h.hand_type, 0);
    let h = day07::parse_camel_card_hand(&b"22333 1".to_vec()).unwrap();
    assert_eq!(h.hand_type, 4);
}

#[test]
fn day07_ties_keep_input_order() {
    // Equal hands rank in input order: 1 * 1 + 2 * 2.
    assert_eq!(day07::solve_part_1("AAAAA 1\nAAAAA 2").unwrap(), 5);
    assert_eq!(day07::solve_part_1("AAAAA 2\nAAAAA 1").unwrap(), 4);
}

#[test]
fn day07_errors() {
    assert_eq!(day07::solve_part_1(""), Ok(0));
    assert_eq!(day07::solve_part_1("AAAAX 1"), Err(PuzzleError::InvalidCard));
    assert_eq!(day07::solve_part_1("AAAA 1"), Err(PuzzleError::InvalidHand));
    assert_eq!(day07::solve_part_1("AAAAA"), Err(PuzzleError::MissingField));
    assert_eq!(day07::solve_part_1("\n"), Err(PuzzleError::MissingField));
    assert_eq!(day07::solve_part_1("AAAAA x"), Err(PuzzleError::InvalidNumber));
    assert_eq!(day07::solve_part_1("AAAAA 4294967295\n22222 1"), Err(PuzzleError::Overflow));
}

const DAY03_EXAMPLE: &str = "467..114..
...*......
..35..633.
......#...
617*......
.....+.58.
..592.....
......755.
...$.*....
.664.598..";

#[test]
fn day03_example_part_1() {
    assert_eq!(day03::solve_part_1(DAY03_EXAMPLE).unwrap(), 4361);
}

#[test]
fn day03_example_part_2() {
    assert_eq!(day03::solve_part_2(DAY03_EXAMPLE).unwrap(), 467835);
}

#[test]
fn day03_edges() {
    // A leading zero shortens the number's reach to its value's digits.
    assert_eq!(day03::solve_part_1("007*").unwrap(), 0);
    assert_eq!(day03::solve_part_1("7*").unwrap(), 7);
    assert_eq!(day03::solve_part_1("..\n.5\n#.").unwrap(), 5);
    // Two equal numbers count as one value: no gear.
    assert_eq!(day03::solve_part_2("2*2").unwrap(), 0);
    assert_eq!(day03::solve_part_2("2*3").unwrap(), 6);
    assert_eq!(day03::solve_part_2("2*3\n.4.").unwrap(), 0);
    assert_eq!(day03::solve_part_1("99999999999*"), Err(PuzzleError::InvalidNumber));
    assert_eq!(day03::solve_part_2("99999999999*"), Err(PuzzleError::InvalidNumber));
    assert_eq!(day03::solve_part_2("65536*65537"), Err(PuzzleError::Overflow));
}

const DAY05_EXAMPLE: &str = "seeds: 79 14 55 13

seed-to-soil map:
50 98 2
52 50 48

soil-to-fertilizer map:
0 15 37
37 52 2
39 0 15

fertilizer-to-water map:
49 53 8
0 11 42
42 0 7
57 7 4

water-to-light map:
88 18 7
18 25 70

light-to-temperature map:
45 77 23
81 45 19
68 64 13

temperature-to-humidity map:
0 69 1
1 0 69

humidity-to-location map:
60 56 37
56 93 4";

#[test]
fn day05_example_part_1() {
    assert_eq!(day05::solve_part_1(DAY05_EXAMPLE).unwrap(), 35);
}

#[test]
fn day05_example_part_2() {
    assert_eq!(day05::solve_part_2(DAY05_EXAMPLE).unwrap(), 46);
}

#[test]
fn day05_reads_the_almanac() {
    let a = day05::parse_almanac(DAY05_EXAMPLE).unwrap();
    assert_eq!(a.seeds, vec![79, 14, 55, 13]);
    assert_eq!(a.maps.len(), 7);
    assert_eq!(a.maps[0], vec![(50, 98, 2), (52, 50, 48)]);
    assert_eq!(a.maps[6], vec![(60, 56, 37), (56, 93, 4)]);
    assert_eq!(day05::seed_location(&a.maps, 79), Some(82));
    assert_eq!(day05::seed_location(&a.maps, 14), Some(43));
}

#[test]
fn day05_errors() {
    assert_eq!(day05::solve_part_1(""), Err(PuzzleError::MissingField));
    assert_eq!(day05::solve_part_1("seeds: x"), Err(PuzzleError::InvalidNumber));
    assert_eq!(day05::solve_part_1("seeds:"), Err(PuzzleError::InvalidNumber));
    assert_eq!(day05::solve_part_1("seeds: "), Err(PuzzleError::MissingField));
    assert_eq!(day05::solve_part_1("seeds: 1\n\nseed-to-soil map:\n1 2"), Err(PuzzleError::MissingField));
    assert_eq!(day05::solve_part_1("seeds: 1\n\nseed-to-soil map:\n1 2 x"), Err(PuzzleError::InvalidNumber));
    assert_eq!(day05::solve_part_1("seeds: 5\n\nseed-to-soil map:\n18446744073709551615 0 10"), Err(PuzzleError::Overflow));
    assert_eq!(day05::solve_part_1("seeds: 5 3").unwrap(), 3);
    assert_eq!(day05::solve_part_2("seeds: 5 3 1"), Err(PuzzleError::MissingField));
    assert_eq!(day05::solve_part_2("seeds: 18446744073709551615 1"), Err(PuzzleError::Overflow));
    assert_eq!(day05::solve_part_2("seeds: 5 0"), Err(PuzzleError::MissingField));
}

const DAY12_EXAMPLE: &str = "???.### 1,1,3
.??..??...?##. 1,1,3
?#?#?#?#?#?#?#? 1,3,1,6
????.#...#... 4,1,1
????.######..#####. 1,6,5
?###???????? 3,2,1";

#[test]
fn day12_test_solve_part_2() {
    assert_eq!(day12::solve_part_2(DAY12_EXAMPLE).unwrap(), 525152);
}

#[test]
fn day12_reads_rows() {
    let row = day12::SpringRow::parse(&b"?#. 1,2".to_vec()).unwrap();
    assert_eq!(row.springs, b"?#.".to_vec());
    assert_eq!(row.groups, vec![1, 2]);
    assert_eq!(day12::solve_part_2("?x 1").unwrap_err(), PuzzleError::InvalidSpring);
    assert_eq!(day12::solve_part_2("??").unwrap_err(), PuzzleError::MissingField);
    assert_eq!(day12::solve_part_2("?? 1,,2").unwrap_err(), PuzzleError::InvalidNumber);
    assert_eq!(day12::solve_part_2("# 1").unwrap(), 1);
}

#[test]
fn day12_test_solve_part_1() {
    assert_eq!(day12::solve_part_1(DAY12_EXAMPLE).unwrap(), 21);
}

#[test]
fn day12_single_rows() {
    assert_eq!(day12::solve_part_1("???.### 1,1,3").unwrap(), 1);
    assert_eq!(day12::solve_part_1("?###???????? 3,2,1").unwrap(), 10);
    assert_eq!(day12::solve_part_1("... 1").unwrap(), 0);
    assert_eq!(day12::solve_part_1("?x 1"), Err(PuzzleError::InvalidSpring));
}

#[test]
fn day10_example_part_1() {
    assert_eq!(day10::solve_part_1(".....\n.S-7.\n.|.|.\n.L-J.\n.....").unwrap(), 4);
    assert_eq!(day10::solve_part_1("..F7.\n.FJ|.\nSJ.L7\n|F--J\nLJ...").unwrap(), 8);
}

#[test]
fn day10_example_part_2() {
    let input = "...........
.S-------7.
.|F-----7|.
.||.....||.
.||.....||.
.|L-7.F-J|.
.|..|.|..|.
.L--J.L--J.
...........";
    assert_eq!(day10::solve_part_2(input).unwrap(), 4);
    let input = ".F----7F7F7F7F-7....
.|F--7||||||||FJ....
.||.FJ||||||||L7....
FJL7L7LJLJ||LJ.L-7..
L--J.L7...LJS7F-7L7.
....F-J..F7FJ|L7L7L7
....L7.F7||L7|.L7L7|
.....|FJLJ|FJ|F7|.LJ
....FJL-7.||.||||...
....L---J.LJ.LJLJ...";
    assert_eq!(day10::solve_part_2(input).unwrap(), 8);
    let input = "FF7FSF7F7F7F7F7F---7
L|LJ||||||||||||F--J
FL-7LJLJ||||||LJL-77
F--JF--7||LJLJ7F7FJ-
L---JF-JLJ.||-FJLJJ7
|F|F-JF---7F7-L7L|7|
|FFJF7L7F-JF7|JL---7
7-L-JL7||F7|L7F-7F7|
L.L7LFJ|||||FJL7||LJ
L7JLJL-JLJLJL--JLJ.L";
    assert_eq!(day10::solve_part_2(input).unwrap(), 10);
}

#[test]
fn day10_errors() {
    assert_eq!(day10::solve_part_1(""), Err(PuzzleError::MissingField));
    assert_eq!(day10::solve_part_1("S-x"), Err(PuzzleError::InvalidTile));
    assert_eq!(day10::solve_part_1("...\n.S.\n.."), Err(PuzzleError::RaggedMap));
    // A start that no neighbour joins sends the walk round ground for ever.
    assert_eq!(day10::solve_part_1("...\n.S.\n..."), Err(PuzzleError::StepLimit));
    // Without a start the walk starts at (0, 0), which ground tiles, with
    // both gates at (0, 0), join: one move out and back.
    assert_eq!(day10::solve_part_1("...\n...\n...").unwrap(), 1);
    assert_eq!(day10::solve_part_2("...\n...\n...").unwrap(), 0);
}
