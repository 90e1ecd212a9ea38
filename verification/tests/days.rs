use advent24::challenges::day09;
use advent24::challenges::day10;
use advent24::challenges::day11;
use advent24::challenges::day12;
use advent24::challenges::day13;
use advent24::challenges::day14;
use advent24::challenges::day15;
use advent24::challenges::day17;
use advent24::challenges::day17::Computer;

const DAY09_GRID: &str = "2333133121414131402";

#[test]
fn day09_test_day9_part1() {
    let p1 = day09::part1(DAY09_GRID);
    assert_eq!(p1, 1928);
}

#[test]
fn day09_test_day9_part2() {
    assert_eq!(day09::part2(DAY09_GRID), 2858);

    // correct scoring for ids > 9
    assert_eq!(day09::part2("1010101010101010101010"), 385);

    // 0.1 -> 01. (simplest move)
    assert_eq!(day09::part2("111"), 1);

    // 0.........1 -> 01......... (simplest move, max space)
    assert_eq!(day09::part2("191"), 1);

    // 0..11 -> 011..
    assert_eq!(day09::part2("122"), 3);

    // 0.12 -> 021.
    assert_eq!(day09::part2("11101"), 4);

    // 0...12 -> 021...
    assert_eq!(day09::part2("13101"), 4);

    // 00..11..22 -> 002211....
    assert_eq!(day09::part2("22222"), 19);

    // 00..1.2.3 -> 00321....
    assert_eq!(day09::part2("2211111"), 16);

    // 00..1.2.33.4 -> 00421...33..
    assert_eq!(day09::part2("221111211"), 69);

    // 0..1.22...333 -> 0221...333...
    assert_eq!(day09::part2("1211233"), 81);

    // 00.....11 -> 0011.....
    assert_eq!(day09::part2("252"), 5);

    // 0.1.2.3 -> 0312..
    assert_eq!(day09::part2("1111111"), 11);

    // 0...1223 -> 03221...
    assert_eq!(day09::part2("1310201"), 17);

    assert_eq!(day09::part2("354631466260"), 1325);
    assert_eq!(day09::part2("171010402"), 88);
}

#[test]
fn test_day9_part2() {
    let _ = day10::part2("");
}

#[test]
fn test_day11() {
    assert_eq!(day11::part1("125 17"), 55312);
}

const DAY12_SMOL: &str = "\
AAAA
BBCD
BBCC
EEEC";

const DAY12_LARGER: &str = "\
RRRRIICCFF
RRRRIICCCF
VVRRRCCFFF
VVRCCCJFFF
VVVVCJJCFE
VVIVCCJJEE
VVIIICJJEE
MIIIIIJJEE
MIIISIJEEE
MMMISSJEEE";

const DAY12_ESHAPED: &str = "\
EEEEE
EXXXX
EEEEE
EXXXX
EEEEE";

const DAY12_THIRD: &str = "\
AAAAAA
AAABBA
AAABBA
ABBAAA
ABBAAA
AAAAAA";

const DAY12_CROSS: &str = "\
.A.
AAA
.A.";

const DAY12_DIAG: &str = "\
.BB
A.B
AA.";

#[test]
fn test_day12() {
    assert_eq!(day12::solve(DAY12_SMOL), (140, 80));
    assert_eq!(day12::solve(DAY12_LARGER), (1930, 1206));
    assert_eq!(day12::solve(DAY12_ESHAPED).1, 236);
    assert_eq!(day12::solve(DAY12_THIRD).1, 368);
    assert_eq!(day12::solve("AA\nAB").1, 22);
    assert_eq!(day12::solve(DAY12_CROSS).1, 76);
    assert_eq!(day12::solve(DAY12_DIAG).1, 48);
}

const DAY13_GRID: &str = "\
Button A: X+94, Y+34
Button B: X+22, Y+67
Prize: X=8400, Y=5400

Button A: X+26, Y+66
Button B: X+67, Y+21
Prize: X=12748, Y=12176

Button A: X+17, Y+86
Button B: X+84, Y+37
Prize: X=7870, Y=6450

Button A: X+69, Y+23
Button B: X+27, Y+71
Prize: X=18641, Y=10279
";

#[test]
fn day13_test_day9() {
    assert_eq!(day13::part1(DAY13_GRID), 480);
}

const DAY14_GRID: &str = "\
p=0,4 v=3,-3
p=6,3 v=-1,-3
p=10,3 v=-1,2
p=2,0 v=2,-1
p=0,0 v=1,3
p=3,0 v=-2,-2
p=7,6 v=-1,-3
p=3,0 v=-1,-2
p=9,3 v=2,3
p=7,3 v=-1,2
p=2,4 v=2,-3
p=9,5 v=-3,-3
";

#[test]
fn day14_test_day9() {
    assert_eq!(day14::part1(DAY14_GRID, 11, 7), 12);
}

const DAY17_GRID: &str = "\
Register A: 729
Register B: 0
Register C: 0

Program: 0,1,5,4,3,0
";

const DAY17_GRID_2: &str = "\
Register A: 2024
Register B: 0
Register C: 0

Program: 0,1,5,4,3,0
";

#[test]
fn test_day17() {
    assert_eq!(day17::part1(DAY17_GRID), "4635635210");
    assert_eq!(day17::part1(DAY17_GRID_2), "42567777310");

    let mut computer = Computer::new(vec![2, 6], [0, 0, 9]);
    computer.execute_to_end();
    assert_eq!(computer.registers[day17::REG_B], 1);

    let mut computer = Computer::new(vec![5, 0, 5, 1, 5, 4], [10, 0, 0]);
    computer.execute_to_end();
    assert_eq!(computer.output, vec![0, 1, 2]);

    let mut computer = Computer::new(vec![1, 7], [0, 29, 0]);
    computer.execute_to_end();
    assert_eq!(computer.registers[day17::REG_B], 26);

    let mut computer = Computer::new(vec![4, 0], [0, 2024, 43690]);
    computer.execute_to_end();
    assert_eq!(computer.registers[day17::REG_B], 44354);
}

#[test]
fn day13_rejects_unsolvable_machines() {
    // the second machine of the worked example has no solution at all
    let one = "Button A: X+26, Y+66\nButton B: X+67, Y+21\nPrize: X=12748, Y=12176\n";
    assert_eq!(day13::part1(one), 0);
}

#[test]
fn day14_wrapping_positions() {
    let r = day14::parse_robot("p=2,4 v=2,-3").unwrap();
    assert_eq!(r.x, 2);
    assert_eq!(r.y, 4);
    assert_eq!(r.dx, 2);
    assert_eq!(r.dy, -3);
    assert_eq!(r.pos_after(1, 11, 7), (4, 1));
    assert_eq!(r.pos_after(2, 11, 7), (6, 5));
    assert_eq!(day14::parse_robot("p=2,4"), Err(day14::ParseRobotError));
}

#[test]
fn day12_refuses_what_is_not_a_grid() {
    assert_eq!(day12::solve(""), (-1, -1));
    assert_eq!(day12::solve("\nAB"), (-1, -1));
}

#[test]
fn day17_machine_halts_on_bad_instruction() {
    let mut computer = Computer::new(vec![9, 9], [1, 2, 3]);
    assert!(!computer.execute());
    assert_eq!(computer.registers, [1, 2, 3]);
}

#[test]
fn day09_scores() {
    // 0..111....22222 compacted forward: 022111222......
    assert_eq!(day09::part1("12345"), 60);
}

const DAY15_GRID: &str = "\
########
#..O.O.#
##@.O..#
#...O..#
#.#.O..#
#...O..#
#......#
########

<^^>>>vv<v>>v<<";

const DAY15_GRID_2: &str = "\
##########
#..O..O.O#
#......O.#
#.OO..O.O#
#..O@..O.#
#O#..O...#
#O..O..O.#
#.OO.O.OO#
#....O...#
##########

<vv>^<v^>v>^vv^v>v<>v^v<v<^vv<<<^><<><>>v<vvv<>^v^>^<<<><<v<<<v^vv^v>^
vvv<<^>^v^^><<>>><>^<<><^vv^^<>vvv<>><^^v>^>vv<>v<<<<v<^v>^<^^>>>^<v<v
><>vv>v^v^<>><>>>><^^>vv>v<^^^>>v^v^<^^>v^^>v^<^v>v<>>v^v^<v>v^^<^^vv<
<<v<^>>^^^^>>>v^<>vvv^><v<<<>^^^vv^<vvv>^>v<^^^^v<>^>vvvv><>>v^<<^^^^^
^><^><>>><>^^<<^^v>>><^<v>^<vv>>v>>>^v><>^v><<<<v>>v<v<v>vvv>^<><<>^><
^>><>^v<><^vvv<^^<><v<<<<<><^v<<<><<<^^<v<^^^><^>>^<v^><<<^>>^v<v^v<v^
>^>>^v>vv>^<<^v<>><<><<v<<v><>v<^vv<<<>^^v^>^^>>><<^v>>v^v><^^>>^<>vv^
<><^^>^^^<><vvvvv^v<v<<>^v<v>v<<^><<><<><<<^^<<<^<<>><<><^^^>^^<>^>v<>
^^>vv<^v^v<vv>^<><v<^v>^^^>>>^^vvv^>vvv<>>>^<^>>>>>^<<^v>^vvv<>^<><<v>
v^^>>><<^^<>>^v^<v^vv<>v^<<>^<^v^v><^<<<><<^<v><v<>vv>>v><v^<vv<>v^<<^";

const DAY15_GRID_3: &str = "\
#######
#..#..#
#...O.#
#..OO.#
#.@O..#
#.O...#
#.O...#
#.....#
#######

v^>>v>^<^>>>v>^^<<<<<<<v<^^v<<<^^";

const DAY15_GRID_4: &str = "\
######
#....#
#..#.#
#....#
#.O..#
#.OO@#
#.O..#
#....#
######

<vv<<^^^";

#[test]
fn day15_test_day9() {
    assert_eq!(day15::part1(DAY15_GRID), 2028);
    assert_eq!(day15::part1(DAY15_GRID_2), 10092);
    assert_eq!(day15::part2(DAY15_GRID_2), 9021);
    assert_eq!(day15::part2(DAY15_GRID_3), 1732);
    assert_eq!(day15::part2(DAY15_GRID_4), 1216);
}

const DAY19_GRID: &str = "\
r, wr, b, g, bwu, rb, gb, br

brwrr
bggr
gbbr
rrbgbr
ubwu
bwurrg
brgr
bbrgwb";

#[test]
fn day19_test() {
    assert_eq!(
        advent24::challenges::day19::ways_to_make("derek".to_string(), &vec!["de", "d", "e", "r", "k", "ek"]),
        4
    );
    assert_eq!(advent24::challenges::day19::ways_to_make("derek".to_string(), &vec!["d", "e", "k"]), 0);
    assert_eq!(advent24::challenges::day19::solver(DAY19_GRID), (6, 16));
}

#[test]
fn day19_single_words() {
    assert_eq!(advent24::challenges::day19::ways_to_make("brwrr".to_string(), &vec!["r", "wr", "b", "g", "bwu", "rb", "gb", "br"]), 2);
    assert_eq!(advent24::challenges::day19::ways_to_make("ubwu".to_string(), &vec!["r", "wr", "b", "g", "bwu", "rb", "gb", "br"]), 0);
}

const DAY08_GRID: &str = "\
............
........0...
.....0......
.......0....
....0.......
......A.....
............
............
........A...
.........A..
............
............";

#[test]
fn test_day8() {
    assert_eq!(advent24::challenges::day08::solver(DAY08_GRID, 1, 1), 14);
    assert_eq!(advent24::challenges::day08::solver(DAY08_GRID, 0, 100), 34);
}

#[test]
fn day03_instruction_stream() {
    let (p1, p2) = advent24::challenges::day03::challenge(
        "xmul(2,4)%&mul[3,7]!@^do_not_mul(5,5)+mul(32,64]ok(mul(11,8)mul(8,5))",
    );
    assert_eq!(p1, 161);
    assert_eq!(p2, 161);
    let (p1, p2) = advent24::challenges::day03::challenge(
        "xmul(2,4)&mul[3,7]!^don't()_mul(5,5)+mul(32,64](mul(11,8)undo()do()mul(8,5))",
    );
    assert_eq!(p1, 161);
    assert_eq!(p2, 48);
    assert_eq!(advent24::challenges::day03::challenge("mul(4,"), (0, 0));
}

#[test]
fn day02_report_safety() {
    let reports = "7 6 4 2 1\n1 2 7 8 9\n9 7 6 2 1\n1 3 2 4 5\n8 6 4 4 1\n1 3 6 7 9";
    assert_eq!(advent24::challenges::day02::part1(reports), 2);
    assert_eq!(advent24::challenges::day02::part2(reports), 4);
}

#[test]
fn day15_part1_small() {
    assert_eq!(advent24::challenges::day15::part2(""), -1);
}

const DAY18_GRID: &str = "\
5,4
4,2
4,5
3,0
2,1
6,3
2,4
1,5
0,6
3,3
2,6
5,1
1,2
5,5
2,5
6,5
1,4
0,4
6,4
1,1
6,1
1,0
0,5
1,6
2,0
";

#[test]
fn day18_test() {
    assert_eq!(advent24::challenges::day18::part1(DAY18_GRID, 7, 7, 12), 22);
}
