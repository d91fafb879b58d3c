use advent::day11::{Day11, Monkey, Operation, Tester, Troop};
use advent::day14::{Cave, Day14};
use advent::day16::{decode, run as run_packets};
use advent::day17::{run as run_shots, Target};
use advent::day18::{run as run_snailfish, SnailNumber};
use advent::day19::{run as run_scanners, vector_rotate, Scanner};
use advent::day22::{run as run_reactor, Cuboid, Reactor};
use advent::day3::Day3;
use advent::day4::Day4;
use advent::errors::{ParseError, PuzzleError};
use advent::traits::AdventOfCode;

fn text(s: &str) -> Option<String> {
    Some(s.to_string())
}

// ----- day 3 and day 4 as days -----
const ENGINE: &str = "467..114..
...*......
..35..633.
......#...
617*......
.....+.58.
..592.....
......755.
...$.*....
.664.598..
";

#[test]
fn engine_plan_of_the_example_as_a_day() {
    let mut day = Day3;
    assert_eq!(day.day(), 3);
    assert_eq!(day.run1(text(ENGINE)), Ok("4361".to_string()));
    assert_eq!(day.run2(text(ENGINE)), Ok("467835".to_string()));
}

#[test]
fn engine_plan_without_input() {
    let mut day = Day3;
    assert_eq!(day.run1(None), Err(PuzzleError::MissingInput));
    assert_eq!(day.run2(None), Err(PuzzleError::MissingInput));
    assert_eq!(day.run1(text("")), Ok("0".to_string()));
}

const CARDS: &str = "Card 1: 41 48 83 86 17 | 83 86  6 31 17  9 48 53
Card 2: 13 32 20 16 61 | 61 30 68 82 17 32 24 19
Card 3:  1 21 53 59 44 | 69 82 63 72 16 21 14  1
Card 4: 41 92 73 84 69 | 59 84 76 51 58  5 54 83
Card 5: 87 83 26 28 32 | 88 30 70 12 93 22 82 36
Card 6: 31 18 13 56 72 | 74 77 10 23 35 67 36 11
";

#[test]
fn scratchcards_of_the_example_as_a_day() {
    let mut day = Day4;
    assert_eq!(day.day(), 4);
    assert_eq!(day.run1(text(CARDS)), Ok("13".to_string()));
    assert_eq!(day.run2(text(CARDS)), Ok("30".to_string()));
}

#[test]
fn scratchcards_with_a_bad_line() {
    let mut day = Day4;
    assert_eq!(
        day.run1(text("Card 1: 1 2 | 2 3\n\nCard 2: 1 | 1\n")),
        Err(PuzzleError::Parse(ParseError::Malformed))
    );
    assert_eq!(day.run1(None), Err(PuzzleError::MissingInput));
}

// ----- day 11 -----
const MONKEYS: &str = "Monkey 0:
  Starting items: 79, 98
  Operation: new = old * 19
  Test: divisible by 23
    If true: throw to monkey 2
    If false: throw to monkey 3

Monkey 1:
  Starting items: 54, 65, 75, 74
  Operation: new = old + 6
  Test: divisible by 19
    If true: throw to monkey 2
    If false: throw to monkey 0

Monkey 2:
  Starting items: 79, 60, 97
  Operation: new = old * old
  Test: divisible by 13
    If true: throw to monkey 1
    If false: throw to monkey 3

Monkey 3:
  Starting items: 74
  Operation: new = old + 3
  Test: divisible by 17
    If true: throw to monkey 0
    If false: throw to monkey 1
";

#[test]
fn monkeys_of_the_example() {
    let mut day = Day11;
    assert_eq!(day.day(), 11);
    assert_eq!(day.run1(text(MONKEYS)), Ok("10605".to_string()));
    assert_eq!(day.run2(text(MONKEYS)), Ok("2713310158".to_string()));
}

#[test]
fn monkeys_are_read_as_written() {
    let troop = Troop::from_bytes(MONKEYS.as_bytes()).unwrap();
    assert_eq!(troop.monkeys.len(), 4);
    assert_eq!(troop.items.len(), 4);
    assert_eq!(troop.items[0], vec![79, 98, 54, 65, 75, 74, 79, 60, 97, 74]);
    assert_eq!(troop.items[3], troop.items[0]);
    assert_eq!(troop.monkeys[0].id, 0);
    assert_eq!(troop.monkeys[0].item_ids, vec![0, 1]);
    assert_eq!(troop.monkeys[1].item_ids, vec![2, 3, 4, 5]);
    assert_eq!(troop.monkeys[3].item_ids, vec![9]);
    assert_eq!(troop.monkeys[0].operation, Operation::Mul(Some(19)));
    assert_eq!(troop.monkeys[1].operation, Operation::Add(Some(6)));
    assert_eq!(troop.monkeys[2].operation, Operation::Mul(None));
    assert_eq!(troop.monkeys[2].test, Tester { div: 13, when_true: 1, when_false: 3 });
    assert_eq!(troop.monkeys[3].inspect_count, 0);
}

#[test]
fn one_round_of_the_monkeys() {
    let mut troop = Troop::from_bytes(MONKEYS.as_bytes()).unwrap();
    assert!(troop.play_round(3));
    let held: Vec<Vec<usize>> = troop
        .monkeys
        .iter()
        .map(|m| {
            let mut v: Vec<usize> = m.item_ids.iter().map(|i| troop.items[m.id as usize][*i]).collect();
            v.sort();
            v
        })
        .collect();
    assert_eq!(held[0], vec![20, 23, 26, 27]);
    assert_eq!(held[1], vec![25, 167, 207, 401, 1046, 2080]);
    assert!(held[2].is_empty());
    assert!(held[3].is_empty());
    let seen: Vec<usize> = troop.monkeys.iter().map(|m| m.inspect_count).collect();
    assert_eq!(seen, vec![2, 4, 3, 5]);
}

#[test]
fn operations_and_tests_of_a_monkey() {
    assert_eq!(Operation::Add(None).eval(21), Some(42));
    assert_eq!(Operation::Mul(None).eval(7), Some(49));
    assert_eq!(Operation::Add(Some(5)).eval(7), Some(12));
    assert_eq!(Operation::Mul(Some(5)).eval(7), Some(35));
    assert_eq!(Operation::Mul(None).eval(usize::MAX), None);
    assert_eq!(Operation::Add(Some(1)).eval(usize::MAX), None);
    let t = Tester { div: 23, when_true: 2, when_false: 3 };
    assert_eq!(t.eval(46), 2);
    assert_eq!(t.eval(47), 3);
    assert_eq!(t.eval(0), 2);
}

#[test]
fn a_monkey_throws_the_last_item_first() {
    let mut m = Monkey {
        id: 0,
        item_ids: vec![0, 1],
        operation: Operation::Mul(Some(19)),
        test: Tester { div: 23, when_true: 2, when_false: 3 },
        inspect_count: 0,
    };
    let items = vec![vec![79, 98]];
    let throws = m.play(3, &items).unwrap();
    assert_eq!(throws.len(), 2);
    assert_eq!(throws[0], ([3, 1], Operation::Mul(Some(19))));
    assert_eq!(throws[1], ([3, 0], Operation::Mul(Some(19))));
    assert!(m.item_ids.is_empty());
    assert_eq!(m.inspect_count, 2);
    m.catch(7);
    assert_eq!(m.item_ids, vec![7]);
}

#[test]
fn an_item_is_updated_for_every_monkey() {
    let troop = Troop::from_bytes(MONKEYS.as_bytes()).unwrap();
    let mut items = vec![vec![79, 98], vec![79, 98], vec![79, 98], vec![79, 98]];
    assert!(Troop::update_item(&mut items, &troop.monkeys, 0, Operation::Mul(Some(19)), 3));
    assert_eq!(items[0], vec![500, 98]);
    assert_eq!(items[3], vec![500, 98]);
    assert!(Troop::update_item(&mut items, &troop.monkeys, 1, Operation::Mul(Some(19)), 1));
    assert_eq!(items[0][1], 1862 % 23);
    assert_eq!(items[1][1], 1862 % 19);
    assert_eq!(items[2][1], 1862 % 13);
    assert_eq!(items[3][1], 1862 % 17);
    assert!(!Troop::update_item(&mut items, &troop.monkeys, 0, Operation::Add(Some(usize::MAX)), 1));
}

#[test]
fn monkeys_that_are_written_badly() {
    let mut day = Day11;
    let bad = Err(PuzzleError::Parse(ParseError::Malformed));
    assert_eq!(day.run1(None), Err(PuzzleError::MissingInput));
    assert_eq!(day.run1(text("")), bad);
    assert_eq!(day.run1(text("Monkey x:\n")), bad);
    // a monkey that throws to one that is not there
    assert_eq!(day.run1(text(&MONKEYS.replace("If false: throw to monkey 1", "If false: throw to monkey 4"))), bad);
    // a monkey that divides by nothing
    assert_eq!(day.run1(text(&MONKEYS.replace("divisible by 17", "divisible by 0"))), bad);
    // monkeys out of order
    assert_eq!(day.run1(text(&MONKEYS.replace("Monkey 3", "Monkey 5"))), bad);
    // an operation that is none
    assert_eq!(day.run1(text(&MONKEYS.replace("old + 3", "old - 3"))), bad);
    // an empty list of items
    assert_eq!(day.run1(text(&MONKEYS.replace("Starting items: 74", "Starting items: "))), bad);
}

#[test]
fn worry_levels_that_grow_too_large() {
    let input = "Monkey 0:
  Starting items: 4000000000
  Operation: new = old * old
  Test: divisible by 3
    If true: throw to monkey 1
    If false: throw to monkey 1

Monkey 1:
  Starting items: 2
  Operation: new = old * old
  Test: divisible by 5
    If true: throw to monkey 0
    If false: throw to monkey 0
";
    let mut day = Day11;
    assert_eq!(day.run1(text(input)), Err(PuzzleError::Overflow));
}

// ----- day 14 -----
const ROCKS: &str = "498,4 -> 498,6 -> 496,6
503,4 -> 502,4 -> 502,9 -> 494,9
";

#[test]
fn sand_of_the_example() {
    let mut day = Day14;
    assert_eq!(day.day(), 14);
    assert_eq!(day.run1(text(ROCKS)), Ok("24".to_string()));
    assert_eq!(day.run2(text(ROCKS)), Ok("93".to_string()));
}

#[test]
fn sand_that_falls_step_by_step() {
    let cave = Cave::from_bytes(ROCKS.as_bytes()).unwrap();
    assert_eq!(cave.units.len(), 20);
    assert_eq!(cave.max_y, 9);
    assert_eq!(cave.lowest, 9);
    // it falls straight down
    let mut sand = [500, 0];
    assert_eq!(cave.step(&mut sand), Some(false));
    assert_eq!(sand, [500, 1]);
    // it rests on the rock
    let mut sand = [500, 8];
    assert_eq!(cave.step(&mut sand), Some(true));
    assert_eq!(sand, [500, 8]);
    // it falls to the left of the rock below it
    let mut sand = [498, 3];
    assert_eq!(cave.step(&mut sand), Some(false));
    assert_eq!(sand, [497, 4]);
    let mut sand = [496, 5];
    assert_eq!(cave.step(&mut sand), Some(false));
    assert_eq!(sand, [495, 6]);
    // it falls to the right where the left is taken
    let mut sand = [503, 3];
    assert_eq!(cave.step(&mut sand), Some(false));
    assert_eq!(sand, [504, 4]);
    // there is nothing below it
    let mut sand = [500, 9];
    assert_eq!(cave.step(&mut sand), None);
    assert_eq!(sand, [500, 9]);
}

#[test]
fn sand_with_a_limit() {
    let mut cave = Cave::from_bytes(ROCKS.as_bytes()).unwrap();
    assert_eq!(cave.simulate(10), None);
    let mut cave = Cave::from_bytes(ROCKS.as_bytes()).unwrap();
    assert_eq!(cave.simulate(1000), Some(24));
    // the rock, the sand at rest, and the place where the last unit left
    assert_eq!(cave.units.len(), 20 + 24 + 1);
}

#[test]
fn rocks_that_are_written_badly() {
    let mut day = Day14;
    let bad = Err(PuzzleError::Parse(ParseError::Malformed));
    assert_eq!(day.run1(None), Err(PuzzleError::MissingInput));
    assert_eq!(day.run1(text("498,4 -> 498")), bad);
    assert_eq!(day.run1(text("498,4 => 498,6")), bad);
    assert_eq!(day.run1(text("a,4 -> 498,6")), bad);
}

// ----- day 16 -----
#[test]
fn transmissions_of_the_examples() {
    assert_eq!(run_packets("D2FE28"), Ok((6, 2021)));
    assert_eq!(run_packets("8A004A801A8002F478\n"), Ok((16, 15)));
    assert_eq!(run_packets("620080001611562C8802118E34").map(|r| r.0), Ok(12));
    assert_eq!(run_packets("C0015000016115A2E0802F182340").map(|r| r.0), Ok(23));
    assert_eq!(run_packets("A0016C880162017C3686B18A3D4780").map(|r| r.0), Ok(31));
    assert_eq!(run_packets("C200B40A82").map(|r| r.1), Ok(3));
    assert_eq!(run_packets("04005AC33890").map(|r| r.1), Ok(54));
    assert_eq!(run_packets("880086C3E88112").map(|r| r.1), Ok(7));
    assert_eq!(run_packets("CE00C43D881120").map(|r| r.1), Ok(9));
    assert_eq!(run_packets("D8005AC2A8F0").map(|r| r.1), Ok(1));
    assert_eq!(run_packets("F600BC2D8F").map(|r| r.1), Ok(0));
    assert_eq!(run_packets("9C005AC2F8F0").map(|r| r.1), Ok(0));
    assert_eq!(run_packets("9C0141080250320F1802104A08").map(|r| r.1), Ok(1));
}

#[test]
fn transmissions_that_are_written_badly() {
    let bad = Err(PuzzleError::Parse(ParseError::Malformed));
    assert_eq!(run_packets(""), bad);
    assert_eq!(run_packets("D2F"), bad);
    assert_eq!(run_packets("D2FG"), bad);
    assert_eq!(run_packets("D2"), bad);
    assert_eq!(decode(b"00ff7F+a"), Some(vec![0, 255, 127, 10]));
    assert_eq!(decode(b"0"), None);
    assert_eq!(decode(b"a+"), None);
    assert_eq!(decode(b""), Some(vec![]));
}

// ----- day 17 -----
#[test]
fn shots_at_the_target_of_the_example() {
    let target = Target { x: [20, 30], y: [-10, -5] };
    assert_eq!(target.shoot(), (45, 112));
}

#[test]
fn shots_at_the_target_of_the_puzzle() {
    let (height, count) = run_shots();
    assert_eq!(height, 12090);
    assert!(count > 0);
}

#[test]
fn shots_at_a_target_behind() {
    let target = Target { x: [-30, -20], y: [-10, -5] };
    assert_eq!(target.shoot(), (0, 0));
}

// ----- day 18 -----
fn snail(s: &str) -> SnailNumber {
    SnailNumber::from_bytes(s.as_bytes()).unwrap()
}

fn written(n: &SnailNumber) -> String {
    match n {
        SnailNumber::Single(v) => format!("{}", v),
        SnailNumber::Array(l, r) => format!("[{},{}]", written(l), written(r)),
    }
}

#[test]
fn snailfish_numbers_are_read_as_written() {
    for s in ["[1,2]", "[[1,2],3]", "[9,[8,7]]", "[[1,9],[8,5]]", "[[[[1,2],[3,4]],[[5,6],[7,8]]],9]", "7", "[10,200]"] {
        assert_eq!(written(&snail(s)), s);
    }
    assert_eq!(written(&snail("[1,2]rest")), "[1,2]");
    for s in ["", "[1,2", "[1;2]", "[,2]", "[1,]", "[a,2]", "[1 ,2]"] {
        assert_eq!(SnailNumber::from_bytes(s.as_bytes()).err(), Some(ParseError::Malformed), "{}", s);
    }
}

#[test]
fn snailfish_numbers_explode() {
    for (from, to) in [
        ("[[[[[9,8],1],2],3],4]", "[[[[0,9],2],3],4]"),
        ("[7,[6,[5,[4,[3,2]]]]]", "[7,[6,[5,[7,0]]]]"),
        ("[[6,[5,[4,[3,2]]]],1]", "[[6,[5,[7,0]]],3]"),
        ("[[3,[2,[1,[7,3]]]],[6,[5,[4,[3,2]]]]]", "[[3,[2,[8,0]]],[9,[5,[4,[3,2]]]]]"),
        ("[[3,[2,[8,0]]],[9,[5,[4,[3,2]]]]]", "[[3,[2,[8,0]]],[9,[5,[7,0]]]]"),
    ] {
        let (n, blast) = snail(from).explode_rec(0).unwrap();
        assert!(blast.is_some());
        assert_eq!(written(&n), to);
    }
    let (n, blast) = snail("[[1,2],[[3,4],5]]").explode_rec(0).unwrap();
    assert!(blast.is_none());
    assert_eq!(written(&n), "[[1,2],[[3,4],5]]");
}

#[test]
fn snailfish_numbers_split() {
    let (n, done) = snail("[[[[0,7],4],[15,[0,13]]],[1,1]]").split_rec();
    assert!(done);
    assert_eq!(written(&n), "[[[[0,7],4],[[7,8],[0,13]]],[1,1]]");
    let (n, done) = snail("[[[[0,7],4],[[7,8],[0,13]]],[1,1]]").split_rec();
    assert!(done);
    assert_eq!(written(&n), "[[[[0,7],4],[[7,8],[0,[6,7]]]],[1,1]]");
    let (n, done) = snail("[1,[9,2]]").split_rec();
    assert!(!done);
    assert_eq!(written(&n), "[1,[9,2]]");
    let (n, done) = snail("10").split_rec();
    assert!(done);
    assert_eq!(written(&n), "[5,5]");
    let (n, _) = snail("11").split_rec();
    assert_eq!(written(&n), "[5,6]");
}

#[test]
fn snailfish_numbers_add_up() {
    let sum = SnailNumber::add(snail("[[[[4,3],4],4],[7,[[8,4],9]]]"), snail("[1,1]"), 100).unwrap();
    assert_eq!(written(&sum), "[[[[0,7],4],[[7,8],[6,0]]],[8,1]]");
    // five steps are needed, and four are not enough
    assert!(SnailNumber::add(snail("[[[[4,3],4],4],[7,[[8,4],9]]]"), snail("[1,1]"), 5).is_some());
    assert!(SnailNumber::add(snail("[[[[4,3],4],4],[7,[[8,4],9]]]"), snail("[1,1]"), 4).is_none());
    let sum = SnailNumber::add(
        snail("[[[0,[4,5]],[0,0]],[[[4,5],[2,6]],[9,5]]]"),
        snail("[7,[[[3,7],[4,3]],[[6,3],[8,8]]]]"),
        1000,
    )
    .unwrap();
    assert_eq!(written(&sum), "[[[[4,0],[5,4]],[[7,7],[6,0]]],[[8,[7,7]],[[7,9],[5,0]]]]");
    let copy = sum.copy();
    assert_eq!(written(&copy), written(&sum));
    assert_eq!(written(&snail("[1,2]").reduce(0).unwrap()), "[1,2]");
}

#[test]
fn magnitudes_of_snailfish_numbers() {
    assert_eq!(snail("[9,1]").magnitude(), Some(29));
    assert_eq!(snail("[[1,2],[[3,4],5]]").magnitude(), Some(143));
    assert_eq!(snail("[[[[0,7],4],[[7,8],[6,0]]],[8,1]]").magnitude(), Some(1384));
    assert_eq!(snail("[[[[8,7],[7,7]],[[8,6],[7,7]]],[[[0,7],[6,6]],[8,7]]]").magnitude(), Some(3488));
    assert_eq!(snail("[18446744073709551615,1]").magnitude(), None);
}

const HOMEWORK: &str = "[[[0,[5,8]],[[1,7],[9,6]]],[[4,[1,2]],[[1,4],2]]]
[[[5,[2,8]],4],[5,[[9,9],0]]]
[6,[[[6,2],[5,6]],[[7,6],[4,7]]]]
[[[6,[0,7]],[0,9]],[4,[9,[9,0]]]]
[[[7,[6,4]],[3,[1,3]]],[[[5,5],1],9]]
[[6,[[7,3],[3,2]]],[[[3,8],[5,7]],4]]
[[[[5,4],[7,7]],8],[[8,3],8]]
[[9,3],[[9,9],[6,[4,9]]]]
[[2,[[7,7],7]],[[5,8],[[9,3],[0,2]]]]
[[[[5,2],5],[8,[3,7]]],[[5,[7,5]],[4,4]]]
";

#[test]
fn snailfish_homework_of_the_example() {
    assert_eq!(run_snailfish(HOMEWORK), Ok((Some(4140), 3993)));
    assert_eq!(run_snailfish(""), Ok((None, 0)));
    assert_eq!(run_snailfish("[1,2]\n"), Ok((Some(7), 0)));
    assert_eq!(run_snailfish("[1,2]\n\n[3\n"), Err(PuzzleError::Parse(ParseError::Malformed)));
}

// ----- day 19 -----
const SEEN: [[i64; 3]; 12] = [
    [404, -588, -901],
    [528, -643, 409],
    [-838, 591, 734],
    [390, -675, -793],
    [-537, -823, -458],
    [-485, -357, 347],
    [-345, -311, 381],
    [-661, -816, -575],
    [-876, 649, 763],
    [-618, -824, -621],
    [553, 345, -567],
    [474, 580, 667],
];

/// What a scanner at `at` sees of the point, where its readings have
/// to be turned into the orientation 1 to be those of the first scanner.
fn seen_from(p: [i64; 3], at: [i64; 3]) -> [i64; 3] {
    let w = [p[0] - at[0], p[1] - at[1], p[2] - at[2]];
    [-w[2], w[1], w[0]]
}

fn report() -> String {
    let at = [68, -1246, -43];
    let mut s = String::from("--- scanner 0 ---\n");
    for p in SEEN {
        s.push_str(&format!("{},{},{}\n", p[0], p[1], p[2]));
    }
    s.push_str("7,8,9\n\n--- scanner 1 ---\n");
    for p in SEEN {
        let q = seen_from(p, at);
        s.push_str(&format!("{},{},{}\n", q[0], q[1], q[2]));
    }
    let q = seen_from([1000, 1000, 1000], at);
    s.push_str(&format!("{},{},{}\n", q[0], q[1], q[2]));
    s.push_str("\n--- scanner 2 ---\n1,2,3\n4,5,6\n-7,8,-9\n");
    s
}

#[test]
fn rotations_of_a_vector() {
    let p = [1, 2, 3];
    assert_eq!(vector_rotate(&p, 0), [1, 2, 3]);
    assert_eq!(vector_rotate(&p, 1), [3, 2, -1]);
    assert_eq!(vector_rotate(&p, 4), [-2, 1, 3]);
    assert_eq!(vector_rotate(&p, 23), [2, 3, 1]);
    let mut all: Vec<[i64; 3]> = (0..24).map(|n| vector_rotate(&p, n)).collect();
    all.sort();
    all.dedup();
    assert_eq!(all.len(), 24);
    for q in all {
        assert_eq!(q[0] * q[0] + q[1] * q[1] + q[2] * q[2], 14);
    }
}

#[test]
fn scanners_are_read_as_written() {
    let (first, rest) = Scanner::from_input(report().as_bytes()).unwrap();
    assert_eq!(first.len(), 1);
    assert_eq!(rest.len(), 2);
    assert_eq!(first[0].id, 0);
    assert_eq!(first[0].beacons.len(), 1);
    assert_eq!(first[0].beacons[0].len(), 13);
    assert_eq!(first[0].beacons()[12], [7, 8, 9]);
    assert_eq!(rest[0].id, 1);
    assert_eq!(rest[0].beacons.len(), 24);
    assert_eq!(rest[1].beacons[0], vec![[1, 2, 3], [4, 5, 6], [-7, 8, -9]]);
    assert_eq!(rest[1].beacons[1], vec![[3, 2, -1], [6, 5, -4], [-9, 8, 7]]);
    assert_eq!(rest[1].rotate(1).beacons(), &[[3, 2, -1], [6, 5, -4], [-9, 8, 7]]);
    assert_eq!(rest[1].position, [0, 0, 0]);
    assert!(!rest[1].checked);
}

#[test]
fn a_scanner_is_placed_by_another() {
    let (first, rest) = Scanner::from_input(report().as_bytes()).unwrap();
    let placed = first[0].find_rel_scanner_position(&rest[0]).unwrap();
    assert_eq!(placed.id, 1);
    assert_eq!(placed.orientation, 1);
    assert_eq!(placed.position, [68, -1246, -43]);
    assert_eq!(first[0].manhattan(&placed), 1357);
    assert!(first[0].find_rel_scanner_position(&rest[1]).is_none());
    let copy = placed.copy();
    assert_eq!(copy.position, placed.position);
    assert_eq!(copy.orientation, 1);
    let beacons = Scanner::find_beacons(&vec![first[0].copy(), placed]);
    assert_eq!(beacons.len(), 14);
    assert_eq!(beacons[0], [404, -588, -901]);
    assert_eq!(beacons[13], [1000, 1000, 1000]);
}

#[test]
fn beacons_and_distance_of_a_report() {
    assert_eq!(run_scanners(&report()), Ok((14, 1357)));
    assert_eq!(run_scanners(""), Ok((0, 0)));
    assert_eq!(run_scanners("--- scanner 0 ---\n1,2,3\n"), Ok((1, 0)));
}

#[test]
fn reports_that_are_written_badly() {
    let bad = Err(PuzzleError::Parse(ParseError::Malformed));
    assert_eq!(run_scanners("1,2,3\n"), bad);
    assert_eq!(run_scanners("--- scanner\n"), bad);
    assert_eq!(run_scanners("--- scanner x ---\n"), bad);
    assert_eq!(run_scanners("--- scanner 0 ---\n1,2\n"), bad);
    assert_eq!(run_scanners("--- scanner 0 ---\n1,2,a\n"), bad);
    assert_eq!(run_scanners("--- scanner 0 ---\n1,2,1000001\n"), bad);
}

// ----- day 22 -----
const STEPS: &str = "on x=10..12,y=10..12,z=10..12
on x=11..13,y=11..13,z=11..13
off x=9..11,y=9..11,z=9..11
on x=10..10,y=10..10,z=10..10
";

#[test]
fn reactor_of_the_example() {
    assert_eq!(run_reactor(STEPS), Ok((39, 39)));
    let far = format!("{}on x=967..23432,y=45373..81175,z=27513..53682\n", STEPS);
    assert_eq!(run_reactor(&far), Ok((39, 39 + 22466 * 35803 * 26170)));
    assert_eq!(run_reactor(""), Ok((0, 0)));
}

#[test]
fn a_cuboid_without_another() {
    let a = Cuboid { x: [0, 9], y: [0, 9], z: [0, 9] };
    assert_eq!(a.area(), 1000);
    let inner = Cuboid { x: [3, 5], y: [3, 5], z: [3, 5] };
    let parts = a.remove(&inner);
    assert_eq!(parts.len(), 6);
    assert_eq!(parts.iter().map(|c| c.area()).sum::<i64>(), 1000 - 27);
    for (i, p) in parts.iter().enumerate() {
        assert!(!p.intersects(&inner));
        for q in &parts[i + 1..] {
            assert!(!p.intersects(q));
        }
    }
    let corner = Cuboid { x: [5, 20], y: [5, 20], z: [-5, 4] };
    let parts = a.remove(&corner);
    assert_eq!(parts.iter().map(|c| c.area()).sum::<i64>(), 1000 - 5 * 5 * 5);
    assert_eq!(parts[0], Cuboid { x: [0, 4], y: [0, 9], z: [0, 9] });
    let away = Cuboid { x: [10, 12], y: [0, 9], z: [0, 9] };
    assert_eq!(a.remove(&away), vec![a]);
    assert!(a.remove(&a).is_empty());
    assert!(inner.remove(&a).is_empty());
}

#[test]
fn cuboids_that_meet() {
    let a = Cuboid { x: [0, 9], y: [0, 9], z: [0, 9] };
    assert!(a.intersects(&Cuboid { x: [9, 12], y: [9, 12], z: [9, 12] }));
    assert!(!a.intersects(&Cuboid { x: [10, 12], y: [9, 12], z: [9, 12] }));
    assert!(!a.intersects(&Cuboid { x: [0, 9], y: [0, 9], z: [-3, -1] }));
    assert_eq!(a.limited_cuboid(-5, 5), Some(Cuboid { x: [0, 5], y: [0, 5], z: [0, 5] }));
    assert_eq!(a.limited_cuboid(10, 50), None);
    assert_eq!(a.limited_cuboid(-50, -1), None);
    assert_eq!(a.limited_cuboid(-50, 50), Some(a));
}

#[test]
fn steps_of_a_reactor_are_read_as_written() {
    let mut reactor = Reactor::new(Some(50));
    assert_eq!(reactor.parse_step(b"on x=-20..26,y=-36..17,z=-47..7"), Ok(()));
    assert_eq!(reactor.parse_step(b"off x=-54112..-39298,y=-85059..-49293,z=-27449..7877"), Ok(()));
    assert_eq!(reactor.parse_step(b"offish z=1..2,x=3..3,w=5"), Ok(()));
    assert_eq!(reactor.steps.len(), 2);
    assert!(reactor.steps[0].action);
    assert_eq!(reactor.steps[0].cuboid, Cuboid { x: [-20, 26], y: [-36, 17], z: [-47, 7] });
    assert!(!reactor.steps[1].action);
    assert_eq!(reactor.steps[1].cuboid, Cuboid { x: [3, 3], y: [0, 0], z: [1, 2] });
    assert_eq!(reactor.run_steps(), 47 * 54 * 55 - 2);
    for bad in ["on", "on x=1..2,y", "on x=1-2", "on x=2..1", "on x=1..a", "on x=1..1000001", "on x1..2"] {
        assert_eq!(reactor.parse_step(bad.as_bytes()), Err(ParseError::Malformed), "{}", bad);
    }
    assert_eq!(reactor.steps.len(), 2);
    assert_eq!(run_reactor("on x=1..2\noops\n"), Err(PuzzleError::Parse(ParseError::Malformed)));
}
