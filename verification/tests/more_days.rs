use advent::day12::{Day12, HeightMap};
use advent::day13::{decoder_key, divider, parse_packets, sum_pairs_in_order, Day13, Packet, ValueType};
use advent::day20::{encode, encode_pixel_at, get_pixel_at, lit_pixels, make_code};
use advent::day25::{SeaCucumber, SeaFloor};
use advent::day5::{Almanac, Day5, Mapping, RangeMap};
use advent::day7::{Card, Day7, Hand, HandType};
use advent::day8::{best_score, count_visible, parse_forest, scenic_score, Day8};
use advent::day9::{Day9, Move};
use advent::errors::{ConfigurationError, ParseError, PuzzleError};
use advent::traits::AdventOfCode;
use std::cmp::Ordering;

fn some(text: &str) -> Option<String> {
    Some(text.to_string())
}

// ----- day 5 -----
const ALMANAC: &str = "seeds: 79 14 55 13

seed-to-soil map:
50 98 2
52 50 48

soil-to-fertilizer map:
0 15 37
37 52 2
39 0 15

fertilizer-to-water map:
49 53 8
0 11 42
42 0 7
57 7 4

water-to-light map:
88 18 7
18 25 70

light-to-temperature map:
45 77 23
81 45 19
68 64 13

temperature-to-humidity map:
0 69 1
1 0 69

humidity-to-location map:
60 56 37
56 93 4

";

#[test]
fn almanac_of_the_example() {
    assert_eq!(Day5.run1(some(ALMANAC)), Ok("35".to_string()));
    assert_eq!(Day5.run2(some(ALMANAC)), Ok("46".to_string()));
    let a = Almanac::from_bytes(ALMANAC.as_bytes()).unwrap();
    assert_eq!(a.seeds, vec![79, 14, 55, 13]);
    assert_eq!(a.maps.len(), 7);
    assert_eq!(a.maps[0].mappings.len(), 2);
    assert_eq!(a.maps[0].mappings[0].source, 98..100);
    assert_eq!(a.maps[0].mappings[0].dst, 50..52);
    assert_eq!(a.seed_to_location(79), 82);
    assert_eq!(a.seed_to_location(14), 43);
    assert_eq!(a.seed_to_location(13), 35);
    assert_eq!(a.locations(), 35);
    assert_eq!(a.locations2(), Some(46));
    assert_eq!(Day5.day(), 5);
}

#[test]
fn almanac_without_its_last_empty_line_lacks_a_map() {
    let cut = ALMANAC.trim_end();
    assert_eq!(Day5.run1(some(cut)), Err(PuzzleError::Parse(ParseError::Malformed)));
    assert_eq!(Day5.run1(some("seeds: 1 x")), Err(PuzzleError::Parse(ParseError::Malformed)));
    assert_eq!(Day5.run1(some("nonsense")), Err(PuzzleError::Parse(ParseError::Malformed)));
    assert_eq!(Day5.run2(None), Err(PuzzleError::MissingInput));
}

#[test]
fn a_map_sends_numbers_and_ranges() {
    let m = RangeMap {
        mappings: vec![
            Mapping::from_bytes(b"50 98 2").unwrap(),
            Mapping::from_bytes(b"52 50 48").unwrap(),
        ],
    };
    assert_eq!(m.map(98), 50);
    assert_eq!(m.map(99), 51);
    assert_eq!(m.map(100), 100);
    assert_eq!(m.map(49), 49);
    assert_eq!(m.map(50), 52);
    assert_eq!(m.map_range(&(79..93)), vec![81..95]);
    assert_eq!(m.map_range(&(0..10)), vec![0..10]);
    // a range that reaches over both lines and beyond them
    assert_eq!(m.map_range(&(40..110)), vec![50..52, 52..100, 40..50, 100..110]);
    let one = Mapping::from_bytes(b"100 10 5").unwrap();
    assert_eq!(one.map_range(&(0..5)), (None, vec![0..5]));
    assert_eq!(one.map_range(&(12..13)), (Some(102..103), vec![]));
    assert_eq!(one.map_range(&(8..20)), (Some(100..105), vec![8..10, 15..20]));
    // a range that only touches the source leaves an empty range
    assert_eq!(one.map_range(&(15..20)), (Some(105..105), vec![15..20]));
    assert_eq!(one.map_range(&(0..10)), (Some(100..100), vec![0..10]));
    for line in ["", "1 2", "1 2 x", "1  2 3", "18446744073709551615 0 1"] {
        assert_eq!(Mapping::from_bytes(line.as_bytes()).err(), Some(ParseError::Malformed), "{}", line);
    }
}

// ----- day 7 -----
const HANDS: &str = "32T3K 765
T55J5 684
KK677 28
KTJJT 220
QQQJA 483";

#[test]
fn hands_of_the_example() {
    assert_eq!(Day7.run1(some(HANDS)), Ok("6440".to_string()));
    assert_eq!(Day7.run2(some(HANDS)), Ok("5905".to_string()));
    assert_eq!(Day7.day(), 7);
}

#[test]
fn hands_have_their_types() {
    let kind = |text: &str, run: usize| Hand::from_bytes(text.as_bytes(), run).unwrap().hand_type;
    assert_eq!(kind("AAAAA 1", 0), HandType::FiveOfAKind);
    assert_eq!(kind("AA8AA 1", 0), HandType::FourOfAKind);
    assert_eq!(kind("23332 1", 0), HandType::FullHouse);
    assert_eq!(kind("TTT98 1", 0), HandType::ThreeOfAKind);
    assert_eq!(kind("23432 1", 0), HandType::TwoPair);
    assert_eq!(kind("A23A4 1", 0), HandType::OnePair);
    assert_eq!(kind("23456 1", 0), HandType::HighCard);
    assert_eq!(kind("QJJQ2 1", 0), HandType::TwoPair);
    assert_eq!(kind("QJJQ2 1", 1), HandType::FourOfAKind);
    assert_eq!(kind("JJJJJ 1", 1), HandType::FiveOfAKind);
    assert_eq!(kind("JJJJ2 1", 1), HandType::FiveOfAKind);
    assert_eq!(kind("2345J 1", 1), HandType::OnePair);
    assert_eq!(kind("2344J 1", 1), HandType::ThreeOfAKind);
    assert_eq!(kind("2233J 1", 1), HandType::FullHouse);
    assert_eq!(Hand::hand_type_cards(&[0; 13]), HandType::Nothing);
    assert_eq!(Hand::hand_type_cards(&[5, 0, 0, 0, 0, 0, 0, 0, 0, 0, 0, 0, 0]), HandType::FiveOfAKind);
    assert_eq!(Hand::hand_type_cards(&[1, 1, 1, 1, 0, 0, 0, 0, 0, 0, 0, 0, 0]), HandType::Nothing);
}

#[test]
fn cards_rank_by_their_run() {
    assert_eq!(Card { card: '2', run: 0 }.card_id(), Some(0));
    assert_eq!(Card { card: 'J', run: 0 }.card_id(), Some(9));
    assert_eq!(Card { card: 'A', run: 0 }.card_id(), Some(12));
    assert_eq!(Card { card: 'J', run: 1 }.card_id(), Some(0));
    assert_eq!(Card { card: '2', run: 1 }.card_id(), Some(1));
    assert_eq!(Card { card: 'T', run: 1 }.card_id(), Some(9));
    assert_eq!(Card { card: 'x', run: 0 }.card_id(), None);
    let a = Hand::from_bytes(b"33332 1", 0).unwrap();
    let b = Hand::from_bytes(b"2AAAA 1", 0).unwrap();
    assert_eq!(a.stands_to(&b), 1);
    assert_eq!(b.stands_to(&a), -1);
    assert_eq!(a.stands_to(&a), 0);
    let c = Hand::from_bytes(b"77888 1", 0).unwrap();
    let d = Hand::from_bytes(b"77788 1", 0).unwrap();
    assert_eq!(c.stands_to(&d), 1);
    let e = Hand::from_bytes(b"JKKK2 1", 1).unwrap();
    let f = Hand::from_bytes(b"QQQQ2 1", 1).unwrap();
    assert_eq!(e.stands_to(&f), -1);
}

#[test]
fn hands_that_are_written_badly_are_rejected() {
    for line in ["", "32T3K", "32T3 765", "32T3KK 765", "32T3X 765", "32T3K x", "32T3K  7"] {
        assert_eq!(Hand::from_bytes(line.as_bytes(), 0).err(), Some(ParseError::Malformed), "{}", line);
    }
    assert_eq!(Day7.run1(some("32T3K 765\n\n")), Err(PuzzleError::Parse(ParseError::Malformed)));
    assert_eq!(Day7.run1(some("")), Ok("0".to_string()));
    // hands that are as strong as each other keep their order
    assert_eq!(Day7.run1(some("22222 10\n22222 1")), Ok("12".to_string()));
    assert_eq!(Day7.run1(some("22222 1\n22222 10")), Ok("21".to_string()));
}

// ----- day 8 -----
const FOREST: &str = "30373
25512
65332
33549
35390";

#[test]
fn forest_of_the_example() {
    assert_eq!(Day8.run1(some(FOREST)), Ok("21".to_string()));
    let forest = parse_forest(FOREST.as_bytes()).unwrap();
    assert_eq!(count_visible(&forest), 21);
    assert_eq!(scenic_score(&forest, 1, 2), 4);
    assert_eq!(Day8.day(), 8);
}

#[test]
fn scenic_score_looks_up_from_the_lower_edge() {
    let forest = parse_forest(FOREST.as_bytes()).unwrap();
    // the tree of height 5 in the fourth row: up 2, left 2, right 2, and
    // from the lower edge one tree, which is no lower
    assert_eq!(scenic_score(&forest, 3, 2), 2 * 1 * 2 * 2);
    assert_eq!(scenic_score(&forest, 0, 0), 0);
    assert_eq!(scenic_score(&forest, 4, 4), 0);
    assert_eq!(best_score(&forest), 8);
    assert_eq!(Day8.run2(some(FOREST)), Ok("8".to_string()));
}

#[test]
fn forests_that_are_not_square_are_rejected() {
    for text in ["12\n3", "123\n456", "1a\n23", "12\n\n"] {
        assert_eq!(parse_forest(text.as_bytes()).err(), Some(ParseError::Malformed), "{}", text);
    }
    assert_eq!(Day8.run1(some("")), Ok("0".to_string()));
    assert_eq!(Day8.run2(some("")), Ok("0".to_string()));
    assert_eq!(Day8.run1(some("7")), Ok("1".to_string()));
    assert_eq!(Day8.run1(some("999\n909\n999")), Ok("8".to_string()));
    assert_eq!(Day8.run1(some("000\n000\n000")), Ok("8".to_string()));
    assert_eq!(Day8.run1(some("000\n010\n000")), Ok("9".to_string()));
    assert_eq!(Day8.run1(None), Err(PuzzleError::MissingInput));
}

// ----- day 9 -----
#[test]
fn ropes_of_the_examples() {
    let small = "R 4\nU 4\nL 3\nD 1\nR 4\nD 1\nL 5\nR 2";
    assert_eq!(Day9.run1(some(small)), Ok("13".to_string()));
    assert_eq!(Day9.run2(some(small)), Ok("1".to_string()));
    let large = "R 5\nU 8\nL 8\nD 3\nR 17\nD 10\nL 25\nU 20";
    assert_eq!(Day9.run2(some(large)), Ok("36".to_string()));
    assert_eq!(Day9.day(), 9);
    assert_eq!(advent::day9::run(small.as_bytes(), 2), Ok("13".to_string()));
    assert_eq!(advent::day9::run(b"R 4", 3), Ok("3".to_string()));
    assert_eq!(advent::day9::run(b"R 4\nU 4", 2), Ok("7".to_string()));
    assert_eq!(
        advent::day9::run(small.as_bytes(), 1),
        Err(PuzzleError::Configuration(ConfigurationError::TooFewKnots(1)))
    );
    assert_eq!(advent::day9::run(b"", 2), Ok("0".to_string()));
    assert_eq!(advent::day9::run(b"R 0", 2), Ok("1".to_string()));
    assert_eq!(advent::day9::run(b"R -3", 2), Ok("1".to_string()));
    assert_eq!(advent::day9::run(b"R 1000000001", 2), Err(PuzzleError::TooLarge));
}

#[test]
fn knots_follow_the_knot_before_them() {
    let follow = |head: [i32; 2], tail: [i32; 2]| {
        let mut t = tail;
        Move::move_next_knot(&head, &mut t);
        t
    };
    assert_eq!(follow([0, 0], [0, 0]), [0, 0]);
    assert_eq!(follow([1, 1], [0, 0]), [0, 0]);
    assert_eq!(follow([2, 0], [0, 0]), [1, 0]);
    assert_eq!(follow([0, -2], [0, 0]), [0, -1]);
    assert_eq!(follow([2, 1], [0, 0]), [1, 1]);
    assert_eq!(follow([-1, 2], [0, 0]), [-1, 1]);
    assert_eq!(follow([2, 2], [0, 0]), [1, 1]);
    assert_eq!(follow([-2, -2], [0, 0]), [-1, -1]);
    let mut head = [0, 0];
    let mut tail = [0, 0];
    let mut rope = vec![[0, 0]];
    let trail = Move::Right(4).apply(&mut head, &mut tail, &mut rope);
    assert_eq!(head, [4, 0]);
    assert_eq!(rope, vec![[3, 0]]);
    assert_eq!(tail, [2, 0]);
    assert_eq!(trail, vec![[0, 0], [0, 0], [0, 0], [1, 0], [2, 0]]);
    let trail = Move::Up(2).apply(&mut head, &mut tail, &mut rope);
    assert_eq!(head, [4, 2]);
    assert_eq!(rope, vec![[4, 1]]);
    assert_eq!(tail, [3, 1]);
    assert_eq!(trail, vec![[2, 0], [2, 0], [3, 1]]);
}

#[test]
fn moves_are_read_and_rejected() {
    assert_eq!(Move::from_bytes(b"U 3"), Ok(Move::Up(3)));
    assert_eq!(Move::from_bytes(b"D 10"), Ok(Move::Down(10)));
    assert_eq!(Move::from_bytes(b"L?-2"), Ok(Move::Left(-2)));
    assert_eq!(Move::from_bytes(b"Rx7"), Ok(Move::Right(7)));
    for line in ["", "U", "U ", "X 3", "U x", "U 2147483648"] {
        assert_eq!(Move::from_bytes(line.as_bytes()), Err(ParseError::Malformed), "{}", line);
    }
    assert_eq!(Move::from_bytes(b"U -2147483648"), Ok(Move::Up(i32::MIN)));
    assert_eq!(Day9.run1(some("U 1\nnonsense")), Err(PuzzleError::Parse(ParseError::Malformed)));
}

// ----- day 12 -----
const HILL: &str = "Sabqponm
abcryxxl
accszExk
acctuvwj
abdefghi";

#[test]
fn hill_of_the_example() {
    assert_eq!(Day12.run1(some(HILL)), Ok("31".to_string()));
    assert_eq!(Day12.run2(some(HILL)), Ok("29".to_string()));
    let hill = HeightMap::from_bytes(HILL.as_bytes()).unwrap();
    assert_eq!(hill.start, [0, 0]);
    assert_eq!(hill.end, [5, 2]);
    assert_eq!(hill.starts.len(), 6);
    assert_eq!(hill.starts[0], [0, 0]);
    assert_eq!(hill.starts[1], [1, 0]);
    assert_eq!(hill.map[0][0], 0);
    assert_eq!(hill.map[2][5], 25);
    assert_eq!(hill.map[0][2], 1);
    assert_eq!(hill.find_path([5, 2]), 0);
    assert_eq!(hill.find_neighbours(0, 0), vec![[0, 1], [1, 0]]);
    assert_eq!(hill.find_neighbours(2, 1), vec![[2, 0], [2, 2], [1, 1]]);
    assert_eq!(Day12.day(), 12);
}

#[test]
fn hill_without_a_way_up() {
    assert_eq!(Day12.run1(some("SbE")), Ok(usize::MAX.to_string()));
    assert_eq!(Day12.run2(some("SbE")), Ok(usize::MAX.to_string()));
    assert_eq!(Day12.run1(some("SyE")), Ok(usize::MAX.to_string()));
    assert_eq!(Day12.run1(some("SbcdefghijklmnopqrstuvwxyE")), Ok("25".to_string()));
    assert_eq!(Day12.run2(some("SbazE\nabcde")), Ok(usize::MAX.to_string()));
    assert_eq!(Day12.run1(some("E\nz\ny\nS")), Ok(usize::MAX.to_string()));
    assert_eq!(Day12.run1(some("SaE\naaz\nbcy\ndex\nfgw")), Ok(usize::MAX.to_string()));
}

#[test]
fn hills_that_are_written_badly_are_rejected() {
    for text in ["", "abc", "Sab", "abE", "SE\na", "S.E", "SE\n\n"] {
        assert_eq!(Day12.run1(some(text)), Err(PuzzleError::Parse(ParseError::Malformed)), "{}", text);
    }
    assert_eq!(Day12.run2(None), Err(PuzzleError::MissingInput));
}

// ----- day 13 -----
const PACKETS: &str = "[1,1,3,1,1]
[1,1,5,1,1]

[[1],[2,3,4]]
[[1],4]

[9]
[[8,7,6]]

[[4,4],4,4]
[[4,4],4,4,4]

[7,7,7,7]
[7,7,7]

[]
[3]

[[[]]]
[[]]

[1,[2,[3,[4,[5,6,7]]]],8,9]
[1,[2,[3,[4,[5,6,0]]]],8,9]
";

#[test]
fn packets_of_the_example() {
    assert_eq!(Day13.run1(some(PACKETS)), Ok("13".to_string()));
    assert_eq!(Day13.run2(some(PACKETS)), Ok("140".to_string()));
    assert_eq!(Day13.day(), 13);
    let items = parse_packets(PACKETS.as_bytes()).unwrap();
    assert_eq!(items.len(), 23);
    assert!(items[2].is_none());
    assert_eq!(sum_pairs_in_order(&items), Some(13));
}

fn packet(text: &str) -> Packet {
    Packet::from_bytes(text.as_bytes()).unwrap()
}

#[test]
fn packets_stand_in_order() {
    let order = |a: &str, b: &str| packet(a).compare(&packet(b));
    assert_eq!(order("[1,1,3,1,1]", "[1,1,5,1,1]"), Ordering::Less);
    assert_eq!(order("[[1],[2,3,4]]", "[[1],4]"), Ordering::Less);
    assert_eq!(order("[9]", "[[8,7,6]]"), Ordering::Greater);
    assert_eq!(order("[7,7,7,7]", "[7,7,7]"), Ordering::Greater);
    assert_eq!(order("[]", "[3]"), Ordering::Less);
    assert_eq!(order("[[[]]]", "[[]]"), Ordering::Greater);
    assert_eq!(order("[2]", "[[2]]"), Ordering::Equal);
    assert_eq!(order("[[2]]", "[2]"), Ordering::Equal);
    assert_eq!(order("[[2,3]]", "[2]"), Ordering::Greater);
    assert_eq!(order("[2]", "[[2,3]]"), Ordering::Less);
    assert_eq!(order("[2]", "[[]]"), Ordering::Greater);
    assert_eq!(order("[[]]", "[2]"), Ordering::Less);
    assert_eq!(order("[]", "[]"), Ordering::Equal);
    assert!(packet("[1]").is_before(&packet("[2]")));
    assert!(!packet("[2]").is_before(&packet("[2]")));
    assert!(packet("[2]").is_same(&packet("[[2]]")));
}

#[test]
fn packets_are_read_leniently() {
    let p = packet("[10,[2, 3],,x4]tail");
    assert_eq!(p.sub_packets.len(), 3);
    assert!(matches!(p.sub_packets[0].packet_type, ValueType::Integer(10)));
    assert!(matches!(p.sub_packets[1].packet_type, ValueType::List));
    assert_eq!(p.sub_packets[1].sub_packets.len(), 2);
    assert!(matches!(p.sub_packets[2].packet_type, ValueType::Integer(4)));
    // figures that stand before a list go on in the list
    let q = packet("[12[3]]");
    assert_eq!(q.sub_packets.len(), 1);
    assert_eq!(q.sub_packets[0].sub_packets.len(), 1);
    assert!(matches!(q.sub_packets[0].sub_packets[0].packet_type, ValueType::Integer(123)));
    let r = packet("[12[],3]");
    assert_eq!(r.sub_packets.len(), 2);
    assert_eq!(r.sub_packets[0].sub_packets.len(), 1);
    assert!(matches!(r.sub_packets[0].sub_packets[0].packet_type, ValueType::Integer(12)));
    for text in ["", "5", "[", "[1,2", "]", "1]", "[99999999999999999999999]", "1,[2]"] {
        assert_eq!(Packet::from_bytes(text.as_bytes()).err(), Some(ParseError::Malformed), "{}", text);
    }
}

#[test]
fn groups_want_two_packets() {
    assert_eq!(Day13.run1(some("[1]\n\n[2]\n[3]")), Err(PuzzleError::Parse(ParseError::Malformed)));
    assert_eq!(Day13.run1(some("[1]\n[2]\n\n[3]")), Err(PuzzleError::Parse(ParseError::Malformed)));
    assert_eq!(Day13.run1(some("[1]\n[2]\n[0]\n\n[3]\n[2]")), Ok("1".to_string()));
    assert_eq!(Day13.run1(some("")), Ok("0".to_string()));
    assert_eq!(Day13.run1(some("\n")), Err(PuzzleError::Parse(ParseError::Malformed)));
    assert_eq!(Day13.run1(some("x")), Err(PuzzleError::Parse(ParseError::Malformed)));
    assert_eq!(Day13.run2(some("")), Ok("2".to_string()));
    // packets like a divider take places of their own
    assert_eq!(Day13.run2(some("[2]")), Ok((1 * 2 * 3).to_string()));
    assert_eq!(Day13.run2(some("[1]\n[7]")), Ok((2 * 3).to_string()));
    let packets = vec![packet("[1]"), packet("[3]"), packet("[9]")];
    assert_eq!(decoder_key(&packets, &divider(2), &divider(6)), Some(2 * 4));
    assert_eq!(decoder_key(&packets, &divider(2), &divider(2)), Some(2 * 3));
}

// ----- day 20 -----
fn code_with(lit: &[usize]) -> Vec<u8> {
    let mut code = vec![0u8; 512];
    for &i in lit {
        code[i] = 1;
    }
    code
}

#[test]
fn pixels_are_read_in_and_around_the_image() {
    let image = vec![vec![1, 0], vec![0, 1]];
    assert_eq!(get_pixel_at(&image, 0, 0, 0), 1);
    assert_eq!(get_pixel_at(&image, 0, 1, 0), 0);
    assert_eq!(get_pixel_at(&image, -1, 0, 0), 0);
    assert_eq!(get_pixel_at(&image, -1, 0, 1), 1);
    assert_eq!(get_pixel_at(&image, 0, 2, 3), 1);
    assert_eq!(get_pixel_at(&image, 2, 0, 4), 0);
    // the pattern around the upper left pixel: 000 010 001
    let code = code_with(&[0b000_010_001]);
    assert_eq!(encode_pixel_at(&image, &code, 0, 0, 0), 1);
    assert_eq!(encode_pixel_at(&image, &code, 1, 1, 0), 0);
    // around the lower right pixel: 100 010 000
    assert_eq!(encode_pixel_at(&image, &code_with(&[0b100_010_000]), 1, 1, 0), 1);
    // far outside, in an odd step, with a code that lights the empty plane
    assert_eq!(encode_pixel_at(&image, &code_with(&[0]), 9, 9, 1), 0);
    assert_eq!(encode_pixel_at(&image, &code_with(&[0, 511]), 9, 9, 1), 1);
    // a code that leaves the empty plane dark never lights it
    assert_eq!(encode_pixel_at(&image, &code_with(&[511]), 9, 9, 1), 0);
}

#[test]
fn image_of_the_example() {
    let code_text = "..#.#..#####.#.#.#.###.##.....###.##.#..###.####..#####..#....#..#..##..###..######.###...####..#..#####..##..#.#####...##.#.#..#.##..#.#......#.###.######.###.####...#.##.##..#..#..#####.....#.#....###..#.##......#.....#..#..#..##..#...##.######.####.####.#.#...#.......#..#.#.#...####.##.#......#..#...##.#.##..#...##.#.##..###.#......#.#.......#.#.#.####.###.##...#.....####.#..#..#.##.#....##..#.####....##...##..#...#......#.#.......#.......##..####..#...#.#.#...##..#.#..###..#####........#..####......#..#";
    let text = format!("{}\n\n#..#.\n#....\n##..#\n..#..\n..###\n", code_text);
    assert_eq!(advent::day20::run(&text), Ok((35, 3351)));
    let code = make_code(code_text.as_bytes()).unwrap();
    assert_eq!(code.len(), 512);
    let image: Vec<Vec<u8>> = ["#..#.", "#....", "##..#", "..#..", "..###"]
        .iter()
        .map(|l| make_code(l.as_bytes()).unwrap())
        .collect();
    assert_eq!(lit_pixels(&image), Some(10));
    let once = encode(&image, &code, 0);
    assert_eq!(once.len(), 7);
    assert_eq!(once[0], vec![0, 1, 1, 0, 1, 1, 0]);
    assert_eq!(lit_pixels(&encode(&once, &code, 1)), Some(35));
}

#[test]
fn images_that_are_written_badly_are_rejected() {
    assert_eq!(advent::day20::run(""), Err(PuzzleError::Parse(ParseError::Malformed)));
    assert_eq!(advent::day20::run("..#\n\n#"), Err(PuzzleError::Parse(ParseError::Malformed)));
    let code = ".".repeat(512);
    assert_eq!(advent::day20::run(&format!("{}\n#.\n#", code)), Err(PuzzleError::Parse(ParseError::Malformed)));
    assert_eq!(advent::day20::run(&format!("{}\n#", code)), Ok((0, 0)));
    assert_eq!(advent::day20::run(&code), Ok((0, 0)));
    assert_eq!(make_code(b"a.#b#").unwrap(), vec![0, 1, 1]);
}

// ----- day 25 -----
const FLOOR: &str = "v...>>.vv>
.vv>>.vv..
>>.>v>...v
>>v>>.>.v.
v>v.vv.v..
>.>>..v...
.vv..>.>v.
v.v..>>v.v
....v..v.>";

#[test]
fn sea_floor_of_the_example() {
    assert_eq!(advent::day25::run(FLOOR), Ok(58));
}

fn floor(text: &str) -> SeaFloor {
    SeaFloor::from_bytes(text.as_bytes()).unwrap()
}

fn plan(f: &SeaFloor) -> String {
    f.sea_cucumbers
        .iter()
        .map(|row| {
            row.iter()
                .map(|c| match c {
                    SeaCucumber::East => '>',
                    SeaCucumber::South => 'v',
                    SeaCucumber::Empty => '.',
                })
                .collect::<String>()
        })
        .collect::<Vec<String>>()
        .join("\n")
}

#[test]
fn herds_move_all_at_once() {
    let mut f = floor("...>>>>>...");
    assert!(f.step());
    assert_eq!(plan(&f), "...>>>>.>..");
    assert!(f.step());
    assert_eq!(plan(&f), "...>>>.>.>.");
    let mut f = floor("..........\n.>v....v..\n.......>..\n..........");
    assert!(f.step());
    assert_eq!(plan(&f), "..........\n.>........\n..v....v>.\n..........");
    let mut f = floor("...>...\n.......\n......>\nv.....>\n......>\n.......\n..vvv..");
    assert!(f.step());
    assert_eq!(plan(&f), "..vv>..\n.......\n>......\nv.....>\n>......\n.......\n....v..");
    let mut f = floor(">v\nv>");
    assert!(!f.step());
    assert_eq!(plan(&f), ">v\nv>");
    assert_eq!(f.run(10), Some(1));
}

#[test]
fn single_sea_cucumbers_are_moved() {
    let mut f = floor(">.v\n...");
    assert_eq!((f.width(), f.height()), (3, 2));
    assert!(f.can_move(0, 0));
    assert!(f.can_move(2, 0));
    assert!(!f.can_move(1, 0));
    assert!(f.move_cucumber_at(0, 0));
    assert_eq!(plan(&f), ".>v\n...");
    assert!(!f.can_move(1, 0));
    assert!(!f.move_cucumber_at(1, 0));
    assert!(f.move_cucumber_at(2, 0));
    assert_eq!(plan(&f), ".>.\n..v");
    assert!(f.move_cucumber_at(1, 0));
    assert!(f.move_cucumber_at(2, 0));
    assert_eq!(plan(&f), ">..\n..v");
    assert!(f.move_cucumber_at(2, 1));
    assert_eq!(plan(&f), ">.v\n...");
    assert!(!f.move_cucumber_at(1, 1));
    assert!(f.move_to(0, 0, 4, 3));
    assert_eq!(plan(&f), "..v\n.>.");
    assert!(!f.move_to(2, 0, 1, 1));
}

#[test]
fn a_lone_sea_cucumber_never_stops() {
    let mut f = floor(">..");
    assert_eq!(f.run(1000), None);
    let mut f = floor(">");
    assert_eq!(f.run(0), Some(1));
}

#[test]
fn floors_that_are_written_badly_are_rejected() {
    for text in ["", "\n", ">.\n.", ">x", ">.\n\n.v"] {
        assert_eq!(advent::day25::run(text), Err(PuzzleError::Parse(ParseError::Malformed)), "{:?}", text);
    }
}
