use advent::day1::{Calibration, Day1, IntValue};
use advent::day10::{Day10, Instruction, CPU, CRT};
use advent::day16::{read_n_bits_at, LiteralPacket, PacketHeader, PacketType};
use advent::day17::Target;
use advent::day2::{Day2, Game};
use advent::day3::{Day3, Item, ItemType};
use advent::day4::{Draw, Lottery};
use advent::day6::{valid_push_times_count, Day6};
use advent::errors::{ParseError, PuzzleError};
use advent::traits::AdventOfCode;

fn some(text: &str) -> Option<String> {
    Some(text.to_string())
}

// ----- day 1 -----
#[test]
fn calibration_of_the_examples() {
    let first = "1abc2\npqr3stu8vwx\na1b2c3d4e5f\ntreb7uchet\n";
    assert_eq!(Day1.run1(some(first)), Ok("142".to_string()));
    let second = "two1nine\neightwothree\nabcone2threexyz\nxtwone3four\n4nineeightseven2\nzoneight234\n7pqrstsixteen\n";
    assert_eq!(Day1.run2(some(second)), Ok("281".to_string()));
    assert_eq!(Day1.day(), 1);
}

#[test]
fn calibration_finds_digits_in_figures_and_letters() {
    assert_eq!(Calibration::extract_numbers(b"a1b22c", false), vec![(1, 1), (3, 2), (4, 2)]);
    assert_eq!(Calibration::extract_numbers(b"eightwo0three", false), vec![]);
    assert_eq!(
        Calibration::extract_numbers(b"eightwo0three", true),
        vec![(0, 8), (4, 2), (8, 3)]
    );
    assert_eq!(Calibration::extract_numbers(b"oneight", true), vec![(0, 1), (2, 8)]);
    assert_eq!(Calibration::extract_numbers(b"", true), vec![]);
    let c = Calibration::from_input(b"12\n\nx7y\n", false).unwrap();
    assert_eq!(c.values, vec![12, 77]);
    assert_eq!(c.compute(), Some(89));
    assert_eq!(Calibration { values: vec![usize::MAX, 1] }.compute(), None);
    assert_eq!(Calibration { values: vec![] }.compute(), Some(0));
}

#[test]
fn calibration_wants_a_digit_in_each_line() {
    assert_eq!(Calibration::from_input(b"12\nabc\n", false).err(), Some(ParseError::Malformed));
    assert_eq!(Day1.run1(some("one")), Err(PuzzleError::Parse(ParseError::Malformed)));
    assert_eq!(Day1.run2(some("one")), Ok("11".to_string()));
    assert_eq!(Day1.run1(None), Err(PuzzleError::MissingInput));
}

#[test]
fn values_are_read_in_letters_and_figures() {
    assert_eq!(IntValue::from_bytes(b"one").unwrap().value, 1);
    assert_eq!(IntValue::from_bytes(b"nine").unwrap().value, 9);
    assert_eq!(IntValue::from_bytes(b"42").unwrap().value, 42);
    assert_eq!(IntValue::from_bytes(b"ten").err(), Some(ParseError::Malformed));
    assert_eq!(IntValue::from_bytes(b"").err(), Some(ParseError::Malformed));
}

// ----- day 2 -----
const GAMES: &str = "Game 1: 3 blue, 4 red; 1 red, 2 green, 6 blue; 2 green
Game 2: 1 blue, 2 green; 3 green, 4 blue, 1 red; 1 green, 1 blue
Game 3: 8 green, 6 blue, 20 red; 5 blue, 4 red, 13 green; 5 green, 1 red
Game 4: 1 green, 3 red, 6 blue; 3 green, 6 red; 3 green, 15 blue, 14 red
Game 5: 6 red, 1 blue, 3 green; 2 blue, 1 red, 2 green
";

#[test]
fn cube_games_of_the_example() {
    assert_eq!(Day2.run1(some(GAMES)), Ok("8".to_string()));
    assert_eq!(Day2.run2(some(GAMES)), Ok("2286".to_string()));
    assert_eq!(Day2.day(), 2);
}

#[test]
fn a_game_is_read_handful_by_handful() {
    let g = Game::from_str("Game 11: 3 blue, 4 red; 1 red, 2 green, 6 blue, 1 red; 2 green").unwrap();
    assert_eq!(g.id, 11);
    assert_eq!(g.reveals, vec![[4, 0, 3], [2, 2, 6], [0, 2, 0]]);
    assert!(g.is_valid_game());
    assert_eq!(g.minimum_power(), Some(4 * 2 * 6));
    let g = Game::from_str("Game Game 3: 13 red, 7 pink;  14 green ").unwrap();
    assert_eq!(g.id, 3);
    assert_eq!(g.reveals, vec![[13, 0, 0], [0, 14, 0]]);
    assert!(!g.is_valid_game());
    assert_eq!(g.minimum_power(), Some(0));
    assert_eq!(Game { id: 1, reveals: vec![] }.minimum_power(), Some(0));
    assert!(Game { id: 1, reveals: vec![] }.is_valid_game());
    assert!(Game { id: 1, reveals: vec![[12, 13, 14]] }.is_valid_game());
    assert!(!Game { id: 1, reveals: vec![[12, 13, 15]] }.is_valid_game());
    assert_eq!(Game { id: 1, reveals: vec![[usize::MAX, 2, 1]] }.minimum_power(), None);
}

#[test]
fn a_game_that_is_written_badly_is_rejected() {
    for line in ["Game 1", "Game x: 1 red", "Game 1: red", "Game 1: x red", "Game 1: 1 red;", "Game 1: 1 red, "]
    {
        assert_eq!(Game::from_str(line).err(), Some(ParseError::Malformed), "{}", line);
    }
    assert_eq!(Day2.run1(some("Game 1: 1 red\nnonsense")), Err(PuzzleError::Parse(ParseError::Malformed)));
    assert_eq!(Day2.run2(None), Err(PuzzleError::MissingInput));
    assert_eq!(Day2.run1(some("")), Ok("0".to_string()));
}

// ----- day 3 -----
const PLAN: &str = "467..114..
...*......
..35..633.
......#...
617*......
.....+.58.
..592.....
......755.
...$.*....
.664.598..";

fn plan_items(text: &str) -> Vec<Item> {
    let mut items = vec![];
    for (idx, line) in text.lines().enumerate() {
        items.append(&mut Day3::find_items(line, idx).unwrap());
    }
    items
}

#[test]
fn engine_plan_of_the_example() {
    assert_eq!(Day3::find_adjacent(plan_items(PLAN)), Some(4361));
    assert_eq!(Day3::find_gears(plan_items(PLAN)), Some(467835));
}

#[test]
fn items_are_found_with_their_places() {
    let items = Day3::find_items("..35..*633.#", 4).unwrap();
    let seen: Vec<(usize, usize, usize, Option<usize>, bool)> = items
        .iter()
        .map(|i| (i.x, i.y, i.len, i.item_type.value(), i.item_type.is_gear_symbol()))
        .collect();
    assert_eq!(
        seen,
        vec![(2, 4, 2, Some(35), false), (6, 4, 1, None, true), (7, 4, 3, Some(633), false), (11, 4, 1, None, false)]
    );
    assert!(items[1].item_type.is_symbol());
    assert!(!items[0].item_type.is_symbol());
    assert!(Day3::find_items("", 0).unwrap().is_empty());
    assert!(Day3::find_items("....", 0).unwrap().is_empty());
}

#[test]
fn nearness_is_a_frame_around_the_item() {
    let number = |x, y, len| Item { x, y, len, item_type: ItemType::Number(1) };
    let at = |x, y| Item { x, y, len: 1, item_type: ItemType::Symbol("*".to_string()) };
    let n = number(3, 5, 2);
    for (x, y, near) in [(2, 4, true), (5, 4, true), (6, 4, false), (1, 5, false), (2, 6, true), (5, 6, true), (3, 7, false), (3, 3, false), (4, 5, true)]
    {
        assert_eq!(n.near(&at(x, y)), near, "{} {}", x, y);
    }
    assert!(number(0, 0, 1).near(&at(0, 0)));
    assert!(number(0, 0, 1).near(&at(1, 1)));
    assert!(!number(0, 0, 1).near(&at(2, 0)));
    assert!(number(usize::MAX, usize::MAX, usize::MAX).near(&at(usize::MAX, usize::MAX)));
}

#[test]
fn item_types_are_told_apart() {
    assert_eq!(ItemType::from_bytes(b"12").unwrap().value(), Some(12));
    let s = ItemType::from_bytes(b"#").unwrap();
    assert!(s.is_symbol());
    assert!(!s.is_gear_symbol());
    assert_eq!(s.value(), None);
    assert!(ItemType::from_bytes(b"*").unwrap().is_gear_symbol());
    assert!(!ItemType::from_bytes(b"**").unwrap().is_gear_symbol());
    assert!(ItemType::from_bytes(&[0xff]).is_none());
}

// ----- day 4 -----
#[test]
fn cards_of_the_example() {
    let text = "Card 1: 41 48 83 86 17 | 83 86  6 31 17  9 48 53
Card 2: 13 32 20 16 61 | 61 30 68 82 17 32 24 19
Card 3:  1 21 53 59 44 | 69 82 63 72 16 21 14  1
Card 4: 41 92 73 84 69 | 59 84 76 51 58  5 54 83
Card 5: 87 83 26 28 32 | 88 30 70 12 93 22 82 36
Card 6: 31 18 13 56 72 | 74 77 10 23 35 67 36 11";
    let draws: Vec<Draw> = text.lines().map(|l| Draw::from_str(l).unwrap()).collect();
    assert_eq!(draws[0].id, 1);
    assert_eq!(draws[0].draw, vec![41, 48, 83, 86, 17]);
    assert_eq!(draws[2].bet, vec![69, 82, 63, 72, 16, 21, 14, 1]);
    assert_eq!(draws.iter().map(|d| d.winnings().unwrap()).collect::<Vec<usize>>(), vec![8, 2, 2, 1, 0, 0]);
    let mut lottery = Lottery { draws };
    assert_eq!(lottery.winnings(), Some(13));
    assert_eq!(lottery.winnings2(), Some(30));
    assert_eq!(lottery.draws[0].matches, Some(4));
}

#[test]
fn a_card_counts_its_matches_once() {
    let mut d = Draw { id: 1, draw: vec![1, 2, 3], bet: vec![3, 3, 9, 1], matches: None };
    assert_eq!(d.matches(), 3);
    assert_eq!(d.matches, Some(3));
    d.bet = vec![];
    assert_eq!(d.matches(), 3);
    assert_eq!(d.winnings(), Some(0));
    let many = Draw { id: 1, draw: vec![7], bet: vec![7; 70], matches: None };
    assert_eq!(many.winnings(), None);
}

#[test]
fn cards_that_win_cards_that_are_not_there() {
    let mut l = Lottery { draws: vec![Draw { id: 1, draw: vec![1], bet: vec![1], matches: None }] };
    assert_eq!(l.winnings2(), None);
    let mut l = Lottery { draws: vec![Draw { id: 0, draw: vec![1], bet: vec![1], matches: None }] };
    assert_eq!(l.winnings2(), None);
    let mut l = Lottery { draws: vec![Draw { id: 0, draw: vec![1], bet: vec![2], matches: None }] };
    assert_eq!(l.winnings2(), Some(1));
    assert_eq!(Lottery { draws: vec![] }.winnings2(), Some(0));
}

#[test]
fn a_card_that_is_written_badly_is_rejected() {
    for line in ["", "Card 1: 2 3", "Card x: 1 | 2", "Card 1: 1 | x", "Card 1: 1 | 2 | 3", "Card 99999999999999999999999: 1 | 2"]
    {
        assert_eq!(Draw::from_str(line).err(), Some(ParseError::Malformed), "{}", line);
    }
}

// ----- day 6 -----
#[test]
fn races_of_the_example() {
    assert_eq!(valid_push_times_count(7, 9), 4);
    assert_eq!(valid_push_times_count(15, 40), 8);
    assert_eq!(valid_push_times_count(30, 200), 9);
    assert_eq!(valid_push_times_count(71530, 940200), 71503);
    assert_eq!(valid_push_times_count(0, 0), 0);
    assert_eq!(valid_push_times_count(10, u64::MAX), 0);
    assert_eq!(valid_push_times_count(2, 0), 1);
}

#[test]
fn races_of_the_puzzle() {
    let product = valid_push_times_count(48, 296)
        * valid_push_times_count(93, 1928)
        * valid_push_times_count(85, 1236)
        * valid_push_times_count(95, 1391);
    assert_eq!(Day6.run1(None), Ok(product.to_string()));
    assert_eq!(Day6.run2(None), Ok(valid_push_times_count(48938595, 296192812361391).to_string()));
    assert_eq!(Day6.day(), 6);
}

// ----- day 10 -----
#[test]
fn small_program_draws_and_adds() {
    let mut cpu = CPU::init();
    assert_eq!(cpu.load_program("noop\naddx 3\naddx -5"), Ok(()));
    assert_eq!(cpu.code, vec![Instruction::Noop, Instruction::Addx(3), Instruction::Addx(-5)]);
    assert_eq!(cpu.run(), Ok(0));
    assert_eq!(cpu.reg, -1);
    assert_eq!(cpu.pc, 3);
    assert_eq!(cpu.display(), "#####");
}

#[test]
fn signal_strength_is_taken_every_forty_cycles() {
    let mut program = String::new();
    for _ in 0..9 {
        program.push_str("addx 2\n");
    }
    // cycle 20 falls into the tenth addx: the register is 1 + 9 * 2
    program.push_str("addx 1\n");
    // cycle 60 is the last of these: the register is 20
    for _ in 0..40 {
        program.push_str("noop\n");
    }
    program.push_str("addx -100\n");
    assert_eq!(Day10.run1(Some(program.clone())), Ok((20 * 19 + 60 * 20).to_string()));
    let screen = Day10.run2(Some(program)).unwrap();
    let rows: Vec<&str> = screen.split('\n').collect();
    assert_eq!(rows.len(), 2);
    assert_eq!(rows[0].len(), 40);
    assert_eq!(rows[0], format!("{}{}", "#".repeat(22), " ".repeat(18)));
    assert_eq!(rows[1], format!("{}###", " ".repeat(19)));
    assert_eq!(Day10.day(), 10);
}

#[test]
fn instructions_are_read_and_rejected() {
    assert_eq!(Instruction::from_bytes(b"noop"), Ok(Instruction::Noop));
    assert_eq!(Instruction::from_bytes(b"noop 7"), Ok(Instruction::Noop));
    assert_eq!(Instruction::from_bytes(b"addx -12"), Ok(Instruction::Addx(-12)));
    assert_eq!(Instruction::from_bytes(b"addx +12"), Ok(Instruction::Addx(12)));
    for line in ["addx", "addx x", "addx 1 2", "nop", "", " noop", "addx 9223372036854775808"] {
        assert_eq!(Instruction::from_bytes(line.as_bytes()), Err(ParseError::Malformed), "{}", line);
    }
    assert_eq!(Instruction::from_bytes(b"addx -9223372036854775808"), Ok(Instruction::Addx(i64::MIN)));
    let mut cpu = CPU::init();
    assert_eq!(cpu.load_program("noop\njump 1\nnoop"), Err(ParseError::Malformed));
    assert_eq!(cpu.code, vec![Instruction::Noop]);
    assert_eq!(Day10.run1(Some("jump".to_string())), Err(PuzzleError::Parse(ParseError::Malformed)));
    assert_eq!(Day10.run1(Some("addx 1000001".to_string())), Err(PuzzleError::TooLarge));
    assert_eq!(Day10.run2(None), Err(PuzzleError::MissingInput));
    assert_eq!(Day10.run1(Some(String::new())), Ok("0".to_string()));
    assert_eq!(Day10.run2(Some(String::new())), Ok(String::new()));
}

#[test]
fn screen_starts_a_row_every_forty_cycles() {
    let mut crt = CRT::new();
    for clk in 0..41 {
        crt.update_at(clk, 1);
    }
    assert_eq!(crt.display.len(), 2);
    assert_eq!(crt.display[0], format!("###{}", " ".repeat(37)));
    assert_eq!(crt.display[1], "#");
    assert_eq!(crt.line, 1);
    assert_eq!(crt.to_string(), format!("###{}\n#", " ".repeat(37)));
}

// ----- day 16 -----
fn hex(text: &str) -> Vec<u8> {
    (0..text.len()).step_by(2).map(|i| u8::from_str_radix(&text[i..i + 2], 16).unwrap()).collect()
}

fn packet(text: &str) -> (PacketType, usize) {
    let bytes = hex(text);
    let mut size = 0;
    let p = PacketType::from_hexa(&bytes, 0, &mut size).unwrap();
    (p, size)
}

#[test]
fn literal_packet_of_the_example() {
    let (p, size) = packet("D2FE28");
    assert_eq!(size, 21);
    match &p {
        PacketType::Literal(l) => {
            assert_eq!(l.value, 2021);
            assert_eq!(l.header.version, 6);
            assert_eq!(l.header.p_type, 4);
            assert_eq!(l.bits, 15);
            assert_eq!(l.bits_consumed(), 21);
        }
        _ => panic!("no literal"),
    }
    assert_eq!(p.count_vers(), Some(6));
    assert_eq!(p.resolve(), Some(2021));
    assert_eq!(p.bits_consumed(), 21);
}

#[test]
fn operator_packets_of_the_examples() {
    let (p, size) = packet("38006F45291200");
    assert_eq!(size, 22 + 27);
    match &p {
        PacketType::Operator(o) => {
            assert_eq!(o.size_bits, 16);
            assert_eq!(o.subs.len(), 2);
            assert_eq!(o.bits_consumed(), 49);
            assert_eq!(o.resolve(), Some(1));
        }
        _ => panic!("no operator"),
    }
    let (p, size) = packet("EE00D40C823060");
    assert_eq!(size, 18 + 33);
    match &p {
        PacketType::Operator(o) => {
            assert_eq!(o.size_bits, 12);
            assert_eq!(o.subs.len(), 3);
            assert_eq!(o.resolve(), Some(3));
        }
        _ => panic!("no operator"),
    }
}

#[test]
fn versions_and_values_of_the_examples() {
    for (text, versions) in [("8A004A801A8002F478", 16), ("620080001611562C8802118E34", 12), ("C0015000016115A2E0802F182340", 23), ("A0016C880162017C3686B18A3D4780", 31)]
    {
        assert_eq!(packet(text).0.count_vers(), Some(versions), "{}", text);
    }
    for (text, value) in [("C200B40A82", 3), ("04005AC33890", 54), ("880086C3E88112", 7), ("CE00C43D881120", 9), ("D8005AC2A8F0", 1), ("F600BC2D8F", 0), ("9C005AC2F8F0", 0), ("9C0141080250320F1802104A08", 1)]
    {
        assert_eq!(packet(text).0.resolve(), Some(value), "{}", text);
    }
}

#[test]
fn packets_that_are_cut_short_are_rejected() {
    let mut size = 7;
    for text in ["", "D2", "D2FE", "38006F452912", "EE00D40C8230", "EE"] {
        assert!(PacketType::from_hexa(&hex(text), 0, &mut size).is_none(), "{}", text);
        assert_eq!(size, 7);
    }
    assert!(PacketType::from_hexa(&hex("D2FE28"), 1000, &mut size).is_none());
    assert!(LiteralPacket::from_bytes(PacketHeader { version: 0, p_type: 4 }, &hex("D2FE28"), 20).is_none());
}

#[test]
fn bits_are_read_from_the_highest() {
    let bytes = vec![0b1010_0101, 0b1111_0000];
    assert_eq!(read_n_bits_at(&bytes, 0, 1), 1);
    assert_eq!(read_n_bits_at(&bytes, 1, 1), 0);
    assert_eq!(read_n_bits_at(&bytes, 0, 4), 0b1010);
    assert_eq!(read_n_bits_at(&bytes, 4, 8), 0b0101_1111);
    assert_eq!(read_n_bits_at(&bytes, 0, 16), 0b1010_0101_1111_0000);
    assert_eq!(read_n_bits_at(&bytes, 16, 0), 0);
    let h = PacketHeader::from_bytes(&bytes, 2);
    assert_eq!((h.version, h.p_type), (0b100, 0b101));
    assert_eq!(LiteralPacket::get_group_at(&bytes, 0), (0b0100, false));
    assert_eq!(LiteralPacket::get_group_at(&bytes, 1), (0b1001, true));
}

// ----- day 17 -----
#[test]
fn probes_of_the_example() {
    let target = Target { x: [20, 30], y: [-10, -5] };
    assert!(target.try_hit([7, 2]));
    assert!(target.try_hit([6, 3]));
    assert!(target.try_hit([9, 0]));
    assert!(!target.try_hit([17, -4]));
    assert!(target.try_hit([6, 9]));
    assert!(!target.try_hit([6, 10]));
    let mut count = 0;
    for x in 1..=30 {
        for y in -10..=10 {
            if target.try_hit([x, y]) {
                count += 1;
            }
        }
    }
    assert_eq!(count, 112);
}

#[test]
fn target_holds_its_borders() {
    let target = Target { x: [20, 30], y: [-10, -5] };
    assert!(target.contains([20, -10]));
    assert!(target.contains([30, -5]));
    assert!(!target.contains([19, -7]));
    assert!(!target.contains([25, -4]));
    assert!(!target.contains([31, -11]));
    let around = Target { x: [-1, 1], y: [-1, 1] };
    assert!(around.try_hit([0, 0]));
    assert!(around.try_hit([-5, 3]));
    // a probe to the right of the target has passed it
    let left = Target { x: [-9, -5], y: [-10, -5] };
    assert!(!left.try_hit([-6, 0]));
    assert!(!left.try_hit([3, 0]));
    // so has a probe below it
    let above = Target { x: [0, 5], y: [3, 4] };
    assert!(!above.try_hit([1, 2]));
    let through = Target { x: [0, 5], y: [-3, 4] };
    assert!(through.try_hit([1, 2]));
}
