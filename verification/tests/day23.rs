use advent::day23::{
    cell_at, cell_of, cell_position, decode_board, encode_board, energy_of, extend_corridor,
    get_reachable_pos, room_and_level, solve, solve_amphipods, Amphipod, AmphipodType, Burrow,
    State,
};
use advent::errors::{ConfigurationError, ParseError, PuzzleError};
use advent::search::SearchSpace;

const DEEP: &str = "#############
#...........#
###B#C#B#D###
  #D#C#B#A#
  #D#B#A#C#
  #A#D#C#A#
  #########";

const SHALLOW: &str = "#############
#...........#
###B#C#B#D###
  #A#D#C#A#
  #########";

fn board(depth: usize, hall: &str, rooms: [&str; 4]) -> Vec<u8> {
    let code = |c: char| match c {
        '.' => 0u8,
        'A' => 1,
        'B' => 2,
        'C' => 3,
        'D' => 4,
        _ => panic!("no cell"),
    };
    let mut cells: Vec<u8> = hall.chars().map(code).collect();
    assert_eq!(cells.len(), 11);
    for r in rooms {
        assert_eq!(r.len(), depth);
        cells.extend(r.chars().map(code));
    }
    cells
}

fn targets(depth: usize, cells: &Vec<u8>, from: usize) -> Vec<usize> {
    let mut t = get_reachable_pos(depth, cells, from);
    t.sort();
    t
}

#[test]
fn deep_example_burrow_costs_44169() {
    assert_eq!(solve(DEEP), Ok(Some(44169)));
}

#[test]
fn shallow_example_burrow_costs_12521() {
    assert_eq!(solve(SHALLOW), Ok(Some(12521)));
}

#[test]
fn sorted_burrow_costs_nothing() {
    for depth in 1..=4usize {
        let rooms = ["A".repeat(depth), "B".repeat(depth), "C".repeat(depth), "D".repeat(depth)];
        let cells = board(depth, "...........", [&rooms[0], &rooms[1], &rooms[2], &rooms[3]]);
        let b = Burrow::new(depth, cells).unwrap();
        assert_eq!(solve_amphipods(&b), Ok(Some(0)));
        assert_eq!(b.sort(), Some(0));
    }
    let empty = Burrow::new(2, vec![0; 19]).unwrap();
    assert_eq!(solve_amphipods(&empty), Ok(Some(0)));
    let half = Burrow::new(2, board(2, "...........", [".A", "..", "CC", ".D"])).unwrap();
    assert_eq!(solve_amphipods(&half), Ok(Some(0)));
}

#[test]
fn one_move_costs_energy_times_steps() {
    // a lone desert amphipod at the left end of the hallway walks 8 cells and goes 2 down
    let b = Burrow::new(2, board(2, "D..........", ["..", "..", "..", ".."])).unwrap();
    assert_eq!(solve_amphipods(&b), Ok(Some(10_000)));
    // from the top of the wrong room: up 1, along 2, down 2
    let b = Burrow::new(2, board(2, "...........", ["B.", "..", "..", ".."])).unwrap();
    assert_eq!(solve_amphipods(&b), Ok(Some(50)));
    let b = Burrow::new(1, board(1, "...........", ["B", "A", ".", "."])).unwrap();
    // A steps out of the way to the right (2), B goes home (40), A goes home (4)
    assert_eq!(solve_amphipods(&b), Ok(Some(2 + 40 + 4)));
}

#[test]
fn blocked_burrow_cannot_be_sorted() {
    // two amphipods in the hallway stand in each other's way
    let b = Burrow::new(1, board(1, "...C.A.....", [".", "B", ".", "D"])).unwrap();
    assert_eq!(solve_amphipods(&b), Ok(None));
    // where the one can step aside first, both come home
    let b = Burrow::new(1, board(1, "...B.A.....", [".", ".", "C", "D"])).unwrap();
    assert_eq!(solve_amphipods(&b), Ok(Some(20 + 4)));
}

#[test]
fn more_amphipods_than_home_cells_are_rejected() {
    let b = Burrow::new(1, board(1, "A..........", ["A", "B", "C", "D"])).unwrap();
    assert_eq!(solve_amphipods(&b), Err(ConfigurationError::TooManyOfKind(1)));
    let b = Burrow::new(2, board(2, "...........", ["DD", "BB", "CC", "D."])).unwrap();
    assert_eq!(solve_amphipods(&b), Err(ConfigurationError::TooManyOfKind(4)));
    // the first kind that is too many is named
    let b = Burrow::new(1, board(1, "CC.B.B.....", [".", ".", ".", "."])).unwrap();
    assert_eq!(solve_amphipods(&b), Err(ConfigurationError::TooManyOfKind(2)));
}

#[test]
fn boards_of_the_wrong_shape_are_rejected() {
    assert_eq!(Burrow::new(0, vec![0; 11]).err(), Some(ConfigurationError::InvalidBoard));
    assert_eq!(Burrow::new(5, vec![0; 31]).err(), Some(ConfigurationError::InvalidBoard));
    assert_eq!(Burrow::new(2, vec![0; 18]).err(), Some(ConfigurationError::InvalidBoard));
    assert_eq!(Burrow::new(2, vec![5; 19]).err(), Some(ConfigurationError::InvalidBoard));
    assert!(Burrow::new(4, vec![0; 27]).is_ok());
}

#[test]
fn moves_from_the_hallway_lead_home_only() {
    let cells = board(2, "A..........", ["..", "..", "..", ".."]);
    assert_eq!(targets(2, &cells, 0), vec![cell_of(2, 0, 1)]);
    // the deepest free cell
    let cells = board(2, "A..........", [".A", "..", "..", ".."]);
    assert_eq!(targets(2, &cells, 0), vec![cell_of(2, 0, 0)]);
    // another kind is in the room
    let cells = board(2, "A..........", [".B", "..", "..", ".."]);
    assert_eq!(targets(2, &cells, 0), Vec::<usize>::new());
    // the way is blocked
    let cells = board(2, "AB.........", ["..", "..", "..", ".."]);
    assert_eq!(targets(2, &cells, 0), Vec::<usize>::new());
    assert_eq!(targets(2, &cells, 1), vec![cell_of(2, 1, 1)]);
    // from the right
    let cells = board(2, "..........A", ["..", "..", "..", ".."]);
    assert_eq!(targets(2, &cells, 10), vec![cell_of(2, 0, 1)]);
    // the room is full
    let cells = board(2, "A..........", ["AA", "..", "..", ".."]);
    assert_eq!(targets(2, &cells, 0), Vec::<usize>::new());
    // a free cell has no moves
    assert_eq!(targets(2, &cells, 5), Vec::<usize>::new());
}

#[test]
fn moves_from_a_room_lead_to_the_hallway_or_home() {
    // from the top of room 1 in an empty hallway: every stop, and home
    let cells = board(2, "...........", ["..", "A.", "..", ".."]);
    assert_eq!(targets(2, &cells, cell_of(2, 1, 0)), vec![0, 1, 3, 5, 7, 9, 10, cell_of(2, 0, 1)]);
    // blocked on both sides
    let cells = board(2, "...B.C.....", ["..", "A.", "..", ".."]);
    assert_eq!(targets(2, &cells, cell_of(2, 1, 0)), Vec::<usize>::new());
    // blocked on the left: no way home
    let cells = board(2, "...B.......", ["..", "A.", "..", ".."]);
    assert_eq!(targets(2, &cells, cell_of(2, 1, 0)), vec![5, 7, 9, 10]);
    // under another amphipod
    let cells = board(2, "...........", ["..", "BA", "..", ".."]);
    assert_eq!(targets(2, &cells, cell_of(2, 1, 1)), Vec::<usize>::new());
    // settled at the bottom of its room, and on top of its own kind
    let cells = board(2, "...........", ["AA", "..", "..", ".."]);
    assert_eq!(targets(2, &cells, cell_of(2, 0, 0)), Vec::<usize>::new());
    assert_eq!(targets(2, &cells, cell_of(2, 0, 1)), Vec::<usize>::new());
    // at home, but above another kind: it has to leave
    let cells = board(2, "...........", ["AB", "..", "..", ".."]);
    assert_eq!(targets(2, &cells, cell_of(2, 0, 0)), vec![0, 1, 3, 5, 7, 9, 10]);
    // home holds another kind: hallway only
    let cells = board(2, "...........", [".C", "A.", "..", ".."]);
    assert_eq!(targets(2, &cells, cell_of(2, 1, 0)), vec![0, 1, 3, 5, 7, 9, 10]);
}

#[test]
fn moves_in_deep_rooms() {
    let cells = board(4, "...........", ["....", "...A", "....", "...."]);
    assert_eq!(
        targets(4, &cells, cell_of(4, 1, 3)),
        vec![0, 1, 3, 5, 7, 9, 10, cell_of(4, 0, 3)]
    );
    let cells = board(4, "...........", ["..AA", "...A", "....", "...."]);
    assert_eq!(
        targets(4, &cells, cell_of(4, 1, 3)),
        vec![0, 1, 3, 5, 7, 9, 10, cell_of(4, 0, 1)]
    );
    let cells = board(4, "...........", ["....", "..BA", "....", "...."]);
    assert_eq!(targets(4, &cells, cell_of(4, 1, 3)), Vec::<usize>::new());
}

#[test]
fn corridor_reaches_as_far_as_it_is_free() {
    let cells = board(1, "...........", [".", ".", ".", "."]);
    let mut all = extend_corridor(&cells, 4);
    all.sort();
    assert_eq!(all, (0..11).collect::<Vec<usize>>());
    let cells = board(1, ".A.....B...", [".", ".", ".", "."]);
    let mut some = extend_corridor(&cells, 4);
    some.sort();
    assert_eq!(some, vec![2, 3, 4, 5, 6]);
    let cells = board(1, "....A......", [".", ".", ".", "."]);
    assert_eq!(extend_corridor(&cells, 4), Vec::<usize>::new());
}

#[test]
fn successors_carry_the_cost_of_each_move() {
    let b = Burrow::new(1, board(1, "...........", ["B", ".", ".", "."])).unwrap();
    let start = encode_board(&board(1, "...........", ["B", ".", ".", "."]));
    assert!(b.contains(start));
    assert!(!b.goal(start));
    let mut next = b.successors(start);
    next.sort();
    let mut want = vec![];
    for (hall, steps) in [(0usize, 3u64), (1, 2), (3, 2), (5, 4), (7, 6), (9, 8), (10, 9)] {
        let mut hallway = vec!['.'; 11];
        hallway[hall] = 'B';
        let text: String = hallway.into_iter().collect();
        want.push((encode_board(&board(1, &text, [".", ".", ".", "."])), 10 * steps));
    }
    want.push((encode_board(&board(1, "...........", [".", "B", ".", "."])), 10 * 4));
    want.sort();
    assert_eq!(next, want);
    assert!(b.goal(encode_board(&board(1, "...........", [".", "B", ".", "."]))));
    assert!(!b.contains(u64::MAX));
}

#[test]
fn boards_and_their_numbers() {
    let cells = board(2, "A.B.C.D....", ["A.", "B.", ".C", "D."]);
    let key = encode_board(&cells);
    assert_eq!(decode_board(key, 19), cells);
    assert_eq!(encode_board(&vec![0; 27]), 0);
    assert_eq!(encode_board(&vec![1, 0, 0]), 1);
    assert_eq!(encode_board(&vec![0, 1, 0]), 5);
    assert_eq!(encode_board(&vec![4, 3, 2]), 4 + 15 + 50);
    assert_eq!(decode_board(69, 3), vec![4, 3, 2]);
    assert_eq!(encode_board(&vec![4; 27]), 7450580596923828124);
}

#[test]
fn cells_and_their_places() {
    assert_eq!(cell_position(4, 0), [1, 1]);
    assert_eq!(cell_position(4, 10), [11, 1]);
    assert_eq!(cell_position(4, 11), [3, 2]);
    assert_eq!(cell_position(4, 14), [3, 5]);
    assert_eq!(cell_position(4, 15), [5, 2]);
    assert_eq!(cell_position(2, 18), [9, 3]);
    assert_eq!(room_and_level(2, 18), (3, 1));
    assert_eq!(cell_of(3, 2, 1), 18);
    for depth in 1..=4usize {
        for i in 0..11 + 4 * depth {
            let p = cell_position(depth, i);
            assert_eq!(cell_at(depth, p[0], p[1]), Some(i));
        }
        assert_eq!(cell_at(depth, 0, 1), None);
        assert_eq!(cell_at(depth, 12, 1), None);
        assert_eq!(cell_at(depth, 4, 2), None);
        assert_eq!(cell_at(depth, 3, 2 + depth as i8), None);
        assert_eq!(cell_at(depth, 3, 0), None);
    }
}

#[test]
fn amphipods_know_their_kind() {
    let a = Amphipod::new('A', 3, 2).unwrap();
    let b = Amphipod::new('B', 1, 1).unwrap();
    let c = Amphipod::new('C', 7, 3).unwrap();
    let d = Amphipod::new('D', 9, 1).unwrap();
    assert_eq!(Amphipod::new('x', 0, 0).err(), Some(ConfigurationError::UnknownKind('x')));
    assert_eq!(Amphipod::new('a', 3, 2).err(), Some(ConfigurationError::UnknownKind('a')));
    assert_eq!(Amphipod::new('.', 3, 2).err(), Some(ConfigurationError::UnknownKind('.')));
    assert_eq!([a.cave_pos(), b.cave_pos(), c.cave_pos(), d.cave_pos()], [3, 5, 7, 9]);
    assert_eq!(
        [a.energy_cost(), b.energy_cost(), c.energy_cost(), d.energy_cost()],
        [1, 10, 100, 1000]
    );
    assert_eq!([energy_of(1), energy_of(2), energy_of(3), energy_of(4)], [1, 10, 100, 1000]);
    assert_eq!(
        [a.letter(), b.letter(), c.letter(), d.letter()],
        ["A".to_string(), "B".to_string(), "C".to_string(), "D".to_string()]
    );
    assert_eq!([a.kind_code(), b.kind_code(), c.kind_code(), d.kind_code()], [1, 2, 3, 4]);
    assert!(State { amphipods: vec![a, c], score: 0 }.solved());
    assert!(!State { amphipods: vec![a, b, c], score: 0 }.solved());
    assert!(!State { amphipods: vec![d], score: 0 }.solved());
    assert!(State { amphipods: vec![], score: 7 }.solved());
}

#[test]
fn burrows_are_made_of_amphipods_and_back() {
    let list = vec![Amphipod::new('B', 3, 2).unwrap(), Amphipod::new('A', 5, 2).unwrap(), Amphipod::new('C', 1, 1).unwrap()];
    let b = Burrow::from_amphipods(1, &list).unwrap();
    assert_eq!(b.rooms_depth(), 1);
    assert_eq!(b.cell(0), 3);
    assert_eq!(b.cell(11), 2);
    assert_eq!(b.cell(12), 1);
    assert_eq!(b.cell(13), 0);
    let back = b.amphipods();
    let seen: Vec<(AmphipodType, [i8; 2])> = back.iter().map(|a| (a.a_type, a.position)).collect();
    assert_eq!(
        seen,
        vec![
            (AmphipodType::Copper, [1, 1]),
            (AmphipodType::Bronze, [3, 2]),
            (AmphipodType::Amber, [5, 2])
        ]
    );
    let twice = vec![Amphipod::new('B', 3, 2).unwrap(), Amphipod::new('A', 3, 2).unwrap()];
    assert_eq!(Burrow::from_amphipods(1, &twice).err(), Some(ConfigurationError::InvalidBoard));
    let off = vec![Amphipod::new('B', 3, 3).unwrap()];
    assert_eq!(Burrow::from_amphipods(1, &off).err(), Some(ConfigurationError::InvalidBoard));
    assert!(Burrow::from_amphipods(2, &off).is_ok());
    assert_eq!(Burrow::from_amphipods(0, &vec![]).err(), Some(ConfigurationError::InvalidBoard));
}

#[test]
fn plans_are_read_with_their_depth() {
    let b = Burrow::from_input(SHALLOW).unwrap();
    assert_eq!(b.rooms_depth(), 2);
    assert_eq!((0..19).map(|i| b.cell(i)).collect::<Vec<u8>>(), board(2, "...........", ["BA", "CD", "BC", "DA"]));
    let b = Burrow::from_input(DEEP).unwrap();
    assert_eq!(b.rooms_depth(), 4);
    assert_eq!(b.cell(11), 2);
    assert_eq!(b.cell(14), 1);
    let b = Burrow::from_input("#############\n#A....B....C#\n###.#.#.#D###\n  #########").unwrap();
    assert_eq!(b.rooms_depth(), 1);
    assert_eq!(b.cell(0), 1);
    assert_eq!(b.cell(5), 2);
    assert_eq!(b.cell(10), 3);
    assert_eq!(b.cell(14), 4);
}

#[test]
fn plans_of_another_shape_are_rejected() {
    assert_eq!(Burrow::from_input("").err(), Some(ParseError::Malformed));
    // no rooms
    assert_eq!(Burrow::from_input("#############\n#...........#\n#############").err(), Some(ParseError::Malformed));
    // a hallway that is too short
    assert_eq!(Burrow::from_input("############\n#..........#\n###B#C#B#D##\n  #A#D#C#A#\n  #########").err(), Some(ParseError::Malformed));
    // a cell outside the board
    assert_eq!(Burrow::from_input("#############\n#...........#\n###B#C#B#D#.#\n  #A#D#C#A#\n  #########").err(), Some(ParseError::Malformed));
    // a room that is missing a cell
    assert_eq!(Burrow::from_input("#############\n#...........#\n###B#C#B#D###\n  #A#D#C###\n  #########").err(), Some(ParseError::Malformed));
    // five rows of rooms
    assert_eq!(Burrow::from_input("#############\n#...........#\n###A#B#C#D###\n  #A#B#C#D#\n  #A#B#C#D#\n  #A#B#C#D#\n  #A#B#C#D#\n  #########").err(), Some(ParseError::Malformed));
    assert_eq!(solve("nothing"), Err(PuzzleError::Parse(ParseError::Malformed)));
    assert_eq!(
        solve("#############\n#A..........#\n###A#B#C#D###\n  #########"),
        Err(PuzzleError::Configuration(ConfigurationError::TooManyOfKind(1)))
    );
}
