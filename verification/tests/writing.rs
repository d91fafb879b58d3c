use advent::day14::Cave;
use advent::day18::SnailNumber;
use advent::day19::Scanner;
use advent::day22::{Cuboid, Reactor};
use advent::day23::{Amphipod, State};

#[test]
fn a_snailfish_number_is_written_as_it_was_read() {
    for s in ["7", "[1,2]", "[[1,2],[[3,4],5]]", "[[[[0,7],4],[[7,8],[6,0]]],[8,1]]", "[10,[0,200]]"] {
        assert_eq!(SnailNumber::from_bytes(s.as_bytes()).unwrap().to_string(), s);
    }
    let pair = SnailNumber::Array(Box::new(SnailNumber::Single(0)), Box::new(SnailNumber::Single(usize::MAX)));
    assert_eq!(pair.to_string(), format!("[0,{}]", usize::MAX));
}

#[test]
fn a_cuboid_is_written_with_its_ranges() {
    let c = Cuboid { x: [-20, 26], y: [-36, 17], z: [0, 0] };
    assert_eq!(c.to_string(), "x=-20..26,y=-36..17,z=0..0");
    let c = Cuboid { x: [967, 23432], y: [45373, 81175], z: [-27513, -1] };
    assert_eq!(c.to_string(), "x=967..23432,y=45373..81175,z=-27513..-1");
}

#[test]
fn a_reactor_is_written_with_its_actions() {
    let mut reactor = Reactor::new(None);
    assert_eq!(reactor.to_string(), "0 steps\n");
    reactor.parse_step(b"on x=1..2,y=1..2,z=1..2").unwrap();
    reactor.parse_step(b"off x=1..1,y=1..1,z=1..1").unwrap();
    reactor.parse_step(b"on x=5..5").unwrap();
    assert_eq!(reactor.to_string(), "on off on 3 steps\n");
}

#[test]
fn a_scanner_is_written_as_a_report() {
    let report = "--- scanner 7 ---\n1,2,3\n-4,5,-6\n0,0,0\n";
    let (first, rest) = Scanner::from_input(report.as_bytes()).unwrap();
    assert!(first.is_empty());
    assert_eq!(rest[0].to_string(), report);
    // in another orientation the beacons are written as they are seen in it
    assert_eq!(rest[0].rotate(1).to_string(), "--- scanner 7 ---\n3,2,-1\n-6,5,4\n0,0,0\n");
    let (first, _) = Scanner::from_input(b"--- scanner 0 ---\n").unwrap();
    assert_eq!(first[0].to_string(), "--- scanner 0 ---\n");
}

#[test]
fn an_amphipod_is_written_with_its_place() {
    assert_eq!(Amphipod::new('A', 3, 2).unwrap().to_string(), "Amber @ [3, 2]");
    assert_eq!(Amphipod::new('B', 11, 1).unwrap().to_string(), "Bronze @ [11, 1]");
    assert_eq!(Amphipod::new('C', 7, 5).unwrap().to_string(), "Copper @ [7, 5]");
    assert_eq!(Amphipod::new('D', -1, 0).unwrap().to_string(), "Desert @ [-1, 0]");
}

#[test]
fn a_burrow_is_drawn_with_its_score() {
    let state = State {
        amphipods: vec![
            Amphipod::new('B', 3, 2).unwrap(),
            Amphipod::new('A', 3, 3).unwrap(),
            Amphipod::new('C', 5, 2).unwrap(),
            Amphipod::new('D', 5, 3).unwrap(),
            Amphipod::new('B', 7, 2).unwrap(),
            Amphipod::new('C', 7, 3).unwrap(),
            Amphipod::new('D', 9, 2).unwrap(),
            Amphipod::new('A', 1, 1).unwrap(),
        ],
        score: 12521,
    };
    assert_eq!(
        state.to_string(),
        "#############\n\
         #A..........#\n\
         ###B#C#B#D###\n\
         ###A#D#C#.###\n\
         ###.#.#.#.###\n\
         ###.#.#.#.###\n\
         #############\n\
         Score: 12521\n"
    );
    let empty = State { amphipods: vec![], score: 0 };
    assert!(empty.to_string().ends_with("#############\nScore: 0\n"));
    // where two amphipods stand at one place, the first is drawn
    let both = State { amphipods: vec![Amphipod::new('D', 1, 1).unwrap(), Amphipod::new('A', 1, 1).unwrap()], score: 1 };
    assert!(both.to_string().starts_with("#############\n#D..........#\n"));
}

#[test]
fn a_cave_is_drawn_with_its_sand() {
    let mut cave = Cave::from_bytes(b"498,4 -> 498,6 -> 496,6\n503,4 -> 502,4 -> 502,9 -> 494,9\n").unwrap();
    let drawing = cave.to_string();
    let rows: Vec<&str> = drawing.lines().collect();
    assert_eq!(rows.len(), 13);
    for row in &rows {
        assert_eq!(row.len(), 30);
    }
    assert_eq!(rows[0], "................+.............");
    assert_eq!(rows[4], "..............#...##..........");
    assert_eq!(rows[9], "..........#########...........");
    assert_eq!(rows[12], "..............................");
    assert_eq!(cave.simulate(1000), Some(24));
    let drawing = cave.to_string();
    let rows: Vec<&str> = drawing.lines().collect();
    assert_eq!(rows[2], "................#.............");
    assert_eq!(rows[8], "...........#.######...........");
    // the last unit is marked where it left the cave
    assert_eq!(rows[9], ".........##########...........");
    assert_eq!(drawing.matches('#').count(), 20 + 24 + 1);
}
