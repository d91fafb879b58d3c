use advent::day10::{Instruction, CPU};
use advent::day12::HeightMap;
use advent::day17::Target;
use advent::day22::Cuboid;
use advent::day23::{cell_of, extend_corridor, get_reachable_pos};
use advent::errors::{ParseError, PuzzleError};

fn deep_board() -> Vec<u8> {
    // the hallway, then the rooms from the top down: B D D A, C C B D, B B A C, D A C A
    let mut cells = vec![0u8; 11];
    cells.extend([2, 4, 4, 1, 3, 3, 2, 4, 2, 2, 1, 3, 4, 1, 3, 1]);
    cells
}

#[test]
fn the_top_of_a_room_reaches_each_hallway_cell_once() {
    let cells = deep_board();
    let from = cell_of(4, 0, 0);
    assert_eq!(from, 11);
    let mut reached = get_reachable_pos(4, &cells, from);
    assert_eq!(reached.len(), 7);
    reached.sort();
    assert_eq!(reached, vec![0, 1, 3, 5, 7, 9, 10]);
    // what lies below it cannot move
    assert!(get_reachable_pos(4, &cells, cell_of(4, 0, 1)).is_empty());
}

#[test]
fn a_hallway_cell_reaches_the_one_landing_cell() {
    let mut cells = vec![0u8; 11 + 8];
    cells[0] = 1; // an amber amphipod at the left end, its room empty
    assert_eq!(get_reachable_pos(2, &cells, 0), vec![cell_of(2, 0, 1)]);
    cells[cell_of(2, 0, 1)] = 1;
    assert_eq!(get_reachable_pos(2, &cells, 0), vec![cell_of(2, 0, 0)]);
    // a stranger in the room closes it
    cells[cell_of(2, 0, 1)] = 2;
    assert!(get_reachable_pos(2, &cells, 0).is_empty());
    // and so does an amphipod in the way
    cells[cell_of(2, 0, 1)] = 0;
    cells[1] = 3;
    assert!(get_reachable_pos(2, &cells, 0).is_empty());
}

#[test]
fn a_corridor_holds_each_cell_once() {
    let mut cells = vec![0u8; 11];
    let all = extend_corridor(&cells, 4);
    assert_eq!(all, vec![4, 3, 2, 1, 0, 5, 6, 7, 8, 9, 10]);
    cells[2] = 1;
    cells[7] = 2;
    assert_eq!(extend_corridor(&cells, 4), vec![4, 3, 5, 6]);
    cells[4] = 3;
    assert!(extend_corridor(&cells, 4).is_empty());
}

#[test]
fn what_is_left_of_a_cuboid_has_its_volume_less_the_shared_one() {
    let a = Cuboid { x: [0, 9], y: [0, 9], z: [0, 9] };
    for other in [
        Cuboid { x: [3, 5], y: [3, 5], z: [3, 5] },
        Cuboid { x: [-5, 2], y: [8, 20], z: [-1, 0] },
        Cuboid { x: [0, 9], y: [0, 9], z: [0, 9] },
        Cuboid { x: [9, 9], y: [9, 9], z: [9, 9] },
        Cuboid { x: [-3, 30], y: [4, 4], z: [-3, 30] },
    ] {
        let shared = Cuboid {
            x: [a.x[0].max(other.x[0]), a.x[1].min(other.x[1])],
            y: [a.y[0].max(other.y[0]), a.y[1].min(other.y[1])],
            z: [a.z[0].max(other.z[0]), a.z[1].min(other.z[1])],
        };
        let left: i64 = a.remove(&other).iter().map(|c| c.area()).sum();
        assert_eq!(left, a.area() - shared.area());
    }
    // cuboids that do not meet: the cuboid itself is left, whole
    for other in [
        Cuboid { x: [10, 12], y: [0, 9], z: [0, 9] },
        Cuboid { x: [0, 9], y: [-4, -1], z: [0, 9] },
        Cuboid { x: [20, 30], y: [20, 30], z: [20, 30] },
    ] {
        assert_eq!(a.remove(&other), vec![a]);
    }
}

#[test]
fn a_program_is_loaded_up_to_its_first_bad_line() {
    let mut cpu = CPU::init();
    assert_eq!(cpu.load_program("addx 1\nnoop\nbad\nnoop\nworse\naddx 2"), Err(ParseError::Malformed));
    assert_eq!(cpu.code, vec![Instruction::Addx(1), Instruction::Noop]);
    assert_eq!((cpu.reg, cpu.pc, cpu.load), (1, 0, None));
    // a second program is added behind the first
    assert_eq!(cpu.load_program("addx 7"), Ok(()));
    assert_eq!(cpu.code, vec![Instruction::Addx(1), Instruction::Noop, Instruction::Addx(7)]);
}

#[test]
fn a_processor_that_cannot_run_is_left_alone() {
    let mut cpu = CPU::init();
    assert_eq!(cpu.load_program("addx 1000001\nnoop"), Ok(()));
    assert_eq!(cpu.run(), Err(PuzzleError::TooLarge));
    assert_eq!((cpu.reg, cpu.pc, cpu.load), (1, 0, None));
    assert_eq!(cpu.display(), "");
    let mut cpu = CPU::init();
    cpu.reg = 2_000_000;
    assert_eq!(cpu.run(), Err(PuzzleError::TooLarge));
    let mut cpu = CPU::init();
    cpu.pc = 1;
    assert_eq!(cpu.run(), Err(PuzzleError::TooLarge));
    let mut cpu = CPU::init();
    assert_eq!(cpu.load_program("addx 1000000\nnoop"), Ok(()));
    assert_eq!(cpu.run(), Ok(0));
    assert_eq!(cpu.reg, 1_000_001);
    // a processor that has run has drawn its screen, and does not run again
    assert_eq!(cpu.run(), Err(PuzzleError::TooLarge));
}

#[test]
fn shots_of_any_speed_are_tried() {
    let target = Target { x: [20, 30], y: [-10, -5] };
    assert!(target.try_hit([7, 2]));
    assert!(target.try_hit([6, 9]));
    assert!(!target.try_hit([17, -4]));
    // speeds beyond ten thousand
    assert!(!target.try_hit([20_000, 0]));
    assert!(!target.try_hit([-20_000, -1]));
    assert!(!target.try_hit([0, -20_000]));
    let far = Target { x: [1_000_000_000, 1_000_000_010], y: [-200_000, -100_000] };
    assert!(far.try_hit([1_000_000_005, -150_000]));
    assert!(!far.try_hit([999_999_999, -10]));
    // a target that holds the origin is hit at the start
    let here = Target { x: [-1, 1], y: [-1, 1] };
    assert!(here.try_hit([isize::MAX, isize::MIN]));
}

#[test]
fn neighbours_of_a_hill_come_in_order() {
    let hill = HeightMap::from_bytes(b"Sab\nabc\nacE\n").unwrap();
    assert_eq!(hill.find_neighbours(1, 1), vec![[1, 0], [1, 2], [0, 1], [2, 1]]);
    assert_eq!(hill.find_neighbours(0, 0), vec![[0, 1], [1, 0]]);
    assert_eq!(hill.find_neighbours(2, 0), vec![[2, 1], [1, 0]]);
    // one may not climb two units
    assert_eq!(hill.find_neighbours(0, 1), vec![[0, 0], [0, 2], [1, 1]]);
    assert_eq!(hill.find_neighbours(0, 2), vec![[0, 1]]);
}
