use advent::day21::{
    count_outcomes, enumerate_weighted, play, play_practice, roll_count, run, run1, run2, Die,
    Universe, MAX_WINNING_SCORE,
};
use advent::errors::ConfigurationError;

#[test]
fn example_universes_are_counted() {
    assert_eq!(count_outcomes([3, 7], 21), Ok((444356092776315, 341960390180808)));
}

#[test]
fn first_player_wins_every_universe_when_one_point_is_enough() {
    for p0 in 0..10u8 {
        for p1 in 0..10u8 {
            assert_eq!(count_outcomes([p0, p1], 1), Ok((27, 0)));
        }
    }
}

#[test]
fn hand_counted_game_to_two_points() {
    // from field 7 only the throw 3 leads to field 0 and one point: 26 of
    // the 27 universes are won at once, and the second player wins the 27 that follow the last
    assert_eq!(count_outcomes([7, 0], 2), Ok((26, 27)));
    // the second player needs a second turn in one universe of 27
    assert_eq!(count_outcomes([7, 7], 2), Ok((26 + 27, 26)));
    assert_eq!(count_outcomes([0, 0], 2), Ok((27, 0)));
}

#[test]
fn a_game_to_zero_points_is_won_before_it_starts() {
    assert_eq!(count_outcomes([0, 0], 0), Ok((1, 0)));
    assert_eq!(count_outcomes([9, 9], 0), Ok((1, 0)));
}

#[test]
fn positions_off_the_track_are_rejected() {
    assert_eq!(count_outcomes([10, 0], 21), Err(ConfigurationError::InvalidStart(10)));
    assert_eq!(count_outcomes([0, 200], 21), Err(ConfigurationError::InvalidStart(200)));
    assert_eq!(count_outcomes([11, 12], 21), Err(ConfigurationError::InvalidStart(11)));
}

#[test]
fn too_many_universes_are_reported() {
    assert_eq!(count_outcomes([3, 7], MAX_WINNING_SCORE + 1), Err(ConfigurationError::Overflow));
    assert_eq!(count_outcomes([3, 7], u32::MAX), Err(ConfigurationError::Overflow));
    assert_eq!(count_outcomes([3, 7], 80), Err(ConfigurationError::Overflow));
}

#[test]
fn each_turn_makes_27_universes_of_one() {
    let total: u64 = (3..=9).map(roll_count).sum();
    assert_eq!(total, 27);
    assert_eq!((0..=12).map(roll_count).collect::<Vec<u64>>(), vec![0, 0, 0, 1, 3, 6, 7, 6, 3, 1, 0, 0, 0]);
    let parent = Universe { count: 5, pos: [3, 7], scores: [0, 0], turn: 0 };
    let mut children = 0;
    for roll in 3..=9 {
        let child = parent.play_dirac(roll, roll_count(roll));
        children += child.count;
        assert_eq!(child.turn, 1);
        assert_eq!(child.pos[1], 7);
        assert_eq!(child.pos[0] as u32, (3 + roll) % 10);
        assert_eq!(child.scores[0], child.pos[0] as u32 + 1);
        assert_eq!(child.scores[1], 0);
    }
    assert_eq!(children, 27 * parent.count);
}

#[test]
fn universes_are_neither_lost_nor_made() {
    // to three points the game lasts two turns at most for each player
    let (a, b) = count_outcomes([7, 7], 2).unwrap();
    // 26 wins at once; the one universe left becomes 27, of which 26 are won
    // by the second player; the one left becomes 27 for the first player
    assert_eq!(a + b, 26 + 26 + 27);
}

#[test]
fn counting_goes_on_from_a_state_under_way() {
    let start = Universe { count: 1, pos: [3, 7], scores: [0, 0], turn: 0 };
    assert_eq!(enumerate_weighted(&start, 21), Ok((444356092776315, 341960390180808)));
    let three = Universe { count: 3, pos: [3, 7], scores: [0, 0], turn: 0 };
    assert_eq!(
        enumerate_weighted(&three, 21),
        Ok((3 * 444356092776315, 3 * 341960390180808))
    );
    let second = Universe { count: 1, pos: [7, 0], scores: [0, 1], turn: 1 };
    assert_eq!(enumerate_weighted(&second, 2), Ok((0, 27)));
}

#[test]
fn winner_is_the_first_to_reach_the_score() {
    let u = Universe { count: 1, pos: [0, 0], scores: [21, 30], turn: 0 };
    assert_eq!(u.winner(21), Some(0));
    assert_eq!(u.winner(22), Some(1));
    assert_eq!(u.winner(31), None);
}

#[test]
fn practice_game_of_the_example() {
    assert_eq!(play_practice([3, 7], 1000, 100), Some(739785));
    // a game that cannot be played
    assert_eq!(play_practice([3, 10], 1000, 100), None);
    assert_eq!(play_practice([-1, 7], 1000, 100), None);
    assert_eq!(play_practice([3, 7], 0, 100), None);
    assert_eq!(play_practice([3, 7], 1000, 0), None);
    assert_eq!(play_practice([3, 7], 1_000_001, 100), None);
    assert_eq!(play_practice([3, 7], 1000, 1_000_001), None);
    assert_eq!(play_practice([0, 0], 1, 1), Some(3 * 0));
}

#[test]
fn die_counts_its_throws() {
    let mut d = Die::new(100);
    assert_eq!(d.roll(), 1);
    assert_eq!(d.roll(), 2);
    assert_eq!(d.roll3(), 3 + 4 + 5);
    assert_eq!(d.roll_count, 5);
    let mut small = Die::new(3);
    assert_eq!(small.roll3(), 6);
    assert_eq!(small.roll(), 1);
}

#[test]
fn play_moves_and_scores() {
    let mut pos = [3, 7];
    let mut scores = [0, 0];
    play(&mut pos, &mut scores, 6, 0);
    assert_eq!(pos, [9, 7]);
    assert_eq!(scores, [10, 0]);
    play(&mut pos, &mut scores, 15, 1);
    assert_eq!(pos, [9, 2]);
    assert_eq!(scores, [10, 3]);
}

#[test]
fn both_games_of_the_puzzle() {
    let first = run1();
    assert_eq!(Some(first), play_practice([4, 5], 1000, 100));
    let (a, b) = count_outcomes([4, 5], 21).unwrap();
    assert_eq!(run2(), Ok((a.max(b), a.min(b))));
    assert_eq!(run(), Ok((first, (a.max(b), a.min(b)))));
}

#[test]
fn a_turn_loses_no_universe() {
    // the universe may stand on any field: the seven it becomes hold 27 times its count
    let u = Universe { count: 5, pos: [13, 200], scores: [7, u32::MAX], turn: 0 };
    let mut sum = 0;
    for roll in 3..=9 {
        let child = u.play_dirac(roll, roll_count(roll));
        assert!(child.count >= 1);
        assert_eq!(child.turn, 1);
        assert_eq!(child.pos[0] as u32, (13 + roll) % 10);
        assert_eq!(child.pos[1], 200);
        assert_eq!(child.scores[0], 7 + child.pos[0] as u32 + 1);
        assert_eq!(child.scores[1], u32::MAX);
        sum += child.count;
    }
    assert_eq!(sum, 27 * 5);
}
