use advent::day15::{build_grid, find_neighbors, find_path, run, shortest_path, tile, Grid};
use advent::errors::{ConfigurationError, ParseError, PuzzleError};

const EXAMPLE: &str = "1163751742
1381373672
2136511328
3694931569
7463417111
1319128137
1359912421
3125421639
1293138521
2311944581
";

#[test]
fn example_grid_has_lowest_risk_40() {
    let g = build_grid(EXAMPLE).unwrap();
    assert_eq!(g.rows(), 10);
    assert_eq!(g.cols(), 10);
    assert_eq!(g.get(0, 0), 1);
    assert_eq!(g.get(1, 1), 3);
    assert_eq!(g.get(9, 9), 1);
    assert_eq!(find_path(&g), Some(40));
}

#[test]
fn tiled_example_grid_has_lowest_risk_315() {
    let g = build_grid(EXAMPLE).unwrap();
    let big = tile(&g, 5);
    assert_eq!(big.rows(), 50);
    assert_eq!(big.cols(), 50);
    assert_eq!(find_path(&big), Some(315));
    assert_eq!(run(EXAMPLE), Ok((Some(40), Some(315))));
}

#[test]
fn uniform_grid_costs_weight_times_distance() {
    for w in [0u64, 1, 3, 9, 1000] {
        for (h, wd) in [(1usize, 1usize), (1, 7), (6, 1), (4, 5), (9, 9)] {
            let g = Grid::from_rows(vec![vec![w; wd]; h]).unwrap();
            assert_eq!(find_path(&g), Some(w * ((h - 1) + (wd - 1)) as u64));
        }
    }
}

#[test]
fn uniform_grid_with_costs_beyond_64_bits_has_no_answer() {
    let g = Grid::from_rows(vec![vec![u64::MAX; 2]; 2]).unwrap();
    assert_eq!(find_path(&g), None);
    assert_eq!(shortest_path(&g, [0, 0], [0, 1]), Ok(Some(u64::MAX)));
}

#[test]
fn tiling_a_single_cell_wraps_after_nine() {
    let g = Grid::from_rows(vec![vec![9]]).unwrap();
    let big = tile(&g, 5);
    assert_eq!(big.rows(), 5);
    assert_eq!(big.cols(), 5);
    assert_eq!(big.get(0, 0), 9);
    assert_eq!(big.get(1, 0), 1);
    assert_eq!(big.get(0, 1), 1);
    for v in 1u64..=9 {
        let g = Grid::from_rows(vec![vec![v]]).unwrap();
        let big = tile(&g, 5);
        for i in 0..5usize {
            for j in 0..5usize {
                assert_eq!(big.get(i, j), (v + i as u64 + j as u64 - 1) % 9 + 1);
            }
        }
    }
}

#[test]
fn tiling_shifts_each_copy() {
    let g = build_grid("8").unwrap();
    let big = tile(&g, 5);
    let rows: Vec<Vec<u64>> = (0..5).map(|i| (0..5).map(|j| big.get(i, j)).collect()).collect();
    assert_eq!(
        rows,
        vec![
            vec![8, 9, 1, 2, 3],
            vec![9, 1, 2, 3, 4],
            vec![1, 2, 3, 4, 5],
            vec![2, 3, 4, 5, 6],
            vec![3, 4, 5, 6, 7],
        ]
    );
    let g = build_grid("12\n34").unwrap();
    let big = tile(&g, 2);
    let rows: Vec<Vec<u64>> = (0..4).map(|i| (0..4).map(|j| big.get(i, j)).collect()).collect();
    assert_eq!(rows, vec![vec![1, 2, 2, 3], vec![3, 4, 4, 5], vec![2, 3, 3, 4], vec![4, 5, 5, 6]]);
    assert_eq!(tile(&g, 1).get(1, 0), 3);
    assert_eq!(tile(&g, 0).rows(), 0);
}

#[test]
fn tiling_a_zero_weight_gives_nine() {
    let g = build_grid("0").unwrap();
    let big = tile(&g, 2);
    assert_eq!(big.get(0, 0), 9);
    assert_eq!(big.get(0, 1), 1);
    assert_eq!(big.get(1, 1), 2);
}

#[test]
fn raising_every_weight_never_lowers_the_cost() {
    let rows: Vec<Vec<u64>> = vec![vec![1, 9, 1, 1], vec![1, 9, 1, 9], vec![1, 1, 1, 9], vec![9, 9, 1, 1]];
    let base = find_path(&Grid::from_rows(rows.clone()).unwrap()).unwrap();
    assert_eq!(base, 6);
    let mut last = base;
    for k in 1u64..6 {
        let raised: Vec<Vec<u64>> =
            rows.iter().map(|r| r.iter().map(|v| v + k).collect()).collect();
        let cost = find_path(&Grid::from_rows(raised).unwrap()).unwrap();
        assert!(cost >= last);
        last = cost;
    }
    assert_eq!(last, 36);
}

#[test]
fn neighbors_come_in_fixed_order() {
    let g = build_grid("123\n456\n789").unwrap();
    assert_eq!(find_neighbors(&g, 1, 1), vec![[0, 1], [1, 0], [2, 1], [1, 2]]);
    assert_eq!(find_neighbors(&g, 0, 0), vec![[1, 0], [0, 1]]);
    assert_eq!(find_neighbors(&g, 2, 2), vec![[1, 2], [2, 1]]);
    assert_eq!(find_neighbors(&g, 0, 1), vec![[0, 0], [1, 1], [0, 2]]);
    assert_eq!(find_neighbors(&g, 3, 1), vec![[2, 1]]);
    assert_eq!(find_neighbors(&g, 7, 7), Vec::<[usize; 2]>::new());
    let single = build_grid("5").unwrap();
    assert_eq!(find_neighbors(&single, 0, 0), Vec::<[usize; 2]>::new());
}

#[test]
fn shortest_path_counts_entered_cells_only() {
    let g = build_grid("19\n11").unwrap();
    assert_eq!(shortest_path(&g, [0, 0], [0, 0]), Ok(Some(0)));
    assert_eq!(shortest_path(&g, [0, 0], [0, 1]), Ok(Some(9)));
    assert_eq!(shortest_path(&g, [0, 1], [0, 0]), Ok(Some(1)));
    assert_eq!(shortest_path(&g, [0, 0], [1, 1]), Ok(Some(2)));
    assert_eq!(shortest_path(&g, [1, 1], [0, 1]), Ok(Some(9)));
}

#[test]
fn shortest_path_rejects_positions_outside_the_grid() {
    let g = build_grid("19\n11").unwrap();
    assert_eq!(shortest_path(&g, [2, 0], [0, 0]), Err(ConfigurationError::OutOfGrid(2, 0)));
    assert_eq!(shortest_path(&g, [0, 2], [5, 5]), Err(ConfigurationError::OutOfGrid(0, 2)));
    assert_eq!(shortest_path(&g, [0, 0], [0, 2]), Err(ConfigurationError::OutOfGrid(0, 2)));
}

#[test]
fn build_grid_reports_the_first_fault() {
    assert_eq!(build_grid("123\n45\n678").err(), Some(ParseError::RaggedRow(1)));
    assert_eq!(build_grid("123\n4x6\n78").err(), Some(ParseError::UnexpectedChar(1, 1)));
    assert_eq!(build_grid("12\n4567x").err(), Some(ParseError::UnexpectedChar(1, 4)));
    assert_eq!(build_grid("a").err(), Some(ParseError::UnexpectedChar(0, 0)));
    assert_eq!(build_grid("12\n\n34\n5 6").err(), Some(ParseError::UnexpectedChar(2, 1)));
}

#[test]
fn build_grid_passes_over_empty_lines() {
    let g = build_grid("\n12\r\n\n34\n\n").unwrap();
    assert_eq!(g.rows(), 2);
    assert_eq!(g.cols(), 2);
    assert_eq!(g.get(1, 0), 3);
    let empty = build_grid("").unwrap();
    assert_eq!(empty.rows(), 0);
    assert_eq!(empty.cols(), 0);
}

#[test]
fn from_rows_wants_rows_of_one_length() {
    assert_eq!(Grid::from_rows(vec![vec![1, 2], vec![3]]).err(), Some(ParseError::RaggedRow(1)));
    assert_eq!(Grid::from_rows(vec![vec![], vec![3]]).err(), Some(ParseError::RaggedRow(1)));
    assert!(Grid::from_rows(vec![]).is_ok());
    assert!(Grid::from_rows(vec![vec![], vec![]]).is_ok());
}

#[test]
fn run_reports_why_there_is_no_answer() {
    assert_eq!(
        run(""),
        Err(PuzzleError::Configuration(ConfigurationError::OutOfGrid(0, 0)))
    );
    assert_eq!(run("12\n3"), Err(PuzzleError::Parse(ParseError::RaggedRow(1))));
    assert_eq!(run("8"), Ok((Some(0), Some(37))));
}
