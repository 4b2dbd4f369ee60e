use sudoku::errors::ParseGridError;
use sudoku::grid::{Coord, Grid};

/// Returns an unsolved grid.
fn unresolved_grid() -> Grid {
    Grid::from([
        [9, 0, 0, 1, 0, 0, 0, 0, 5],
        [0, 0, 5, 0, 9, 0, 2, 0, 1],
        [8, 0, 0, 0, 4, 0, 0, 0, 7],
        [0, 0, 0, 0, 8, 0, 0, 0, 0],
        [0, 0, 0, 7, 0, 0, 0, 0, 0],
        [0, 0, 0, 0, 2, 6, 0, 0, 9],
        [2, 0, 0, 3, 0, 0, 0, 0, 6],
        [0, 0, 0, 2, 0, 0, 9, 0, 0],
        [0, 0, 1, 9, 0, 4, 5, 7, 0],
    ])
}

/// A solved grid with five cells blanked: four forming a swappable
/// rectangle (two candidates each) and one forced corner cell.
fn five_blank_grid() -> Grid {
    Grid::from([
        [0, 6, 7, 1, 3, 2, 4, 0, 5],
        [4, 3, 5, 8, 9, 7, 2, 6, 1],
        [0, 1, 2, 6, 4, 5, 3, 0, 7],
        [1, 2, 6, 4, 8, 9, 7, 5, 3],
        [5, 9, 8, 7, 1, 3, 6, 2, 4],
        [7, 4, 3, 5, 2, 6, 8, 1, 9],
        [2, 7, 9, 3, 5, 8, 1, 4, 6],
        [6, 5, 4, 2, 7, 1, 9, 3, 8],
        [3, 8, 1, 9, 6, 4, 5, 7, 0],
    ])
}

#[test]
fn test_valid() {
    let valid = Grid::from([
        [9, 6, 7, 1, 3, 2, 4, 8, 5],
        [4, 3, 5, 8, 9, 7, 2, 6, 1],
        [8, 1, 2, 6, 4, 5, 3, 9, 7],
        [1, 2, 6, 4, 8, 9, 7, 5, 3],
        [5, 9, 8, 7, 1, 3, 6, 2, 4],
        [7, 4, 3, 5, 2, 6, 8, 1, 9],
        [2, 7, 9, 3, 5, 8, 1, 4, 6],
        [6, 5, 4, 2, 7, 1, 9, 3, 8],
        [3, 8, 1, 9, 6, 4, 5, 7, 2],
    ]);
    assert!(valid.is_valid());

    let incomplete = unresolved_grid();
    assert!(!incomplete.is_valid());

    // the 5 in 4th row 4th column should be a 4
    let invalid = Grid::from([
        [9, 6, 7, 1, 3, 2, 4, 8, 5],
        [4, 3, 5, 8, 9, 7, 2, 6, 1],
        [8, 1, 2, 6, 4, 5, 3, 9, 7],
        [1, 2, 6, 5, 8, 9, 7, 5, 3],
        [5, 9, 8, 7, 1, 3, 6, 2, 4],
        [7, 4, 3, 5, 2, 6, 8, 1, 9],
        [2, 7, 9, 3, 5, 8, 1, 4, 6],
        [6, 5, 4, 2, 7, 1, 9, 3, 8],
        [3, 8, 1, 9, 6, 4, 5, 7, 2],
    ]);
    assert!(!invalid.is_valid())
}

#[test]
fn test_resolution() {
    let unresolved = unresolved_grid();
    assert!(unresolved.solution().is_valid());
}

#[test]
fn test_parse_str() {
    let grid_str = "
9 . . 1 . . . . 5
. . 5 . 9 . 2 . 1
8 . . . 4 . . . 7
. . . . 8 . . . .
. . . 7 . . . . .
. . . . 2 6 . . 9
2 . . 3 . . . . 6
. . . 2 . . 9 . .
. . 1 9 . 4 5 7 .";
    assert!(grid_str.parse::<Grid>().is_ok());
    assert_eq!(grid_str.parse::<Grid>().unwrap(), unresolved_grid());
}

#[test]
fn empty_markers_parse_alike() {
    let underscore = "1 _ _ _ _ _ _ _ _".parse::<Grid>().unwrap();
    let dot = "1 . . . . . . . .".parse::<Grid>().unwrap();
    let question = "1 ? ? ? ? ? ? ? ?".parse::<Grid>().unwrap();
    let star = "1 * * * * * * * *".parse::<Grid>().unwrap();
    assert_eq!(underscore, dot);
    assert_eq!(underscore, question);
    assert_eq!(underscore, star);
}

#[test]
fn round_trip_preserves_cells() {
    let grid = unresolved_grid();
    let text = grid.to_text();
    let back = text.parse::<Grid>().unwrap();
    assert_eq!(back, grid);
}

#[test]
fn canonical_output_format() {
    let grid = "1 2 3".parse::<Grid>().unwrap();
    let mut expected = String::from("1 2 3 _ _ _ _ _ _");
    for _ in 0..8 {
        expected.push('\n');
        expected.push_str("_ _ _ _ _ _ _ _ _");
    }
    assert_eq!(grid.to_text(), expected);
}

#[test]
fn invalid_character_fails_parse() {
    let res = "X".parse::<Grid>();
    assert!(res.is_err());
    assert_eq!(res.unwrap_err(), ParseGridError);
    assert!("9 _ _ 1 _ _ _ _ 5\n_ _ X _ _ _ _ _ _".parse::<Grid>().is_err());
}

#[test]
fn zero_digit_fails_parse() {
    assert!("0".parse::<Grid>().is_err());
}

#[test]
fn calibration_fixture_solves() {
    let grid_str = "
9 _ _ 1 _ _ _ _ 5
_ _ 5 _ 9 _ 2 _ 1
8 _ _ _ 4 _ _ _ 7
_ _ _ _ 8 _ _ _ _
_ _ _ 7 _ _ _ _ _
_ _ _ _ 2 6 _ _ 9
2 _ _ 3 _ _ _ _ 6
_ _ _ 2 _ _ 9 _ _
_ _ 1 9 _ 4 5 7 _";
    let grid = grid_str.parse::<Grid>().unwrap();
    assert!(!grid.is_valid());
    let solved = grid.solution();
    assert!(solved.is_valid());
    for row in 0..9 {
        for col in 0..9 {
            let co = Coord { row, col };
            if let Some(d) = grid.get_cell(&co) {
                assert_eq!(solved.get_cell(&co), Some(d));
            }
        }
    }
}

#[test]
fn solving_twice_is_identical() {
    let grid = five_blank_grid();
    let first = grid.solution();
    let second = grid.solution();
    assert_eq!(first, second);
    assert_eq!(first.to_text(), second.to_text());
}

#[test]
fn search_order_prefers_constrained_cells() {
    let grid = five_blank_grid();
    let order = grid.search_order();
    let expected = vec![
        Coord { row: 8, col: 8 },
        Coord { row: 0, col: 0 },
        Coord { row: 0, col: 7 },
        Coord { row: 2, col: 0 },
        Coord { row: 2, col: 7 },
    ];
    assert_eq!(order, expected);
}

#[test]
fn empty_coords_row_major() {
    let grid = five_blank_grid();
    let empties = grid.empty_coords();
    let expected = vec![
        Coord { row: 0, col: 0 },
        Coord { row: 0, col: 7 },
        Coord { row: 2, col: 0 },
        Coord { row: 2, col: 7 },
        Coord { row: 8, col: 8 },
    ];
    assert_eq!(empties, expected);
}

#[test]
fn constraint_queries_agree() {
    let grid = five_blank_grid();
    let corner = Coord { row: 0, col: 0 };
    let assoc = grid.associated_values(&corner);
    assert_eq!(assoc, vec![1, 2, 3, 4, 5, 6, 7]);
    let choices = grid.cell_possible_choices(&corner).unwrap();
    assert_eq!(choices, vec![8, 9]);
    for d in 1..=9u8 {
        assert_eq!(choices.contains(&d), !assoc.contains(&d));
    }
    assert_eq!(grid.nb_cell_possible_choices(&corner), choices.len());

    let filled = Coord { row: 1, col: 1 };
    assert!(grid.cell_possible_choices(&filled).is_none());
    assert_eq!(grid.nb_cell_possible_choices(&filled), 0);
}

#[test]
fn get_subsquare_reads_box() {
    let grid = unresolved_grid();
    let sq = grid.get_subsquare(&Coord { row: 0, col: 0 });
    assert_eq!(
        sq,
        vec![Some(9), None, None, None, None, Some(5), Some(8), None, None]
    );
}

#[test]
fn short_input_leaves_rest_empty() {
    let grid = "1 2 3".parse::<Grid>().unwrap();
    assert_eq!(grid.get_cell(&Coord { row: 0, col: 0 }), Some(1));
    assert_eq!(grid.get_cell(&Coord { row: 0, col: 3 }), None);
    assert_eq!(grid.get_cell(&Coord { row: 8, col: 8 }), None);
}

#[test]
fn empty_input_parses_to_empty_grid() {
    let grid = "".parse::<Grid>().unwrap();
    for row in 0..9 {
        for col in 0..9 {
            assert_eq!(grid.get_cell(&Coord { row, col }), None);
        }
    }
}

#[test]
fn try_solution_reports_unsolvable() {
    let mut rows = [[0u8; 9]; 9];
    rows[0][0] = 5;
    rows[0][5] = 5;
    let contradictory = Grid::from(rows);
    assert!(contradictory.try_solution().is_none());

    let solvable = unresolved_grid();
    let solved = solvable.try_solution().unwrap();
    assert!(solved.is_valid());
    assert_eq!(solved, solvable.solution());
}
