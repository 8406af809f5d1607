use nonogram_solver::parallel::gather;
use nonogram_solver::{solve_nonogram, Cell, Nonogram, Phase, Possibles, SolveError, Status};

fn rows_of(board: &Nonogram) -> Vec<Vec<Cell>> {
    (0..board.height()).map(|r| (0..board.width()).map(|c| board.cell(r, c)).collect()).collect()
}

fn assert_mirrored(board: &Nonogram) {
    for r in 0..board.height() {
        for c in 0..board.width() {
            assert_eq!(board.cell(r, c), board.column_cell(c, r));
        }
    }
}

fn runs_in(line: &[Cell]) -> Vec<u32> {
    let mut runs = Vec::new();
    let mut current = 0;
    for &cell in line {
        if cell == Cell::Full {
            current += 1;
        } else if current > 0 {
            runs.push(current);
            current = 0;
        }
    }
    if current > 0 {
        runs.push(current);
    }
    runs
}

const F: Cell = Cell::Full;
const E: Cell = Cell::Empty;
const U: Cell = Cell::Unknown;

#[test]
fn new_board_knows_nothing() {
    let rows = vec![vec![1], vec![2]];
    let cols = vec![vec![1], vec![1], vec![1]];
    let board = Nonogram::new(&rows, &cols);
    assert_eq!(board.height(), 2);
    assert_eq!(board.width(), 3);
    assert_eq!(board.phase(), Phase::Initialized);
    assert_eq!(rows_of(&board), vec![vec![U; 3]; 2]);
    assert_mirrored(&board);
    assert!(!board.finished());
}

#[test]
fn full_band_finishes_in_one_iteration() {
    let rows = vec![vec![0], vec![5], vec![5], vec![5], vec![0]];
    let cols = vec![vec![3]; 5];
    let mut board = Nonogram::new(&rows, &cols);
    assert_eq!(board.step(), Phase::Propagating);
    assert_eq!(board.step(), Phase::Finished);
    assert_eq!(
        rows_of(&board),
        vec![vec![E; 5], vec![F; 5], vec![F; 5], vec![F; 5], vec![E; 5]]
    );
    assert_mirrored(&board);
    assert!(board.finished());
    // a terminal board stays as it is
    assert_eq!(board.step(), Phase::Finished);
    assert_eq!(board.solve(), Ok(Status::Finished));
}

#[test]
fn full_band_is_solved() {
    let rows = vec![vec![0], vec![5], vec![5], vec![5], vec![0]];
    let cols = vec![vec![3]; 5];
    let (board, res) = solve_nonogram(&rows, &cols);
    assert_eq!(res, Ok(Status::Finished));
    for r in 0..5 {
        for c in 0..5 {
            assert_ne!(board.cell(r, c), U);
        }
    }
}

#[test]
fn ambiguous_board_stalls() {
    let rows = vec![vec![1], vec![1]];
    let cols = vec![vec![1], vec![1]];
    let (board, res) = solve_nonogram(&rows, &cols);
    assert_eq!(res, Ok(Status::Stalled));
    assert_eq!(board.phase(), Phase::Stalled);
    assert_eq!(rows_of(&board), vec![vec![U, U], vec![U, U]]);
    assert_mirrored(&board);
}

#[test]
fn rows_and_columns_mirror_after_every_step() {
    let rows = vec![vec![1, 1], vec![3], vec![1]];
    let cols = vec![vec![2], vec![2], vec![2]];
    let mut board = Nonogram::new(&rows, &cols);
    let mut steps = 0;
    loop {
        let phase = board.step();
        assert_mirrored(&board);
        steps += 1;
        assert!(steps < 20);
        if phase != Phase::Propagating {
            break;
        }
    }
    assert_eq!(board.phase(), Phase::Finished);
    assert_eq!(rows_of(&board), vec![vec![F, E, F], vec![F, F, F], vec![E, F, E]]);
}

#[test]
fn propagation_needs_both_directions() {
    // a plus sign: the rows alone leave the outer rows open
    let rows = vec![vec![1], vec![3], vec![1]];
    let cols = vec![vec![1], vec![3], vec![1]];
    let (board, res) = solve_nonogram(&rows, &cols);
    assert_eq!(res, Ok(Status::Finished));
    assert_eq!(rows_of(&board), vec![vec![E, F, E], vec![F, F, F], vec![E, F, E]]);
}

#[test]
fn longer_puzzle_is_solved() {
    let rows = vec![vec![2], vec![1, 1], vec![4], vec![1, 2], vec![3]];
    let cols = vec![vec![2], vec![1, 3], vec![3, 1], vec![3], vec![1]];
    let mut board = Nonogram::new(&rows, &cols);
    assert_eq!(board.step(), Phase::Propagating);
    assert_eq!(board.step(), Phase::Propagating);
    assert_eq!(board.step(), Phase::Finished);
    assert_eq!(
        rows_of(&board),
        vec![
            vec![E, F, F, E, E],
            vec![F, E, F, E, E],
            vec![F, F, F, F, E],
            vec![E, F, E, F, F],
            vec![E, F, F, F, E],
        ]
    );
    assert_mirrored(&board);
    let (again, res) = solve_nonogram(&rows, &cols);
    assert_eq!(res, Ok(Status::Finished));
    assert_eq!(rows_of(&again), rows_of(&board));
}

#[test]
fn short_line_is_an_invalid_constraint() {
    let rows = vec![vec![3], vec![1]];
    let cols = vec![vec![1], vec![1]];
    let (board, res) = solve_nonogram(&rows, &cols);
    assert_eq!(res, Err(SolveError::InvalidConstraint));
    assert_eq!(board.phase(), Phase::Failed(SolveError::InvalidConstraint));
    let rows = vec![vec![1], vec![1]];
    let cols = vec![vec![1], vec![1, 1]];
    let (_, res) = solve_nonogram(&rows, &cols);
    assert_eq!(res, Err(SolveError::InvalidConstraint));
}

#[test]
fn contradiction_is_unsatisfiable() {
    let rows = vec![vec![2], vec![0]];
    let cols = vec![vec![0], vec![2]];
    let (board, res) = solve_nonogram(&rows, &cols);
    assert_eq!(res, Err(SolveError::Unsatisfiable));
    assert_eq!(board.phase(), Phase::Failed(SolveError::Unsatisfiable));
    assert_mirrored(&board);
}

#[test]
fn emptied_set_is_unsatisfiable() {
    // the rows fill the left column twice, the column wants one cell
    let rows = vec![vec![2], vec![2], vec![0]];
    let cols = vec![vec![1], vec![1]];
    let (_, res) = solve_nonogram(&rows, &cols);
    assert_eq!(res, Err(SolveError::Unsatisfiable));
}

#[test]
fn board_without_filled_cells_is_deduced_before_it_finishes() {
    let rows = vec![vec![0], vec![0]];
    let cols = vec![vec![0], vec![0], vec![0]];
    let mut board = Nonogram::new(&rows, &cols);
    // the finished condition holds of the fresh board, and means nothing yet
    assert!(board.finished());
    assert_eq!(board.phase(), Phase::Initialized);
    assert_eq!(board.step(), Phase::Propagating);
    assert_eq!(rows_of(&board), vec![vec![U; 3]; 2]);
    assert_eq!(board.step(), Phase::Finished);
    assert_eq!(rows_of(&board), vec![vec![E; 3]; 2]);
    assert_mirrored(&board);
}

#[test]
fn two_by_two_board_of_zero_runs_is_all_empty() {
    let rows = vec![vec![0], vec![0]];
    let cols = vec![vec![0], vec![0]];
    let (board, res) = solve_nonogram(&rows, &cols);
    assert_eq!(res, Ok(Status::Finished));
    assert_eq!(rows_of(&board), vec![vec![E, E], vec![E, E]]);
    let rows = vec![vec![0]];
    let cols = vec![vec![0]];
    let (board, res) = solve_nonogram(&rows, &cols);
    assert_eq!(res, Ok(Status::Finished));
    assert_eq!(board.cell(0, 0), E);
    assert_eq!(board.column_cell(0, 0), E);
}

#[test]
fn short_line_is_invalid_even_where_the_columns_ask_for_nothing() {
    let rows = vec![vec![5]];
    let cols = vec![vec![0]];
    let (board, res) = solve_nonogram(&rows, &cols);
    assert_eq!(res, Err(SolveError::InvalidConstraint));
    assert_eq!(board.phase(), Phase::Failed(SolveError::InvalidConstraint));
    assert_eq!(board.cell(0, 0), U);
}

#[test]
fn board_without_lines_is_finished() {
    let none: Vec<Vec<u32>> = vec![];
    let mut board = Nonogram::new(&none, &none);
    assert_eq!(board.step(), Phase::Propagating);
    assert_eq!(board.step(), Phase::Finished);
    let (board, res) = solve_nonogram(&none, &none);
    assert_eq!(res, Ok(Status::Finished));
    assert_eq!(board.height(), 0);
    assert_eq!(board.width(), 0);
}

#[test]
fn finished_board_shows_the_solution() {
    // every cell is known, and rows and columns have their runs
    let rows = vec![vec![2], vec![1, 1], vec![4], vec![1, 2], vec![3]];
    let cols = vec![vec![2], vec![1, 3], vec![3, 1], vec![3], vec![1]];
    let (board, res) = solve_nonogram(&rows, &cols);
    assert_eq!(res, Ok(Status::Finished));
    let grid = rows_of(&board);
    for r in 0..5 {
        assert!(grid[r].iter().all(|&cell| cell != U));
        assert_eq!(runs_in(&grid[r]), rows[r]);
    }
    for c in 0..5 {
        let column: Vec<Cell> = (0..5).map(|r| board.column_cell(c, r)).collect();
        assert_eq!(runs_in(&column), cols[c]);
    }
}

#[test]
fn possibility_sets_come_in_the_order_of_the_lines() {
    let rows = vec![vec![1], vec![2], vec![3], vec![4], vec![5]];
    let cols = vec![vec![1], vec![1, 1], vec![1, 1, 1], vec![2, 2], vec![5]];
    let board = Nonogram::new(&rows, &cols);
    let (row_sets, col_sets) = board.generate_possibles().unwrap();
    let sizes: Vec<usize> = row_sets.iter().map(|set| set.len()).collect();
    assert_eq!(sizes, vec![5, 4, 3, 2, 1]);
    let sizes: Vec<usize> = col_sets.iter().map(|set| set.len()).collect();
    assert_eq!(sizes, vec![5, 6, 1, 1, 1]);
    for i in 0..5 {
        assert!(row_sets[2].get(0, i) || row_sets[2].get(1, i) || row_sets[2].get(2, i));
    }
}

#[test]
fn generation_fails_on_a_short_line() {
    let rows = vec![vec![1], vec![2, 2]];
    let cols = vec![vec![1], vec![1], vec![1], vec![1]];
    let board = Nonogram::new(&rows, &cols);
    assert_eq!(board.generate_possibles().err(), Some(SolveError::InvalidConstraint));
}

#[test]
fn stalled_board_keeps_what_it_deduced() {
    // the two upper rows can be filled in two ways
    let rows = vec![vec![1], vec![1], vec![1], vec![4]];
    let cols = vec![vec![1, 1], vec![1], vec![2], vec![1, 1]];
    let mut board = Nonogram::new(&rows, &cols);
    assert_eq!(board.step(), Phase::Propagating);
    assert_eq!(board.step(), Phase::Propagating);
    assert_eq!(board.step(), Phase::Stalled);
    assert_eq!(
        rows_of(&board),
        vec![vec![U, E, E, U], vec![U, E, E, U], vec![E, E, F, E], vec![F, F, F, F]]
    );
    assert_mirrored(&board);
    assert_eq!(board.solve(), Ok(Status::Stalled));
}

#[test]
fn gather_takes_the_sets_or_the_first_failure() {
    let found = vec![Possibles::new(3, &vec![1]), Possibles::new(3, &vec![2])];
    let sets = gather(found).unwrap();
    assert_eq!(sets.len(), 2);
    assert_eq!(sets[0].len(), 3);
    assert_eq!(sets[1].len(), 2);
    let found = vec![Possibles::new(3, &vec![1]), Possibles::new(3, &vec![4])];
    assert_eq!(gather(found).err(), Some(SolveError::InvalidConstraint));
    assert_eq!(gather(Vec::new()).unwrap().len(), 0);
}
