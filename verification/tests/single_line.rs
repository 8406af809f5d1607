use nonogram_solver::{solve_a_line, Cell, SolveError};

const F: Cell = Cell::Full;
const E: Cell = Cell::Empty;
const U: Cell = Cell::Unknown;

fn solved(len: usize, empty: Vec<(u32, u32)>, full: Vec<(u32, u32)>, limit: Vec<u32>) -> (Vec<Cell>, u128) {
    let (line, entered) = solve_a_line(len, &empty, &full, &limit).unwrap();
    ((0..line.len()).map(|i| line.get(i)).collect(), entered)
}

#[test]
fn run_of_three_with_first_cell_empty() {
    let (line, entered) = solved(5, vec![(1, 1)], vec![], vec![3]);
    assert_eq!(line, vec![E, U, F, F, U]);
    assert_eq!(entered, 4);
}

#[test]
fn unseeded_line_shows_the_overlap() {
    let (line, entered) = solved(5, vec![], vec![], vec![4]);
    assert_eq!(line, vec![U, F, F, F, U]);
    assert_eq!(entered, 3);
}

#[test]
fn full_seed_pins_the_run() {
    let (line, _) = solved(6, vec![], vec![(1, 1)], vec![3]);
    assert_eq!(line, vec![F, F, F, E, E, E]);
}

#[test]
fn full_range_wins_over_empty_range() {
    let (line, _) = solved(4, vec![(1, 4)], vec![(2, 2)], vec![2]);
    assert_eq!(line, vec![E, F, F, E]);
}

#[test]
fn two_runs_are_counted() {
    let (line, entered) = solved(5, vec![], vec![], vec![1, 2]);
    assert_eq!(line, vec![U, U, U, F, U]);
    assert_eq!(entered, 6);
}

#[test]
fn zero_run_with_a_seed() {
    let (line, entered) = solved(3, vec![(2, 1)], vec![], vec![0]);
    assert_eq!(line, vec![E, E, E]);
    assert_eq!(entered, 2);
}

#[test]
fn seed_against_every_pattern_is_unsatisfiable() {
    let res = solve_a_line(5, &vec![(1, 5)], &vec![], &vec![3]);
    assert_eq!(res.err(), Some(SolveError::Unsatisfiable));
    let res = solve_a_line(3, &vec![(1, 1)], &vec![], &vec![3]);
    assert_eq!(res.err(), Some(SolveError::Unsatisfiable));
}

#[test]
fn runs_too_long_for_the_line_are_invalid() {
    let res = solve_a_line(3, &vec![], &vec![], &vec![2, 1]);
    assert_eq!(res.err(), Some(SolveError::InvalidConstraint));
}
