use nonogram_solver::{solve_nonogram, Cell, CellLine, Nonogram};

#[test]
fn line_text_groups_by_five() {
    let mut line = CellLine::new(7);
    line.set(0, Cell::Full);
    line.set(1, Cell::Empty);
    line.set(5, Cell::Full);
    assert_eq!(line.render(), "■ ☒ □ □ □   ■ □  ");
    assert_eq!(CellLine::new(0).render(), " ");
    assert_eq!(CellLine::new(5).render(), "□ □ □ □ □    ");
}

#[test]
fn board_text_has_a_line_per_row() {
    let rows = vec![vec![1], vec![3], vec![1]];
    let cols = vec![vec![1], vec![3], vec![1]];
    let (board, _) = solve_nonogram(&rows, &cols);
    assert_eq!(board.render(), "☒ ■ ☒  \n■ ■ ■  \n☒ ■ ☒  \n\n");
}

#[test]
fn board_text_groups_rows_by_five() {
    let rows = vec![vec![0]; 6];
    let cols = vec![vec![0]];
    let board = Nonogram::new(&rows, &cols);
    assert_eq!(board.render(), "□  \n□  \n□  \n□  \n□  \n\n□  \n\n");
    assert_eq!(board.row(0).len(), 1);
    assert_eq!(board.column(0).len(), 6);
}
