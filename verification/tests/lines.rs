use nonogram_solver::{BoolLine, Cell, CellLine, Possibles};

fn cells(line: &CellLine) -> Vec<Cell> {
    (0..line.len()).map(|i| line.get(i)).collect()
}

fn bits(set: &Possibles, len: usize) -> Vec<Vec<bool>> {
    (0..set.len()).map(|which| (0..len).map(|i| set.get(which, i)).collect()).collect()
}

fn known(values: &[Cell]) -> CellLine {
    let mut line = CellLine::new(values.len());
    for (i, &value) in values.iter().enumerate() {
        line.set(i, value);
    }
    line
}

fn pattern(values: &[bool]) -> BoolLine {
    let mut line = BoolLine::new(values.len());
    for (i, &value) in values.iter().enumerate() {
        line.set(i, value);
    }
    line
}

#[test]
fn new_cell_line_is_unknown() {
    let line = CellLine::new(4);
    assert_eq!(cells(&line), vec![Cell::Unknown; 4]);
    assert_eq!(line.count(Cell::Unknown), 4);
    assert_eq!(line.count(Cell::Full), 0);
    assert_eq!(CellLine::new(0).len(), 0);
}

#[test]
fn count_counts_one_kind() {
    let line = known(&[Cell::Full, Cell::Empty, Cell::Full, Cell::Unknown]);
    assert_eq!(line.count(Cell::Full), 2);
    assert_eq!(line.count(Cell::Empty), 1);
    assert_eq!(line.count(Cell::Unknown), 1);
}

#[test]
fn check_follows_known_cells_only() {
    let bits = pattern(&[true, false, true]);
    assert!(bits.check(&known(&[Cell::Unknown, Cell::Unknown, Cell::Unknown])));
    assert!(bits.check(&known(&[Cell::Full, Cell::Empty, Cell::Full])));
    assert!(bits.check(&known(&[Cell::Full, Cell::Unknown, Cell::Unknown])));
    assert!(!bits.check(&known(&[Cell::Empty, Cell::Unknown, Cell::Unknown])));
    assert!(!bits.check(&known(&[Cell::Unknown, Cell::Full, Cell::Unknown])));
    assert!(!bits.check(&known(&[Cell::Unknown, Cell::Unknown, Cell::Empty])));
}

#[test]
fn fill_sets_a_run() {
    let mut bits = BoolLine::new(5);
    bits.fill(1, 3);
    assert_eq!((0..5).map(|i| bits.get(i)).collect::<Vec<_>>(), vec![false, true, true, true, false]);
    bits.fill(4, 0);
    assert!(!bits.get(4));
    assert_eq!(bits.duplicate().len(), 5);
}

#[test]
fn filter_keeps_what_agrees() {
    let mut set = Possibles::new(5, &vec![2]).unwrap();
    set.update(&known(&[Cell::Unknown, Cell::Full, Cell::Unknown, Cell::Unknown, Cell::Unknown]));
    let mut left = bits(&set, 5);
    left.sort();
    assert_eq!(
        left,
        vec![vec![false, true, true, false, false], vec![true, true, false, false, false]]
    );
}

#[test]
fn filter_is_a_subset_and_idempotent() {
    let line = known(&[Cell::Unknown, Cell::Empty, Cell::Unknown, Cell::Unknown, Cell::Full, Cell::Unknown]);
    let all = bits(&Possibles::new(6, &vec![1, 2]).unwrap(), 6);
    let mut set = Possibles::new(6, &vec![1, 2]).unwrap();
    set.update(&line);
    let once = bits(&set, 6);
    assert!(once.len() < all.len());
    for bits in &once {
        assert!(all.contains(bits));
    }
    set.update(&line);
    assert_eq!(bits(&set, 6), once);
}

#[test]
fn filter_keeps_the_order() {
    let all = bits(&Possibles::new(6, &vec![2]).unwrap(), 6);
    let mut set = Possibles::new(6, &vec![2]).unwrap();
    set.update(&known(&[Cell::Unknown, Cell::Unknown, Cell::Full, Cell::Unknown, Cell::Unknown, Cell::Unknown]));
    let expected: Vec<Vec<bool>> = all.into_iter().filter(|bits| bits[2]).collect();
    assert_eq!(bits(&set, 6), expected);
}

#[test]
fn filter_leaves_a_single_pattern_alone() {
    let mut set = Possibles::new(3, &vec![3]).unwrap();
    assert_eq!(set.len(), 1);
    set.update(&known(&[Cell::Empty, Cell::Unknown, Cell::Unknown]));
    assert_eq!(bits(&set, 3), vec![vec![true, true, true]]);
}

#[test]
fn filter_can_empty_a_set() {
    let mut set = Possibles::new(3, &vec![1]).unwrap();
    set.update(&known(&[Cell::Empty, Cell::Empty, Cell::Empty]));
    assert_eq!(set.len(), 0);
}

#[test]
fn narrow_tells_whether_a_pattern_is_left() {
    let mut set = Possibles::new(3, &vec![1]).unwrap();
    assert!(set.narrow(&known(&[Cell::Empty, Cell::Unknown, Cell::Unknown])));
    assert_eq!(set.len(), 2);
    assert!(!set.narrow(&known(&[Cell::Empty, Cell::Empty, Cell::Empty])));
    let mut single = Possibles::new(3, &vec![3]).unwrap();
    assert!(!single.narrow(&known(&[Cell::Empty, Cell::Unknown, Cell::Unknown])));
    assert_eq!(single.len(), 1);
}

#[test]
fn deduce_marks_what_all_patterns_share() {
    // 4 in 5: the three middle cells are filled either way.
    let set = Possibles::new(5, &vec![4]).unwrap();
    let mut line = CellLine::new(5);
    line.update(&set);
    assert_eq!(
        cells(&line),
        vec![Cell::Unknown, Cell::Full, Cell::Full, Cell::Full, Cell::Unknown]
    );
}

#[test]
fn deduce_marks_empty_cells() {
    let mut set = Possibles::new(4, &vec![1]).unwrap();
    set.update(&known(&[Cell::Unknown, Cell::Unknown, Cell::Empty, Cell::Empty]));
    let mut line = CellLine::new(4);
    line.update(&set);
    assert_eq!(cells(&line), vec![Cell::Unknown, Cell::Unknown, Cell::Empty, Cell::Empty]);
}

#[test]
fn deduce_from_nothing_keeps_the_line() {
    let mut set = Possibles::new(2, &vec![1]).unwrap();
    set.update(&known(&[Cell::Empty, Cell::Empty]));
    let mut line = known(&[Cell::Full, Cell::Unknown]);
    line.update(&set);
    assert_eq!(cells(&line), vec![Cell::Full, Cell::Unknown]);
}

#[test]
fn deduced_marks_stay_when_the_set_shrinks() {
    let mut set = Possibles::new(7, &vec![5]).unwrap();
    let mut line = CellLine::new(7);
    line.update(&set);
    let first = cells(&line);
    assert_eq!(first[2..5], [Cell::Full, Cell::Full, Cell::Full]);
    set.update(&known(&[
        Cell::Empty,
        Cell::Unknown,
        Cell::Unknown,
        Cell::Unknown,
        Cell::Unknown,
        Cell::Unknown,
        Cell::Unknown,
    ]));
    line.update(&set);
    let second = cells(&line);
    for i in 0..7 {
        if first[i] != Cell::Unknown {
            assert_eq!(second[i], first[i]);
        }
    }
    assert_eq!(second[0], Cell::Empty);
    assert_eq!(second[5], Cell::Full);
}
