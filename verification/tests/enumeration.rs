use nonogram_solver::{Possibles, SolveError};

fn patterns(set: &Possibles, len: usize) -> Vec<Vec<bool>> {
    let mut all = Vec::new();
    for which in 0..set.len() {
        let mut bits = Vec::new();
        for i in 0..len {
            bits.push(set.get(which, i));
        }
        all.push(bits);
    }
    all.sort();
    all
}

#[test]
fn one_run_of_two_in_five_has_four_places() {
    let set = Possibles::new(5, &vec![2]).unwrap();
    assert_eq!(set.len(), 4);
    let expected = vec![
        vec![false, false, false, true, true],
        vec![false, false, true, true, false],
        vec![false, true, true, false, false],
        vec![true, true, false, false, false],
    ];
    assert_eq!(patterns(&set, 5), expected);
}

#[test]
fn zero_run_gives_the_blank_line_only() {
    for len in 0..7 {
        let set = Possibles::new(len, &vec![0]).unwrap();
        assert_eq!(set.len(), 1);
        assert_eq!(patterns(&set, len), vec![vec![false; len]]);
    }
}

#[test]
fn no_runs_give_the_blank_line_only() {
    let set = Possibles::new(3, &vec![]).unwrap();
    assert_eq!(patterns(&set, 3), vec![vec![false, false, false]]);
}

#[test]
fn runs_that_fill_the_line_have_one_pattern() {
    let set = Possibles::new(5, &vec![1, 3]).unwrap();
    assert_eq!(patterns(&set, 5), vec![vec![true, false, true, true, true]]);
}

#[test]
fn two_runs_with_slack() {
    let set = Possibles::new(5, &vec![1, 2]).unwrap();
    assert_eq!(set.len(), 3);
    let expected = vec![
        vec![false, true, false, true, true],
        vec![true, false, false, true, true],
        vec![true, false, true, true, false],
    ];
    assert_eq!(patterns(&set, 5), expected);
}

#[test]
fn count_is_binomial() {
    // 35 positions, runs 3, 14, 3: 13 spare positions over 3 runs.
    let set = Possibles::new(35, &vec![3, 14, 3]).unwrap();
    assert_eq!(set.len(), 560);
    let all = patterns(&set, 35);
    for pair in all.windows(2) {
        assert_ne!(pair[0], pair[1]);
    }
}

#[test]
fn runs_too_long_are_rejected() {
    assert_eq!(Possibles::new(4, &vec![2, 2]).err(), Some(SolveError::InvalidConstraint));
    assert_eq!(Possibles::new(0, &vec![1]).err(), Some(SolveError::InvalidConstraint));
    assert!(Possibles::new(5, &vec![2, 2]).is_ok());
}

#[test]
fn zero_run_among_others_takes_its_separator() {
    let set = Possibles::new(3, &vec![0, 2]).unwrap();
    assert_eq!(patterns(&set, 3), vec![vec![false, true, true]]);
    assert_eq!(Possibles::new(2, &vec![0, 2]).err(), Some(SolveError::InvalidConstraint));
    let set = Possibles::new(2, &vec![1, 0]).unwrap();
    assert_eq!(patterns(&set, 2), vec![vec![true, false]]);
}

#[test]
fn search_counts_its_states() {
    let (set, entered) = Possibles::search(5, &vec![3]).unwrap();
    assert_eq!(set.len(), 3);
    assert_eq!(entered, 4);
    let (set, entered) = Possibles::search(5, &vec![1, 2]).unwrap();
    assert_eq!(set.len(), 3);
    // the initial state, two places for the first run, three for the second
    assert_eq!(entered, 6);
}

fn decomposition(bits: &[bool]) -> Vec<u32> {
    let mut runs = Vec::new();
    let mut current = 0;
    for &bit in bits {
        if bit {
            current += 1;
        } else if current > 0 {
            runs.push(current);
            current = 0;
        }
    }
    if current > 0 {
        runs.push(current);
    }
    runs
}

fn binomial(n: u64, k: u64) -> u64 {
    if k == 0 {
        1
    } else if n == 0 {
        0
    } else {
        binomial(n - 1, k - 1) + binomial(n - 1, k)
    }
}

#[test]
fn every_pattern_decomposes_into_its_runs() {
    let cases: Vec<(usize, Vec<u32>)> = vec![
        (5, vec![2]),
        (8, vec![1, 2]),
        (10, vec![2, 1, 3]),
        (12, vec![1, 1, 1, 1]),
        (9, vec![9]),
        (7, vec![3, 3]),
    ];
    for (len, limit) in cases {
        let set = Possibles::new(len, &limit).unwrap();
        let all = patterns(&set, len);
        let need: u32 = limit.iter().sum::<u32>() + limit.len() as u32 - 1;
        let spare = len as u64 - need as u64;
        assert_eq!(all.len() as u64, binomial(spare + limit.len() as u64, limit.len() as u64));
        for bits in &all {
            assert_eq!(bits.len(), len);
            assert_eq!(decomposition(bits), limit);
        }
        for pair in all.windows(2) {
            assert_ne!(pair[0], pair[1]);
        }
    }
}

#[test]
fn every_line_with_the_runs_is_enumerated() {
    let len = 7;
    let limit = vec![2, 1];
    let all = patterns(&Possibles::new(len, &limit).unwrap(), len);
    let mut expected = Vec::new();
    for code in 0..(1u32 << len) {
        let bits: Vec<bool> = (0..len).map(|i| code & (1 << i) != 0).collect();
        if decomposition(&bits) == limit {
            expected.push(bits);
        }
    }
    expected.sort();
    assert_eq!(all, expected);
}
