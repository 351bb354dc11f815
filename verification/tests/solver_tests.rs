use assignments::error::ConfigurationError;
use assignments::matrix::WeightMatrix;
use assignments::solver::solve;
use pathfinding::prelude::{kuhn_munkres, Matrix};

fn matrix_of(rows: &[Vec<u64>], cols: usize) -> WeightMatrix {
    let mut m = WeightMatrix::new(rows.len(), cols).unwrap();
    for (i, row) in rows.iter().enumerate() {
        assert_eq!(row.len(), cols);
        for (j, x) in row.iter().enumerate() {
            m = m.with(i, j, *x);
        }
    }
    m
}

fn weight_of(rows: &[Vec<u64>], slots: &[usize]) -> u128 {
    slots.iter().enumerate().map(|(i, j)| rows[i][*j] as u128).sum()
}

fn best_by_search(rows: &[Vec<u64>], cols: usize, row: usize, taken: &mut Vec<bool>) -> u128 {
    if row == rows.len() {
        return 0;
    }
    let mut best: u128 = 0;
    for j in 0..cols {
        if !taken[j] {
            taken[j] = true;
            let here = rows[row][j] as u128 + best_by_search(rows, cols, row + 1, taken);
            taken[j] = false;
            if here > best {
                best = here;
            }
        }
    }
    best
}

fn next_random(state: &mut u64) -> u64 {
    *state = state.wrapping_mul(6364136223846793005).wrapping_add(1442695040888963407);
    *state >> 33
}

fn random_rows(state: &mut u64, m: usize, n: usize, bound: u64) -> Vec<Vec<u64>> {
    (0..m).map(|_| (0..n).map(|_| next_random(state) % bound).collect()).collect()
}

fn assert_distinct_in_range(slots: &[usize], cols: usize) {
    let mut taken = vec![false; cols];
    for j in slots {
        assert!(*j < cols);
        assert!(!taken[*j]);
        taken[*j] = true;
    }
}

#[test]
fn solves_two_by_two() {
    let rows = vec![vec![8, 4], vec![4, 8]];
    let a = solve(&matrix_of(&rows, 2));
    assert_eq!(a.slots(), &vec![0, 1]);
    assert_eq!(a.total(), 16);
}

#[test]
fn solves_two_by_two_crossed() {
    let rows = vec![vec![4, 8], vec![8, 4]];
    let a = solve(&matrix_of(&rows, 2));
    assert_eq!(a.slots(), &vec![1, 0]);
    assert_eq!(a.total(), 16);
}

#[test]
fn solves_gallery_example() {
    let rows = vec![vec![100, 110, 90], vec![95, 130, 75], vec![95, 140, 65]];
    let a = solve(&matrix_of(&rows, 3));
    assert_eq!(a.total(), 325);
    assert_eq!(a.slots(), &vec![2, 0, 1]);
}

#[test]
fn solves_empty_matrix() {
    let a = solve(&WeightMatrix::new(0, 0).unwrap());
    assert_eq!(a.slots().len(), 0);
    assert_eq!(a.total(), 0);
    let b = solve(&WeightMatrix::new(0, 5).unwrap());
    assert_eq!(b.slots().len(), 0);
    assert_eq!(b.total(), 0);
}

#[test]
fn solves_single_row() {
    let rows = vec![vec![3, 9, 9, 1]];
    let a = solve(&matrix_of(&rows, 4));
    assert_eq!(a.slots(), &vec![1]);
    assert_eq!(a.total(), 9);
}

#[test]
fn zero_matrix_takes_lowest_columns() {
    let a = solve(&WeightMatrix::new(3, 5).unwrap());
    assert_eq!(a.slots(), &vec![0, 1, 2]);
    assert_eq!(a.total(), 0);
}

#[test]
fn equal_weights_go_to_the_lowest_columns() {
    let rows = vec![vec![1, 1], vec![1, 1]];
    let a = solve(&matrix_of(&rows, 2));
    assert_eq!(a.slots(), &vec![0, 1]);
    assert_eq!(a.total(), 2);
    let rows = vec![vec![7, 7, 7, 7], vec![7, 7, 7, 7], vec![7, 7, 7, 7]];
    let a = solve(&matrix_of(&rows, 4));
    assert_eq!(a.slots(), &vec![0, 1, 2]);
    assert_eq!(a.total(), 21);
}

#[test]
fn a_later_row_may_move_an_earlier_one() {
    // Row 0 takes column 0 first; row 1 can only gain there, and row 0 loses
    // nothing by moving to column 1.
    let rows = vec![vec![5, 5, 0], vec![5, 0, 0]];
    let a = solve(&matrix_of(&rows, 3));
    assert_eq!(a.slots(), &vec![1, 0]);
    assert_eq!(a.total(), 10);
}

#[test]
fn greedy_choice_is_not_taken_when_worse() {
    // Row 0 would take column 0 greedily, which leaves row 1 with nothing.
    let rows = vec![vec![10, 9], vec![10, 0]];
    let a = solve(&matrix_of(&rows, 2));
    assert_eq!(a.slots(), &vec![1, 0]);
    assert_eq!(a.total(), 19);
}

#[test]
fn rows_may_get_columns_of_weight_zero() {
    let rows = vec![vec![5, 0, 0], vec![7, 0, 0], vec![6, 0, 0]];
    let a = solve(&matrix_of(&rows, 3));
    assert_eq!(a.total(), 7);
    assert_eq!(a.slots()[1], 0);
    assert_distinct_in_range(a.slots(), 3);
}

#[test]
fn total_does_not_overflow_with_the_largest_weights() {
    let rows = vec![vec![u64::MAX, u64::MAX], vec![u64::MAX, u64::MAX]];
    let a = solve(&matrix_of(&rows, 2));
    assert_eq!(a.total(), 2 * (u64::MAX as u128));
    assert_distinct_in_range(a.slots(), 2);
    let rows = vec![vec![u64::MAX, 0, 1], vec![u64::MAX, u64::MAX - 1, 0], vec![u64::MAX, 5, 5]];
    let a = solve(&matrix_of(&rows, 3));
    assert_eq!(a.total(), best_by_search(&rows, 3, 0, &mut vec![false; 3]));
}

#[test]
fn assignment_is_injective_on_random_matrices() {
    let mut state: u64 = 11;
    for m in 0..9usize {
        for n in m..(m + 4) {
            let rows = random_rows(&mut state, m, n, 50);
            let a = solve(&matrix_of(&rows, n));
            assert_eq!(a.slots().len(), m);
            assert_distinct_in_range(a.slots(), n);
        }
    }
}

#[test]
fn total_is_the_sum_of_the_selected_entries() {
    let mut state: u64 = 23;
    for m in 0..9usize {
        for n in m..(m + 4) {
            let rows = random_rows(&mut state, m, n, 1000);
            let a = solve(&matrix_of(&rows, n));
            assert_eq!(a.total(), weight_of(&rows, a.slots()));
        }
    }
}

#[test]
fn no_assignment_weighs_more_by_exhaustive_search() {
    let mut state: u64 = 5;
    for round in 0..40u64 {
        for m in 0..7usize {
            let n = m + (round as usize % 3);
            // A small bound forces many ties.
            let bound = if round % 2 == 0 { 4 } else { 1000 };
            let rows = random_rows(&mut state, m, n, bound);
            let a = solve(&matrix_of(&rows, n));
            let best = best_by_search(&rows, n, 0, &mut vec![false; n]);
            assert_eq!(a.total(), best);
        }
    }
}

#[test]
fn no_assignment_weighs_more_with_eight_agents() {
    let mut state: u64 = 77;
    for _ in 0..5 {
        let rows = random_rows(&mut state, 8, 8, 30);
        let a = solve(&matrix_of(&rows, 8));
        assert_eq!(a.total(), best_by_search(&rows, 8, 0, &mut vec![false; 8]));
    }
}

#[test]
fn solving_twice_gives_the_same_answer() {
    let mut state: u64 = 3;
    for _ in 0..20 {
        let rows = random_rows(&mut state, 6, 9, 3);
        let a = solve(&matrix_of(&rows, 9));
        let b = solve(&matrix_of(&rows, 9));
        assert_eq!(a.slots(), b.slots());
        assert_eq!(a.total(), b.total());
    }
}

#[test]
fn agrees_with_the_kuhn_munkres_of_pathfinding() {
    let mut state: u64 = 2024;
    for round in 0..60u64 {
        let m = 1 + (next_random(&mut state) % 12) as usize;
        let n = m + (next_random(&mut state) % 4) as usize;
        let bound = if round % 3 == 0 { 3 } else { 100_000 };
        let rows = random_rows(&mut state, m, n, bound);
        let mut other = Matrix::new(m, n, 0i64);
        for i in 0..m {
            for j in 0..n {
                other[(i, j)] = rows[i][j] as i64;
            }
        }
        let (total, slots) = kuhn_munkres(&other);
        let a = solve(&matrix_of(&rows, n));
        assert_eq!(a.total(), total as u128);
        assert_eq!(a.slots(), &slots);
    }
}

#[test]
fn solves_a_larger_matrix_quickly() {
    let mut state: u64 = 99;
    let n = 150;
    let rows = random_rows(&mut state, n, n, 1_000_000);
    let a = solve(&matrix_of(&rows, n));
    assert_distinct_in_range(a.slots(), n);
    assert_eq!(a.total(), weight_of(&rows, a.slots()));
}

#[test]
fn matrix_refuses_more_rows_than_columns() {
    assert_eq!(
        WeightMatrix::new(3, 2).unwrap_err(),
        ConfigurationError::InsufficientSlots { agents: 3, slots: 2 }
    );
    assert_eq!(
        WeightMatrix::new(usize::MAX, usize::MAX).unwrap_err(),
        ConfigurationError::MatrixTooLarge { agents: usize::MAX, slots: usize::MAX }
    );
    assert_eq!(
        WeightMatrix::new(1, usize::MAX).unwrap_err(),
        ConfigurationError::MatrixTooLarge { agents: 1, slots: usize::MAX }
    );
    let limit = (isize::MAX as usize) / 16;
    assert_eq!(
        WeightMatrix::new(1, limit + 1).unwrap_err(),
        ConfigurationError::MatrixTooLarge { agents: 1, slots: limit + 1 }
    );
}

#[test]
fn no_rows_need_no_memory_for_the_columns() {
    let w = WeightMatrix::new(0, usize::MAX).unwrap();
    assert_eq!(w.rows(), 0);
    assert_eq!(w.cols(), usize::MAX);
    let a = solve(&w);
    assert_eq!(a.slots().len(), 0);
    assert_eq!(a.total(), 0);
}

#[test]
fn matrix_keeps_what_is_written() {
    let m = WeightMatrix::new(2, 3).unwrap();
    assert_eq!(m.rows(), 2);
    assert_eq!(m.cols(), 3);
    let m = m.with(1, 2, 7).with(0, 0, 5).with(1, 2, 9);
    assert_eq!(m.get(0, 0), 5);
    assert_eq!(m.get(0, 1), 0);
    assert_eq!(m.get(0, 2), 0);
    assert_eq!(m.get(1, 0), 0);
    assert_eq!(m.get(1, 1), 0);
    assert_eq!(m.get(1, 2), 9);
}
