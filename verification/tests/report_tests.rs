use assignments::matrix::WeightMatrix;
use assignments::prefs::Agent;
use assignments::report::{rank_in, report};
use assignments::solver::solve;

fn agent(name: &str, choices: &[usize]) -> Agent {
    Agent { name: name.to_string(), choices: choices.to_vec() }
}

fn matrix_of(rows: &[Vec<u64>], cols: usize) -> WeightMatrix {
    let mut m = WeightMatrix::new(rows.len(), cols).unwrap();
    for (i, row) in rows.iter().enumerate() {
        for (j, x) in row.iter().enumerate() {
            m = m.with(i, j, *x);
        }
    }
    m
}

#[test]
fn rank_is_the_one_based_position_of_the_slot() {
    assert_eq!(rank_in(&vec![3, 1, 2], 2), Some(1));
    assert_eq!(rank_in(&vec![3, 1, 2], 0), Some(2));
    assert_eq!(rank_in(&vec![3, 1, 2], 1), Some(3));
    assert_eq!(rank_in(&vec![3, 1, 2], 3), None);
    assert_eq!(rank_in(&vec![], 0), None);
    assert_eq!(rank_in(&vec![5], usize::MAX), None);
    assert_eq!(rank_in(&vec![0, 1], 0), Some(2));
}

#[test]
fn rank_is_that_of_the_first_occurrence() {
    assert_eq!(rank_in(&vec![4, 2, 4, 2], 1), Some(2));
    assert_eq!(rank_in(&vec![4, 2, 4, 2], 3), Some(1));
}

#[test]
fn reports_ranks_and_histogram() {
    // The weights force agent i to column 3 - i.
    let rows = vec![vec![0, 0, 0, 9], vec![0, 0, 9, 0], vec![0, 9, 0, 0], vec![9, 0, 0, 0]];
    let a = solve(&matrix_of(&rows, 4));
    assert_eq!(a.slots(), &vec![3, 2, 1, 0]);
    let prefs = vec![
        agent("Alice", &[1, 2, 4]),
        agent("Bob", &[3]),
        agent("Carol", &[1, 3]),
        agent("Dave", &[4, 2, 1]),
    ];
    let r = report(&prefs, &a);
    assert_eq!(r.ranks, vec![Some(3), Some(1), None, Some(3)]);
    assert_eq!(r.histogram, vec![(1, 1), (3, 2)]);
    assert_eq!(r.unranked, 1);
    assert_eq!(r.total, 36);
}

#[test]
fn reports_nothing_for_no_agents() {
    let a = solve(&WeightMatrix::new(0, 3).unwrap());
    let r = report(&Vec::new(), &a);
    assert_eq!(r.ranks, Vec::new());
    assert_eq!(r.histogram, Vec::new());
    assert_eq!(r.unranked, 0);
    assert_eq!(r.total, 0);
}

#[test]
fn reports_all_unranked() {
    let rows = vec![vec![1, 0], vec![0, 1]];
    let a = solve(&matrix_of(&rows, 2));
    let prefs = vec![agent("Alice", &[2]), agent("Bob", &[])];
    let r = report(&prefs, &a);
    assert_eq!(r.ranks, vec![None, None]);
    assert_eq!(r.histogram, Vec::new());
    assert_eq!(r.unranked, 2);
    assert_eq!(r.total, 2);
}
