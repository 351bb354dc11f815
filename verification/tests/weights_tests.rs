use assignments::config::Config;
use assignments::error::ConfigurationError;
use assignments::prefs::Agent;
use assignments::validate::check_prefs;
use assignments::weights::build_weights;

fn agent(name: &str, choices: &[usize]) -> Agent {
    Agent { name: name.to_string(), choices: choices.to_vec() }
}

fn rows_of(prefs: &Vec<Agent>, config: &Config) -> Vec<Vec<u64>> {
    assert_eq!(check_prefs(prefs, config.num_slots()), Ok(()));
    let w = build_weights(prefs, config).unwrap();
    assert_eq!(w.rows(), prefs.len());
    assert_eq!(w.cols(), config.num_slots());
    (0..w.rows()).map(|i| (0..w.cols()).map(|j| w.get(i, j)).collect()).collect()
}

#[test]
fn builds_the_weights_of_two_agents() {
    let prefs = vec![agent("Alice", &[1, 2]), agent("Bob", &[2, 1])];
    let config = Config::new(Some(4), Some(1), Some(2), false, 2).unwrap();
    assert_eq!(rows_of(&prefs, &config), vec![vec![8, 4], vec![4, 8]]);
}

#[test]
fn unlisted_slots_weigh_nothing() {
    let prefs = vec![agent("Alice", &[3]), agent("Bob", &[]), agent("Carol", &[4, 1])];
    let config = Config::new(Some(2), Some(2), Some(4), false, 3).unwrap();
    assert_eq!(
        rows_of(&prefs, &config),
        vec![vec![0, 0, 64, 0], vec![0, 0, 0, 0], vec![36, 0, 0, 64]]
    );
}

#[test]
fn power_zero_gives_listed_slots_weight_one() {
    let prefs = vec![agent("Alice", &[2, 3])];
    let config = Config::new(Some(9), Some(0), Some(3), false, 1).unwrap();
    assert_eq!(rows_of(&prefs, &config), vec![vec![0, 1, 1]]);
}

#[test]
fn fails_with_fewer_slots_than_agents() {
    let prefs = vec![agent("Alice", &[1]), agent("Bob", &[1]), agent("Carol", &[])];
    let config = Config::new(None, None, Some(2), false, 3).unwrap();
    assert_eq!(check_prefs(&prefs, 2), Ok(()));
    assert_eq!(
        build_weights(&prefs, &config).unwrap_err(),
        ConfigurationError::InsufficientSlots { agents: 3, slots: 2 }
    );
}

#[test]
fn fails_where_a_weight_exceeds_63_bits() {
    let prefs = vec![agent("Alice", &[]), agent("Bob", &[2, 1])];
    let config = Config::new(Some(1 << 40), Some(2), Some(2), false, 2).unwrap();
    assert_eq!(check_prefs(&prefs, 2), Ok(()));
    assert_eq!(build_weights(&prefs, &config).unwrap_err(), ConfigurationError::WeightOverflow);
    // Without a listed choice no weight is computed, so none overflows.
    let prefs = vec![agent("Alice", &[]), agent("Bob", &[])];
    assert_eq!(rows_of(&prefs, &config), vec![vec![0, 0], vec![0, 0]]);
}

#[test]
fn fails_where_the_matrix_cannot_be_addressed() {
    let prefs = vec![agent("Alice", &[]), agent("Bob", &[])];
    let config = Config::new(None, None, Some(usize::MAX), false, 2).unwrap();
    assert_eq!(check_prefs(&prefs, usize::MAX), Ok(()));
    assert_eq!(
        build_weights(&prefs, &config).unwrap_err(),
        ConfigurationError::MatrixTooLarge { agents: 2, slots: usize::MAX }
    );
}
