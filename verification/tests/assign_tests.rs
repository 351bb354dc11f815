use assignments::assign::{assign, AssignError};
use assignments::config::Config;
use assignments::cost::cost;
use assignments::error::{ConfigurationError, ValidationError};
use assignments::prefs::Agent;

fn agent(name: &str, choices: &[usize]) -> Agent {
    Agent { name: name.to_string(), choices: choices.to_vec() }
}

#[test]
fn alice_and_bob_both_get_their_first_choice() {
    let prefs = vec![agent("Alice", &[1, 2]), agent("Bob", &[2, 1])];
    let config = Config::new(Some(4), Some(1), Some(2), false, prefs.len()).unwrap();
    let out = assign(&prefs, &config).unwrap();
    // Alice -> slot 1, Bob -> slot 2, as 0-based columns.
    assert_eq!(out.assignment.slots(), &vec![0, 1]);
    assert_eq!(out.assignment.total(), 16);
    assert_eq!(out.report.ranks, vec![Some(1), Some(1)]);
    assert_eq!(out.report.histogram, vec![(1, 2)]);
    assert_eq!(out.report.unranked, 0);
    assert_eq!(out.report.total, 16);
}

#[test]
fn fewer_slots_than_agents_is_a_configuration_error() {
    let prefs = vec![agent("Alice", &[1, 2]), agent("Bob", &[2, 1]), agent("Carol", &[1])];
    let config = Config::new(None, None, Some(2), false, prefs.len()).unwrap();
    match assign(&prefs, &config) {
        Err(e) => assert_eq!(
            e,
            AssignError::Configuration(ConfigurationError::InsufficientSlots { agents: 3, slots: 2 })
        ),
        Ok(_) => panic!("an assignment was produced"),
    }
}

#[test]
fn validation_comes_before_the_count_of_slots() {
    let prefs = vec![agent("Alice", &[1, 2]), agent("Bob", &[3]), agent("Carol", &[1])];
    let config = Config::new(None, None, Some(2), false, prefs.len()).unwrap();
    match assign(&prefs, &config) {
        Err(e) => assert_eq!(
            e,
            AssignError::Validation(ValidationError::ChoiceOutOfRange {
                agent: "Bob".to_string(),
                choice: 3,
                num_slots: 2
            })
        ),
        Ok(_) => panic!("an assignment was produced"),
    }
}

#[test]
fn weight_overflow_is_a_configuration_error() {
    let prefs = vec![agent("Alice", &[1])];
    let config = Config::new(Some(1 << 32), Some(2), Some(1), false, 1).unwrap();
    match assign(&prefs, &config) {
        Err(e) => assert_eq!(e, AssignError::Configuration(ConfigurationError::WeightOverflow)),
        Ok(_) => panic!("an assignment was produced"),
    }
}

#[test]
fn contested_first_choice_goes_where_the_total_is_largest() {
    // All three want slot 1 most. Carol lists nothing else, so she gets it.
    let prefs = vec![agent("Alice", &[1, 2, 3]), agent("Bob", &[1, 3]), agent("Carol", &[1])];
    let config = Config::new(Some(1), Some(1), None, true, prefs.len()).unwrap();
    let out = assign(&prefs, &config).unwrap();
    assert_eq!(out.assignment.slots(), &vec![1, 2, 0]);
    assert_eq!(out.assignment.total(), 2 + 2 + 3);
    assert_eq!(out.report.ranks, vec![Some(2), Some(2), Some(1)]);
    assert_eq!(out.report.histogram, vec![(1, 1), (2, 2)]);
    assert_eq!(out.report.unranked, 0);
}

#[test]
fn a_higher_power_favours_first_choices() {
    // With power 1, giving Alice her second choice and Bob his first (3 + 4)
    // ties with the reverse; with power 3 one first choice and one third
    // choice (64 + 8) beats two second choices (27 + 27).
    let prefs = vec![agent("Alice", &[1, 2, 3, 4]), agent("Bob", &[1, 2, 3, 4])];
    let config = Config::new(Some(1), Some(3), Some(4), false, 2).unwrap();
    let out = assign(&prefs, &config).unwrap();
    assert_eq!(out.assignment.total(), 64 + 27);
    assert_eq!(out.report.histogram, vec![(1, 1), (2, 1)]);
}

#[test]
fn agents_without_a_listed_slot_left_are_unranked() {
    let prefs = vec![agent("Alice", &[1]), agent("Bob", &[1]), agent("Carol", &[1])];
    let config = Config::new(None, None, Some(4), true, 3).unwrap();
    let out = assign(&prefs, &config).unwrap();
    // The first agent keeps slot 1; the others get the lowest free slots.
    assert_eq!(out.assignment.slots(), &vec![0, 1, 2]);
    assert_eq!(out.assignment.total(), 16);
    assert_eq!(out.report.ranks, vec![Some(1), None, None]);
    assert_eq!(out.report.histogram, vec![(1, 1)]);
    assert_eq!(out.report.unranked, 2);
}

#[test]
fn total_is_the_sum_of_the_weights_of_the_ranks_achieved() {
    let prefs = vec![
        agent("Alice", &[2, 5, 1]),
        agent("Bob", &[2, 1]),
        agent("Carol", &[2]),
        agent("Dave", &[5, 2, 3, 4]),
        agent("Erin", &[]),
    ];
    let config = Config::new(Some(3), Some(2), Some(6), false, prefs.len()).unwrap();
    let out = assign(&prefs, &config).unwrap();
    let mut sum: u128 = 0;
    for rank in &out.report.ranks {
        if let Some(r) = rank {
            sum += cost(r - 1, 6, 3, 2).unwrap() as u128;
        }
    }
    assert_eq!(out.report.total, sum);
    assert_eq!(out.assignment.total(), sum);
    let counted: usize = out.report.histogram.iter().map(|(_, count)| count).sum();
    assert_eq!(counted + out.report.unranked, prefs.len());
}

#[test]
fn no_agents_give_an_empty_outcome() {
    let config = Config::new(None, None, Some(3), false, 0).unwrap();
    let out = assign(&Vec::new(), &config).unwrap();
    assert_eq!(out.assignment.slots().len(), 0);
    assert_eq!(out.assignment.total(), 0);
    assert_eq!(out.report.ranks, Vec::new());
    let config = Config::new(None, None, Some(usize::MAX), false, 0).unwrap();
    let out = assign(&Vec::new(), &config).unwrap();
    assert_eq!(out.assignment.slots().len(), 0);
    assert_eq!(out.report.histogram, Vec::new());
    assert_eq!(out.report.total, 0);
}
