use assignments::config::{Config, DEFAULT_MULT, DEFAULT_POWER};
use assignments::error::ConfigurationError;

#[test]
fn defaults_are_four_and_one_and_the_number_of_agents() {
    let c = Config::new(None, None, None, false, 7).unwrap();
    assert_eq!(c.mult(), 4);
    assert_eq!(c.power(), 1);
    assert_eq!(c.num_slots(), 7);
    assert!(!c.verbose());
    assert_eq!(DEFAULT_MULT, 4);
    assert_eq!(DEFAULT_POWER, 1);
}

#[test]
fn given_options_are_kept() {
    let c = Config::new(Some(3), Some(0), Some(12), true, 7).unwrap();
    assert_eq!(c.mult(), 3);
    assert_eq!(c.power(), 0);
    assert_eq!(c.num_slots(), 12);
    assert!(c.verbose());
}

#[test]
fn rejects_non_positive_mult() {
    assert_eq!(
        Config::new(Some(0), None, None, false, 3),
        Err(ConfigurationError::NonPositiveMult { mult: 0 })
    );
    assert_eq!(
        Config::new(Some(-5), Some(2), Some(3), true, 3),
        Err(ConfigurationError::NonPositiveMult { mult: -5 })
    );
}

#[test]
fn rejects_zero_slots() {
    assert_eq!(Config::new(None, None, Some(0), false, 3), Err(ConfigurationError::NonPositiveSlots));
    assert_eq!(Config::new(None, None, None, false, 0), Err(ConfigurationError::NonPositiveSlots));
}

#[test]
fn mult_is_judged_before_slots() {
    assert_eq!(
        Config::new(Some(0), None, Some(0), false, 0),
        Err(ConfigurationError::NonPositiveMult { mult: 0 })
    );
}
