//! The configuration of one run.

use crate::error::ConfigurationError;
use vstd::prelude::*;

verus! {

/// The multiplier used where none is given.
pub const DEFAULT_MULT: i64 = 4;

/// The power used where none is given.
pub const DEFAULT_POWER: u32 = 1;

/// The options of one run. The multiplier and the number of slots are positive.
#[derive(Debug, Clone, Copy, PartialEq, Eq)]
pub struct Config {
    mult: i64,
    power: u32,
    num_slots: usize,
    verbose: bool,
}

/// A configuration as a mathematical value.
pub struct ConfigModel {
    pub mult: int,
    pub power: nat,
    pub num_slots: nat,
    pub verbose: bool,
}

impl View for Config {
    type V = ConfigModel;

    closed spec fn view(&self) -> ConfigModel {
        ConfigModel {
            mult: self.mult as int,
            power: self.power as nat,
            num_slots: self.num_slots as nat,
            verbose: self.verbose,
        }
    }
}

impl Config {
    #[verifier::type_invariant]
    spec fn positive(self) -> bool {
        self.mult >= 1 && self.num_slots >= 1
    }

    /// A configuration from the options given; `mult` defaults to
    /// `DEFAULT_MULT`, `power` to `DEFAULT_POWER` and `num_slots` to the number
    /// of agents. A multiplier that is not positive is refused, and then a
    /// number of slots that is zero.
    pub fn new(
        mult: Option<i64>,
        power: Option<u32>,
        num_slots: Option<usize>,
        verbose: bool,
        num_agents: usize,
    ) -> (res: Result<Config, ConfigurationError>)
        ensures
            ({
                let m = if let Some(x) = mult { x } else { DEFAULT_MULT };
                let p = if let Some(x) = power { x } else { DEFAULT_POWER };
                let n = if let Some(x) = num_slots { x } else { num_agents };
                &&& m <= 0 ==> res == Err::<Config, ConfigurationError>(
                    ConfigurationError::NonPositiveMult { mult: m },
                )
                &&& m > 0 && n == 0 ==> res == Err::<Config, ConfigurationError>(
                    ConfigurationError::NonPositiveSlots,
                )
                &&& m > 0 && n > 0 ==> res is Ok && res->Ok_0@ == (ConfigModel {
                    mult: m as int,
                    power: p as nat,
                    num_slots: n as nat,
                    verbose,
                })
            }),
    {
        let m: i64 = match mult {
            Some(x) => x,
            None => DEFAULT_MULT,
        };
        let p: u32 = match power {
            Some(x) => x,
            None => DEFAULT_POWER,
        };
        let n: usize = match num_slots {
            Some(x) => x,
            None => num_agents,
        };
        if m <= 0 {
            return Err(ConfigurationError::NonPositiveMult { mult: m });
        }
        if n == 0 {
            return Err(ConfigurationError::NonPositiveSlots);
        }
        Ok(Config { mult: m, power: p, num_slots: n, verbose })
    }

    /// The multiplier, which is positive.
    pub fn mult(&self) -> (m: i64)
        ensures
            m == self@.mult,
            m >= 1,
    {
        proof {
            use_type_invariant(self);
        }
        self.mult
    }

    /// The power.
    pub fn power(&self) -> (p: u32)
        ensures
            p == self@.power,
    {
        self.power
    }

    /// The number of slots, which is positive.
    pub fn num_slots(&self) -> (n: usize)
        ensures
            n == self@.num_slots,
            n >= 1,
    {
        proof {
            use_type_invariant(self);
        }
        self.num_slots
    }

    /// Whether the report is to show ranks and statistics.
    pub fn verbose(&self) -> (v: bool)
        ensures
            v == self@.verbose,
    {
        self.verbose
    }
}

} // verus!
