//! The errors that the library reports, and their mathematical models.

use vstd::prelude::*;

verus! {

/// A violation of the well-formedness rules of a preference set, as a
/// mathematical value.
pub enum Violation {
    /// The name occurs a second time.
    DuplicateAgent { name: Seq<char> },
    /// The agent lists a choice outside `1..=num_slots`.
    ChoiceOutOfRange { agent: Seq<char>, choice: nat, num_slots: nat },
    /// The agent lists the choice a second time.
    DuplicateChoice { agent: Seq<char>, choice: nat },
}

/// Why a preference set was rejected.
#[derive(Debug, PartialEq, Eq)]
pub enum ValidationError {
    /// Two agents share this name.
    DuplicateAgent { name: String },
    /// `agent` lists `choice`, which is not in `1..=num_slots`.
    ChoiceOutOfRange { agent: String, choice: usize, num_slots: usize },
    /// `agent` lists `choice` twice.
    DuplicateChoice { agent: String, choice: usize },
}

impl View for ValidationError {
    type V = Violation;

    open spec fn view(&self) -> Violation {
        match *self {
            ValidationError::DuplicateAgent { name } => Violation::DuplicateAgent { name: name@ },
            ValidationError::ChoiceOutOfRange { agent, choice, num_slots } => {
                Violation::ChoiceOutOfRange {
                    agent: agent@,
                    choice: choice as nat,
                    num_slots: num_slots as nat,
                }
            },
            ValidationError::DuplicateChoice { agent, choice } => Violation::DuplicateChoice {
                agent: agent@,
                choice: choice as nat,
            },
        }
    }
}

/// Why a configuration cannot be used.
#[derive(Debug, Clone, Copy, PartialEq, Eq, Structural)]
pub enum ConfigurationError {
    /// The number of slots is zero.
    NonPositiveSlots,
    /// The multiplier is zero or negative.
    NonPositiveMult { mult: i64 },
    /// There are more agents than slots, so no assignment exists.
    InsufficientSlots { agents: usize, slots: usize },
    /// Some weight `((num_slots - rank) * mult) ^ power` does not fit in 63 bits.
    WeightOverflow,
    /// The weight matrix would have more entries than can be allocated.
    MatrixTooLarge { agents: usize, slots: usize },
}

/// Why the input is not a table of agents.
#[derive(Debug, PartialEq, Eq)]
pub enum InputError {
    /// The input is not a table that the CSV reader accepts; `message` is the
    /// reader's own description of what it met.
    Malformed { message: String },
    /// Row `row` has no agent name: it has no field, or its first field is empty.
    MissingName { row: usize },
    /// Field `field` of row `row` is not a decimal integer that fits in `usize`.
    BadChoice { row: usize, field: usize },
}

} // verus!
