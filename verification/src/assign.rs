//! The whole computation: validate the preferences, build the weight matrix,
//! solve the assignment, and report on it.

use crate::config::{Config, ConfigModel};
use crate::error::{ConfigurationError, ValidationError};
use crate::matching::{assignment_weight, is_optimal, total};
use crate::method::solution;
use crate::prefs::{first_violation, model_of, Agent, AgentModel};
use crate::report::{
    achieved_ranks, achieved_weight, is_histogram, lemma_total_is_sum_of_achieved, occurrences, report,
    Report, ReportModel,
};
use crate::solver::{solve, Assignment, AssignmentModel};
use crate::validate::check_prefs;
use crate::weights::{build_weights, weights_failure, weights_of};
use vstd::prelude::*;

verus! {

/// Why no assignment was computed.
#[derive(Debug, PartialEq, Eq)]
pub enum AssignError {
    /// The preferences are not well formed.
    Validation(ValidationError),
    /// The preferences are well formed, but the configuration does not fit them.
    Configuration(ConfigurationError),
}

/// An optimal assignment and the report on it.
#[derive(Debug)]
pub struct Outcome {
    pub assignment: Assignment,
    pub report: Report,
}

/// `a` is the assignment that the method finds for `prefs` under `c`, and `r`
/// is the report on it: the slots are distinct, no assignment weighs more, the
/// total is the weight of the assignment and the sum of the weights of the
/// ranks achieved, and the ranks and statistics are those of `a`.
pub open spec fn is_outcome(
    prefs: Seq<AgentModel>,
    c: ConfigModel,
    a: AssignmentModel,
    r: ReportModel,
) -> bool {
    &&& a.slots == solution(weights_of(prefs, c), c.num_slots)
    &&& is_optimal(weights_of(prefs, c), c.num_slots, a.slots)
    &&& a.total == assignment_weight(weights_of(prefs, c), a.slots)
    &&& r.ranks == achieved_ranks(prefs, a.slots)
    &&& r.unranked == occurrences(r.ranks, None)
    &&& is_histogram(r.histogram, r.ranks)
    &&& r.total == a.total
    &&& r.total == total(Seq::new(prefs.len(), |i: int| achieved_weight(r.ranks[i], c)))
}

/// Assigns each agent of `prefs` a slot of its own so that the total
/// satisfaction is as large as it can be.
///
/// The preferences are validated first, and the first violation is the
/// error. Then the weight matrix is built, which fails where the
/// configuration does not fit the preferences. Else the result is an optimal
/// assignment and its report.
pub fn assign(prefs: &Vec<Agent>, config: &Config) -> (res: Result<Outcome, AssignError>)
    ensures
        match res {
            Err(AssignError::Validation(e)) => first_violation(
                model_of(prefs@),
                config@.num_slots,
            ) == Some(e@),
            Err(AssignError::Configuration(e)) => {
                &&& first_violation(model_of(prefs@), config@.num_slots) is None
                &&& weights_failure(model_of(prefs@), config@) == Some(e)
            },
            Ok(out) => {
                &&& first_violation(model_of(prefs@), config@.num_slots) is None
                &&& weights_failure(model_of(prefs@), config@) is None
                &&& is_outcome(model_of(prefs@), config@, out.assignment@, out.report@)
            },
        },
{
    let n: usize = config.num_slots();
    match check_prefs(prefs, n) {
        Err(e) => {
            return Err(AssignError::Validation(e));
        },
        Ok(_) => {},
    }
    let w = match build_weights(prefs, config) {
        Err(e) => {
            return Err(AssignError::Configuration(e));
        },
        Ok(w) => w,
    };
    let assignment = solve(&w);
    let report = report(prefs, &assignment);
    proof {
        lemma_total_is_sum_of_achieved(model_of(prefs@), config@, assignment@.slots);
        assert(Seq::new(
            prefs@.len(),
            |i: int| achieved_weight(achieved_ranks(model_of(prefs@), assignment@.slots)[i], config@),
        ) =~= Seq::new(prefs@.len(), |i: int| achieved_weight(report@.ranks[i], config@)));
    }
    Ok(Outcome { assignment, report })
}

} // verus!
