//! Agents, their ranked choices, and what makes a preference set well formed.

use crate::error::Violation;
use vstd::prelude::*;

verus! {

/// An agent: its name and the slots it prefers, the most preferred first.
/// Slots are numbered from 1.
#[derive(Debug, PartialEq, Eq)]
pub struct Agent {
    pub name: String,
    pub choices: Vec<usize>,
}

/// An agent as a mathematical value.
pub struct AgentModel {
    pub name: Seq<char>,
    pub choices: Seq<nat>,
}

/// The choices of a list as mathematical values, in their order.
pub open spec fn choices_model(choices: Seq<usize>) -> Seq<nat> {
    Seq::new(choices.len(), |k: int| choices[k] as nat)
}

impl View for Agent {
    type V = AgentModel;

    open spec fn view(&self) -> AgentModel {
        AgentModel { name: self.name@, choices: choices_model(self.choices@) }
    }
}

/// The agents of `prefs` as mathematical values, in their order.
pub open spec fn model_of(prefs: Seq<Agent>) -> Seq<AgentModel> {
    Seq::new(prefs.len(), |i: int| prefs[i]@)
}

/// Every choice names a slot in `1..=num_slots`, and none occurs twice.
pub open spec fn valid_choices(choices: Seq<nat>, num_slots: nat) -> bool {
    &&& forall|k: int| 0 <= k < choices.len() ==> 1 <= #[trigger] choices[k] <= num_slots
    &&& forall|k: int, l: int|
        0 <= k < l < choices.len() ==> #[trigger] choices[k] != #[trigger] choices[l]
}

/// The names are pairwise distinct and every list of choices is valid.
pub open spec fn valid_prefs(prefs: Seq<AgentModel>, num_slots: nat) -> bool {
    &&& forall|i: int, j: int|
        0 <= i < j < prefs.len() ==> (#[trigger] prefs[i]).name != (#[trigger] prefs[j]).name
    &&& forall|i: int| 0 <= i < prefs.len() ==> valid_choices((#[trigger] prefs[i]).choices, num_slots)
}

/// What is wrong with the choice at position `k` of `a`, if anything: it is
/// out of range, or else it repeats an earlier choice of `a`.
pub open spec fn choice_violation(a: AgentModel, k: int, num_slots: nat) -> Option<Violation> {
    let c = a.choices[k];
    if c < 1 || c > num_slots {
        Some(Violation::ChoiceOutOfRange { agent: a.name, choice: c, num_slots })
    } else if exists|l: int| 0 <= l < k && a.choices[l] == c {
        Some(Violation::DuplicateChoice { agent: a.name, choice: c })
    } else {
        None
    }
}

/// The first violation among the choices of `a` at position `from` or later.
pub open spec fn choices_violation(a: AgentModel, from: int, num_slots: nat) -> Option<Violation>
    decreases a.choices.len() - from,
{
    if from < 0 || from >= a.choices.len() {
        None
    } else if choice_violation(a, from, num_slots) is Some {
        choice_violation(a, from, num_slots)
    } else {
        choices_violation(a, from + 1, num_slots)
    }
}

/// What is wrong with agent `i`, if anything: its name repeats that of an
/// earlier agent, or else its choices hold a violation.
pub open spec fn agent_violation(prefs: Seq<AgentModel>, i: int, num_slots: nat) -> Option<
    Violation,
> {
    if exists|h: int| 0 <= h < i && prefs[h].name == prefs[i].name {
        Some(Violation::DuplicateAgent { name: prefs[i].name })
    } else {
        choices_violation(prefs[i], 0, num_slots)
    }
}

/// The first violation among the agents at position `from` or later.
pub open spec fn violation_from(prefs: Seq<AgentModel>, from: int, num_slots: nat) -> Option<
    Violation,
>
    decreases prefs.len() - from,
{
    if from < 0 || from >= prefs.len() {
        None
    } else if agent_violation(prefs, from, num_slots) is Some {
        agent_violation(prefs, from, num_slots)
    } else {
        violation_from(prefs, from + 1, num_slots)
    }
}

/// The first violation met when the agents are scanned in order, and the
/// choices of each in order: for each agent its name first, then each choice
/// for its range and then for repetition.
pub open spec fn first_violation(prefs: Seq<AgentModel>, num_slots: nat) -> Option<Violation> {
    violation_from(prefs, 0, num_slots)
}

proof fn lemma_choices_violation(a: AgentModel, from: int, num_slots: nat)
    requires
        0 <= from,
    ensures
        choices_violation(a, from, num_slots) is None <==> forall|k: int|
            from <= k < a.choices.len() ==> #[trigger] choice_violation(a, k, num_slots) is None,
    decreases a.choices.len() - from,
{
    if from < a.choices.len() {
        lemma_choices_violation(a, from + 1, num_slots);
        if choices_violation(a, from, num_slots) is None {
            assert forall|k: int| from <= k < a.choices.len() implies #[trigger] choice_violation(
                a,
                k,
                num_slots,
            ) is None by {}
        }
    }
}

proof fn lemma_violation_from(prefs: Seq<AgentModel>, from: int, num_slots: nat)
    requires
        0 <= from,
    ensures
        violation_from(prefs, from, num_slots) is None <==> forall|i: int|
            from <= i < prefs.len() ==> #[trigger] agent_violation(prefs, i, num_slots) is None,
    decreases prefs.len() - from,
{
    if from < prefs.len() {
        lemma_violation_from(prefs, from + 1, num_slots);
        if violation_from(prefs, from, num_slots) is None {
            assert forall|i: int| from <= i < prefs.len() implies #[trigger] agent_violation(
                prefs,
                i,
                num_slots,
            ) is None by {}
        }
    }
}

/// A preference set is valid exactly when a scan of it meets no violation.
pub proof fn lemma_valid_iff_no_violation(prefs: Seq<AgentModel>, num_slots: nat)
    ensures
        valid_prefs(prefs, num_slots) <==> first_violation(prefs, num_slots) is None,
{
    lemma_violation_from(prefs, 0, num_slots);
    assert forall|i: int| 0 <= i < prefs.len() implies (choices_violation(prefs[i], 0, num_slots)
        is None <==> valid_choices(prefs[i].choices, num_slots)) by {
        let a = prefs[i];
        lemma_choices_violation(a, 0, num_slots);
        if valid_choices(a.choices, num_slots) {
            assert forall|k: int| 0 <= k < a.choices.len() implies #[trigger] choice_violation(
                a,
                k,
                num_slots,
            ) is None by {
                assert(1 <= a.choices[k] <= num_slots);
            }
        }
        if choices_violation(a, 0, num_slots) is None {
            assert forall|k: int| 0 <= k < a.choices.len() implies 1 <= #[trigger] a.choices[k]
                <= num_slots by {
                assert(choice_violation(a, k, num_slots) is None);
            }
            assert forall|k: int, l: int| 0 <= k < l < a.choices.len() implies #[trigger] a.choices[k]
                != #[trigger] a.choices[l] by {
                assert(choice_violation(a, l, num_slots) is None);
            }
        }
    }
    if valid_prefs(prefs, num_slots) {
        assert forall|i: int| 0 <= i < prefs.len() implies #[trigger] agent_violation(
            prefs,
            i,
            num_slots,
        ) is None by {
            assert(valid_choices(prefs[i].choices, num_slots));
        }
    }
    if first_violation(prefs, num_slots) is None {
        assert forall|i: int, j: int| 0 <= i < j < prefs.len() implies (#[trigger] prefs[i]).name
            != (#[trigger] prefs[j]).name by {
            assert(agent_violation(prefs, j, num_slots) is None);
        }
        assert forall|i: int| 0 <= i < prefs.len() implies valid_choices(
            (#[trigger] prefs[i]).choices,
            num_slots,
        ) by {
            assert(agent_violation(prefs, i, num_slots) is None);
        }
    }
}

/// `v` names a defect that `prefs` has: two agents of one name, or an agent
/// with a choice outside `1..=num_slots`, or an agent with one choice at two
/// positions.
pub open spec fn violation_holds(prefs: Seq<AgentModel>, num_slots: nat, v: Violation) -> bool {
    match v {
        Violation::DuplicateAgent { name } => exists|i: int, j: int|
            #![trigger prefs[i], prefs[j]]
            0 <= i < j < prefs.len() && prefs[i].name == name && prefs[j].name == name,
        Violation::ChoiceOutOfRange { agent, choice, num_slots: bound } => {
            &&& bound == num_slots
            &&& choice < 1 || choice > num_slots
            &&& exists|i: int, k: int|
                0 <= i < prefs.len() && 0 <= k < prefs[i].choices.len() && prefs[i].name == agent
                    && #[trigger] prefs[i].choices[k] == choice
        },
        Violation::DuplicateChoice { agent, choice } => exists|i: int, k: int, l: int|
            0 <= i < prefs.len() && 0 <= k < l < prefs[i].choices.len() && prefs[i].name == agent
                && #[trigger] prefs[i].choices[k] == choice && #[trigger] prefs[i].choices[l]
                == choice,
    }
}

proof fn lemma_choices_violation_at(a: AgentModel, from: int, num_slots: nat) -> (k: int)
    requires
        0 <= from,
        choices_violation(a, from, num_slots) is Some,
    ensures
        from <= k < a.choices.len(),
        choice_violation(a, k, num_slots) == choices_violation(a, from, num_slots),
    decreases a.choices.len() - from,
{
    if choice_violation(a, from, num_slots) is Some {
        from
    } else {
        lemma_choices_violation_at(a, from + 1, num_slots)
    }
}

proof fn lemma_violation_at(prefs: Seq<AgentModel>, from: int, num_slots: nat) -> (i: int)
    requires
        0 <= from,
        violation_from(prefs, from, num_slots) is Some,
    ensures
        from <= i < prefs.len(),
        agent_violation(prefs, i, num_slots) == violation_from(prefs, from, num_slots),
    decreases prefs.len() - from,
{
    if agent_violation(prefs, from, num_slots) is Some {
        from
    } else {
        lemma_violation_at(prefs, from + 1, num_slots)
    }
}

/// The violation that a scan reports is a defect of the kind that it names:
/// a reported name does occur twice, a reported choice is listed by the
/// agent named and is out of range, or is listed twice by that agent.
pub proof fn lemma_first_violation_holds(prefs: Seq<AgentModel>, num_slots: nat)
    ensures
        first_violation(prefs, num_slots) matches Some(v) ==> violation_holds(prefs, num_slots, v),
{
    if first_violation(prefs, num_slots) is Some {
        let i = lemma_violation_at(prefs, 0, num_slots);
        if exists|h: int| 0 <= h < i && prefs[h].name == prefs[i].name {
            let h = choose|h: int| 0 <= h < i && prefs[h].name == prefs[i].name;
            assert(0 <= h < i < prefs.len() && prefs[h].name == prefs[i].name && prefs[i].name
                == prefs[i].name);
        } else {
            let a = prefs[i];
            let k = lemma_choices_violation_at(a, 0, num_slots);
            let c = a.choices[k];
            if c < 1 || c > num_slots {
                assert(0 <= i < prefs.len() && 0 <= k < prefs[i].choices.len() && prefs[i].name
                    == a.name && prefs[i].choices[k] == c);
            } else {
                let l = choose|l: int| 0 <= l < k && a.choices[l] == c;
                assert(0 <= i < prefs.len() && 0 <= l < k < prefs[i].choices.len() && prefs[i].name
                    == a.name && prefs[i].choices[l] == c && prefs[i].choices[k] == c);
            }
        }
    }
}

} // verus!
