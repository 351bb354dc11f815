//! The preference validator.

use crate::error::{ValidationError, Violation};
use crate::prefs::{
    agent_violation, choice_violation, choices_violation, first_violation,
    lemma_valid_iff_no_violation, model_of, valid_prefs, violation_from, Agent,
};
use std::collections::BTreeSet;
use vstd::prelude::*;

verus! {

/// Checks that `prefs` is well formed for `num_choices` slots: no name occurs
/// twice, every choice lies in `1..=num_choices`, and no agent lists a choice
/// twice. The agents are scanned in order, and the error is the first
/// violation met.
pub fn check_prefs(prefs: &Vec<Agent>, num_choices: usize) -> (res: Result<(), ValidationError>)
    ensures
        res is Ok <==> valid_prefs(model_of(prefs@), num_choices as nat),
        match res {
            Ok(_) => first_violation(model_of(prefs@), num_choices as nat) is None,
            Err(e) => first_violation(model_of(prefs@), num_choices as nat) == Some(e@),
        },
{
    let ghost model = model_of(prefs@);
    proof {
        lemma_valid_iff_no_violation(model, num_choices as nat);
    }
    let mut i: usize = 0;
    while i < prefs.len()
        invariant
            i <= prefs.len(),
            model == model_of(prefs@),
            valid_prefs(model, num_choices as nat) <==> first_violation(model, num_choices as nat)
                is None,
            first_violation(model, num_choices as nat) == violation_from(
                model,
                i as int,
                num_choices as nat,
            ),
        decreases prefs.len() - i,
    {
        let agent = &prefs[i];
        assert(model[i as int] == agent@);
        let mut h: usize = 0;
        while h < i
            invariant
                h <= i < prefs.len(),
                model == model_of(prefs@),
                agent == prefs@[i as int],
                valid_prefs(model, num_choices as nat) <==> first_violation(model, num_choices as nat)
                    is None,
                first_violation(model, num_choices as nat) == violation_from(
                    model,
                    i as int,
                    num_choices as nat,
                ),
                forall|g: int| 0 <= g < h ==> (#[trigger] model[g]).name != model[i as int].name,
            decreases i - h,
        {
            assert(model[h as int] == prefs@[h as int]@);
            if prefs[h].name == agent.name {
                assert(model[h as int].name == model[i as int].name);
                return Err(ValidationError::DuplicateAgent { name: agent.name.clone() });
            }
            h = h + 1;
        }
        let mut seen: BTreeSet<usize> = BTreeSet::new();
        let mut k: usize = 0;
        while k < agent.choices.len()
            invariant
                k <= agent.choices.len(),
                i < prefs.len(),
                model == model_of(prefs@),
                agent == prefs@[i as int],
                valid_prefs(model, num_choices as nat) <==> first_violation(model, num_choices as nat)
                    is None,
                agent_violation(model, i as int, num_choices as nat) == choices_violation(
                    agent@,
                    k as int,
                    num_choices as nat,
                ),
                first_violation(model, num_choices as nat) == violation_from(
                    model,
                    i as int,
                    num_choices as nat,
                ),
                forall|x: usize|
                    seen@.contains(x) <==> exists|l: int| 0 <= l < k && agent.choices@[l] == x,
            decreases agent.choices.len() - k,
        {
            let c: usize = agent.choices[k];
            assert(agent@.choices[k as int] == c);
            if c < 1 || c > num_choices {
                return Err(
                    ValidationError::ChoiceOutOfRange {
                        agent: agent.name.clone(),
                        choice: c,
                        num_slots: num_choices,
                    },
                );
            }
            if seen.contains(&c) {
                proof {
                    let l = choose|l: int| 0 <= l < k && agent.choices@[l] == c;
                    assert(agent@.choices[l] == c);
                }
                return Err(ValidationError::DuplicateChoice { agent: agent.name.clone(), choice: c });
            }
            proof {
                assert(choice_violation(agent@, k as int, num_choices as nat) is None) by {
                    if exists|l: int| 0 <= l < k && agent@.choices[l] == c as nat {
                        let l = choose|l: int| 0 <= l < k && agent@.choices[l] == c as nat;
                        assert(agent.choices@[l] == c);
                    }
                }
            }
            seen.insert(c);
            proof {
                assert forall|x: usize|
                    seen@.contains(x) <==> exists|l: int| 0 <= l < k + 1 && agent.choices@[l] == x by {
                    if exists|l: int| 0 <= l < k + 1 && agent.choices@[l] == x {
                        let l = choose|l: int| 0 <= l < k + 1 && agent.choices@[l] == x;
                        assert(l < k || x == c);
                    }
                    if seen@.contains(x) && x != c {
                        let l = choose|l: int| 0 <= l < k && agent.choices@[l] == x;
                        assert(0 <= l < k + 1 && agent.choices@[l] == x);
                    }
                    if x == c {
                        assert(agent.choices@[k as int] == x);
                    }
                }
            }
            k = k + 1;
        }
        i = i + 1;
    }
    Ok(())
}

} // verus!
