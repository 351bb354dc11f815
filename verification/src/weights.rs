//! The weight matrix builder: from preferences and the cost model to the
//! matrix that the solver works on.

use crate::config::{Config, ConfigModel};
use crate::cost::{cost, cost_spec};
use crate::error::ConfigurationError;
use crate::matching::lemma_distinct_bounded;
use crate::matrix::{max_entries, WeightMatrix};
use crate::prefs::{model_of, valid_choices, valid_prefs, Agent, AgentModel};
use vstd::arithmetic::power::lemma_pow_positive;
use vstd::prelude::*;

verus! {

/// The 0-based rank at which `choices` lists `slot`, if it does.
pub open spec fn rank_of(choices: Seq<nat>, slot: nat) -> Option<int> {
    choices.index_of_first(slot)
}

/// The weight for agent `a` of the slot of 0-based column `column`: the cost of
/// its rank where `a` lists the slot, and zero where it does not.
pub open spec fn weight_of(a: AgentModel, column: int, c: ConfigModel) -> int {
    match rank_of(a.choices, (column + 1) as nat) {
        Some(k) => cost_spec(k as nat, c.num_slots, c.mult, c.power),
        None => 0,
    }
}

/// The weight matrix of `prefs`: a row per agent, a column per slot.
pub open spec fn weights_of(prefs: Seq<AgentModel>, c: ConfigModel) -> Seq<Seq<int>> {
    Seq::new(prefs.len(), |i: int| Seq::new(c.num_slots, |j: int| weight_of(prefs[i], j, c)))
}

/// Some agent lists a choice at a rank whose weight exceeds 63 bits.
pub open spec fn weight_overflows(prefs: Seq<AgentModel>, c: ConfigModel) -> bool {
    exists|i: int, k: int|
        0 <= i < prefs.len() && 0 <= k < prefs[i].choices.len() && #[trigger] overflows_at(
            prefs,
            c,
            i,
            k,
        )
}

/// The weight of rank `k` exceeds 63 bits. It does not depend on the agent `i`.
pub open spec fn overflows_at(prefs: Seq<AgentModel>, c: ConfigModel, i: int, k: int) -> bool {
    cost_spec(k as nat, c.num_slots, c.mult, c.power) > i64::MAX
}

/// Why `prefs` has no weight matrix under `c`, if it has none: there are more
/// agents than slots, or else the matrix would have more entries than can be
/// addressed, or else a weight exceeds 63 bits.
pub open spec fn weights_failure(prefs: Seq<AgentModel>, c: ConfigModel) -> Option<
    ConfigurationError,
> {
    if prefs.len() > c.num_slots {
        Some(
            ConfigurationError::InsufficientSlots {
                agents: prefs.len() as usize,
                slots: c.num_slots as usize,
            },
        )
    } else if prefs.len() * c.num_slots > max_entries() {
        Some(
            ConfigurationError::MatrixTooLarge {
                agents: prefs.len() as usize,
                slots: c.num_slots as usize,
            },
        )
    } else if weight_overflows(prefs, c) {
        Some(ConfigurationError::WeightOverflow)
    } else {
        None
    }
}

/// A valid list of choices is no longer than there are slots.
pub proof fn lemma_valid_choices_len(choices: Seq<nat>, num_slots: nat)
    requires
        valid_choices(choices, num_slots),
    ensures
        choices.len() <= num_slots,
{
    let s = Seq::new(choices.len(), |k: int| choices[k] as int);
    assert forall|k: int, l: int| 0 <= k < l < s.len() implies #[trigger] s[k] != #[trigger] s[l] by {
        assert(choices[k] != choices[l]);
    }
    assert forall|k: int| 0 <= k < s.len() implies 1 <= #[trigger] s[k] < num_slots + 1 by {
        assert(1 <= choices[k] <= num_slots);
    }
    lemma_distinct_bounded(s, 1, num_slots as int + 1);
}

/// The weight of a rank below the number of slots is positive when the
/// multiplier is.
pub proof fn lemma_cost_positive(rank: nat, num_slots: nat, mult: int, power: nat)
    requires
        rank < num_slots,
        mult >= 1,
    ensures
        cost_spec(rank, num_slots, mult, power) >= 1,
{
    assert((num_slots - rank) * mult >= 1) by (nonlinear_arith)
        requires
            num_slots - rank >= 1,
            mult >= 1,
    ;
    lemma_pow_positive((num_slots - rank) * mult, power);
}

/// The weight matrix of `prefs` under `config`: all zero, but for the cost of
/// its rank at each slot that an agent lists.
///
/// It fails where there are more agents than slots, else where the matrix
/// would have more entries than can be addressed, else where a weight
/// exceeds 63 bits.
pub fn build_weights(prefs: &Vec<Agent>, config: &Config) -> (res: Result<
    WeightMatrix,
    ConfigurationError,
>)
    requires
        valid_prefs(model_of(prefs@), config@.num_slots),
    ensures
        config@.mult >= 1,
        config@.num_slots >= 1,
        match res {
            Ok(w) => {
                &&& weights_failure(model_of(prefs@), config@) is None
                &&& w@ == weights_of(model_of(prefs@), config@)
                &&& w.spec_cols() == config@.num_slots
            },
            Err(e) => weights_failure(model_of(prefs@), config@) == Some(e),
        },
{
    let n: usize = config.num_slots();
    let mult: i64 = config.mult();
    let power: u32 = config.power();
    let rows: usize = prefs.len();
    let ghost model = model_of(prefs@);
    let ghost cfg = config@;
    let mut m = match WeightMatrix::new(rows, n) {
        Ok(m) => m,
        Err(e) => {
            return Err(e);
        },
    };
    proof {
        m.lemma_shape();
    }
    let mut i: usize = 0;
    while i < rows
        invariant
            i <= rows,
            rows == prefs@.len(),
            rows <= n,
            rows * n <= max_entries(),
            model == model_of(prefs@),
            cfg == config@,
            cfg.num_slots == n,
            cfg.mult == mult,
            cfg.power == power,
            mult >= 1,
            valid_prefs(model, n as nat),
            m@.len() == rows,
            m.spec_cols() == n,
            forall|a: int| 0 <= a < rows ==> (#[trigger] m@[a]).len() == n,
            forall|a: int, j: int|
                0 <= a < i && 0 <= j < n ==> #[trigger] m@[a][j] == weight_of(model[a], j, cfg),
            forall|a: int, j: int| i <= a < rows && 0 <= j < n ==> #[trigger] m@[a][j] == 0,
            forall|a: int, k: int|
                0 <= a < i && 0 <= k < model[a].choices.len() ==> !#[trigger] overflows_at(
                    model,
                    cfg,
                    a,
                    k,
                ),
        decreases rows - i,
    {
        let agent = &prefs[i];
        let ghost choices = model[i as int].choices;
        let ghost outer = m@;
        proof {
            assert(model[i as int] == agent@);
            assert(valid_choices(choices, n as nat));
            lemma_valid_choices_len(choices, n as nat);
            m.lemma_shape();
        }
        let mut k: usize = 0;
        while k < agent.choices.len()
            invariant
                k <= agent.choices.len(),
                i < rows,
                rows == prefs@.len(),
                rows <= n,
                rows * n <= max_entries(),
                agent == prefs@[i as int],
                model == model_of(prefs@),
                choices == model[i as int].choices,
                choices.len() == agent.choices@.len(),
                choices.len() <= n,
                valid_choices(choices, n as nat),
                cfg == config@,
                cfg.num_slots == n,
                cfg.mult == mult,
                cfg.power == power,
                mult >= 1,
                m@.len() == rows,
                m.spec_cols() == n,
                outer.len() == rows,
                forall|a: int| 0 <= a < rows && a != i ==> #[trigger] m@[a] == outer[a],
                m@[i as int].len() == n,
                forall|l: int|
                    0 <= l < k ==> m@[i as int][#[trigger] choices[l] - 1] == cost_spec(
                        l as nat,
                        n as nat,
                        mult as int,
                        power as nat,
                    ),
                forall|j: int|
                    0 <= j < n && (forall|l: int| 0 <= l < k ==> #[trigger] choices[l] != j + 1)
                        ==> #[trigger] m@[i as int][j] == 0,
                forall|l: int| 0 <= l < k ==> !#[trigger] overflows_at(model, cfg, i as int, l),
            decreases agent.choices.len() - k,
        {
            let c: usize = agent.choices[k];
            proof {
                assert(choices[k as int] == c);
                assert(1 <= choices[k as int] <= n);
                lemma_cost_positive(k as nat, n as nat, mult as int, power as nat);
            }
            let x: u64 = match cost(k, n, mult, power) {
                Some(x) => x as u64,
                None => {
                    proof {
                        assert(overflows_at(model, cfg, i as int, k as int));
                    }
                    return Err(ConfigurationError::WeightOverflow);
                },
            };
            let ghost prev = m@;
            m = m.with(i, c - 1, x);
            proof {
                assert forall|l: int| 0 <= l < k + 1 implies m@[i as int][#[trigger] choices[l] - 1]
                    == cost_spec(l as nat, n as nat, mult as int, power as nat) by {
                    if l < k {
                        assert(choices[l] != choices[k as int]);
                        assert(1 <= choices[l] <= n);
                    }
                }
                assert forall|j: int|
                    0 <= j < n && (forall|l: int| 0 <= l < k + 1 ==> #[trigger] choices[l] != j + 1)
                    implies #[trigger] m@[i as int][j] == 0 by {
                    assert(choices[k as int] != j + 1);
                    assert forall|l: int| 0 <= l < k implies #[trigger] choices[l] != j + 1 by {}
                    assert(prev[i as int][j] == 0);
                }
            }
            k = k + 1;
        }
        proof {
            m.lemma_shape();
            assert forall|j: int| 0 <= j < n implies #[trigger] m@[i as int][j] == weight_of(
                model[i as int],
                j,
                cfg,
            ) by {
                choices.index_of_first_ensures((j + 1) as nat);
                match rank_of(choices, (j + 1) as nat) {
                    Some(idx) => {
                        assert(choices[idx] - 1 == j);
                    },
                    None => {
                        assert forall|l: int| 0 <= l < k implies #[trigger] choices[l] != j + 1 by {
                            if choices[l] == j + 1 {
                                assert(choices.contains((j + 1) as nat));
                            }
                        }
                    },
                }
            }
        }
        i = i + 1;
    }
    proof {
        m.lemma_shape();
        let target = weights_of(model, cfg);
        assert(m@.len() == target.len());
        assert forall|a: int| 0 <= a < rows implies #[trigger] m@[a] =~= target[a] by {
            assert forall|j: int| 0 <= j < n implies m@[a][j] == target[a][j] by {
                assert(m@[a][j] == weight_of(model[a], j, cfg));
            }
        }
        assert(m@ =~= target);
        assert(!weight_overflows(model, cfg));
    }
    Ok(m)
}

} // verus!
