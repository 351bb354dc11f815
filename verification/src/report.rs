//! The reporter: the rank that each agent achieved, and the statistics of
//! an assignment.

use crate::config::ConfigModel;
use crate::cost::cost_spec;
use crate::matching::{assignment_weight, selected, total};
use crate::prefs::{choices_model, model_of, Agent, AgentModel};
use crate::solver::{ints, Assignment};
use crate::weights::{rank_of, weight_of, weights_of};
use vstd::prelude::*;

verus! {

/// What an assignment means for the agents.
#[derive(Debug, PartialEq, Eq)]
pub struct Report {
    /// For each agent, the 1-based rank of its slot in its own list, or `None`
    /// where the agent did not list the slot.
    pub ranks: Vec<Option<usize>>,
    /// For each rank that some agent achieved, the rank and the number of
    /// agents that achieved it, by increasing rank.
    pub histogram: Vec<(usize, usize)>,
    /// The number of agents whose slot is not in their list.
    pub unranked: usize,
    /// The total satisfaction: the weight of the assignment.
    pub total: u128,
}

/// A report as a mathematical value.
pub struct ReportModel {
    pub ranks: Seq<Option<nat>>,
    pub histogram: Seq<(nat, nat)>,
    pub unranked: nat,
    pub total: int,
}

/// The ranks of `ranks` as mathematical values.
pub open spec fn ranks_model(ranks: Seq<Option<usize>>) -> Seq<Option<nat>> {
    Seq::new(
        ranks.len(),
        |i: int|
            match ranks[i] {
                Some(r) => Some(r as nat),
                None => None,
            },
    )
}

impl View for Report {
    type V = ReportModel;

    open spec fn view(&self) -> ReportModel {
        ReportModel {
            ranks: ranks_model(self.ranks@),
            histogram: Seq::new(
                self.histogram@.len(),
                |a: int| (self.histogram@[a].0 as nat, self.histogram@[a].1 as nat),
            ),
            unranked: self.unranked as nat,
            total: self.total as int,
        }
    }
}

/// The 1-based rank at which `choices` lists the slot numbered `slot`, if it does.
pub open spec fn achieved_rank(choices: Seq<nat>, slot: nat) -> Option<nat> {
    match rank_of(choices, slot) {
        Some(k) => Some((k + 1) as nat),
        None => None,
    }
}

/// The rank that each agent achieves when agent `i` gets the slot of 0-based
/// column `slots[i]`.
pub open spec fn achieved_ranks(prefs: Seq<AgentModel>, slots: Seq<int>) -> Seq<Option<nat>> {
    Seq::new(prefs.len(), |i: int| achieved_rank(prefs[i].choices, (slots[i] + 1) as nat))
}

/// The number of entries of `s` that equal `x`.
pub open spec fn occurrences(s: Seq<Option<nat>>, x: Option<nat>) -> nat
    decreases s.len(),
{
    if s.len() == 0 {
        0
    } else {
        occurrences(s.drop_last(), x) + if s.last() == x {
            1nat
        } else {
            0nat
        }
    }
}

/// `h` lists, by increasing rank, each rank that occurs in `ranks` with the
/// number of its occurrences, and no other rank.
pub open spec fn is_histogram(h: Seq<(nat, nat)>, ranks: Seq<Option<nat>>) -> bool {
    &&& forall|a: int, b: int| 0 <= a < b < h.len() ==> (#[trigger] h[a]).0 < (#[trigger] h[b]).0
    &&& forall|a: int|
        0 <= a < h.len() ==> (#[trigger] h[a]).1 > 0 && h[a].1 == occurrences(ranks, Some(h[a].0))
    &&& forall|r: nat| #[trigger]
        occurrences(ranks, Some(r)) > 0 ==> exists|a: int| 0 <= a < h.len() && (#[trigger] h[a]).0 == r
}

/// The weight that an agent gets from the rank it achieved.
pub open spec fn achieved_weight(rank: Option<nat>, c: ConfigModel) -> int {
    match rank {
        Some(r) => cost_spec((r - 1) as nat, c.num_slots, c.mult, c.power),
        None => 0,
    }
}

/// The weight of an assignment under the weight matrix of `prefs` is the sum,
/// over the agents, of the weight of the rank that each achieved.
pub proof fn lemma_total_is_sum_of_achieved(prefs: Seq<AgentModel>, c: ConfigModel, slots: Seq<int>)
    requires
        slots.len() == prefs.len(),
        forall|i: int| 0 <= i < slots.len() ==> 0 <= #[trigger] slots[i] < c.num_slots,
    ensures
        assignment_weight(weights_of(prefs, c), slots) == total(
            Seq::new(
                prefs.len(),
                |i: int| achieved_weight(achieved_ranks(prefs, slots)[i], c),
            ),
        ),
{
    let a = selected(weights_of(prefs, c), slots);
    let b = Seq::new(prefs.len(), |i: int| achieved_weight(achieved_ranks(prefs, slots)[i], c));
    assert forall|i: int| 0 <= i < prefs.len() implies a[i] == b[i] by {
        assert(0 <= slots[i] < c.num_slots);
        assert(weights_of(prefs, c)[i][slots[i]] == weight_of(prefs[i], slots[i], c));
        prefs[i].choices.index_of_first_ensures((slots[i] + 1) as nat);
    }
    assert(a =~= b);
}

/// No value occurs in a sequence more often than the sequence is long, and a
/// value that occurs in it stands at some position.
pub proof fn lemma_occurrences(s: Seq<Option<nat>>, x: Option<nat>)
    ensures
        occurrences(s, x) <= s.len(),
        occurrences(s, x) > 0 ==> exists|i: int| 0 <= i < s.len() && s[i] == x,
    decreases s.len(),
{
    if s.len() > 0 {
        lemma_occurrences(s.drop_last(), x);
        if occurrences(s, x) > 0 {
            if s.last() == x {
                assert(s[s.len() - 1] == x);
            } else {
                let i = choose|i: int| 0 <= i < s.drop_last().len() && s.drop_last()[i] == x;
                assert(s[i] == x);
            }
        }
    }
}

/// The 1-based rank at which `choices` lists the slot of 0-based column
/// `column`, if it does.
pub fn rank_in(choices: &Vec<usize>, column: usize) -> (res: Option<usize>)
    ensures
        match res {
            Some(r) => achieved_rank(choices_model(choices@), (column + 1) as nat) == Some(r as nat),
            None => achieved_rank(choices_model(choices@), (column + 1) as nat) is None,
        },
{
    let ghost list = choices_model(choices@);
    let ghost slot = (column + 1) as nat;
    proof {
        list.index_of_first_ensures(slot);
    }
    let mut k: usize = 0;
    while k < choices.len()
        invariant
            k <= choices.len(),
            list == choices_model(choices@),
            slot == column + 1,
            forall|l: int| 0 <= l < k ==> #[trigger] list[l] != slot,
            match list.index_of_first(slot) {
                Some(index) => {
                    &&& 0 <= index < list.len()
                    &&& list[index] == slot
                    &&& forall|j: int| 0 <= j < index < list.len() ==> list[j] != slot
                },
                None => !list.contains(slot),
            },
        decreases choices.len() - k,
    {
        let c: usize = choices[k];
        assert(list[k as int] == c);
        if c >= 1 && c - 1 == column {
            assert(list.contains(slot));
            return Some(k + 1);
        }
        k = k + 1;
    }
    proof {
        if list.index_of_first(slot) is Some {
            let index = list.index_of_first(slot)->Some_0;
            assert(list[index] != slot);
        }
    }
    None
}

/// The report of `assignment` for `prefs`: the rank that each agent achieved,
/// how many agents achieved each rank, how many got a slot that they did not
/// list, and the total satisfaction.
pub fn report(prefs: &Vec<Agent>, assignment: &Assignment) -> (res: Report)
    requires
        assignment@.slots.len() == prefs@.len(),
    ensures
        res@.ranks == achieved_ranks(model_of(prefs@), assignment@.slots),
        res@.unranked == occurrences(res@.ranks, None),
        is_histogram(res@.histogram, res@.ranks),
        res@.total == assignment@.total,
{
    let slots = assignment.slots();
    let ghost model = model_of(prefs@);
    let ghost target = achieved_ranks(model, assignment@.slots);
    let rows: usize = prefs.len();
    let mut ranks: Vec<Option<usize>> = Vec::new();
    let mut unranked: usize = 0;
    let mut span: usize = 0;
    let mut i: usize = 0;
    while i < rows
        invariant
            i <= rows,
            rows == prefs@.len(),
            slots@.len() == rows,
            ints(slots@) == assignment@.slots,
            model == model_of(prefs@),
            target == achieved_ranks(model, assignment@.slots),
            ranks@.len() == i,
            ranks_model(ranks@) == target.take(i as int),
            unranked == occurrences(target.take(i as int), None),
            forall|a: int| 0 <= a < i ==> (#[trigger] target[a] matches Some(r) ==> 1 <= r <= span),
        decreases rows - i,
    {
        let rank = rank_in(&prefs[i].choices, slots[i]);
        proof {
            assert(model[i as int] == prefs@[i as int]@);
            assert(ints(slots@)[i as int] == slots@[i as int]);
            assert(target[i as int] == achieved_rank(
                model[i as int].choices,
                (assignment@.slots[i as int] + 1) as nat,
            ));
            model[i as int].choices.index_of_first_ensures((assignment@.slots[i as int] + 1) as nat);
            assert(target.take(i + 1).drop_last() =~= target.take(i as int));
            lemma_occurrences(target.take(i as int), None);
        }
        match rank {
            Some(r) => {
                if r > span {
                    span = r;
                }
            },
            None => {
                unranked = unranked + 1;
            },
        }
        ranks.push(rank);
        proof {
            assert(ranks_model(ranks@) =~= target.take(i + 1));
        }
        i = i + 1;
    }
    assert(target.take(rows as int) =~= target);
    let mut counts: Vec<usize> = Vec::new();
    let mut r: usize = 0;
    while r < span
        invariant
            r <= span,
            counts@.len() == r,
            forall|x: int| 0 <= x < r ==> #[trigger] counts@[x] == 0,
        decreases span - r,
    {
        counts.push(0);
        r = r + 1;
    }
    let mut i: usize = 0;
    while i < rows
        invariant
            i <= rows,
            rows == ranks@.len(),
            ranks_model(ranks@) == target,
            counts@.len() == span,
            forall|a: int| 0 <= a < rows ==> (#[trigger] target[a] matches Some(r) ==> 1 <= r <= span),
            forall|x: int|
                0 <= x < span ==> #[trigger] counts@[x] == occurrences(
                    target.take(i as int),
                    Some((x + 1) as nat),
                ),
        decreases rows - i,
    {
        proof {
            assert(ranks_model(ranks@)[i as int] == target[i as int]);
            assert(target.take(i + 1).drop_last() =~= target.take(i as int));
        }
        match ranks[i] {
            Some(r) => {
                proof {
                    lemma_occurrences(target.take(i as int), Some(r as nat));
                }
                let seen: usize = counts[r - 1];
                counts.set(r - 1, seen + 1);
            },
            None => {},
        }
        i = i + 1;
    }
    assert(target.take(rows as int) =~= target);
    let mut histogram: Vec<(usize, usize)> = Vec::new();
    let mut x: usize = 0;
    while x < span
        invariant
            x <= span,
            counts@.len() == span,
            forall|y: int|
                0 <= y < span ==> #[trigger] counts@[y] == occurrences(target, Some((y + 1) as nat)),
            forall|a: int| 0 <= a < histogram@.len() ==> 1 <= (#[trigger] histogram@[a]).0 <= x,
            forall|a: int, b: int|
                0 <= a < b < histogram@.len() ==> (#[trigger] histogram@[a]).0 < (
                #[trigger] histogram@[b]).0,
            forall|a: int|
                0 <= a < histogram@.len() ==> (#[trigger] histogram@[a]).1 > 0 && histogram@[a].1
                    == occurrences(target, Some(histogram@[a].0 as nat)),
            forall|y: int|
                0 <= y < x && counts@[y] > 0 ==> exists|a: int|
                    0 <= a < histogram@.len() && (#[trigger] histogram@[a]).0 == y + 1,
        decreases span - x,
    {
        let count: usize = counts[x];
        if count > 0 {
            let ghost before = histogram@;
            histogram.push((x + 1, count));
            proof {
                assert forall|y: int| 0 <= y < x + 1 && counts@[y] > 0 implies exists|a: int|
                    0 <= a < histogram@.len() && (#[trigger] histogram@[a]).0 == y + 1 by {
                    if y < x {
                        let a = choose|a: int|
                            0 <= a < before.len() && (#[trigger] before[a]).0 == y + 1;
                        assert(histogram@[a].0 == y + 1);
                    } else {
                        assert(histogram@[before.len() as int].0 == y + 1);
                    }
                }
            }
        }
        x = x + 1;
    }
    let res = Report { ranks, histogram, unranked, total: assignment.total() };
    proof {
        let h = res@.histogram;
        assert forall|a: int, b: int| 0 <= a < b < h.len() implies (#[trigger] h[a]).0 < (
        #[trigger] h[b]).0 by {
            assert(res.histogram@[a].0 < res.histogram@[b].0);
        }
        assert forall|a: int| 0 <= a < h.len() implies (#[trigger] h[a]).1 > 0 && h[a].1
            == occurrences(target, Some(h[a].0)) by {
            assert(res.histogram@[a].1 > 0);
        }
        assert forall|r: nat| #[trigger] occurrences(target, Some(r)) > 0 implies exists|a: int|
            0 <= a < h.len() && (#[trigger] h[a]).0 == r by {
            lemma_occurrences(target, Some(r));
            let i = choose|i: int| 0 <= i < target.len() && target[i] == Some(r);
            assert(target[i] matches Some(q) ==> 1 <= q <= span);
            assert(counts@[r - 1] > 0);
            let a = choose|a: int|
                0 <= a < res.histogram@.len() && (#[trigger] res.histogram@[a]).0 == (r - 1) + 1;
            assert(h[a].0 == r);
        }
    }
    res
}

} // verus!
