//! The primal-dual method as a function of the weight matrix.
//!
//! The definitions here say, step by step, which labels, which matching and
//! which alternating tree the method holds at each point, and so which of
//! several optimal assignments it ends with. Rows are matched in their order.
//! For each new root row the tree starts empty. The column outside the tree
//! with the least slack joins it, the lowest such column where several have
//! the least slack, after the labels of the tree have been shifted by that
//! slack. A matched column brings its row into the tree; a free column ends
//! the search, and the path from it to the root is flipped.

use crate::matching::{lemma_total_nonnegative, lemma_total_update, total};
use vstd::prelude::*;

verus! {

/// What the method holds at one point.
pub struct State {
    /// Label of each row.
    pub u: Seq<int>,
    /// Label of each column.
    pub v: Seq<int>,
    /// Column matched to each row; meaningful for the rows matched so far.
    pub row_col: Seq<int>,
    /// Row matched to each column, or the number of rows for a free column.
    pub col_row: Seq<int>,
    /// Whether each column is in the tree.
    pub used: Seq<bool>,
    /// For a column outside the tree, the least slack between it and a tree row.
    pub slack: Seq<int>,
    /// The tree row that attains `slack`; for a tree column, the row it hangs from.
    pub parent: Seq<int>,
    /// For a tree column, the number of columns on its path to the root.
    pub depth: Seq<nat>,
}

/// The largest entry of `row`, or zero where none is positive.
pub open spec fn row_max(row: Seq<int>) -> int
    decreases row.len(),
{
    if row.len() == 0 {
        0
    } else if row.last() > row_max(row.drop_last()) {
        row.last()
    } else {
        row_max(row.drop_last())
    }
}

/// The state before any row is matched: each row is labelled with its largest
/// weight, each column with zero, and every column is free.
pub open spec fn initial(w: Seq<Seq<int>>, cols: nat) -> State {
    State {
        u: Seq::new(w.len(), |r: int| row_max(w[r])),
        v: Seq::new(cols, |j: int| 0int),
        row_col: Seq::new(w.len(), |r: int| cols as int),
        col_row: Seq::new(cols, |j: int| w.len() as int),
        used: Seq::empty(),
        slack: Seq::empty(),
        parent: Seq::empty(),
        depth: Seq::empty(),
    }
}

/// How far the labels of row `r` and column `j` exceed the weight between them.
pub open spec fn gap(s: State, w: Seq<Seq<int>>, r: int, j: int) -> int {
    s.u[r] + s.v[j] - w[r][j]
}

/// Row `r` is in the tree rooted at `root`: it is the root, or it is matched
/// to a tree column.
pub open spec fn in_tree(s: State, r: int, root: int) -> bool {
    r == root || (0 <= r < root && 0 <= s.row_col[r] < s.used.len() && s.used[s.row_col[r]])
}

/// The state when the search for `root` starts: no column is in the tree, and
/// the slack of each column is its slack against `root`.
pub open spec fn rooted(s: State, w: Seq<Seq<int>>, root: int) -> State {
    State {
        used: Seq::new(s.v.len(), |j: int| false),
        slack: Seq::new(s.v.len(), |j: int| gap(s, w, root, j)),
        parent: Seq::new(s.v.len(), |j: int| root),
        depth: Seq::new(s.v.len(), |j: int| 0nat),
        ..s
    }
}

/// Column `j` is outside the tree, no column outside the tree has less slack,
/// and every lower column outside the tree has more.
pub open spec fn is_least_outside(s: State, j: int) -> bool {
    &&& 0 <= j < s.used.len()
    &&& !s.used[j]
    &&& forall|c: int| 0 <= c < s.used.len() && !s.used[c] ==> s.slack[j] <= #[trigger] s.slack[c]
    &&& forall|c: int| 0 <= c < j && !s.used[c] ==> s.slack[j] < #[trigger] s.slack[c]
}

/// The column that joins the tree next.
pub open spec fn least_outside(s: State) -> int {
    choose|j: int| is_least_outside(s, j)
}

/// At most one column is the next to join the tree.
pub proof fn lemma_least_outside_unique(s: State, j: int)
    requires
        is_least_outside(s, j),
    ensures
        least_outside(s) == j,
{
    let k = least_outside(s);
    assert(is_least_outside(s, k));
    if k < j {
        assert(s.slack[j] < s.slack[k]);
        assert(s.slack[k] <= s.slack[j]);
    } else if j < k {
        assert(s.slack[k] < s.slack[j]);
        assert(s.slack[j] <= s.slack[k]);
    }
}

/// The state after `delta` has been taken from the label of each tree row
/// and from the slack of each column outside the tree, and added to the label
/// of each tree column.
pub open spec fn tightened(s: State, root: int, delta: int) -> State {
    State {
        u: Seq::new(
            s.u.len(),
            |r: int|
                if in_tree(s, r, root) {
                    s.u[r] - delta
                } else {
                    s.u[r]
                },
        ),
        v: Seq::new(
            s.v.len(),
            |j: int|
                if s.used[j] {
                    s.v[j] + delta
                } else {
                    s.v[j]
                },
        ),
        slack: Seq::new(
            s.slack.len(),
            |j: int|
                if s.used[j] {
                    s.slack[j]
                } else {
                    s.slack[j] - delta
                },
        ),
        ..s
    }
}

/// The depth of column `j` below its parent row.
pub open spec fn link_depth(s: State, root: int, j: int) -> nat {
    if s.parent[j] == root {
        1
    } else {
        s.depth[s.row_col[s.parent[j]]] + 1
    }
}

/// The state after the free column `j` has been reached.
pub open spec fn reached(s: State, root: int, j: int) -> State {
    State { depth: s.depth.update(j, link_depth(s, root, j)), ..s }
}

/// The state after the matched column `j` has joined the tree.
pub open spec fn joined(s: State, root: int, j: int) -> State {
    State { used: s.used.update(j, true), depth: s.depth.update(j, link_depth(s, root, j)), ..s }
}

/// The state after the slack of each column outside the tree has been
/// lowered to its slack against `row`, where that is less.
pub open spec fn relaxed(s: State, w: Seq<Seq<int>>, row: int) -> State {
    State {
        slack: Seq::new(
            s.slack.len(),
            |j: int|
                if !s.used[j] && gap(s, w, row, j) < s.slack[j] {
                    gap(s, w, row, j)
                } else {
                    s.slack[j]
                },
        ),
        parent: Seq::new(
            s.parent.len(),
            |j: int|
                if !s.used[j] && gap(s, w, row, j) < s.slack[j] {
                    row
                } else {
                    s.parent[j]
                },
        ),
        ..s
    }
}

/// One for each column outside the tree, zero for each column in it.
pub open spec fn outside(used: Seq<bool>) -> Seq<int> {
    Seq::new(used.len(), |j: int| if used[j] { 0int } else { 1int })
}

/// The tree has one column less outside it once a column has joined.
pub proof fn lemma_outside_shrinks(used: Seq<bool>, j: int)
    requires
        0 <= j < used.len(),
        !used[j],
    ensures
        0 <= total(outside(used.update(j, true))) < total(outside(used)),
{
    assert(outside(used.update(j, true)) =~= outside(used).update(j, 0));
    lemma_total_update(outside(used), j, 0);
    lemma_total_nonnegative(outside(used.update(j, true)));
}

/// The state in which the search for `root` ends, and the free column that
/// it has reached.
pub open spec fn searched(s: State, w: Seq<Seq<int>>, root: int) -> (State, int)
    decreases total(outside(s.used)),
    via searched_decreases
{
    let j = least_outside(s);
    if !is_least_outside(s, j) {
        (s, j)
    } else {
        let t = tightened(s, root, s.slack[j]);
        if t.col_row[j] == w.len() {
            (reached(t, root, j), j)
        } else {
            searched(relaxed(joined(t, root, j), w, t.col_row[j]), w, root)
        }
    }
}

#[via_fn]
proof fn searched_decreases(s: State, w: Seq<Seq<int>>, root: int) {
    let j = least_outside(s);
    if is_least_outside(s, j) {
        lemma_outside_shrinks(s.used, j);
    }
}

/// The state after the path from column `j` to the root has been flipped:
/// each column on it is matched to its parent row.
pub open spec fn flipped(s: State, root: int, j: int) -> State
    decreases s.depth[j],
{
    let p = s.parent[j];
    let t = State { col_row: s.col_row.update(j, p), row_col: s.row_col.update(p, j), ..s };
    if p == root {
        t
    } else {
        let next = s.row_col[p];
        if 0 <= next < s.depth.len() && 0 <= j < s.depth.len() && s.depth[next] < s.depth[j] {
            flipped(t, root, next)
        } else {
            t
        }
    }
}

/// The state after `root` has been matched.
pub open spec fn grown(s: State, w: Seq<Seq<int>>, root: int) -> State {
    let found = searched(rooted(s, w, root), w, root);
    flipped(found.0, root, found.1)
}

/// The state after the first `k` rows have been matched.
pub open spec fn solved(w: Seq<Seq<int>>, cols: nat, k: nat) -> State
    decreases k,
{
    if k == 0 {
        initial(w, cols)
    } else {
        grown(solved(w, cols, (k - 1) as nat), w, k - 1)
    }
}

/// The assignment that the method ends with: the column of each row.
pub open spec fn solution(w: Seq<Seq<int>>, cols: nat) -> Seq<int> {
    solved(w, cols, w.len()).row_col
}

} // verus!
