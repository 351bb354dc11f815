//! The assignment solver: a maximum-weight assignment of the rows of a weight
//! matrix to distinct columns, found by the primal-dual (Hungarian) method.
//!
//! Rows and columns carry labels whose sum is never below the weight between
//! them. Rows are matched one after the other. For each new root row an
//! alternating tree grows through edges whose weight equals the sum of their
//! labels; when no such edge leaves the tree, the labels of the tree are
//! shifted by the least slack of a column outside it. Among columns of equal
//! least slack the one with the lowest index joins the tree, which makes the
//! result a function of the matrix alone.

use crate::matching::{
    assignment_weight, is_assignment, is_optimal, lemma_certificate, lemma_distinct_bounded,
    selected, total,
};
use crate::matrix::{is_grid, WeightMatrix};
use crate::method::{
    flipped, grown, initial, is_least_outside, joined, lemma_least_outside_unique,
    lemma_outside_shrinks, outside, reached, relaxed, rooted, row_max, searched, solution, solved,
    tightened, State,
};
use vstd::prelude::*;

verus! {

/// The labels, the matching built so far, and the alternating tree of the
/// row that is being matched.
struct Search {
    /// Label of each row.
    u: Vec<u128>,
    /// Label of each column.
    v: Vec<u128>,
    /// Column matched to each row; meaningful for the rows matched so far.
    row_col: Vec<usize>,
    /// Row matched to each column, or the number of rows for a free column.
    col_row: Vec<usize>,
    /// Whether each column is in the tree.
    used: Vec<bool>,
    /// For a column outside the tree, the least slack between it and a tree row.
    slack: Vec<u128>,
    /// The tree row that attains `slack`; for a tree column, the row it hangs from.
    parent: Vec<usize>,
    /// For a tree column, the number of columns on its path to the root.
    depth: Ghost<Seq<nat>>,
}

impl Search {
    /// What the search holds, as a mathematical value.
    spec fn state(&self) -> State {
        State {
            u: Seq::new(self.u@.len(), |r: int| self.u@[r] as int),
            v: Seq::new(self.v@.len(), |j: int| self.v@[j] as int),
            row_col: Seq::new(self.row_col@.len(), |r: int| self.row_col@[r] as int),
            col_row: Seq::new(self.col_row@.len(), |j: int| self.col_row@[j] as int),
            used: self.used@,
            slack: Seq::new(self.slack@.len(), |j: int| self.slack@[j] as int),
            parent: Seq::new(self.parent@.len(), |j: int| self.parent@[j] as int),
            depth: self.depth@,
        }
    }

    /// Two states are equal when they agree entry by entry.
    proof fn lemma_same_state(a: State, b: State)
        requires
            a.u =~= b.u,
            a.v =~= b.v,
            a.row_col =~= b.row_col,
            a.col_row =~= b.col_row,
            a.used =~= b.used,
            a.slack =~= b.slack,
            a.parent =~= b.parent,
            a.depth =~= b.depth,
        ensures
            a == b,
    {
    }

    /// How far the labels of row `r` and column `j` exceed the weight between them.
    spec fn gap(&self, w: Seq<Seq<int>>, r: int, j: int) -> int {
        self.u@[r] + self.v@[j] - w[r][j]
    }

    /// The labels cover every weight and fit in 64 bits.
    spec fn labels_ok(&self, w: Seq<Seq<int>>, n: nat) -> bool {
        &&& self.u@.len() == w.len()
        &&& self.v@.len() == n
        &&& self.row_col@.len() == w.len()
        &&& self.col_row@.len() == n
        &&& forall|r: int| 0 <= r < w.len() ==> #[trigger] self.u@[r] <= u64::MAX
        &&& forall|j: int| 0 <= j < n ==> #[trigger] self.v@[j] <= u64::MAX
        &&& forall|r: int, j: int| 0 <= r < w.len() && 0 <= j < n ==> 0 <= #[trigger] self.gap(w, r, j)
    }

    /// The rows below `k` are matched to distinct columns through edges
    /// without slack, no other row is matched, and free columns have label zero.
    spec fn matched(&self, w: Seq<Seq<int>>, n: nat, k: int) -> bool {
        &&& forall|r: int|
            0 <= r < k ==> {
                let c = #[trigger] self.row_col@[r];
                &&& c < n
                &&& self.col_row@[c as int] == r
                &&& self.gap(w, r, c as int) == 0
            }
        &&& forall|j: int|
            0 <= j < n ==> {
                let r = #[trigger] self.col_row@[j];
                &&& r <= w.len()
                &&& r < w.len() ==> r < k && self.row_col@[r as int] == j
                &&& r == w.len() ==> self.v@[j] == 0
            }
    }

    /// Row `r` is in the tree rooted at `root`.
    spec fn in_tree(&self, r: int, root: int) -> bool {
        r == root || (0 <= r < root && self.row_col@[r] < self.used@.len()
            && self.used@[self.row_col@[r] as int])
    }

    /// Column `j` hangs from a tree row through an edge without slack, and
    /// that row is nearer to the root than `j`.
    spec fn link_ok(&self, w: Seq<Seq<int>>, root: int, j: int) -> bool {
        let p = self.parent@[j] as int;
        &&& self.in_tree(p, root)
        &&& self.gap(w, p, j) == 0
        &&& p != root ==> self.depth@[self.row_col@[p] as int] < self.depth@[j]
    }

    /// The tree rooted at `root` is consistent. The slack of a column outside
    /// the tree is attained at its parent and is a lower bound for every tree
    /// row, except that for row `pending` this is known only of the columns
    /// below `upto`.
    spec fn searching(&self, w: Seq<Seq<int>>, n: nat, root: int, pending: int, upto: int) -> bool {
        &&& self.used@.len() == n
        &&& self.slack@.len() == n
        &&& self.parent@.len() == n
        &&& self.depth@.len() == n
        &&& forall|j: int|
            0 <= j < n && #[trigger] self.used@[j] ==> self.col_row@[j] < w.len() && self.link_ok(
                w,
                root,
                j,
            )
        &&& forall|j: int|
            0 <= j < n && !#[trigger] self.used@[j] ==> self.in_tree(self.parent@[j] as int, root)
                && self.slack@[j] == self.gap(w, self.parent@[j] as int, j)
        &&& forall|r: int, j: int|
            0 <= j < n && !self.used@[j] && self.in_tree(r, root) && (r != pending || j < upto)
                ==> self.slack@[j] <= #[trigger] self.gap(w, r, j)
    }

    /// Labels that cover every weight, and the empty matching.
    fn start(w: &WeightMatrix) -> (s: Search)
        ensures
            s.labels_ok(w@, w.spec_cols()),
            s.matched(w@, w.spec_cols(), 0),
            s.state() == initial(w@, w.spec_cols()),
    {
        let m: usize = w.rows();
        let n: usize = w.cols();
        let mut u: Vec<u128> = Vec::new();
        let mut row_col: Vec<usize> = Vec::new();
        let mut r: usize = 0;
        while r < m
            invariant
                r <= m,
                m == w@.len(),
                n == w.spec_cols(),
                is_grid(w@, n as nat),
                u@.len() == r,
                row_col@.len() == r,
                forall|x: int| 0 <= x < r ==> #[trigger] u@[x] <= u64::MAX,
                forall|x: int, j: int| 0 <= x < r && 0 <= j < n ==> #[trigger] w@[x][j] <= u@[x],
                forall|x: int| 0 <= x < r ==> #[trigger] u@[x] == row_max(w@[x]),
                forall|x: int| 0 <= x < r ==> #[trigger] row_col@[x] == n,
            decreases m - r,
        {
            let mut best: u64 = 0;
            let mut j: usize = 0;
            while j < n
                invariant
                    j <= n,
                    r < m,
                    m == w@.len(),
                    n == w.spec_cols(),
                    is_grid(w@, n as nat),
                    forall|c: int| 0 <= c < j ==> #[trigger] w@[r as int][c] <= best,
                    best == row_max(w@[r as int].take(j as int)),
                decreases n - j,
            {
                let x: u64 = w.get(r, j);
                assert(w@[r as int].take(j + 1).drop_last() =~= w@[r as int].take(j as int));
                if x > best {
                    best = x;
                }
                j = j + 1;
            }
            assert(w@[r as int].take(n as int) =~= w@[r as int]);
            u.push(best as u128);
            row_col.push(n);
            r = r + 1;
        }
        let mut v: Vec<u128> = Vec::new();
        let mut col_row: Vec<usize> = Vec::new();
        let mut j: usize = 0;
        while j < n
            invariant
                j <= n,
                v@.len() == j,
                col_row@.len() == j,
                forall|c: int| 0 <= c < j ==> #[trigger] v@[c] == 0,
                forall|c: int| 0 <= c < j ==> #[trigger] col_row@[c] == m,
            decreases n - j,
        {
            v.push(0);
            col_row.push(m);
            j = j + 1;
        }
        let s = Search {
            u,
            v,
            row_col,
            col_row,
            used: Vec::new(),
            slack: Vec::new(),
            parent: Vec::new(),
            depth: Ghost(Seq::empty()),
        };
        proof {
            Self::lemma_same_state(s.state(), initial(w@, n as nat));
        }
        s
    }

    /// Starts the tree of `root`: no column is in it, and the slack of each
    /// column is its slack against `root`.
    fn begin(&mut self, w: &WeightMatrix, root: usize)
        requires
            old(self).labels_ok(w@, w.spec_cols()),
            root < w@.len(),
        ensures
            final(self).u == old(self).u,
            final(self).v == old(self).v,
            final(self).row_col == old(self).row_col,
            final(self).col_row == old(self).col_row,
            final(self).searching(w@, w.spec_cols(), root as int, -1, 0),
            forall|j: int| 0 <= j < w.spec_cols() ==> !#[trigger] final(self).used@[j],
            final(self).state() == rooted(old(self).state(), w@, root as int),
    {
        let n: usize = w.cols();
        let mut used: Vec<bool> = Vec::new();
        let mut slack: Vec<u128> = Vec::new();
        let mut parent: Vec<usize> = Vec::new();
        let mut j: usize = 0;
        while j < n
            invariant
                j <= n,
                n == w.spec_cols(),
                root < w@.len(),
                self.labels_ok(w@, n as nat),
                used@.len() == j,
                slack@.len() == j,
                parent@.len() == j,
                forall|c: int| 0 <= c < j ==> !#[trigger] used@[c],
                forall|c: int| 0 <= c < j ==> #[trigger] parent@[c] == root,
                forall|c: int| 0 <= c < j ==> #[trigger] slack@[c] == self.gap(w@, root as int, c),
            decreases n - j,
        {
            assert(0 <= self.gap(w@, root as int, j as int));
            let x: u128 = w.get(root, j) as u128;
            used.push(false);
            slack.push(self.u[root] + self.v[j] - x);
            parent.push(root);
            j = j + 1;
        }
        self.used = used;
        self.slack = slack;
        self.parent = parent;
        self.depth = Ghost(Seq::new(n as nat, |c: int| 0nat));
        proof {
            Self::lemma_same_state(self.state(), rooted(old(self).state(), w@, root as int));
            assert forall|r: int, c: int|
                0 <= c < n && !self.used@[c] && self.in_tree(r, root as int) && (r != -1 || c < 0)
                implies self.slack@[c] <= #[trigger] self.gap(w@, r, c) by {
                assert(r == root);
            }
        }
    }

    /// The least slack of a column outside the tree, and the lowest column
    /// that attains it.
    fn select(&self) -> (res: (u128, usize))
        requires
            self.used@.len() == self.slack@.len(),
            exists|j: int| 0 <= j < self.used@.len() && !self.used@[j],
        ensures
            res.1 < self.used@.len(),
            !self.used@[res.1 as int],
            res.0 == self.slack@[res.1 as int],
            forall|j: int|
                0 <= j < self.used@.len() && !self.used@[j] ==> res.0 <= #[trigger] self.slack@[j],
            forall|j: int| 0 <= j < res.1 && !self.used@[j] ==> res.0 < #[trigger] self.slack@[j],
            is_least_outside(self.state(), res.1 as int),
    {
        let n: usize = self.used.len();
        let mut found: bool = false;
        let mut delta: u128 = 0;
        let mut best: usize = 0;
        let mut j: usize = 0;
        while j < n
            invariant
                j <= n,
                n == self.used@.len(),
                n == self.slack@.len(),
                !found ==> forall|c: int| 0 <= c < j ==> #[trigger] self.used@[c],
                found ==> best < j && !self.used@[best as int] && delta == self.slack@[best as int],
                found ==> forall|c: int|
                    0 <= c < j && !self.used@[c] ==> delta <= #[trigger] self.slack@[c],
                found ==> forall|c: int|
                    0 <= c < best && !self.used@[c] ==> delta < #[trigger] self.slack@[c],
            decreases n - j,
        {
            if !self.used[j] && (!found || self.slack[j] < delta) {
                found = true;
                delta = self.slack[j];
                best = j;
            }
            j = j + 1;
        }
        proof {
            let s = self.state();
            assert forall|c: int| 0 <= c < s.used.len() && !s.used[c] implies s.slack[best as int]
                <= #[trigger] s.slack[c] by {
                assert(delta <= self.slack@[c]);
            }
            assert forall|c: int| 0 <= c < best && !s.used[c] implies s.slack[best as int]
                < #[trigger] s.slack[c] by {
                assert(delta < self.slack@[c]);
            }
        }
        (delta, best)
    }

    /// While fewer rows are matched than there are columns, some column is free.
    proof fn lemma_free_column(&self, w: Seq<Seq<int>>, n: nat, k: int) -> (c: int)
        requires
            self.labels_ok(w, n),
            self.matched(w, n, k),
            0 <= k < n,
        ensures
            0 <= c < n,
            self.col_row@[c] == w.len(),
    {
        if forall|c: int| 0 <= c < n ==> self.col_row@[c] != w.len() {
            let rows = Seq::new(n, |c: int| self.col_row@[c] as int);
            assert forall|a: int, b: int| 0 <= a < b < rows.len() implies #[trigger] rows[a]
                != #[trigger] rows[b] by {
                assert(self.row_col@[self.col_row@[a] as int] == a);
                assert(self.row_col@[self.col_row@[b] as int] == b);
            }
            assert forall|c: int| 0 <= c < rows.len() implies 0 <= #[trigger] rows[c] < k by {
                assert(self.col_row@[c] < k);
            }
            lemma_distinct_bounded(rows, 0, k);
        }
        choose|c: int| 0 <= c < n && self.col_row@[c] == w.len()
    }

    /// The least slack of a column outside the tree can be taken from the
    /// label of every tree row and added to the label of every tree column.
    proof fn lemma_room(&self, w: Seq<Seq<int>>, n: nat, root: int, delta: int)
        requires
            0 <= root < w.len() <= n,
            forall|r: int, j: int| 0 <= r < w.len() && 0 <= j < n ==> 0 <= #[trigger] w[r][j] <= u64::MAX,
            self.labels_ok(w, n),
            self.matched(w, n, root),
            self.searching(w, n, root, -1, 0),
            forall|j: int| 0 <= j < n && !self.used@[j] ==> delta <= #[trigger] self.slack@[j],
        ensures
            forall|r: int| 0 <= r <= root && self.in_tree(r, root) ==> delta <= #[trigger] self.u@[r],
            forall|j: int| 0 <= j < n && self.used@[j] ==> #[trigger] self.v@[j] + delta <= u64::MAX,
    {
        let c = self.lemma_free_column(w, n, root);
        assert(!self.used@[c]);
        assert(delta <= self.slack@[c]);
        assert forall|r: int| 0 <= r <= root && self.in_tree(r, root) implies delta
            <= #[trigger] self.u@[r] by {
            assert(self.slack@[c] <= self.gap(w, r, c));
            assert(0 <= w[r][c]);
        }
        assert forall|j: int| 0 <= j < n && self.used@[j] implies #[trigger] self.v@[j] + delta
            <= u64::MAX by {
            let r = self.col_row@[j] as int;
            assert(self.row_col@[r] == j);
            assert(self.in_tree(r, root));
            assert(self.gap(w, r, j) == 0);
            assert(w[r][j] <= u64::MAX);
        }
    }

    /// Shifting the labels of the tree by the least slack of a column outside
    /// it keeps the labels, the matching and the tree consistent.
    proof fn lemma_tighten(a: Search, b: Search, w: Seq<Seq<int>>, n: nat, root: int, delta: int)
        requires
            0 <= root < w.len() <= n,
            forall|r: int, j: int| 0 <= r < w.len() && 0 <= j < n ==> 0 <= #[trigger] w[r][j] <= u64::MAX,
            a.labels_ok(w, n),
            a.matched(w, n, root),
            a.searching(w, n, root, -1, 0),
            0 <= delta,
            forall|j: int| 0 <= j < n && !a.used@[j] ==> delta <= #[trigger] a.slack@[j],
            b.row_col@ == a.row_col@,
            b.col_row@ == a.col_row@,
            b.used@ == a.used@,
            b.parent@ == a.parent@,
            b.depth@ == a.depth@,
            b.u@.len() == a.u@.len(),
            b.v@.len() == a.v@.len(),
            b.slack@.len() == a.slack@.len(),
            forall|r: int|
                0 <= r < w.len() ==> #[trigger] b.u@[r] == if a.in_tree(r, root) {
                    a.u@[r] - delta
                } else {
                    a.u@[r] as int
                },
            forall|j: int|
                0 <= j < n ==> #[trigger] b.v@[j] == if a.used@[j] {
                    a.v@[j] + delta
                } else {
                    a.v@[j] as int
                },
            forall|j: int| 0 <= j < n && !a.used@[j] ==> #[trigger] b.slack@[j] == a.slack@[j] - delta,
        ensures
            b.labels_ok(w, n),
            b.matched(w, n, root),
            b.searching(w, n, root, -1, 0),
    {
        a.lemma_room(w, n, root, delta);
        assert forall|r: int| 0 <= r < w.len() implies b.in_tree(r, root) == a.in_tree(r, root) by {}
        assert forall|r: int, j: int| 0 <= r < w.len() && 0 <= j < n implies {
            &&& 0 <= #[trigger] b.gap(w, r, j)
            &&& b.gap(w, r, j) == a.gap(w, r, j) - (if a.in_tree(r, root) {
                delta
            } else {
                0
            }) + (if a.used@[j] {
                delta
            } else {
                0
            })
        } by {
            assert(0 <= a.gap(w, r, j));
            if a.in_tree(r, root) && !a.used@[j] {
                assert(a.slack@[j] <= a.gap(w, r, j));
            }
        }
        assert(b.labels_ok(w, n));
        assert forall|r: int| 0 <= r < root implies {
            let c = #[trigger] b.row_col@[r];
            &&& c < n
            &&& b.col_row@[c as int] == r
            &&& b.gap(w, r, c as int) == 0
        } by {
            let c = a.row_col@[r];
            assert(a.gap(w, r, c as int) == 0);
            assert(0 <= b.gap(w, r, c as int));
        }
        assert forall|j: int| 0 <= j < n implies {
            let r = #[trigger] b.col_row@[j];
            &&& r <= w.len()
            &&& r < w.len() ==> r < root && b.row_col@[r as int] == j
            &&& r == w.len() ==> b.v@[j] == 0
        } by {
            let r = a.col_row@[j];
            if r == w.len() {
                assert(!a.used@[j]);
            }
        }
        assert(b.matched(w, n, root));
        assert forall|j: int| 0 <= j < n && #[trigger] b.used@[j] implies b.col_row@[j] < w.len()
            && b.link_ok(w, root, j) by {
            assert(a.link_ok(w, root, j));
            let p = a.parent@[j] as int;
            assert(0 <= b.gap(w, p, j));
        }
        assert forall|j: int| 0 <= j < n && !#[trigger] b.used@[j] implies b.in_tree(
            b.parent@[j] as int,
            root,
        ) && b.slack@[j] == b.gap(w, b.parent@[j] as int, j) by {
            let p = a.parent@[j] as int;
            assert(a.in_tree(p, root));
            assert(a.slack@[j] == a.gap(w, p, j));
            assert(0 <= b.gap(w, p, j));
        }
        assert forall|r: int, j: int|
            0 <= j < n && !b.used@[j] && b.in_tree(r, root) && (r != -1 || j < 0)
            implies b.slack@[j] <= #[trigger] b.gap(w, r, j) by {
            assert(a.slack@[j] <= a.gap(w, r, j));
            assert(0 <= b.gap(w, r, j));
        }
    }

    /// Takes `delta`, the least slack of a column outside the tree, from the
    /// label of each tree row and from the slack of each column outside the
    /// tree, and adds it to the label of each tree column.
    fn tighten(&mut self, w: &WeightMatrix, root: usize, delta: u128)
        requires
            root < w@.len(),
            old(self).labels_ok(w@, w.spec_cols()),
            old(self).matched(w@, w.spec_cols(), root as int),
            old(self).searching(w@, w.spec_cols(), root as int, -1, 0),
            forall|j: int|
                0 <= j < w.spec_cols() && !old(self).used@[j] ==> delta <= #[trigger] old(
                    self,
                ).slack@[j],
        ensures
            final(self).labels_ok(w@, w.spec_cols()),
            final(self).matched(w@, w.spec_cols(), root as int),
            final(self).searching(w@, w.spec_cols(), root as int, -1, 0),
            final(self).row_col@ == old(self).row_col@,
            final(self).col_row@ == old(self).col_row@,
            final(self).used@ == old(self).used@,
            final(self).parent@ == old(self).parent@,
            final(self).depth@ == old(self).depth@,
            forall|j: int|
                0 <= j < w.spec_cols() && !old(self).used@[j] ==> #[trigger] final(self).slack@[j]
                    == old(self).slack@[j] - delta,
            final(self).state() == tightened(old(self).state(), root as int, delta as int),
    {
        let m: usize = w.rows();
        let n: usize = w.cols();
        let ghost before = *self;
        proof {
            w.lemma_shape();
            before.lemma_room(w@, n as nat, root as int, delta as int);
        }
        let mut r: usize = 0;
        while r <= root
            invariant
                r <= root + 1,
                root < m,
                m == w@.len(),
                n == w.spec_cols(),
                before.labels_ok(w@, n as nat),
                before.matched(w@, n as nat, root as int),
                before.searching(w@, n as nat, root as int, -1, 0),
                forall|x: int|
                    0 <= x <= root && before.in_tree(x, root as int) ==> delta
                        <= #[trigger] before.u@[x],
                self.v@ == before.v@,
                self.row_col@ == before.row_col@,
                self.col_row@ == before.col_row@,
                self.used@ == before.used@,
                self.slack@ == before.slack@,
                self.parent@ == before.parent@,
                self.depth@ == before.depth@,
                self.u@.len() == m,
                forall|x: int|
                    0 <= x < m ==> #[trigger] self.u@[x] == if x < r && before.in_tree(x, root as int) {
                        before.u@[x] - delta
                    } else {
                        before.u@[x] as int
                    },
            decreases root + 1 - r,
        {
            if r == root || self.used[self.row_col[r]] {
                assert(before.in_tree(r as int, root as int));
                let x: u128 = self.u[r] - delta;
                self.u.set(r, x);
            }
            r = r + 1;
        }
        let mut j: usize = 0;
        while j < n
            invariant
                j <= n,
                n == w.spec_cols(),
                before.labels_ok(w@, n as nat),
                before.searching(w@, n as nat, root as int, -1, 0),
                forall|c: int|
                    0 <= c < n && !before.used@[c] ==> delta <= #[trigger] before.slack@[c],
                forall|c: int|
                    0 <= c < n && before.used@[c] ==> #[trigger] before.v@[c] + delta <= u64::MAX,
                self.u@.len() == before.u@.len(),
                forall|x: int|
                    0 <= x < w@.len() ==> #[trigger] self.u@[x] == if before.in_tree(x, root as int) {
                        before.u@[x] - delta
                    } else {
                        before.u@[x] as int
                    },
                self.row_col@ == before.row_col@,
                self.col_row@ == before.col_row@,
                self.used@ == before.used@,
                self.parent@ == before.parent@,
                self.depth@ == before.depth@,
                self.v@.len() == n,
                self.slack@.len() == n,
                forall|c: int|
                    0 <= c < n ==> #[trigger] self.v@[c] == if c < j && before.used@[c] {
                        before.v@[c] + delta
                    } else {
                        before.v@[c] as int
                    },
                forall|c: int|
                    0 <= c < n ==> #[trigger] self.slack@[c] == if c < j && !before.used@[c] {
                        before.slack@[c] - delta
                    } else {
                        before.slack@[c] as int
                    },
            decreases n - j,
        {
            if self.used[j] {
                let x: u128 = self.v[j] + delta;
                self.v.set(j, x);
            } else {
                let x: u128 = self.slack[j] - delta;
                self.slack.set(j, x);
            }
            j = j + 1;
        }
        proof {
            Self::lemma_tighten(before, *self, w@, n as nat, root as int, delta as int);
            let goal = tightened(before.state(), root as int, delta as int);
            assert forall|r: int| 0 <= r < m implies self.state().u[r] == goal.u[r] by {
                assert(crate::method::in_tree(before.state(), r, root as int) == before.in_tree(
                    r,
                    root as int,
                ));
            }
            Self::lemma_same_state(self.state(), goal);
        }
    }

    /// The labels and the matching are consistent by what the labels and the
    /// two matching arrays hold, whatever the tree.
    proof fn lemma_carry(a: Search, b: Search, w: Seq<Seq<int>>, n: nat, k: int)
        requires
            a.labels_ok(w, n),
            a.matched(w, n, k),
            b.u@ == a.u@,
            b.v@ == a.v@,
            b.row_col@ == a.row_col@,
            b.col_row@ == a.col_row@,
        ensures
            b.labels_ok(w, n),
            b.matched(w, n, k),
    {
        assert forall|r: int, c: int| b.gap(w, r, c) == a.gap(w, r, c) by {}
    }

    /// Lowers the slack of each column outside the tree to its slack against
    /// `row`, a row that has just joined the tree, where that is less.
    fn relax(&mut self, w: &WeightMatrix, root: usize, row: usize)
        requires
            row < root < w@.len(),
            old(self).labels_ok(w@, w.spec_cols()),
            old(self).matched(w@, w.spec_cols(), root as int),
            old(self).searching(w@, w.spec_cols(), root as int, row as int, 0),
            old(self).in_tree(row as int, root as int),
        ensures
            final(self).labels_ok(w@, w.spec_cols()),
            final(self).matched(w@, w.spec_cols(), root as int),
            final(self).searching(w@, w.spec_cols(), root as int, -1, 0),
            final(self).used@ == old(self).used@,
            final(self).state() == relaxed(old(self).state(), w@, row as int),
    {
        let n: usize = w.cols();
        let ghost before = *self;
        let mut j: usize = 0;
        while j < n
            invariant
                j <= n,
                n == w.spec_cols(),
                row < root < w@.len(),
                self.u@ == before.u@,
                self.v@ == before.v@,
                self.row_col@ == before.row_col@,
                self.col_row@ == before.col_row@,
                self.used@ == before.used@,
                self.depth@ == before.depth@,
                self.slack@.len() == n,
                self.parent@.len() == n,
                before.slack@.len() == n,
                before.parent@.len() == n,
                forall|c: int| j <= c < n ==> #[trigger] self.slack@[c] == before.slack@[c],
                forall|c: int| j <= c < n ==> #[trigger] self.parent@[c] == before.parent@[c],
                forall|c: int|
                    0 <= c < j ==> #[trigger] self.slack@[c] == if !before.used@[c] && before.gap(
                        w@,
                        row as int,
                        c,
                    ) < before.slack@[c] {
                        before.gap(w@, row as int, c)
                    } else {
                        before.slack@[c] as int
                    },
                forall|c: int|
                    0 <= c < j ==> #[trigger] self.parent@[c] == if !before.used@[c] && before.gap(
                        w@,
                        row as int,
                        c,
                    ) < before.slack@[c] {
                        row
                    } else {
                        before.parent@[c]
                    },
                before.labels_ok(w@, n as nat),
                before.matched(w@, n as nat, root as int),
                before.in_tree(row as int, root as int),
                self.searching(w@, n as nat, root as int, row as int, j as int),
            decreases n - j,
        {
            let ghost prev = *self;
            proof {
                Self::lemma_carry(before, *self, w@, n as nat, root as int);
            }
            if !self.used[j] {
                assert(0 <= self.gap(w@, row as int, j as int));
                let g: u128 = self.u[row] + self.v[j] - (w.get(row, j) as u128);
                if g < self.slack[j] {
                    self.slack.set(j, g);
                    self.parent.set(j, row);
                }
            }
            proof {
                Self::lemma_relax_step(prev, *self, w@, n as nat, root as int, row as int, j as int);
            }
            j = j + 1;
        }
        proof {
            Self::lemma_carry(before, *self, w@, n as nat, root as int);
            assert forall|r: int, c: int|
                0 <= c < n && !self.used@[c] && self.in_tree(r, root as int) && (r != -1 || c < 0)
                implies self.slack@[c] <= #[trigger] self.gap(w@, r, c) by {}
            let goal = relaxed(before.state(), w@, row as int);
            assert forall|c: int| 0 <= c < n implies crate::method::gap(
                before.state(),
                w@,
                row as int,
                c,
            ) == before.gap(w@, row as int, c) by {}
            assert forall|c: int| 0 <= c < n implies self.state().slack[c] == goal.slack[c] by {}
            assert forall|c: int| 0 <= c < n implies self.state().parent[c] == goal.parent[c] by {}
            Self::lemma_same_state(self.state(), goal);
        }
    }

    /// One step of `relax`: column `j` has been compared with `row`.
    proof fn lemma_relax_step(
        a: Search,
        b: Search,
        w: Seq<Seq<int>>,
        n: nat,
        root: int,
        row: int,
        j: int,
    )
        requires
            0 <= j < n,
            a.searching(w, n, root, row, j),
            b.u@ == a.u@,
            b.v@ == a.v@,
            b.row_col@ == a.row_col@,
            b.col_row@ == a.col_row@,
            b.used@ == a.used@,
            b.depth@ == a.depth@,
            b.slack@.len() == n,
            b.parent@.len() == n,
            forall|c: int| 0 <= c < n && c != j ==> #[trigger] b.slack@[c] == a.slack@[c],
            forall|c: int| 0 <= c < n && c != j ==> #[trigger] b.parent@[c] == a.parent@[c],
            a.used@[j] ==> b.slack@[j] == a.slack@[j] && b.parent@[j] == a.parent@[j],
            !a.used@[j] ==> a.in_tree(row, root),
            !a.used@[j] && a.gap(w, row, j) < a.slack@[j] ==> b.slack@[j] == a.gap(w, row, j)
                && b.parent@[j] == row,
            !a.used@[j] && a.gap(w, row, j) >= a.slack@[j] ==> b.slack@[j] == a.slack@[j]
                && b.parent@[j] == a.parent@[j],
        ensures
            b.searching(w, n, root, row, j + 1),
    {
        assert forall|r: int| b.in_tree(r, root) == a.in_tree(r, root) by {}
        assert forall|r: int, c: int| b.gap(w, r, c) == a.gap(w, r, c) by {}
        assert forall|c: int| 0 <= c < n && #[trigger] b.used@[c] implies b.col_row@[c] < w.len()
            && b.link_ok(w, root, c) by {
            assert(a.link_ok(w, root, c));
        }
        assert forall|c: int| 0 <= c < n && !#[trigger] b.used@[c] implies b.in_tree(
            b.parent@[c] as int,
            root,
        ) && b.slack@[c] == b.gap(w, b.parent@[c] as int, c) by {
            assert(a.in_tree(a.parent@[c] as int, root));
        }
        assert forall|r: int, c: int|
            0 <= c < n && !b.used@[c] && b.in_tree(r, root) && (r != row || c < j + 1)
            implies b.slack@[c] <= #[trigger] b.gap(w, r, c) by {
            if r != row || c < j {
                assert(a.slack@[c] <= a.gap(w, r, c));
            }
        }
    }

    /// Column `j`, whose slack has become zero and which is matched, joins the
    /// tree, and with it the row that it is matched to.
    proof fn lemma_join(a: Search, b: Search, w: Seq<Seq<int>>, n: nat, root: int, j: int)
        requires
            0 <= root < w.len() <= n,
            0 <= j < n,
            a.labels_ok(w, n),
            a.matched(w, n, root),
            a.searching(w, n, root, -1, 0),
            !a.used@[j],
            a.slack@[j] == 0,
            a.col_row@[j] < w.len(),
            b.u@ == a.u@,
            b.v@ == a.v@,
            b.row_col@ == a.row_col@,
            b.col_row@ == a.col_row@,
            b.slack@ == a.slack@,
            b.parent@ == a.parent@,
            b.used@ == a.used@.update(j, true),
            b.depth@ == a.depth@.update(
                j,
                if a.parent@[j] == root {
                    1nat
                } else {
                    a.depth@[a.row_col@[a.parent@[j] as int] as int] + 1
                },
            ),
        ensures
            b.labels_ok(w, n),
            b.matched(w, n, root),
            b.searching(w, n, root, a.col_row@[j] as int, 0),
            b.in_tree(a.col_row@[j] as int, root),
    {
        let row = a.col_row@[j] as int;
        assert(a.row_col@[row] == j);
        assert forall|r: int, c: int| b.gap(w, r, c) == a.gap(w, r, c) by {}
        assert forall|r: int| a.in_tree(r, root) implies b.in_tree(r, root) by {}
        assert forall|r: int| b.in_tree(r, root) && r != row implies a.in_tree(r, root) by {
            if r != root {
                let c = a.row_col@[r] as int;
                assert(a.col_row@[c] == r);
            }
        }
        assert(b.labels_ok(w, n));
        assert(b.matched(w, n, root));
        assert forall|c: int| 0 <= c < n && #[trigger] b.used@[c] implies b.col_row@[c] < w.len()
            && b.link_ok(w, root, c) by {
            let p = a.parent@[c] as int;
            if c == j {
                assert(a.in_tree(p, root));
                assert(a.slack@[j] == a.gap(w, p, j));
                if p != root {
                    assert(a.row_col@[p] != j) by {
                        assert(a.used@[a.row_col@[p] as int]);
                    }
                }
            } else {
                assert(a.used@[c]);
                assert(a.link_ok(w, root, c));
                if p != root {
                    assert(a.row_col@[p] != j) by {
                        assert(a.used@[a.row_col@[p] as int]);
                    }
                }
            }
        }
        assert forall|c: int| 0 <= c < n && !#[trigger] b.used@[c] implies b.in_tree(
            b.parent@[c] as int,
            root,
        ) && b.slack@[c] == b.gap(w, b.parent@[c] as int, c) by {
            assert(!a.used@[c]);
            assert(a.in_tree(a.parent@[c] as int, root));
        }
        assert forall|r: int, c: int|
            0 <= c < n && !b.used@[c] && b.in_tree(r, root) && (r != row || c < 0)
            implies b.slack@[c] <= #[trigger] b.gap(w, r, c) by {
            assert(!a.used@[c]);
            assert(a.in_tree(r, root));
            assert(a.slack@[c] <= a.gap(w, r, c));
        }
    }

    /// Column `j`, whose slack has become zero and which is free, ends the
    /// search: the path from it to the root runs through edges without slack.
    proof fn lemma_reach(a: Search, b: Search, w: Seq<Seq<int>>, n: nat, root: int, j: int)
        requires
            0 <= root < w.len() <= n,
            0 <= j < n,
            a.labels_ok(w, n),
            a.matched(w, n, root),
            a.searching(w, n, root, -1, 0),
            !a.used@[j],
            a.slack@[j] == 0,
            b.u@ == a.u@,
            b.v@ == a.v@,
            b.row_col@ == a.row_col@,
            b.col_row@ == a.col_row@,
            b.slack@ == a.slack@,
            b.parent@ == a.parent@,
            b.used@ == a.used@,
            b.depth@ == a.depth@.update(
                j,
                if a.parent@[j] == root {
                    1nat
                } else {
                    a.depth@[a.row_col@[a.parent@[j] as int] as int] + 1
                },
            ),
        ensures
            b.labels_ok(w, n),
            b.matched(w, n, root),
            b.searching(w, n, root, -1, 0),
            b.link_ok(w, root, j),
    {
        assert forall|r: int, c: int| b.gap(w, r, c) == a.gap(w, r, c) by {}
        assert forall|r: int| b.in_tree(r, root) == a.in_tree(r, root) by {}
        assert(b.labels_ok(w, n));
        assert(b.matched(w, n, root));
        let p = a.parent@[j] as int;
        assert(a.in_tree(p, root));
        assert(a.slack@[j] == a.gap(w, p, j));
        assert forall|c: int| 0 <= c < n && #[trigger] b.used@[c] implies b.col_row@[c] < w.len()
            && b.link_ok(w, root, c) by {
            assert(a.link_ok(w, root, c));
        }
        assert forall|c: int| 0 <= c < n && !#[trigger] b.used@[c] implies b.in_tree(
            b.parent@[c] as int,
            root,
        ) && b.slack@[c] == b.gap(w, b.parent@[c] as int, c) by {
            assert(a.in_tree(a.parent@[c] as int, root));
        }
        assert forall|r: int, c: int|
            0 <= c < n && !b.used@[c] && b.in_tree(r, root) && (r != -1 || c < 0)
            implies b.slack@[c] <= #[trigger] b.gap(w, r, c) by {
            assert(a.slack@[c] <= a.gap(w, r, c));
        }
    }

    /// The state while the path from a free column to the root is flipped,
    /// against `before`, the state in which the search ended. Column `j` is the
    /// next to be matched anew; but for it the matching is consistent, and what
    /// lies nearer to the root than `j` is as it was.
    spec fn flipping(&self, before: Search, w: Seq<Seq<int>>, n: nat, root: int, j: int) -> bool {
        &&& self.u@ == before.u@
        &&& self.v@ == before.v@
        &&& self.used@ == before.used@
        &&& self.parent@ == before.parent@
        &&& self.depth@ == before.depth@
        &&& self.row_col@.len() == w.len()
        &&& self.col_row@.len() == n
        &&& 0 <= j < n
        &&& self.col_row@[j] == before.col_row@[j]
        &&& before.link_ok(w, root, j)
        &&& forall|r: int|
            0 <= r < root ==> {
                let c = #[trigger] self.row_col@[r];
                &&& c < n
                &&& c != j
                &&& self.col_row@[c as int] == r
                &&& self.gap(w, r, c as int) == 0
            }
        &&& forall|c: int|
            0 <= c < n && c != j ==> {
                let r = #[trigger] self.col_row@[c];
                &&& r <= w.len()
                &&& r < w.len() ==> r < root && self.row_col@[r as int] == c
                &&& r == w.len() ==> self.v@[c] == 0
            }
        &&& forall|r: int|
            0 <= r < root && before.used@[before.row_col@[r] as int]
                && before.depth@[before.row_col@[r] as int] < before.depth@[j]
                ==> #[trigger] self.row_col@[r] == before.row_col@[r]
        &&& forall|c: int|
            0 <= c < n && before.used@[c] && before.depth@[c] < before.depth@[j]
                ==> #[trigger] self.col_row@[c] == before.col_row@[c]
    }

    /// One step of the flip: column `j` takes its parent row, and the column
    /// that the row was matched to is the next.
    proof fn lemma_flip_step(
        before: Search,
        a: Search,
        b: Search,
        w: Seq<Seq<int>>,
        n: nat,
        root: int,
        j: int,
    )
        requires
            0 <= root < w.len() <= n <= usize::MAX,
            before.labels_ok(w, n),
            before.matched(w, n, root),
            before.searching(w, n, root, -1, 0),
            a.flipping(before, w, n, root, j),
            a.parent@[j] != root,
            b.u@ == a.u@,
            b.v@ == a.v@,
            b.used@ == a.used@,
            b.parent@ == a.parent@,
            b.depth@ == a.depth@,
            b.col_row@ == a.col_row@.update(j, a.parent@[j]),
            b.row_col@ == a.row_col@.update(a.parent@[j] as int, j as usize),
        ensures
            b.flipping(before, w, n, root, a.row_col@[a.parent@[j] as int] as int),
            before.depth@[a.row_col@[a.parent@[j] as int] as int] < before.depth@[j],
    {
        let p = a.parent@[j] as int;
        assert(before.in_tree(p, root));
        let next = before.row_col@[p] as int;
        assert(before.col_row@[next] == p);
        assert(a.row_col@[p] == before.row_col@[p]);
        assert(a.col_row@[next] == before.col_row@[next]);
        assert(before.link_ok(w, root, next));
        assert forall|r: int, c: int| b.gap(w, r, c) == a.gap(w, r, c) by {}
        assert forall|r: int, c: int| a.gap(w, r, c) == before.gap(w, r, c) by {}
        assert forall|r: int| 0 <= r < root implies {
            let c = #[trigger] b.row_col@[r];
            &&& c < n
            &&& c != next
            &&& b.col_row@[c as int] == r
            &&& b.gap(w, r, c as int) == 0
        } by {
            if r != p {
                let c = a.row_col@[r] as int;
                assert(a.col_row@[c] == r);
            }
        }
        assert forall|c: int| 0 <= c < n && c != next implies {
            let r = #[trigger] b.col_row@[c];
            &&& r <= w.len()
            &&& r < w.len() ==> r < root && b.row_col@[r as int] == c
            &&& r == w.len() ==> b.v@[c] == 0
        } by {
            if c != j {
                let r = a.col_row@[c] as int;
                if r < w.len() {
                    assert(a.row_col@[r] == c);
                }
            }
        }
        assert forall|r: int|
            0 <= r < root && before.used@[before.row_col@[r] as int]
                && before.depth@[before.row_col@[r] as int] < before.depth@[next]
            implies #[trigger] b.row_col@[r] == before.row_col@[r] by {
            assert(a.row_col@[r] == before.row_col@[r]);
        }
        assert forall|c: int|
            0 <= c < n && before.used@[c] && before.depth@[c] < before.depth@[next]
            implies #[trigger] b.col_row@[c] == before.col_row@[c] by {
            assert(a.col_row@[c] == before.col_row@[c]);
        }
    }

    /// The last step of the flip: column `j` takes the root, and one row more
    /// is matched.
    proof fn lemma_flip_last(
        before: Search,
        a: Search,
        b: Search,
        w: Seq<Seq<int>>,
        n: nat,
        root: int,
        j: int,
    )
        requires
            0 <= root < w.len() <= n <= usize::MAX,
            before.labels_ok(w, n),
            before.searching(w, n, root, -1, 0),
            a.flipping(before, w, n, root, j),
            a.parent@[j] == root,
            b.u@ == a.u@,
            b.v@ == a.v@,
            b.col_row@ == a.col_row@.update(j, root as usize),
            b.row_col@ == a.row_col@.update(root, j as usize),
        ensures
            b.labels_ok(w, n),
            b.matched(w, n, root + 1),
    {
        assert forall|r: int, c: int| b.gap(w, r, c) == before.gap(w, r, c) by {}
        assert forall|r: int, c: int| a.gap(w, r, c) == before.gap(w, r, c) by {}
        assert(b.labels_ok(w, n));
        assert forall|r: int| 0 <= r < root + 1 implies {
            let c = #[trigger] b.row_col@[r];
            &&& c < n
            &&& b.col_row@[c as int] == r
            &&& b.gap(w, r, c as int) == 0
        } by {
            if r != root {
                let c = a.row_col@[r] as int;
                assert(a.col_row@[c] == r);
            }
        }
        assert forall|c: int| 0 <= c < n implies {
            let r = #[trigger] b.col_row@[c];
            &&& r <= w.len()
            &&& r < w.len() ==> r < root + 1 && b.row_col@[r as int] == c
            &&& r == w.len() ==> b.v@[c] == 0
        } by {
            if c != j {
                let r = a.col_row@[c] as int;
                if r < w.len() {
                    assert(a.row_col@[r] == c);
                }
            }
        }
    }

    /// Flips the path from the free column `end` to the root: each column on
    /// it takes its parent row. After that `root` is matched too.
    fn augment(&mut self, w: &WeightMatrix, root: usize, end: usize)
        requires
            root < w@.len(),
            end < w.spec_cols(),
            old(self).labels_ok(w@, w.spec_cols()),
            old(self).matched(w@, w.spec_cols(), root as int),
            old(self).searching(w@, w.spec_cols(), root as int, -1, 0),
            old(self).col_row@[end as int] == w@.len(),
            old(self).link_ok(w@, root as int, end as int),
        ensures
            final(self).labels_ok(w@, w.spec_cols()),
            final(self).matched(w@, w.spec_cols(), root + 1),
            final(self).state() == flipped(old(self).state(), root as int, end as int),
    {
        let m: usize = w.rows();
        let n: usize = w.cols();
        let ghost before = *self;
        let mut j: usize = end;
        proof {
            assert forall|r: int| 0 <= r < root implies (#[trigger] self.row_col@[r]) != end by {
                let c = self.row_col@[r] as int;
                assert(self.col_row@[c] == r);
            }
        }
        while self.parent[j] != root
            invariant
                root < m,
                m == w@.len(),
                m <= n,
                n == w.spec_cols(),
                before.labels_ok(w@, n as nat),
                before.matched(w@, n as nat, root as int),
                before.searching(w@, n as nat, root as int, -1, 0),
                self.flipping(before, w@, n as nat, root as int, j as int),
                self.slack@ == before.slack@,
                flipped(before.state(), root as int, end as int) == flipped(
                    self.state(),
                    root as int,
                    j as int,
                ),
            decreases self.depth@[j as int],
        {
            let p: usize = self.parent[j];
            let ghost prev = *self;
            proof {
                assert(before.in_tree(p as int, root as int));
            }
            let next: usize = self.row_col[p];
            self.col_row.set(j, p);
            self.row_col.set(p, j);
            proof {
                Self::lemma_flip_step(before, prev, *self, w@, n as nat, root as int, j as int);
                let a = prev.state();
                let t = State {
                    col_row: a.col_row.update(j as int, p as int),
                    row_col: a.row_col.update(p as int, j as int),
                    ..a
                };
                Self::lemma_same_state(self.state(), t);
                assert(a.row_col[p as int] == next);
                assert(a.depth[next as int] < a.depth[j as int]);
                assert(flipped(a, root as int, j as int) == flipped(t, root as int, next as int));
            }
            j = next;
        }
        let ghost prev = *self;
        self.col_row.set(j, root);
        self.row_col.set(root, j);
        proof {
            Self::lemma_flip_last(before, prev, *self, w@, n as nat, root as int, j as int);
            let a = prev.state();
            let t = State {
                col_row: a.col_row.update(j as int, root as int),
                row_col: a.row_col.update(root as int, j as int),
                ..a
            };
            Self::lemma_same_state(self.state(), t);
            assert(flipped(a, root as int, j as int) == t);
        }
    }

    /// Matches `root`, keeping every row below it matched.
    fn grow(&mut self, w: &WeightMatrix, root: usize)
        requires
            root < w@.len(),
            old(self).labels_ok(w@, w.spec_cols()),
            old(self).matched(w@, w.spec_cols(), root as int),
        ensures
            final(self).labels_ok(w@, w.spec_cols()),
            final(self).matched(w@, w.spec_cols(), root + 1),
            final(self).state() == grown(old(self).state(), w@, root as int),
    {
        let m: usize = w.rows();
        let n: usize = w.cols();
        let ghost start = *self;
        self.begin(w, root);
        proof {
            Self::lemma_carry(start, *self, w@, n as nat, root as int);
        }
        let ghost goal = searched(self.state(), w@, root as int);
        let mut end: usize = 0;
        loop
            invariant_except_break
                root < m,
                m == w@.len(),
                m <= n,
                n == w.spec_cols(),
                self.labels_ok(w@, n as nat),
                self.matched(w@, n as nat, root as int),
                self.searching(w@, n as nat, root as int, -1, 0),
                searched(self.state(), w@, root as int) == goal,
            ensures
                root < m,
                m == w@.len(),
                n == w.spec_cols(),
                goal == (self.state(), end as int),
                self.labels_ok(w@, n as nat),
                self.matched(w@, n as nat, root as int),
                self.searching(w@, n as nat, root as int, -1, 0),
                end < n,
                self.col_row@[end as int] == m,
                self.link_ok(w@, root as int, end as int),
            decreases total(outside(self.used@)),
        {
            proof {
                let c = self.lemma_free_column(w@, n as nat, root as int);
                assert(!self.used@[c]);
            }
            let ghost begun = self.state();
            let (delta, j1) = self.select();
            proof {
                lemma_least_outside_unique(begun, j1 as int);
            }
            self.tighten(w, root, delta);
            let ghost tight = *self;
            let ghost d: nat = if self.parent@[j1 as int] == root {
                1nat
            } else {
                self.depth@[self.row_col@[self.parent@[j1 as int] as int] as int] + 1
            };
            proof {
                w.lemma_shape();
            }
            if self.col_row[j1] == m {
                self.depth = Ghost(self.depth@.update(j1 as int, d));
                proof {
                    Self::lemma_reach(tight, *self, w@, n as nat, root as int, j1 as int);
                    Self::lemma_same_state(
                        self.state(),
                        reached(tight.state(), root as int, j1 as int),
                    );
                    assert(searched(begun, w@, root as int) == (self.state(), j1 as int));
                }
                end = j1;
                break ;
            }
            let row: usize = self.col_row[j1];
            self.used.set(j1, true);
            self.depth = Ghost(self.depth@.update(j1 as int, d));
            proof {
                Self::lemma_join(tight, *self, w@, n as nat, root as int, j1 as int);
                lemma_outside_shrinks(tight.used@, j1 as int);
                assert(tight.row_col@[row as int] == j1);
                Self::lemma_same_state(self.state(), joined(tight.state(), root as int, j1 as int));
            }
            self.relax(w, root, row);
            proof {
                assert(searched(begun, w@, root as int) == searched(self.state(), w@, root as int));
            }
        }
        self.augment(w, root, end);
    }
}

/// A solved assignment: the column of each row, and the weight of the whole.
#[derive(Debug)]
pub struct Assignment {
    slots: Vec<usize>,
    total: u128,
}

/// An assignment as a mathematical value.
pub struct AssignmentModel {
    /// The 0-based column of each row.
    pub slots: Seq<int>,
    /// The sum of the weights at the assigned positions.
    pub total: int,
}

/// The entries of `s` as integers.
pub open spec fn ints(s: Seq<usize>) -> Seq<int> {
    Seq::new(s.len(), |i: int| s[i] as int)
}

impl View for Assignment {
    type V = AssignmentModel;

    closed spec fn view(&self) -> AssignmentModel {
        AssignmentModel { slots: ints(self.slots@), total: self.total as int }
    }
}

impl Assignment {
    /// The 0-based column assigned to each row.
    pub fn slots(&self) -> (s: &Vec<usize>)
        ensures
            ints(s@) == self@.slots,
    {
        &self.slots
    }

    /// The sum of the weights at the assigned positions.
    pub fn total(&self) -> (t: u128)
        ensures
            t == self@.total,
    {
        self.total
    }
}

/// A maximum-weight assignment of the rows of `w` to distinct columns.
///
/// No row shares its column with another, the total is the sum of the weights
/// at the assigned positions, and no assignment of the rows to distinct
/// columns weighs more. Where several assignments weigh the most, the result
/// is the one that the method of `solution` ends with, so equal matrices
/// always get equal assignments.
pub fn solve(w: &WeightMatrix) -> (res: Assignment)
    ensures
        res@.slots == solution(w@, w.spec_cols()),
        is_optimal(w@, w.spec_cols(), res@.slots),
        res@.total == assignment_weight(w@, res@.slots),
{
    let m: usize = w.rows();
    let n: usize = w.cols();
    if m == 0 {
        // Without rows nothing is to be allocated, however many columns there are.
        let res = Assignment { slots: Vec::new(), total: 0 };
        proof {
            let none = Seq::<int>::empty();
            assert(res@.slots =~= none);
            assert(solution(w@, n as nat) =~= none);
            assert(selected(w@, none) =~= none);
            assert forall|g: Seq<int>| #[trigger]
                is_assignment(g, 0, n as nat) implies assignment_weight(w@, g) <= assignment_weight(
                w@,
                none,
            ) by {
                assert(g =~= none);
            }
        }
        return res;
    }
    let mut s = Search::start(w);
    let mut root: usize = 0;
    while root < m
        invariant
            root <= m,
            m == w@.len(),
            n == w.spec_cols(),
            s.labels_ok(w@, n as nat),
            s.matched(w@, n as nat, root as int),
            s.state() == solved(w@, n as nat, root as nat),
        decreases m - root,
    {
        s.grow(w, root);
        root = root + 1;
    }
    let ghost g = ints(s.row_col@);
    assert(g =~= solution(w@, n as nat));
    proof {
        w.lemma_shape();
        let u = Seq::new(m as nat, |r: int| s.u@[r] as int);
        let v = Seq::new(n as nat, |j: int| s.v@[j] as int);
        assert forall|r: int, j: int| 0 <= r < m && 0 <= j < n implies #[trigger] w@[r][j] <= u[r]
            + v[j] by {
            assert(0 <= s.gap(w@, r, j));
        }
        assert forall|i: int, j: int| 0 <= i < j < m implies #[trigger] g[i] != #[trigger] g[j] by {
            assert(s.col_row@[s.row_col@[i] as int] == i);
            assert(s.col_row@[s.row_col@[j] as int] == j);
        }
        assert forall|i: int| 0 <= i < m implies 0 <= #[trigger] g[i] < n by {
            assert(s.row_col@[i] < n);
        }
        assert forall|r: int| 0 <= r < m implies #[trigger] w@[r][g[r]] == u[r] + v[g[r]] by {
            assert(s.row_col@[r] < n);
            assert(s.gap(w@, r, s.row_col@[r] as int) == 0);
        }
        assert forall|j: int| 0 <= j < n && !g.contains(j) implies #[trigger] v[j] == 0 by {
            let r = s.col_row@[j];
            if r < m {
                assert(g[r as int] == j);
            }
        }
        lemma_certificate(w@, n as nat, u, v, g);
    }
    let mut sum: u128 = 0;
    let mut r: usize = 0;
    while r < m
        invariant
            r <= m,
            m == w@.len(),
            n == w.spec_cols(),
            s.row_col@.len() == m,
            g == ints(s.row_col@),
            is_assignment(g, m as nat, n as nat),
            sum == total(selected(w@, g).take(r as int)),
            sum <= r * u64::MAX,
        decreases m - r,
    {
        let ghost part = selected(w@, g).take(r + 1);
        assert(part.drop_last() =~= selected(w@, g).take(r as int));
        assert(0 <= g[r as int] < n);
        let x: u64 = w.get(r, s.row_col[r]);
        assert((r + 1) * u64::MAX == r * u64::MAX + u64::MAX) by (nonlinear_arith);
        assert(r * u64::MAX <= usize::MAX * u64::MAX) by (nonlinear_arith)
            requires
                r <= usize::MAX,
        ;
        sum = sum + x as u128;
        r = r + 1;
    }
    assert(selected(w@, g).take(m as int) =~= selected(w@, g));
    Assignment { slots: s.row_col, total: sum }
}

} // verus!
