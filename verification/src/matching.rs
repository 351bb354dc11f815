//! Assignments of rows to distinct columns, their weight, and the duality
//! argument that certifies one of them as optimal.

use vstd::prelude::*;
use vstd::relations::injective_on;
use vstd::set_lib::{lemma_int_range, lemma_len_subset, lemma_map_size, set_int_range};

verus! {

/// The sum of the entries of `s`.
pub open spec fn total(s: Seq<int>) -> int
    decreases s.len(),
{
    if s.len() == 0 {
        0
    } else {
        total(s.drop_last()) + s.last()
    }
}

/// `f` gives each of `rows` rows a column below `cols`, and no column twice.
pub open spec fn is_assignment(f: Seq<int>, rows: nat, cols: nat) -> bool {
    &&& f.len() == rows
    &&& forall|i: int| 0 <= i < f.len() ==> 0 <= #[trigger] f[i] < cols
    &&& forall|i: int, j: int| 0 <= i < j < f.len() ==> #[trigger] f[i] != #[trigger] f[j]
}

/// The entries of `w` that `f` selects, one per row.
pub open spec fn selected(w: Seq<Seq<int>>, f: Seq<int>) -> Seq<int> {
    Seq::new(f.len(), |i: int| w[i][f[i]])
}

/// The weight of `f`: the sum of the entries of `w` at the assigned positions.
pub open spec fn assignment_weight(w: Seq<Seq<int>>, f: Seq<int>) -> int {
    total(selected(w, f))
}

/// `f` is an assignment of the rows of `w` to `cols` columns, and no other
/// such assignment weighs more.
pub open spec fn is_optimal(w: Seq<Seq<int>>, cols: nat, f: Seq<int>) -> bool {
    &&& is_assignment(f, w.len(), cols)
    &&& forall|g: Seq<int>| #[trigger]
        is_assignment(g, w.len(), cols) ==> assignment_weight(w, g) <= assignment_weight(w, f)
}

/// The entries of `v` at the columns that `f` uses, in the order of `f`.
pub open spec fn picked(v: Seq<int>, f: Seq<int>) -> Seq<int> {
    Seq::new(f.len(), |i: int| v[f[i]])
}

/// `v` with the entries at the columns that `f` uses replaced by zero.
pub open spec fn missed(v: Seq<int>, f: Seq<int>) -> Seq<int> {
    Seq::new(v.len(), |j: int| if f.contains(j) { 0 } else { v[j] })
}

/// Distinct integers from a range are no more than the range holds.
pub proof fn lemma_distinct_bounded(s: Seq<int>, lo: int, hi: int)
    requires
        lo <= hi,
        forall|i: int| 0 <= i < s.len() ==> lo <= #[trigger] s[i] < hi,
        forall|i: int, j: int| 0 <= i < j < s.len() ==> #[trigger] s[i] != #[trigger] s[j],
    ensures
        s.len() <= hi - lo,
{
    let f = |i: int| s[i];
    let dom = set_int_range(0, s.len() as int);
    let img = dom.map(f);
    lemma_int_range(0, s.len() as int);
    lemma_int_range(lo, hi);
    assert(injective_on(f, dom)) by {
        assert forall|i: int, j: int|
            dom.contains(i) && dom.contains(j) && #[trigger] f(i) == #[trigger] f(j) implies i
            == j by {
            if i < j {
                assert(s[i] != s[j]);
            } else if j < i {
                assert(s[j] != s[i]);
            }
        }
    }
    lemma_map_size(dom, img, f);
    assert(img.subset_of(set_int_range(lo, hi))) by {
        assert forall|x: int| img.contains(x) implies set_int_range(lo, hi).contains(x) by {
            let i = choose|i: int| dom.contains(i) && x == f(i);
            assert(lo <= s[i] < hi);
        }
    }
    lemma_len_subset(img, set_int_range(lo, hi));
}

/// An assignment uses as many columns as there are rows, all of them below
/// `cols`; so there are no more rows than columns.
pub proof fn lemma_assignment_image(f: Seq<int>, rows: nat, cols: nat)
    requires
        is_assignment(f, rows, cols),
    ensures
        f.to_set().len() == rows,
        f.to_set().subset_of(set_int_range(0, cols as int)),
        rows <= cols,
{
    assert(f.no_duplicates());
    f.unique_seq_to_set();
    assert forall|x: int| f.to_set().contains(x) implies set_int_range(0, cols as int).contains(
        x,
    ) by {
        let i = choose|i: int| 0 <= i < f.len() && f[i] == x;
        assert(0 <= f[i] < cols);
    }
    lemma_distinct_bounded(f, 0, cols as int);
}

/// A sum grows with its terms.
pub proof fn lemma_total_monotone(a: Seq<int>, b: Seq<int>)
    requires
        a.len() == b.len(),
        forall|i: int| 0 <= i < a.len() ==> a[i] <= b[i],
    ensures
        total(a) <= total(b),
    decreases a.len(),
{
    if a.len() > 0 {
        lemma_total_monotone(a.drop_last(), b.drop_last());
    }
}

/// The sum of termwise sums is the sum of the sums.
pub proof fn lemma_total_additive(a: Seq<int>, b: Seq<int>, c: Seq<int>)
    requires
        a.len() == b.len(),
        a.len() == c.len(),
        forall|i: int| 0 <= i < a.len() ==> c[i] == a[i] + b[i],
    ensures
        total(c) == total(a) + total(b),
    decreases a.len(),
{
    if a.len() > 0 {
        lemma_total_additive(a.drop_last(), b.drop_last(), c.drop_last());
    }
}

/// Replacing one term changes the sum by the difference.
pub proof fn lemma_total_update(s: Seq<int>, i: int, y: int)
    requires
        0 <= i < s.len(),
    ensures
        total(s.update(i, y)) == total(s) - s[i] + y,
    decreases s.len(),
{
    if i == s.len() - 1 {
        assert(s.update(i, y).drop_last() =~= s.drop_last());
    } else {
        assert(s.update(i, y).drop_last() =~= s.drop_last().update(i, y));
        lemma_total_update(s.drop_last(), i, y);
    }
}

/// A sum of `count` terms between `lo` and `hi` lies between `count * lo` and `count * hi`.
pub proof fn lemma_total_bounds(s: Seq<int>, lo: int, hi: int)
    requires
        forall|i: int| 0 <= i < s.len() ==> lo <= #[trigger] s[i] && s[i] <= hi,
    ensures
        s.len() * lo <= total(s) <= s.len() * hi,
    decreases s.len(),
{
    if s.len() > 0 {
        lemma_total_bounds(s.drop_last(), lo, hi);
        assert((s.len() - 1) * lo + lo == s.len() * lo) by (nonlinear_arith);
        assert((s.len() - 1) * hi + hi == s.len() * hi) by (nonlinear_arith);
    }
}

/// A sum of terms that are not negative is not negative.
pub proof fn lemma_total_nonnegative(s: Seq<int>)
    requires
        forall|i: int| 0 <= i < s.len() ==> 0 <= #[trigger] s[i],
    ensures
        0 <= total(s),
    decreases s.len(),
{
    if s.len() > 0 {
        lemma_total_nonnegative(s.drop_last());
    }
}

/// Every entry of `v` is either picked by `f` exactly once or missed by it.
pub proof fn lemma_picked_and_missed(v: Seq<int>, f: Seq<int>)
    requires
        forall|i: int| 0 <= i < f.len() ==> 0 <= #[trigger] f[i] < v.len(),
        forall|i: int, j: int| 0 <= i < j < f.len() ==> #[trigger] f[i] != #[trigger] f[j],
    ensures
        total(v) == total(picked(v, f)) + total(missed(v, f)),
    decreases f.len(),
{
    if f.len() == 0 {
        assert(missed(v, f) =~= v);
        assert(picked(v, f) =~= Seq::<int>::empty());
    } else {
        let g = f.drop_last();
        let x = f.last();
        lemma_picked_and_missed(v, g);
        assert(picked(v, f).drop_last() =~= picked(v, g));
        assert(!g.contains(x)) by {
            if g.contains(x) {
                let i = choose|i: int| 0 <= i < g.len() && g[i] == x;
                assert(f[i] == x);
                assert(f[f.len() - 1] == x);
            }
        }
        assert forall|j: int| 0 <= j < v.len() implies missed(v, f)[j] == missed(v, g).update(
            x,
            0,
        )[j] by {
            if j == x {
                assert(f[f.len() - 1] == j);
            } else if f.contains(j) {
                let i = choose|i: int| 0 <= i < f.len() && f[i] == j;
                assert(g[i] == j);
            } else if g.contains(j) {
                let i = choose|i: int| 0 <= i < g.len() && g[i] == j;
                assert(f[i] == j);
            }
        }
        assert(missed(v, f) =~= missed(v, g).update(x, 0));
        lemma_total_update(missed(v, g), x, 0);
    }
}

/// Weak and strong duality for the assignment problem.
///
/// Let `u` and `v` label the rows and columns of `w` so that every entry is at
/// most the sum of its two labels, with no column label negative. If `g` is an
/// assignment whose selected entries equal the sum of their labels, and every
/// column that `g` leaves free has label zero, then `g` is optimal and weighs
/// as much as all the labels together.
pub proof fn lemma_certificate(
    w: Seq<Seq<int>>,
    cols: nat,
    u: Seq<int>,
    v: Seq<int>,
    g: Seq<int>,
)
    requires
        u.len() == w.len(),
        v.len() == cols,
        forall|r: int| 0 <= r < w.len() ==> (#[trigger] w[r]).len() == cols,
        forall|r: int, j: int|
            0 <= r < w.len() && 0 <= j < cols ==> #[trigger] w[r][j] <= u[r] + v[j],
        forall|j: int| 0 <= j < cols ==> 0 <= #[trigger] v[j],
        is_assignment(g, w.len(), cols),
        forall|r: int| 0 <= r < w.len() ==> #[trigger] w[r][g[r]] == u[r] + v[g[r]],
        forall|j: int| 0 <= j < cols && !g.contains(j) ==> #[trigger] v[j] == 0,
    ensures
        is_optimal(w, cols, g),
        assignment_weight(w, g) == total(u) + total(v),
{
    lemma_picked_and_missed(v, g);
    lemma_total_bounds(missed(v, g), 0, 0);
    lemma_total_additive(u, picked(v, g), selected(w, g));
    assert forall|f: Seq<int>| #[trigger] is_assignment(f, w.len(), cols) implies assignment_weight(
        w,
        f,
    ) <= assignment_weight(w, g) by {
        let bound = Seq::new(f.len(), |i: int| u[i] + v[f[i]]);
        lemma_total_monotone(selected(w, f), bound);
        lemma_total_additive(u, picked(v, f), bound);
        lemma_picked_and_missed(v, f);
        lemma_total_nonnegative(missed(v, f));
    }
}

} // verus!
