//! The agent-by-slot weight matrix.

use crate::error::ConfigurationError;
use vstd::prelude::*;

verus! {

/// A rectangular grid of non-negative weights, one row per agent and one
/// column per slot, with at least as many columns as rows.
#[derive(Debug)]
pub struct WeightMatrix {
    rows: usize,
    cols: usize,
    data: Vec<u64>,
}

proof fn lemma_index_in_bounds(i: int, j: int, rows: int, cols: int)
    by (nonlinear_arith)
    requires
        0 <= i < rows,
        0 <= j < cols,
    ensures
        0 <= i * cols + j < rows * cols,
        i * cols >= 0,
{
}

/// The largest number of entries of a matrix: what can be allocated with
/// sixteen bytes for each.
pub open spec fn max_entries() -> int {
    isize::MAX / 16
}

/// `w` has rows of `cols` entries each, and every entry is a `u64`.
pub open spec fn is_grid(w: Seq<Seq<int>>, cols: nat) -> bool {
    &&& forall|i: int| 0 <= i < w.len() ==> (#[trigger] w[i]).len() == cols
    &&& forall|i: int, j: int|
        0 <= i < w.len() && 0 <= j < cols ==> 0 <= #[trigger] w[i][j] <= u64::MAX
}

impl View for WeightMatrix {
    type V = Seq<Seq<int>>;

    /// Row `i`, column `j` of the view is the weight of slot `j + 1` for agent `i`.
    closed spec fn view(&self) -> Seq<Seq<int>> {
        Seq::new(
            self.rows as nat,
            |i: int| Seq::new(self.cols as nat, |j: int| self.data@[i * self.cols + j] as int),
        )
    }
}

impl WeightMatrix {
    #[verifier::type_invariant]
    spec fn well_formed(self) -> bool {
        &&& self.rows <= self.cols
        &&& self.rows * self.cols <= max_entries()
        &&& self.data@.len() == self.rows * self.cols
    }

    /// The number of columns (slots).
    pub closed spec fn spec_cols(&self) -> nat {
        self.cols as nat
    }

    /// The view of a matrix is a grid of as many columns as the matrix has.
    pub proof fn lemma_shape(&self)
        ensures
            is_grid(self@, self.spec_cols()),
    {
    }

    /// A matrix of `rows` by `cols` zeros.
    pub fn new(rows: usize, cols: usize) -> (res: Result<WeightMatrix, ConfigurationError>)
        ensures
            cols < rows ==> res == Err::<WeightMatrix, ConfigurationError>(
                ConfigurationError::InsufficientSlots { agents: rows, slots: cols },
            ),
            rows <= cols && rows * cols > max_entries() ==> res == Err::<
                WeightMatrix,
                ConfigurationError,
            >(ConfigurationError::MatrixTooLarge { agents: rows, slots: cols }),
            rows <= cols && rows * cols <= max_entries() ==> res is Ok,
            res matches Ok(m) ==> {
                &&& m@.len() == rows
                &&& m.spec_cols() == cols
                &&& is_grid(m@, cols as nat)
                &&& forall|i: int, j: int| 0 <= i < rows && 0 <= j < cols ==> #[trigger] m@[i][j] == 0
            },
    {
        if cols < rows {
            return Err(ConfigurationError::InsufficientSlots { agents: rows, slots: cols });
        }
        let limit: usize = (isize::MAX as usize) / 16;
        let size: usize = match rows.checked_mul(cols) {
            Some(size) => size,
            None => usize::MAX,
        };
        if size > limit {
            return Err(ConfigurationError::MatrixTooLarge { agents: rows, slots: cols });
        }
        let mut data: Vec<u64> = Vec::new();
        let mut k: usize = 0;
        while k < size
            invariant
                k <= size,
                data@.len() == k,
                forall|x: int| 0 <= x < k ==> data@[x] == 0,
            decreases size - k,
        {
            data.push(0);
            k = k + 1;
        }
        let m = WeightMatrix { rows, cols, data };
        proof {
            assert forall|i: int, j: int| 0 <= i < rows && 0 <= j < cols implies #[trigger] m@[i][j]
                == 0 by {
                lemma_index_in_bounds(i, j, rows as int, cols as int);
            }
        }
        Ok(m)
    }

    /// The number of rows (agents).
    pub fn rows(&self) -> (r: usize)
        ensures
            r == self@.len(),
            is_grid(self@, self.spec_cols()),
    {
        self.rows
    }

    /// The number of columns (slots), never less than the number of rows.
    pub fn cols(&self) -> (c: usize)
        ensures
            c == self.spec_cols(),
            self@.len() <= c,
            is_grid(self@, self.spec_cols()),
    {
        proof {
            use_type_invariant(self);
        }
        self.cols
    }

    /// The weight at row `i`, column `j`.
    pub fn get(&self, i: usize, j: usize) -> (x: u64)
        requires
            i < self@.len(),
            j < self.spec_cols(),
        ensures
            x == self@[i as int][j as int],
    {
        proof {
            use_type_invariant(self);
            lemma_index_in_bounds(i as int, j as int, self.rows as int, self.cols as int);
        }
        self.data[i * self.cols + j]
    }

    /// The same matrix with the weight at row `i`, column `j` replaced by `x`.
    pub fn with(self, i: usize, j: usize, x: u64) -> (res: WeightMatrix)
        requires
            i < self@.len(),
            j < self.spec_cols(),
        ensures
            res.spec_cols() == self.spec_cols(),
            res@ == self@.update(i as int, self@[i as int].update(j as int, x as int)),
            is_grid(res@, res.spec_cols()),
    {
        proof {
            use_type_invariant(&self);
            lemma_index_in_bounds(i as int, j as int, self.rows as int, self.cols as int);
        }
        let ghost before = self@;
        let WeightMatrix { rows, cols, mut data } = self;
        let idx: usize = i * cols + j;
        data.set(idx, x);
        let res = WeightMatrix { rows, cols, data };
        proof {
            let b = before.update(i as int, before[i as int].update(j as int, x as int));
            assert(res@.len() == b.len());
            assert forall|r: int| 0 <= r < res@.len() implies res@[r] =~= b[r] by {
                assert forall|c: int| 0 <= c < cols implies res@[r][c] == b[r][c] by {
                    lemma_index_in_bounds(r, c, rows as int, cols as int);
                    lemma_cell_distinct(r, c, i as int, j as int, cols as int);
                }
            }
            assert(res@ =~= b);
        }
        res
    }
}

proof fn lemma_cell_distinct(r: int, c: int, i: int, j: int, cols: int)
    by (nonlinear_arith)
    requires
        0 <= c < cols,
        0 <= j < cols,
        0 <= r,
        0 <= i,
    ensures
        (r * cols + c == i * cols + j) <==> (r == i && c == j),
{
}

} // verus!
