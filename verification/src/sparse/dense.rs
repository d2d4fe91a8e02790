//! Dense matrices, stored row by row.
use vstd::prelude::*;

verus! {

/// The mathematical value of a dense matrix: its number of columns and its
/// rows.
pub struct DenseModel<N> {
    pub ncols: nat,
    pub rows: Seq<Seq<N>>,
}

impl<N> DenseModel<N> {
    pub open spec fn nrows(self) -> nat {
        self.rows.len()
    }

    /// The value at row `i`, column `j`.
    pub open spec fn at(self, i: int, j: int) -> N {
        self.rows[i][j]
    }
}

/// A dense matrix: every row holds `ncols` values.
pub struct DenseMatrix<N> {
    ncols: usize,
    rows: Vec<Vec<N>>,
}

impl<N> DenseMatrix<N> {
    #[verifier::type_invariant]
    pub closed spec fn wf(self) -> bool {
        forall|i: int| 0 <= i < self.rows@.len() ==> (#[trigger] self.rows@[i])@.len() == self.ncols
    }

    pub closed spec fn model(self) -> DenseModel<N> {
        DenseModel { ncols: self.ncols as nat, rows: Seq::new(self.rows@.len(), |i: int| self.rows@[i]@) }
    }

    /// Every row of the matrix has `ncols` values.
    pub proof fn lemma_rows_len(&self)
        requires
            self.wf(),
        ensures
            forall|i: int| 0 <= i < self@.nrows() ==> (#[trigger] self@.rows[i]).len() == self@.ncols,
    {
    }

    /// The matrix with the given rows, if each of them has `ncols` values.
    pub fn from_rows(ncols: usize, rows: Vec<Vec<N>>) -> (r: Option<DenseMatrix<N>>)
        ensures
            r is Some <==> forall|i: int| 0 <= i < rows@.len() ==> (#[trigger] rows@[i])@.len() == ncols,
            r matches Some(d) ==> d@ == (DenseModel {
                ncols: ncols as nat,
                rows: Seq::new(rows@.len(), |i: int| rows@[i]@),
            }),
    {
        let mut i: usize = 0;
        while i < rows.len()
            invariant
                i <= rows@.len(),
                forall|q: int| 0 <= q < i ==> (#[trigger] rows@[q])@.len() == ncols,
            decreases rows@.len() - i,
        {
            if rows[i].len() != ncols {
                return None;
            }
            i = i + 1;
        }
        Some(DenseMatrix { ncols, rows })
    }

    /// Number of rows.
    pub fn nrows(&self) -> (r: usize)
        ensures
            r == self@.nrows(),
    {
        self.rows.len()
    }

    /// Number of columns.
    pub fn ncols(&self) -> (r: usize)
        ensures
            r == self@.ncols,
    {
        self.ncols
    }

    /// The value at row `i`, column `j`.
    pub fn get(&self, i: usize, j: usize) -> (r: &N)
        requires
            i < self@.nrows(),
            j < self@.ncols,
        ensures
            *r == self@.at(i as int, j as int),
    {
        proof {
            use_type_invariant(self);
        }
        &self.rows[i][j]
    }
}

impl<N> View for DenseMatrix<N> {
    type V = DenseModel<N>;

    open spec fn view(&self) -> DenseModel<N> {
        self.model()
    }
}

} // verus!
