use vstd::prelude::*;
use crate::error::ForestError;

verus! {

/// A rectangular table of integer feature values: every row has `ncols`
/// entries, and `ncols` is at least one.
pub struct Matrix {
    ncols: usize,
    rows: Vec<Vec<i64>>,
}

/// Every row of `rows` has exactly `ncols` entries.
pub open spec fn rectangular(rows: Seq<Seq<i64>>, ncols: nat) -> bool {
    forall|i: int| 0 <= i < rows.len() ==> #[trigger] rows[i].len() == ncols
}

impl View for Matrix {
    type V = Seq<Seq<i64>>;

    closed spec fn view(&self) -> Seq<Seq<i64>> {
        self.rows@.map_values(|r: Vec<i64>| r@)
    }
}

impl Matrix {
    /// The number of columns.
    pub closed spec fn width(&self) -> nat {
        self.ncols as nat
    }

    /// The matrix holds at least one column and all its rows are that wide.
    pub open spec fn wf(&self) -> bool {
        &&& self.width() > 0
        &&& rectangular(self@, self.width())
    }

    /// An empty matrix with `ncols` columns.
    pub fn new(ncols: usize) -> (r: Result<Matrix, ForestError>)
        ensures
            ncols == 0 <==> r == Err::<Matrix, ForestError>(ForestError::ShapeMismatch),
            ncols > 0 <==> r is Ok,
            r matches Ok(m) ==> m.wf() && m@ == Seq::<Seq<i64>>::empty() && m.width() == ncols,
    {
        if ncols == 0 {
            return Err(ForestError::ShapeMismatch);
        }
        let m = Matrix { ncols, rows: Vec::new() };
        assert(m@ =~= Seq::<Seq<i64>>::empty());
        Ok(m)
    }

    /// An empty matrix as wide as `self`.
    pub fn empty_like(&self) -> (r: Matrix)
        requires
            self.wf(),
        ensures
            r.wf(),
            r.width() == self.width(),
            r@ == Seq::<Seq<i64>>::empty(),
    {
        let m = Matrix { ncols: self.ncols, rows: Vec::new() };
        assert(m@ =~= Seq::<Seq<i64>>::empty());
        m
    }

    /// A matrix holding `rows` in order. Fails with `EmptyInput` when there is
    /// no row, and with `ShapeMismatch` when the first row is empty or the
    /// rows differ in length.
    pub fn from_rows(rows: Vec<Vec<i64>>) -> (r: Result<Matrix, ForestError>)
        ensures
            rows@.len() == 0 <==> r == Err::<Matrix, ForestError>(ForestError::EmptyInput),
            rows@.len() > 0 ==> (r == Err::<Matrix, ForestError>(ForestError::ShapeMismatch) <==> (
                rows@[0]@.len() == 0 || !rectangular(rows@.map_values(|v: Vec<i64>| v@), rows@[0]@.len()))),
            r is Ok <==> rows@.len() > 0 && rows@[0]@.len() > 0
                && rectangular(rows@.map_values(|v: Vec<i64>| v@), rows@[0]@.len()),
            r matches Ok(m) ==> m.wf() && m@ == rows@.map_values(|v: Vec<i64>| v@),
    {
        if rows.len() == 0 {
            return Err(ForestError::EmptyInput);
        }
        let ncols = rows[0].len();
        if ncols == 0 {
            return Err(ForestError::ShapeMismatch);
        }
        let ghost rs = rows@.map_values(|v: Vec<i64>| v@);
        let mut i: usize = 0;
        while i < rows.len()
            invariant
                0 <= i <= rows@.len(),
                rs == rows@.map_values(|v: Vec<i64>| v@),
                ncols == rows@[0]@.len(),
                forall|k: int| 0 <= k < i ==> #[trigger] rs[k].len() == ncols,
            decreases rows@.len() - i,
        {
            if rows[i].len() != ncols {
                assert(rs[i as int].len() != ncols);
                return Err(ForestError::ShapeMismatch);
            }
            i = i + 1;
        }
        Ok(Matrix { ncols, rows })
    }

    /// The number of rows.
    pub fn nrows(&self) -> (r: usize)
        ensures
            r == self@.len(),
    {
        self.rows.len()
    }

    /// The number of columns.
    pub fn ncols(&self) -> (r: usize)
        ensures
            r == self.width(),
    {
        self.ncols
    }

    /// The row at index `i`.
    pub fn row(&self, i: usize) -> (r: &Vec<i64>)
        requires
            i < self@.len(),
        ensures
            r@ == self@[i as int],
    {
        &self.rows[i]
    }

    /// Appends a copy of `row`; fails with `ShapeMismatch`, leaving the matrix
    /// as it was, when its length is not the matrix's width.
    pub fn push_row(&mut self, row: &Vec<i64>) -> (r: Result<(), ForestError>)
        requires
            old(self).wf(),
        ensures
            final(self).wf(),
            final(self).width() == old(self).width(),
            row@.len() == old(self).width() <==> r is Ok,
            r is Ok ==> final(self)@ == old(self)@.push(row@),
            r is Err ==> r == Err::<(), ForestError>(ForestError::ShapeMismatch) && final(self)@ == old(self)@,
    {
        if row.len() != self.ncols {
            return Err(ForestError::ShapeMismatch);
        }
        let ghost before = self@;
        self.rows.push(row.clone());
        assert(self@ =~= before.push(row@));
        Ok(())
    }
}

} // verus!
