//! A dense row-major matrix of integers.

use vstd::prelude::*;

verus! {

/// A matrix with `rows * cols` entries stored row-major.
#[derive(Debug, PartialEq, Clone)]
pub struct Matrix {
    pub data: Vec<i64>,
    pub rows: usize,
    pub cols: usize,
}

impl Matrix {
    /// The data length matches the shape.
    pub open spec fn wf(&self) -> bool {
        self.data@.len() == self.rows * self.cols
    }

    /// A matrix of the given shape over the given entries.
    pub fn new(data: Vec<i64>, rows: usize, cols: usize) -> (r: Matrix)
        ensures
            r.data == data,
            r.rows == rows,
            r.cols == cols,
    {
        Matrix { data, rows, cols }
    }

    /// The entry at row `i`, column `j`.
    pub fn index(&self, i: usize, j: usize) -> (r: i64)
        requires
            self.wf(),
            i < self.rows,
            j < self.cols,
        ensures
            r == self.data@[i * self.cols + j],
    {
        let n = self.data.len();
        proof {
            assert(i * self.cols + j < n) by (nonlinear_arith)
                requires
                    i < self.rows,
                    j < self.cols,
                    n == self.rows * self.cols,
            ;
        }
        self.data[i * self.cols + j]
    }

    /// The entry-wise sum of two matrices of the same shape.
    pub fn plus(&self, rhs: &Matrix) -> (r: Matrix)
        requires
            self.wf(),
            rhs.wf(),
            self.rows == rhs.rows,
            self.cols == rhs.cols,
            forall|t: int|
                0 <= t < self.data@.len() ==> i64::MIN <= (#[trigger] self.data@[t])
                    + rhs.data@[t] <= i64::MAX,
        ensures
            r.wf(),
            r.rows == self.rows,
            r.cols == self.cols,
            r.data@.len() == self.data@.len(),
            forall|t: int|
                0 <= t < r.data@.len() ==> (#[trigger] r.data@[t]) == self.data@[t]
                    + rhs.data@[t],
    {
        let mut data: Vec<i64> = Vec::new();
        let mut t: usize = 0;
        while t < self.data.len()
            invariant
                t <= self.data@.len(),
                self.data@.len() == rhs.data@.len(),
                data@.len() == t,
                forall|u: int|
                    0 <= u < self.data@.len() ==> i64::MIN <= (#[trigger] self.data@[u])
                        + rhs.data@[u] <= i64::MAX,
                forall|u: int|
                    0 <= u < t ==> (#[trigger] data@[u]) == self.data@[u] + rhs.data@[u],
            decreases self.data@.len() - t,
        {
            data.push(self.data[t] + rhs.data[t]);
            t += 1;
        }
        Matrix { data, rows: self.rows, cols: self.cols }
    }

    /// Add another matrix of the same shape to this one, entry by entry.
    pub fn plus_assign(&mut self, rhs: &Matrix)
        requires
            old(self).wf(),
            rhs.wf(),
            old(self).rows == rhs.rows,
            old(self).cols == rhs.cols,
            forall|t: int|
                0 <= t < old(self).data@.len() ==> i64::MIN <= (#[trigger] old(
                    self,
                ).data@[t]) + rhs.data@[t] <= i64::MAX,
        ensures
            final(self).wf(),
            final(self).rows == old(self).rows,
            final(self).cols == old(self).cols,
            final(self).data@.len() == old(self).data@.len(),
            forall|t: int|
                0 <= t < final(self).data@.len() ==> (#[trigger] final(self).data@[t]) == old(
                    self,
                ).data@[t] + rhs.data@[t],
    {
        let summed = self.plus(rhs);
        self.data = summed.data;
    }
}

} // verus!
