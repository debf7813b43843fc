use vstd::prelude::*;
use vstd::std_specs::cmp::PartialEqSpec;

use crate::conj::{read_as, total_function, Conj};
use crate::layout::{
    lemma_block, lemma_both_reversed, lemma_cols_reversed, lemma_diag, lemma_ptr_pos_exact,
    lemma_rows_reversed, lemma_transposed, MatLayout,
};
use crate::mat_ref::MatRef;

verus! {

/// A mutable strided view over the elements of a buffer.
///
/// Element `(i, j)` is the buffer element at `inner.pos(i, j)`; `conj` says whether
/// the view is to be read as the complex conjugate of the stored values. The
/// operations require `wf()`, which every constructor of the library establishes.
pub struct MatMut<'a, T> {
    pub data: &'a mut [T],
    pub inner: MatLayout,
    pub conj: Conj,
}

impl<'a, T> MatMut<'a, T> {
    /// Every in-bounds element lies inside the buffer.
    pub open spec fn wf(self) -> bool {
        self.inner.fits(self.data@.len())
    }

    /// The buffer, as currently stored.
    pub open spec fn contents(self) -> Seq<T> {
        self.data@
    }

    /// Element `(i, j)` of the view, as currently stored.
    pub open spec fn elem(self, i: int, j: int) -> T {
        self.data@[self.inner.pos(i, j)]
    }

    /// A mutable view over `data` with the given layout, read as stored.
    pub fn from_raw_parts(
        data: &'a mut [T],
        offset: isize,
        nrows: usize,
        ncols: usize,
        row_stride: isize,
        col_stride: isize,
    ) -> (r: Self)
        requires
            (MatLayout { offset, nrows, ncols, row_stride, col_stride }).fits(old(data)@.len()),
        ensures
            r.inner == (MatLayout { offset, nrows, ncols, row_stride, col_stride }),
            r.data@ == old(data)@,
            final(r.data)@ == final(data)@,
            r.conj == Conj::No,
            r.wf(),
    {
        MatMut { data, inner: MatLayout { offset, nrows, ncols, row_stride, col_stride }, conj: Conj::No }
    }

    /// Position of element `(0, 0)` in the buffer.
    pub fn as_ptr(&self) -> (r: isize)
        ensures
            r == self.inner.offset,
    {
        self.inner.offset
    }

    pub fn nrows(&self) -> (r: usize)
        ensures
            r == self.inner.nrows,
    {
        self.inner.nrows
    }

    pub fn ncols(&self) -> (r: usize)
        ensures
            r == self.inner.ncols,
    {
        self.inner.ncols
    }

    pub fn row_stride(&self) -> (r: isize)
        ensures
            r == self.inner.row_stride,
    {
        self.inner.row_stride
    }

    pub fn col_stride(&self) -> (r: isize)
        ensures
            r == self.inner.col_stride,
    {
        self.inner.col_stride
    }

    /// Position of element `(row, col)` in the buffer, by wrapping pointer arithmetic.
    pub fn ptr_at(&self, row: usize, col: usize) -> (r: isize)
        requires
            self.inner.ptr_ok(row, col),
        ensures
            r == self.inner.ptr_pos(row, col),
    {
        self.inner.ptr_at(row, col)
    }

    /// Position of the in-bounds element `(row, col)` in the buffer.
    pub fn ptr_inbounds_at(&self, row: usize, col: usize) -> (r: isize)
        requires
            self.wf(),
            row < self.inner.nrows,
            col < self.inner.ncols,
        ensures
            r == self.inner.pos(row as int, col as int),
            0 <= r < self.contents().len(),
    {
        proof {
            lemma_ptr_pos_exact(self.inner, self.data@.len(), row, col);
        }
        self.inner.ptr_at(row, col)
    }

    /// Mutable reference to the in-bounds element `(row, col)`.
    pub fn get_unchecked(self, row: usize, col: usize) -> (r: &'a mut T)
        requires
            self.wf(),
            row < self.inner.nrows,
            col < self.inner.ncols,
        ensures
            *r == self.contents()[self.inner.pos(row as int, col as int)],
            final(self.data)@ == self.contents().update(self.inner.pos(row as int, col as int), *final(r)),
    {
        let p = self.ptr_inbounds_at(row, col);
        &mut self.data[p as usize]
    }

    /// Mutable reference to element `(row, col)`, which must be in bounds.
    pub fn get(self, row: usize, col: usize) -> (r: &'a mut T)
        requires
            self.wf(),
            row < self.inner.nrows,
            col < self.inner.ncols,
        ensures
            *r == self.contents()[self.inner.pos(row as int, col as int)],
            final(self.data)@ == self.contents().update(self.inner.pos(row as int, col as int), *final(r)),
    {
        self.get_unchecked(row, col)
    }

    /// Stores `value` at the in-bounds element `(row, col)`.
    pub fn write_unchecked(&mut self, row: usize, col: usize, value: T)
        requires
            old(self).wf(),
            row < old(self).inner.nrows,
            col < old(self).inner.ncols,
        ensures
            final(self).data@ == old(self).data@.update(old(self).inner.pos(row as int, col as int), value),
            final(self).inner == old(self).inner,
            final(self).conj == old(self).conj,
            final(final(self).data)@ == final(old(self).data)@,
            final(self).wf(),
    {
        let p = self.ptr_inbounds_at(row, col);
        self.data[p as usize] = value;
    }

    /// Stores `value` at element `(row, col)`, which must be in bounds.
    pub fn write(&mut self, row: usize, col: usize, value: T)
        requires
            old(self).wf(),
            row < old(self).inner.nrows,
            col < old(self).inner.ncols,
        ensures
            final(self).data@ == old(self).data@.update(old(self).inner.pos(row as int, col as int), value),
            final(self).inner == old(self).inner,
            final(self).conj == old(self).conj,
            final(final(self).data)@ == final(old(self).data)@,
            final(self).wf(),
    {
        self.write_unchecked(row, col, value)
    }

    /// A shared view of the same elements, for as long as `self` is borrowed.
    pub fn rb(&self) -> (r: MatRef<'_, T>)
        requires
            self.wf(),
        ensures
            r.data() == self.contents(),
            r.layout() == self.inner,
            r.conj_state() == self.conj,
    {
        let d: &[T] = self.data;
        let m = MatRef::from_raw_parts(
            d,
            self.inner.offset,
            self.inner.nrows,
            self.inner.ncols,
            self.inner.row_stride,
            self.inner.col_stride,
        );
        if self.conj == Conj::Yes { m.conjugate() } else { m }
    }

    /// A shared view of the same elements, ending the mutable borrow.
    pub fn into_const(self) -> (r: MatRef<'a, T>)
        requires
            self.wf(),
        ensures
            r.data() == self.contents(),
            r.layout() == self.inner,
            r.conj_state() == self.conj,
            final(self.data)@ == self.contents(),
    {
        let d: &'a [T] = self.data;
        let m = MatRef::from_raw_parts(
            d,
            self.inner.offset,
            self.inner.nrows,
            self.inner.ncols,
            self.inner.row_stride,
            self.inner.col_stride,
        );
        if self.conj == Conj::Yes { m.conjugate() } else { m }
    }

    /// The view with rows and columns exchanged.
    pub fn transpose(self) -> (r: Self)
        requires
            self.wf(),
        ensures
            r.inner == self.inner.transposed(),
            r.conj == self.conj,
            r.data@ == self.contents(),
            final(r.data)@ == final(self.data)@,
            r.wf(),
            forall|i: int, j: int|
                0 <= i < self.inner.ncols && 0 <= j < self.inner.nrows ==> #[trigger] r.elem(i, j) == self.elem(j, i),
            r.inner.nrows == self.inner.ncols && r.inner.ncols == self.inner.nrows,
    {
        proof {
            lemma_transposed(self.inner, self.data@.len());
        }
        MatMut { data: self.data, inner: self.inner.transposed_exec(), conj: self.conj }
    }
}

impl<'a, T> MatMut<'a, T> {
    /// The left `col` columns and the remaining right columns, as two mutable views over
    /// the two parts of the buffer. The columns must lie one after another in the buffer,
    /// so that the parts do not interleave; this is so of column-major storage, such as
    /// that of a `Mat`.
    pub fn split_at_col(self, col: usize) -> (r: (Self, Self))
        requires
            self.wf(),
            col <= self.inner.ncols,
            self.inner.cols_in_order(),
        ensures
            r.0.wf(),
            r.1.wf(),
            r.0.conj == self.conj && r.1.conj == self.conj,
            r.0.inner.nrows == self.inner.nrows && r.0.inner.ncols == col,
            r.1.inner.nrows == self.inner.nrows && r.1.inner.ncols == self.inner.ncols - col,
            r.0.inner.row_stride == self.inner.row_stride && r.0.inner.col_stride == self.inner.col_stride,
            r.1.inner.row_stride == self.inner.row_stride && r.1.inner.col_stride == self.inner.col_stride,
            self.contents() == r.0.data@ + r.1.data@,
            final(self.data)@ == final(r.0.data)@ + final(r.1.data)@,
            forall|i: int, j: int|
                0 <= i < self.inner.nrows && 0 <= j < col ==> #[trigger] r.0.inner.pos(i, j) == self.inner.pos(i, j),
            forall|i: int, j: int|
                0 <= i < self.inner.nrows && 0 <= j < self.inner.ncols - col ==> r.0.data@.len() + #[trigger] r.1.inner.pos(
                    i,
                    j,
                ) == self.inner.pos(i, col + j),
            forall|i: int, j: int|
                0 <= i < self.inner.nrows && 0 <= j < col ==> #[trigger] r.0.elem(i, j) == self.elem(i, j),
            forall|i: int, j: int|
                0 <= i < self.inner.nrows && 0 <= j < self.inner.ncols - col ==> #[trigger] r.1.elem(i, j)
                    == self.elem(i, col + j),
    {
        let nrows = self.inner.nrows;
        let ncols = self.inner.ncols;
        let len = self.data.len();
        let p: usize = if nrows > 0 && col < ncols {
            self.ptr_inbounds_at(0, col) as usize
        } else {
            len
        };
        let ghost parent = self;
        let MatMut { data, inner, conj } = self;
        let left_layout = MatLayout {
            offset: inner.offset,
            nrows,
            ncols: col,
            row_stride: inner.row_stride,
            col_stride: inner.col_stride,
        };
        let right_layout = MatLayout {
            offset: 0,
            nrows,
            ncols: ncols - col,
            row_stride: inner.row_stride,
            col_stride: inner.col_stride,
        };
        proof {
            let rs = inner.row_stride as int;
            let cs = inner.col_stride as int;
            assert forall|i: int, j: int| 0 <= i < nrows && 0 <= j < col implies #[trigger] left_layout.pos(i, j)
                == inner.pos(i, j) && 0 <= inner.pos(i, j) < p && inner.pos(i, j) <= isize::MAX by {
                assert(inner.in_bounds(i, j));
                if col < ncols {
                    assert(i * rs <= (nrows - 1) * rs) by (nonlinear_arith)
                        requires
                            0 <= i <= nrows - 1,
                            rs >= 0,
                    ;
                    assert(j * cs + cs <= col * cs) by (nonlinear_arith)
                        requires
                            0 <= j < col,
                            cs >= 0,
                    ;
                    assert(0 * rs == 0);
                    assert(p == inner.pos(0, col as int));
                }
            }
            assert forall|i: int, j: int| 0 <= i < nrows && 0 <= j < ncols - col implies p + #[trigger] right_layout.pos(
                i,
                j,
            ) == inner.pos(i, col + j) && 0 <= right_layout.pos(i, j) && p + right_layout.pos(i, j) < len
                && inner.pos(i, col + j) <= isize::MAX by {
                assert(inner.in_bounds(i, col + j));
                assert(0 * rs == 0);
                assert(p == inner.pos(0, col as int));
                assert((col + j) * cs == col * cs + j * cs) by (nonlinear_arith);
                assert(i * rs >= 0 && j * cs >= 0) by (nonlinear_arith)
                    requires
                        i >= 0,
                        j >= 0,
                        rs >= 0,
                        cs >= 0,
                ;
            }
        }
        let (left, right) = data.split_at_mut(p);
        let a = MatMut { data: left, inner: left_layout, conj };
        let b = MatMut { data: right, inner: right_layout, conj };
        proof {
            assert forall|i: int, j: int| 0 <= i < nrows && 0 <= j < col implies #[trigger] a.elem(i, j)
                == parent.elem(i, j) by {
                assert(left_layout.pos(i, j) == inner.pos(i, j));
            }
            assert forall|i: int, j: int| 0 <= i < nrows && 0 <= j < ncols - col implies #[trigger] b.elem(i, j)
                == parent.elem(i, col + j) by {
                assert(p + right_layout.pos(i, j) == inner.pos(i, col + j));
            }
        }
        (a, b)
    }

    /// The top `row` rows and the remaining bottom rows, as two mutable views over the two
    /// parts of the buffer. The rows must lie one after another in the buffer, so that the
    /// parts do not interleave; this is so of row-major storage.
    pub fn split_at_row(self, row: usize) -> (r: (Self, Self))
        requires
            self.wf(),
            row <= self.inner.nrows,
            self.inner.rows_in_order(),
        ensures
            r.0.wf(),
            r.1.wf(),
            r.0.conj == self.conj && r.1.conj == self.conj,
            r.0.inner.nrows == row && r.0.inner.ncols == self.inner.ncols,
            r.1.inner.nrows == self.inner.nrows - row && r.1.inner.ncols == self.inner.ncols,
            r.0.inner.row_stride == self.inner.row_stride && r.0.inner.col_stride == self.inner.col_stride,
            r.1.inner.row_stride == self.inner.row_stride && r.1.inner.col_stride == self.inner.col_stride,
            self.contents() == r.0.data@ + r.1.data@,
            final(self.data)@ == final(r.0.data)@ + final(r.1.data)@,
            forall|i: int, j: int|
                0 <= i < row && 0 <= j < self.inner.ncols ==> #[trigger] r.0.inner.pos(i, j) == self.inner.pos(i, j),
            forall|i: int, j: int|
                0 <= i < self.inner.nrows - row && 0 <= j < self.inner.ncols ==> r.0.data@.len() + #[trigger] r.1.inner.pos(
                    i,
                    j,
                ) == self.inner.pos(row + i, j),
            forall|i: int, j: int|
                0 <= i < row && 0 <= j < self.inner.ncols ==> #[trigger] r.0.elem(i, j) == self.elem(i, j),
            forall|i: int, j: int|
                0 <= i < self.inner.nrows - row && 0 <= j < self.inner.ncols ==> #[trigger] r.1.elem(i, j)
                    == self.elem(row + i, j),
    {
        let ghost parent = self;
        let t = self.transpose();
        let (a, b) = t.split_at_col(row);
        let ghost (ga, gb) = (a, b);
        let a = a.transpose();
        let b = b.transpose();
        proof {
            assert forall|i: int, j: int| 0 <= i < row && 0 <= j < parent.inner.ncols implies #[trigger] a.inner.pos(
                i,
                j,
            ) == parent.inner.pos(i, j) by {
                assert(ga.inner.pos(j, i) == t.inner.pos(j, i));
            }
            assert forall|i: int, j: int| 0 <= i < parent.inner.nrows - row && 0 <= j < parent.inner.ncols implies ga.data@.len()
                + #[trigger] b.inner.pos(i, j) == parent.inner.pos(row + i, j) by {
                assert(ga.data@.len() + gb.inner.pos(j, i) == t.inner.pos(j, row + i));
            }
        }
        (a, b)
    }
}

impl<'a, T> MatMut<'a, T> {
    /// The same elements, read as their complex conjugates.
    pub fn conjugate(self) -> (r: Self)
        requires
            self.wf(),
        ensures
            r.inner == self.inner,
            r.conj == self.conj.compose_spec(Conj::Yes),
            r.data@ == self.contents(),
            final(r.data)@ == final(self.data)@,
            r.wf(),
            forall|i: int, j: int| #[trigger] r.elem(i, j) == self.elem(i, j),
    {
        MatMut { data: self.data, inner: self.inner, conj: self.conj.compose(Conj::Yes) }
    }

    /// The conjugate transpose.
    pub fn adjoint(self) -> (r: Self)
        requires
            self.wf(),
        ensures
            r.inner == self.inner.transposed(),
            r.conj == self.conj.compose_spec(Conj::Yes),
            r.data@ == self.contents(),
            final(r.data)@ == final(self.data)@,
            r.wf(),
            forall|i: int, j: int|
                0 <= i < self.inner.ncols && 0 <= j < self.inner.nrows ==> #[trigger] r.elem(i, j) == self.elem(j, i),
            r.inner.nrows == self.inner.ncols && r.inner.ncols == self.inner.nrows,
    {
        self.transpose().conjugate()
    }

    /// The view read as stored, and whether it was read conjugated.
    pub fn canonicalize(self) -> (r: (Self, Conj))
        requires
            self.wf(),
        ensures
            r.0.inner == self.inner,
            r.0.conj == Conj::No,
            r.1 == self.conj,
            r.0.data@ == self.contents(),
            final(r.0.data)@ == final(self.data)@,
            r.0.wf(),
    {
        let c = self.conj;
        (MatMut { data: self.data, inner: self.inner, conj: Conj::No }, c)
    }

    /// The view with the order of its rows reversed.
    pub fn reverse_rows(self) -> (r: Self)
        requires
            self.wf(),
            self.inner.rows_reversed_ok(),
        ensures
            r.inner == self.inner.rows_reversed(),
            r.conj == self.conj,
            r.data@ == self.contents(),
            final(r.data)@ == final(self.data)@,
            r.wf(),
            forall|i: int, j: int|
                0 <= i < self.inner.nrows && 0 <= j < self.inner.ncols ==> #[trigger] r.elem(i, j) == self.elem(self.inner.nrows - 1 - i, j),
            r.inner.nrows == self.inner.nrows && r.inner.ncols == self.inner.ncols,
    {
        proof {
            lemma_rows_reversed(self.inner, self.data@.len());
        }
        MatMut { data: self.data, inner: self.inner.rows_reversed_exec(), conj: self.conj }
    }

    /// The view with the order of its columns reversed.
    pub fn reverse_cols(self) -> (r: Self)
        requires
            self.wf(),
            self.inner.cols_reversed_ok(),
        ensures
            r.inner == self.inner.cols_reversed(),
            r.conj == self.conj,
            r.data@ == self.contents(),
            final(r.data)@ == final(self.data)@,
            r.wf(),
            forall|i: int, j: int|
                0 <= i < self.inner.nrows && 0 <= j < self.inner.ncols ==> #[trigger] r.elem(i, j) == self.elem(i, self.inner.ncols - 1 - j),
            r.inner.nrows == self.inner.nrows && r.inner.ncols == self.inner.ncols,
    {
        proof {
            lemma_cols_reversed(self.inner, self.data@.len());
        }
        MatMut { data: self.data, inner: self.inner.cols_reversed_exec(), conj: self.conj }
    }

    /// The view with the order of both its rows and its columns reversed.
    pub fn reverse_rows_and_cols(self) -> (r: Self)
        requires
            self.wf(),
            self.inner.both_reversed_ok(),
        ensures
            r.inner == self.inner.both_reversed(),
            r.conj == self.conj,
            r.data@ == self.contents(),
            final(r.data)@ == final(self.data)@,
            r.wf(),
            forall|i: int, j: int|
                0 <= i < self.inner.nrows && 0 <= j < self.inner.ncols ==> #[trigger] r.elem(i, j) == self.elem(
                    self.inner.nrows - 1 - i,
                    self.inner.ncols - 1 - j,
                ),
            r.inner.nrows == self.inner.nrows && r.inner.ncols == self.inner.ncols,
    {
        proof {
            lemma_both_reversed(self.inner, self.data@.len());
        }
        MatMut { data: self.data, inner: self.inner.both_reversed_exec(), conj: self.conj }
    }

    /// The `nrows x ncols` block whose top left element is `(row_start, col_start)`.
    pub fn submatrix(self, row_start: usize, col_start: usize, nrows: usize, ncols: usize) -> (r: Self)
        requires
            self.wf(),
            self.inner.block_ok(row_start, col_start, nrows, ncols),
        ensures
            r.inner == self.inner.block(row_start, col_start, nrows, ncols),
            r.conj == self.conj,
            r.data@ == self.contents(),
            final(r.data)@ == final(self.data)@,
            r.wf(),
            forall|i: int, j: int|
                0 <= i < nrows && 0 <= j < ncols ==> #[trigger] r.elem(i, j) == self.elem(row_start + i, col_start + j),
            r.inner.nrows == nrows && r.inner.ncols == ncols,
    {
        proof {
            lemma_block(self.inner, self.data@.len(), row_start, col_start, nrows, ncols);
        }
        MatMut { data: self.data, inner: self.inner.block_exec(row_start, col_start, nrows, ncols), conj: self.conj }
    }

    /// `nrows` successive rows, starting from row `row_start`.
    pub fn subrows(self, row_start: usize, nrows: usize) -> (r: Self)
        requires
            self.wf(),
            self.inner.block_ok(row_start, 0, nrows, self.inner.ncols),
        ensures
            r.inner == self.inner.block(row_start, 0, nrows, self.inner.ncols),
            r.conj == self.conj,
            r.data@ == self.contents(),
            final(r.data)@ == final(self.data)@,
            r.wf(),
            forall|i: int, j: int|
                0 <= i < nrows && 0 <= j < self.inner.ncols ==> #[trigger] r.elem(i, j) == self.elem(row_start + i, 0 + j),
            r.inner.nrows == nrows && r.inner.ncols == self.inner.ncols,
    {
        let ncols = self.inner.ncols;
        self.submatrix(row_start, 0, nrows, ncols)
    }

    /// `ncols` successive columns, starting from column `col_start`.
    pub fn subcols(self, col_start: usize, ncols: usize) -> (r: Self)
        requires
            self.wf(),
            self.inner.block_ok(0, col_start, self.inner.nrows, ncols),
        ensures
            r.inner == self.inner.block(0, col_start, self.inner.nrows, ncols),
            r.conj == self.conj,
            r.data@ == self.contents(),
            final(r.data)@ == final(self.data)@,
            r.wf(),
            forall|i: int, j: int|
                0 <= i < self.inner.nrows && 0 <= j < ncols ==> #[trigger] r.elem(i, j) == self.elem(0 + i, col_start + j),
            r.inner.nrows == self.inner.nrows && r.inner.ncols == ncols,
    {
        let nrows = self.inner.nrows;
        self.submatrix(0, col_start, nrows, ncols)
    }

    /// Row `row_idx`, as a `1 x ncols` view.
    pub fn row(self, row_idx: usize) -> (r: Self)
        requires
            self.wf(),
            self.inner.block_ok(row_idx, 0, 1, self.inner.ncols),
        ensures
            r.inner == self.inner.block(row_idx, 0, 1, self.inner.ncols),
            r.conj == self.conj,
            r.data@ == self.contents(),
            final(r.data)@ == final(self.data)@,
            r.wf(),
            forall|j: int| 0 <= j < self.inner.ncols ==> #[trigger] r.elem(0, j) == self.elem(row_idx as int, j),
            r.inner.nrows == 1 && r.inner.ncols == self.inner.ncols,
    {
        self.subrows(row_idx, 1)
    }

    /// Column `col_idx`, as an `nrows x 1` view.
    pub fn col(self, col_idx: usize) -> (r: Self)
        requires
            self.wf(),
            self.inner.block_ok(0, col_idx, self.inner.nrows, 1),
        ensures
            r.inner == self.inner.block(0, col_idx, self.inner.nrows, 1),
            r.conj == self.conj,
            r.data@ == self.contents(),
            final(r.data)@ == final(self.data)@,
            r.wf(),
            forall|i: int| 0 <= i < self.inner.nrows ==> #[trigger] r.elem(i, 0) == self.elem(i, col_idx as int),
            r.inner.nrows == self.inner.nrows && r.inner.ncols == 1,
    {
        self.subcols(col_idx, 1)
    }

    /// The diagonal, as a column view of `min(nrows, ncols)` elements.
    pub fn diagonal(self) -> (r: Self)
        requires
            self.wf(),
            self.inner.diag_ok(),
        ensures
            r.inner == self.inner.diag(),
            r.conj == self.conj,
            r.data@ == self.contents(),
            final(r.data)@ == final(self.data)@,
            r.wf(),
            forall|k: int| 0 <= k < r.inner.nrows ==> #[trigger] r.elem(k, 0) == self.elem(k, k),
            r.inner.ncols == 1,
            r.inner.nrows <= self.inner.nrows && r.inner.nrows <= self.inner.ncols,
            r.inner.nrows == self.inner.nrows || r.inner.nrows == self.inner.ncols,
    {
        proof {
            lemma_diag(self.inner, self.data@.len());
        }
        MatMut { data: self.data, inner: self.inner.diag_exec(), conj: self.conj }
    }

    /// A mutable view of the same elements, for as long as `self` is borrowed.
    pub fn rb_mut(&mut self) -> (r: MatMut<'_, T>)
        requires
            old(self).wf(),
        ensures
            r.inner == old(self).inner,
            r.conj == old(self).conj,
            r.data@ == old(self).data@,
            final(self).data@ == final(r.data)@,
            final(self).inner == old(self).inner,
            final(self).conj == old(self).conj,
            final(final(self).data)@ == final(old(self).data)@,
            r.wf(),
    {
        MatMut { data: &mut *self.data, inner: self.inner, conj: self.conj }
    }
}

impl<'a, T: Copy> MatMut<'a, T> {
    /// Copy of the in-bounds element `(row, col)`.
    pub fn read_unchecked(&self, row: usize, col: usize) -> (r: T)
        requires
            self.wf(),
            row < self.inner.nrows,
            col < self.inner.ncols,
        ensures
            r == self.elem(row as int, col as int),
    {
        let p = self.ptr_inbounds_at(row, col);
        self.data[p as usize]
    }

    /// Copy of element `(row, col)`, which must be in bounds.
    pub fn read(&self, row: usize, col: usize) -> (r: T)
        requires
            self.wf(),
            row < self.inner.nrows,
            col < self.inner.ncols,
        ensures
            r == self.elem(row as int, col as int),
    {
        self.read_unchecked(row, col)
    }
}

impl<'a, T: Copy + PartialEq> MatMut<'a, T> {
    /// Whether both views have the same dimensions and read equal values, each view's
    /// elements read with its conjugation state; `conjugate` computes the complex
    /// conjugate of an element. The result is the one stated where `T`'s `==` follows
    /// its specification.
    pub fn eq<F: Fn(T) -> T>(&self, other: &MatMut<'_, T>, conjugate: F) -> (r: bool)
        requires
            self.wf(),
            other.wf(),
            total_function(conjugate),
        ensures
            self.inner.nrows != other.inner.nrows || self.inner.ncols != other.inner.ncols ==> !r,
            T::obeys_eq_spec() ==> (r <==> {
                &&& self.inner.nrows == other.inner.nrows
                &&& self.inner.ncols == other.inner.ncols
                &&& forall|i: int, j: int|
                    0 <= i < self.inner.nrows && 0 <= j < self.inner.ncols ==> #[trigger] read_as(
                        conjugate,
                        self.elem(i, j),
                        self.conj,
                    ).eq_spec(&read_as(conjugate, other.elem(i, j), other.conj))
            }),
    {
        let a = self.rb();
        let b = other.rb();
        let r = a.eq(&b, conjugate);
        proof {
            if T::obeys_eq_spec() && a.layout().nrows == b.layout().nrows && a.layout().ncols == b.layout().ncols {
                assert forall|i: int, j: int|
                    #![trigger self.elem(i, j)]
                    #![trigger a.elem(i, j)]
                    0 <= i < self.inner.nrows && 0 <= j < self.inner.ncols implies read_as(
                        conjugate,
                        self.elem(i, j),
                        self.conj,
                    ).eq_spec(&read_as(conjugate, other.elem(i, j), other.conj)) == read_as(
                        conjugate,
                        a.elem(i, j),
                        a.conj_state(),
                    ).eq_spec(&read_as(conjugate, b.elem(i, j), b.conj_state())) by {
                    assert(a.elem(i, j) == self.elem(i, j));
                    assert(b.elem(i, j) == other.elem(i, j));
                }
            }
        }
        r
    }
}

} // verus!
