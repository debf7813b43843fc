use vstd::prelude::*;

use vstd::std_specs::cmp::PartialEqSpec;

use crate::conj::{lemma_read_as, read_as, total_function, Conj};
use crate::layout::{
    lemma_block, lemma_both_reversed, lemma_cols_reversed, lemma_diag, lemma_ptr_pos_exact,
    lemma_mul_fits_zero, lemma_rows_reversed, lemma_transposed, mul_fits, MatLayout,
};

verus! {

/// An immutable strided view over the elements of a buffer.
///
/// Element `(i, j)` is the buffer element at `layout().pos(i, j)`; `conj_state()`
/// says whether the view is to be read as the complex conjugate of the stored values.
pub struct MatRef<'a, T> {
    data: &'a [T],
    inner: MatLayout,
    conj: Conj,
}

impl<'a, T> Clone for MatRef<'a, T> {
    fn clone(&self) -> (r: Self)
        ensures
            r == *self,
    {
        proof {
            use_type_invariant(self);
        }
        MatRef { data: self.data, inner: self.inner, conj: self.conj }
    }
}

impl<'a, T> Copy for MatRef<'a, T> {
}

impl<'a, T> MatRef<'a, T> {
    #[verifier::type_invariant]
    spec fn wf(self) -> bool {
        self.inner.fits(self.data@.len())
    }

    /// Length of the buffer the view reads. Every in-bounds element of a view lies
    /// inside its buffer, so a call also brings that fact into a caller's proof.
    pub fn buffer_len(&self) -> (r: usize)
        ensures
            r == self.data().len(),
            self.layout().fits(self.data().len()),
    {
        proof {
            use_type_invariant(self);
        }
        self.data.len()
    }

    pub closed spec fn layout(self) -> MatLayout {
        self.inner
    }

    pub closed spec fn data(self) -> Seq<T> {
        self.data@
    }

    pub closed spec fn conj_state(self) -> Conj {
        self.conj
    }

    /// Element `(i, j)` of the view, as stored.
    pub open spec fn elem(self, i: int, j: int) -> T {
        self.data()[self.layout().pos(i, j)]
    }

    /// A view over `data` with the given layout, read as stored.
    pub fn from_raw_parts(
        data: &'a [T],
        offset: isize,
        nrows: usize,
        ncols: usize,
        row_stride: isize,
        col_stride: isize,
    ) -> (r: Self)
        requires
            (MatLayout { offset, nrows, ncols, row_stride, col_stride }).fits(data@.len()),
        ensures
            r.layout() == (MatLayout { offset, nrows, ncols, row_stride, col_stride }),
            r.data() == data@,
            r.conj_state() == Conj::No,
    {
        MatRef { data, inner: MatLayout { offset, nrows, ncols, row_stride, col_stride }, conj: Conj::No }
    }

    /// Position of element `(0, 0)` in the buffer.
    pub fn as_ptr(self) -> (r: isize)
        ensures
            r == self.layout().offset,
    {
        self.inner.offset
    }

    pub fn nrows(&self) -> (r: usize)
        ensures
            r == self.layout().nrows,
    {
        self.inner.nrows
    }

    pub fn ncols(&self) -> (r: usize)
        ensures
            r == self.layout().ncols,
    {
        self.inner.ncols
    }

    pub fn row_stride(&self) -> (r: isize)
        ensures
            r == self.layout().row_stride,
    {
        self.inner.row_stride
    }

    pub fn col_stride(&self) -> (r: isize)
        ensures
            r == self.layout().col_stride,
    {
        self.inner.col_stride
    }

    /// Position of element `(row, col)` in the buffer, by wrapping pointer arithmetic.
    pub fn ptr_at(self, row: usize, col: usize) -> (r: isize)
        requires
            self.layout().ptr_ok(row, col),
        ensures
            r == self.layout().ptr_pos(row, col),
    {
        self.inner.ptr_at(row, col)
    }

    /// Position of the in-bounds element `(row, col)` in the buffer.
    pub fn ptr_inbounds_at(self, row: usize, col: usize) -> (r: isize)
        requires
            row < self.layout().nrows,
            col < self.layout().ncols,
        ensures
            r == self.layout().pos(row as int, col as int),
            0 <= r < self.data().len(),
    {
        proof {
            use_type_invariant(&self);
            lemma_ptr_pos_exact(self.inner, self.data@.len(), row, col);
        }
        self.inner.ptr_at(row, col)
    }

    /// Splits the view into its top left, top right, bottom left and bottom right
    /// blocks, the top left one having `row` rows and `col` columns.
    pub fn split_at(self, row: usize, col: usize) -> (r: [Self; 4])
        requires
            row <= self.layout().nrows,
            col <= self.layout().ncols,
            self.layout().ptr_ok(row, col),
        ensures
            r[0].layout() == self.layout().block(0, 0, row, col),
            r[1].layout() == self.layout().block(0, col, row, (self.layout().ncols - col) as usize),
            r[2].layout() == self.layout().block(row, 0, (self.layout().nrows - row) as usize, col),
            r[3].layout() == self.layout().block(
                row,
                col,
                (self.layout().nrows - row) as usize,
                (self.layout().ncols - col) as usize,
            ),
            r[0].data() == self.data() && r[0].conj_state() == self.conj_state(),
            r[1].data() == self.data() && r[1].conj_state() == self.conj_state(),
            r[2].data() == self.data() && r[2].conj_state() == self.conj_state(),
            r[3].data() == self.data() && r[3].conj_state() == self.conj_state(),
            forall|i: int, j: int|
                0 <= i < row && 0 <= j < col ==> #[trigger] r[0].elem(i, j) == self.elem(0 + i, 0 + j),
            forall|i: int, j: int|
                0 <= i < row && 0 <= j < self.layout().ncols - col ==> #[trigger] r[1].elem(i, j) == self.elem(0 + i, col + j),
            forall|i: int, j: int|
                0 <= i < self.layout().nrows - row && 0 <= j < col ==> #[trigger] r[2].elem(i, j) == self.elem(row + i, 0 + j),
            forall|i: int, j: int|
                0 <= i < self.layout().nrows - row && 0 <= j < self.layout().ncols - col ==> #[trigger] r[3].elem(i, j) == self.elem(row + i, col + j),
            r[0].layout().nrows == row && r[0].layout().ncols == col,
            r[1].layout().nrows == row && r[1].layout().ncols == self.layout().ncols - col,
            r[2].layout().nrows == self.layout().nrows - row && r[2].layout().ncols == col,
            r[3].layout().nrows == self.layout().nrows - row && r[3].layout().ncols == self.layout().ncols - col,
    {
        proof {
            use_type_invariant(&self);
            lemma_mul_fits_zero(self.inner.row_stride);
            lemma_mul_fits_zero(self.inner.col_stride);
        }
        let nrows = self.inner.nrows;
        let ncols = self.inner.ncols;
        [
            self.block_unchecked(0, 0, row, col),
            self.block_unchecked(0, col, row, ncols - col),
            self.block_unchecked(row, 0, nrows - row, col),
            self.block_unchecked(row, col, nrows - row, ncols - col),
        ]
    }

    fn block_unchecked(self, row_start: usize, col_start: usize, nrows: usize, ncols: usize) -> (r: Self)
        requires
            self.layout().block_ok(row_start, col_start, nrows, ncols),
        ensures
            r.layout() == self.layout().block(row_start, col_start, nrows, ncols),
            r.data() == self.data(),
            r.conj_state() == self.conj_state(),
            forall|i: int, j: int|
                0 <= i < nrows && 0 <= j < ncols ==> #[trigger] r.elem(i, j) == self.elem(row_start + i, col_start + j),
            r.layout().nrows == nrows && r.layout().ncols == ncols,
    {
        proof {
            use_type_invariant(&self);
            lemma_block(self.inner, self.data@.len(), row_start, col_start, nrows, ncols);
        }
        MatRef { data: self.data, inner: self.inner.block_exec(row_start, col_start, nrows, ncols), conj: self.conj }
    }

    /// The top `row` rows and the remaining bottom rows.
    pub fn split_at_row(self, row: usize) -> (r: [Self; 2])
        requires
            row <= self.layout().nrows,
            mul_fits(row, self.layout().row_stride),
        ensures
            r[0].layout() == self.layout().block(0, 0, row, self.layout().ncols),
            r[1].layout() == self.layout().block(row, 0, (self.layout().nrows - row) as usize, self.layout().ncols),
            r[0].data() == self.data() && r[0].conj_state() == self.conj_state(),
            r[1].data() == self.data() && r[1].conj_state() == self.conj_state(),
            forall|i: int, j: int|
                0 <= i < row && 0 <= j < self.layout().ncols ==> #[trigger] r[0].elem(i, j) == self.elem(0 + i, 0 + j),
            forall|i: int, j: int|
                0 <= i < self.layout().nrows - row && 0 <= j < self.layout().ncols ==> #[trigger] r[1].elem(i, j) == self.elem(row + i, 0 + j),
            r[0].layout().nrows == row && r[0].layout().ncols == self.layout().ncols,
            r[1].layout().nrows == self.layout().nrows - row && r[1].layout().ncols == self.layout().ncols,
    {
        proof {
            lemma_mul_fits_zero(self.layout().col_stride);
        }
        let parts = self.split_at(row, 0);
        [parts[1], parts[3]]
    }

    /// The left `col` columns and the remaining right columns.
    pub fn split_at_col(self, col: usize) -> (r: [Self; 2])
        requires
            col <= self.layout().ncols,
            mul_fits(col, self.layout().col_stride),
        ensures
            r[0].layout() == self.layout().block(0, 0, self.layout().nrows, col),
            r[1].layout() == self.layout().block(0, col, self.layout().nrows, (self.layout().ncols - col) as usize),
            r[0].data() == self.data() && r[0].conj_state() == self.conj_state(),
            r[1].data() == self.data() && r[1].conj_state() == self.conj_state(),
            forall|i: int, j: int|
                0 <= i < self.layout().nrows && 0 <= j < col ==> #[trigger] r[0].elem(i, j) == self.elem(0 + i, 0 + j),
            forall|i: int, j: int|
                0 <= i < self.layout().nrows && 0 <= j < self.layout().ncols - col ==> #[trigger] r[1].elem(i, j) == self.elem(0 + i, col + j),
            r[0].layout().nrows == self.layout().nrows && r[0].layout().ncols == col,
            r[1].layout().nrows == self.layout().nrows && r[1].layout().ncols == self.layout().ncols - col,
    {
        proof {
            lemma_mul_fits_zero(self.layout().row_stride);
        }
        let parts = self.split_at(0, col);
        [parts[2], parts[3]]
    }

    /// Reference to the in-bounds element `(row, col)`.
    pub fn get_unchecked(self, row: usize, col: usize) -> (r: &'a T)
        requires
            row < self.layout().nrows,
            col < self.layout().ncols,
        ensures
            *r == self.elem(row as int, col as int),
    {
        let p = self.ptr_inbounds_at(row, col);
        &self.data[p as usize]
    }

    /// Reference to element `(row, col)`, which must be in bounds.
    pub fn get(self, row: usize, col: usize) -> (r: &'a T)
        requires
            row < self.layout().nrows,
            col < self.layout().ncols,
        ensures
            *r == self.elem(row as int, col as int),
    {
        self.get_unchecked(row, col)
    }

    /// The view with rows and columns exchanged.
    pub fn transpose(self) -> (r: Self)
        ensures
            r.layout() == self.layout().transposed(),
            r.data() == self.data(),
            r.conj_state() == self.conj_state(),
            forall|i: int, j: int|
                0 <= i < self.layout().ncols && 0 <= j < self.layout().nrows ==> #[trigger] r.elem(i, j) == self.elem(j, i),
            r.layout().nrows == self.layout().ncols && r.layout().ncols == self.layout().nrows,
    {
        proof {
            use_type_invariant(&self);
            lemma_transposed(self.inner, self.data@.len());
        }
        MatRef { data: self.data, inner: self.inner.transposed_exec(), conj: self.conj }
    }

    /// The same elements, read as their complex conjugates.
    pub fn conjugate(self) -> (r: Self)
        ensures
            r.layout() == self.layout(),
            r.data() == self.data(),
            r.conj_state() == self.conj_state().compose_spec(Conj::Yes),
            forall|i: int, j: int| #[trigger] r.elem(i, j) == self.elem(i, j),
    {
        proof {
            use_type_invariant(&self);
        }
        MatRef { data: self.data, inner: self.inner, conj: self.conj.compose(Conj::Yes) }
    }

    /// The conjugate transpose.
    pub fn adjoint(self) -> (r: Self)
        ensures
            r.layout() == self.layout().transposed(),
            r.data() == self.data(),
            r.conj_state() == self.conj_state().compose_spec(Conj::Yes),
            forall|i: int, j: int|
                0 <= i < self.layout().ncols && 0 <= j < self.layout().nrows ==> #[trigger] r.elem(i, j) == self.elem(j, i),
            r.layout().nrows == self.layout().ncols && r.layout().ncols == self.layout().nrows,
    {
        self.transpose().conjugate()
    }

    /// The view read as stored, and whether it was read conjugated.
    pub fn canonicalize(self) -> (r: (Self, Conj))
        ensures
            r.0.layout() == self.layout(),
            r.0.data() == self.data(),
            r.0.conj_state() == Conj::No,
            r.1 == self.conj_state(),
    {
        proof {
            use_type_invariant(&self);
        }
        (MatRef { data: self.data, inner: self.inner, conj: Conj::No }, self.conj)
    }

    /// The view with the order of its rows reversed.
    pub fn reverse_rows(self) -> (r: Self)
        requires
            self.layout().rows_reversed_ok(),
        ensures
            r.layout() == self.layout().rows_reversed(),
            r.data() == self.data(),
            r.conj_state() == self.conj_state(),
            forall|i: int, j: int|
                0 <= i < self.layout().nrows && 0 <= j < self.layout().ncols ==> #[trigger] r.elem(i, j) == self.elem(
                    self.layout().nrows - 1 - i,
                    j,
                ),
            r.layout().nrows == self.layout().nrows && r.layout().ncols == self.layout().ncols,
    {
        proof {
            use_type_invariant(&self);
            lemma_rows_reversed(self.inner, self.data@.len());
        }
        MatRef { data: self.data, inner: self.inner.rows_reversed_exec(), conj: self.conj }
    }

    /// The view with the order of its columns reversed.
    pub fn reverse_cols(self) -> (r: Self)
        requires
            self.layout().cols_reversed_ok(),
        ensures
            r.layout() == self.layout().cols_reversed(),
            r.data() == self.data(),
            r.conj_state() == self.conj_state(),
            forall|i: int, j: int|
                0 <= i < self.layout().nrows && 0 <= j < self.layout().ncols ==> #[trigger] r.elem(i, j) == self.elem(
                    i,
                    self.layout().ncols - 1 - j,
                ),
            r.layout().nrows == self.layout().nrows && r.layout().ncols == self.layout().ncols,
    {
        proof {
            use_type_invariant(&self);
            lemma_cols_reversed(self.inner, self.data@.len());
        }
        MatRef { data: self.data, inner: self.inner.cols_reversed_exec(), conj: self.conj }
    }

    /// The view with the order of both its rows and its columns reversed.
    pub fn reverse_rows_and_cols(self) -> (r: Self)
        requires
            self.layout().both_reversed_ok(),
        ensures
            r.layout() == self.layout().both_reversed(),
            r.data() == self.data(),
            r.conj_state() == self.conj_state(),
            forall|i: int, j: int|
                0 <= i < self.layout().nrows && 0 <= j < self.layout().ncols ==> #[trigger] r.elem(i, j) == self.elem(
                    self.layout().nrows - 1 - i,
                    self.layout().ncols - 1 - j,
                ),
            r.layout().nrows == self.layout().nrows && r.layout().ncols == self.layout().ncols,
    {
        proof {
            use_type_invariant(&self);
            lemma_both_reversed(self.inner, self.data@.len());
        }
        MatRef { data: self.data, inner: self.inner.both_reversed_exec(), conj: self.conj }
    }

    /// The `nrows x ncols` block whose top left element is `(row_start, col_start)`.
    pub fn submatrix(self, row_start: usize, col_start: usize, nrows: usize, ncols: usize) -> (r: Self)
        requires
            self.layout().block_ok(row_start, col_start, nrows, ncols),
        ensures
            r.layout() == self.layout().block(row_start, col_start, nrows, ncols),
            r.data() == self.data(),
            r.conj_state() == self.conj_state(),
            forall|i: int, j: int|
                0 <= i < nrows && 0 <= j < ncols ==> #[trigger] r.elem(i, j) == self.elem(row_start + i, col_start + j),
            r.layout().nrows == nrows && r.layout().ncols == ncols,
    {
        self.block_unchecked(row_start, col_start, nrows, ncols)
    }

    /// `nrows` successive rows, starting from row `row_start`.
    pub fn subrows(self, row_start: usize, nrows: usize) -> (r: Self)
        requires
            self.layout().block_ok(row_start, 0, nrows, self.layout().ncols),
        ensures
            r.layout() == self.layout().block(row_start, 0, nrows, self.layout().ncols),
            r.data() == self.data(),
            r.conj_state() == self.conj_state(),
            forall|i: int, j: int|
                0 <= i < nrows && 0 <= j < self.layout().ncols ==> #[trigger] r.elem(i, j) == self.elem(row_start + i, 0 + j),
            r.layout().nrows == nrows && r.layout().ncols == self.layout().ncols,
    {
        let ncols = self.ncols();
        self.submatrix(row_start, 0, nrows, ncols)
    }

    /// `ncols` successive columns, starting from column `col_start`.
    pub fn subcols(self, col_start: usize, ncols: usize) -> (r: Self)
        requires
            self.layout().block_ok(0, col_start, self.layout().nrows, ncols),
        ensures
            r.layout() == self.layout().block(0, col_start, self.layout().nrows, ncols),
            r.data() == self.data(),
            r.conj_state() == self.conj_state(),
            forall|i: int, j: int|
                0 <= i < self.layout().nrows && 0 <= j < ncols ==> #[trigger] r.elem(i, j) == self.elem(0 + i, col_start + j),
            r.layout().nrows == self.layout().nrows && r.layout().ncols == ncols,
    {
        let nrows = self.nrows();
        self.submatrix(0, col_start, nrows, ncols)
    }

    /// Row `row_idx`, as a `1 x ncols` view.
    pub fn row(self, row_idx: usize) -> (r: Self)
        requires
            self.layout().block_ok(row_idx, 0, 1, self.layout().ncols),
        ensures
            r.layout() == self.layout().block(row_idx, 0, 1, self.layout().ncols),
            r.data() == self.data(),
            r.conj_state() == self.conj_state(),
            forall|j: int| 0 <= j < self.layout().ncols ==> #[trigger] r.elem(0, j) == self.elem(row_idx as int, j),
            r.layout().nrows == 1 && r.layout().ncols == self.layout().ncols,
    {
        self.subrows(row_idx, 1)
    }

    /// Column `col_idx`, as an `nrows x 1` view.
    pub fn col(self, col_idx: usize) -> (r: Self)
        requires
            self.layout().block_ok(0, col_idx, self.layout().nrows, 1),
        ensures
            r.layout() == self.layout().block(0, col_idx, self.layout().nrows, 1),
            r.data() == self.data(),
            r.conj_state() == self.conj_state(),
            forall|i: int| 0 <= i < self.layout().nrows ==> #[trigger] r.elem(i, 0) == self.elem(i, col_idx as int),
            r.layout().nrows == self.layout().nrows && r.layout().ncols == 1,
    {
        self.subcols(col_idx, 1)
    }

    /// The diagonal, as a column view of `min(nrows, ncols)` elements.
    pub fn diagonal(self) -> (r: Self)
        requires
            self.layout().diag_ok(),
        ensures
            r.layout() == self.layout().diag(),
            r.data() == self.data(),
            r.conj_state() == self.conj_state(),
            forall|k: int| 0 <= k < r.layout().nrows ==> #[trigger] r.elem(k, 0) == self.elem(k, k),
            r.layout().ncols == 1,
            r.layout().nrows <= self.layout().nrows && r.layout().nrows <= self.layout().ncols,
            r.layout().nrows == self.layout().nrows || r.layout().nrows == self.layout().ncols,
    {
        proof {
            use_type_invariant(&self);
            lemma_diag(self.inner, self.data@.len());
        }
        MatRef { data: self.data, inner: self.inner.diag_exec(), conj: self.conj }
    }
}

impl<'a, T: Copy> MatRef<'a, T> {
    /// Copy of the in-bounds element `(row, col)`.
    pub fn read_unchecked(&self, row: usize, col: usize) -> (r: T)
        requires
            row < self.layout().nrows,
            col < self.layout().ncols,
        ensures
            r == self.elem(row as int, col as int),
    {
        *self.get_unchecked(row, col)
    }

    /// Copy of element `(row, col)`, which must be in bounds.
    pub fn read(&self, row: usize, col: usize) -> (r: T)
        requires
            row < self.layout().nrows,
            col < self.layout().ncols,
        ensures
            r == self.elem(row as int, col as int),
    {
        *self.get(row, col)
    }
}

impl<'a, T: Copy + PartialEq> MatRef<'a, T> {
    /// Both views have the same dimensions, and the values they read are equal, each
    /// view's elements read with its conjugation state.
    pub open spec fn same_as<F: Fn(T) -> T>(self, other: MatRef<'_, T>, conjugate: F) -> bool {
        &&& self.layout().nrows == other.layout().nrows
        &&& self.layout().ncols == other.layout().ncols
        &&& forall|i: int, j: int|
            0 <= i < self.layout().nrows && 0 <= j < self.layout().ncols ==> #[trigger] read_as(
                conjugate,
                self.elem(i, j),
                self.conj_state(),
            ).eq_spec(&read_as(conjugate, other.elem(i, j), other.conj_state()))
    }

    /// Element `(row, col)` as the view reads it: the stored value, or its conjugate
    /// computed by `conjugate` where the view is conjugated.
    fn read_canonical<F: Fn(T) -> T>(&self, row: usize, col: usize, conjugate: &F) -> (r: T)
        requires
            row < self.layout().nrows,
            col < self.layout().ncols,
            total_function(*conjugate),
        ensures
            r == read_as(*conjugate, self.elem(row as int, col as int), self.conj_state()),
    {
        let x = *self.get(row, col);
        match self.conj {
            Conj::Yes => {
                let y = conjugate(x);
                proof {
                    lemma_read_as(*conjugate, x, y);
                }
                y
            },
            Conj::No => x,
        }
    }

    /// Whether both views have the same dimensions and read equal values, each view's
    /// elements read with its conjugation state; `conjugate` computes the complex
    /// conjugate of an element. The result is the one stated where `T`'s `==` follows
    /// its specification.
    pub fn eq<F: Fn(T) -> T>(&self, other: &MatRef<'_, T>, conjugate: F) -> (r: bool)
        requires
            total_function(conjugate),
        ensures
            self.layout().nrows != other.layout().nrows || self.layout().ncols != other.layout().ncols ==> !r,
            T::obeys_eq_spec() ==> (r <==> self.same_as(*other, conjugate)),
    {
        if self.nrows() != other.nrows() || self.ncols() != other.ncols() {
            return false;
        }
        let m = self.nrows();
        let n = self.ncols();
        let mut j: usize = 0;
        while j < n
            invariant
                m == self.layout().nrows && m == other.layout().nrows,
                n == self.layout().ncols && n == other.layout().ncols,
                j <= n,
                total_function(conjugate),
                T::obeys_eq_spec() ==> forall|ii: int, jj: int|
                    0 <= ii < m && 0 <= jj < j ==> #[trigger] read_as(
                        conjugate,
                        self.elem(ii, jj),
                        self.conj_state(),
                    ).eq_spec(&read_as(conjugate, other.elem(ii, jj), other.conj_state())),
            decreases n - j,
        {
            let mut i: usize = 0;
            while i < m
                invariant
                    m == self.layout().nrows && m == other.layout().nrows,
                    n == self.layout().ncols && n == other.layout().ncols,
                    j < n,
                    i <= m,
                    total_function(conjugate),
                    T::obeys_eq_spec() ==> forall|ii: int, jj: int|
                        0 <= ii < m && 0 <= jj < j ==> #[trigger] read_as(
                            conjugate,
                            self.elem(ii, jj),
                            self.conj_state(),
                        ).eq_spec(&read_as(conjugate, other.elem(ii, jj), other.conj_state())),
                    T::obeys_eq_spec() ==> forall|ii: int|
                        0 <= ii < i ==> #[trigger] read_as(
                            conjugate,
                            self.elem(ii, j as int),
                            self.conj_state(),
                        ).eq_spec(&read_as(conjugate, other.elem(ii, j as int), other.conj_state())),
                decreases m - i,
            {
                let a = self.read_canonical(i, j, &conjugate);
                let b = other.read_canonical(i, j, &conjugate);
                if !a.eq(&b) {
                    return false;
                }
                i += 1;
            }
            proof {
                if T::obeys_eq_spec() {
                    assert forall|ii: int, jj: int| 0 <= ii < m && 0 <= jj < j + 1 implies #[trigger] read_as(
                        conjugate,
                        self.elem(ii, jj),
                        self.conj_state(),
                    ).eq_spec(&read_as(conjugate, other.elem(ii, jj), other.conj_state())) by {
                        if jj == j {
                            assert(read_as(conjugate, self.elem(ii, j as int), self.conj_state()).eq_spec(
                                &read_as(conjugate, other.elem(ii, j as int), other.conj_state()),
                            ));
                        }
                    }
                }
            }
            j += 1;
        }
        true
    }
}

/// Reading a view through its conjugate: where `conjugate` undoes itself (complex
/// conjugation does), the conjugate view reads the conjugates of the values the view
/// reads, and conjugating twice gives back the view.
pub proof fn lemma_conjugate_reads_conjugates<T, F: Fn(T) -> T>(view: MatRef<'_, T>, conj_view: MatRef<'_, T>, conjugate: F)
    requires
        forall|x: T| #[trigger] read_as(conjugate, read_as(conjugate, x, Conj::Yes), Conj::Yes) == x,
        conj_view.layout() == view.layout(),
        conj_view.data() == view.data(),
        conj_view.conj_state() == view.conj_state().compose_spec(Conj::Yes),
    ensures
        forall|i: int, j: int| #[trigger]
            read_as(conjugate, conj_view.elem(i, j), conj_view.conj_state()) == read_as(
                conjugate,
                read_as(conjugate, view.elem(i, j), view.conj_state()),
                Conj::Yes,
            ),
        conj_view.conj_state().compose_spec(Conj::Yes) == view.conj_state(),
{
    assert forall|i: int, j: int| #[trigger]
        read_as(conjugate, conj_view.elem(i, j), conj_view.conj_state()) == read_as(
            conjugate,
            read_as(conjugate, view.elem(i, j), view.conj_state()),
            Conj::Yes,
        ) by {
        let x = view.elem(i, j);
        assert(conj_view.elem(i, j) == x);
        if view.conj_state() == Conj::Yes {
            assert(read_as(conjugate, read_as(conjugate, x, Conj::Yes), Conj::Yes) == x);
        }
    }
}

} // verus!
