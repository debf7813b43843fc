use vstd::prelude::*;

verus! {

/// The shape of a strided matrix view: the position of element `(0, 0)` in the
/// backing buffer, the dimensions, and the distances between successive rows
/// and successive columns.
///
/// Element `(i, j)` of a view with this layout is stored at position
/// `offset + i * row_stride + j * col_stride`.
#[derive(Copy, Clone, Debug, PartialEq, Eq, Structural)]
pub struct MatLayout {
    pub offset: isize,
    pub nrows: usize,
    pub ncols: usize,
    pub row_stride: isize,
    pub col_stride: isize,
}

/// `a * s` does not overflow `isize`, `a` being first cast to `isize`.
pub open spec fn mul_fits(a: usize, s: isize) -> bool {
    isize::MIN <= (a as isize) * s <= isize::MAX
}

impl MatLayout {
    /// Position in the buffer of element `(i, j)`.
    pub open spec fn pos(self, i: int, j: int) -> int {
        self.offset + i * self.row_stride + j * self.col_stride
    }

    pub open spec fn in_bounds(self, i: int, j: int) -> bool {
        0 <= i < self.nrows && 0 <= j < self.ncols
    }

    pub open spec fn is_empty(self) -> bool {
        self.nrows == 0 || self.ncols == 0
    }

    /// Every element of a non-empty view lies inside a buffer of `len` elements,
    /// at a position that an `isize` can hold.
    pub open spec fn fits(self, len: nat) -> bool {
        !self.is_empty() ==> {
            &&& self.nrows <= isize::MAX
            &&& self.ncols <= isize::MAX
            &&& forall|i: int, j: int|
                #![trigger self.pos(i, j)]
                self.in_bounds(i, j) ==> 0 <= self.pos(i, j) < len && self.pos(i, j) <= isize::MAX
        }
    }

    /// What pointer arithmetic computes for element `(row, col)`: the two products
    /// are exact, the two sums wrap around.
    pub open spec fn ptr_pos(self, row: usize, col: usize) -> isize {
        self.offset.wrapping_add(((row as isize) * self.row_stride) as isize).wrapping_add(
            ((col as isize) * self.col_stride) as isize,
        )
    }

    pub open spec fn ptr_ok(self, row: usize, col: usize) -> bool {
        mul_fits(row, self.row_stride) && mul_fits(col, self.col_stride)
    }

    pub open spec fn transposed(self) -> MatLayout {
        MatLayout {
            offset: self.offset,
            nrows: self.ncols,
            ncols: self.nrows,
            row_stride: self.col_stride,
            col_stride: self.row_stride,
        }
    }

    /// The `nrows x ncols` block whose top left corner is element `(row_start, col_start)`.
    pub open spec fn block(self, row_start: usize, col_start: usize, nrows: usize, ncols: usize) -> MatLayout {
        MatLayout {
            offset: self.ptr_pos(row_start, col_start),
            nrows,
            ncols,
            row_stride: self.row_stride,
            col_stride: self.col_stride,
        }
    }

    pub open spec fn block_ok(self, row_start: usize, col_start: usize, nrows: usize, ncols: usize) -> bool {
        &&& row_start <= self.nrows
        &&& col_start <= self.ncols
        &&& nrows <= self.nrows - row_start
        &&& ncols <= self.ncols - col_start
        &&& self.ptr_ok(row_start, col_start)
    }

    pub open spec fn last_row(self) -> usize {
        if self.nrows == 0 { 0 } else { (self.nrows - 1) as usize }
    }

    pub open spec fn last_col(self) -> usize {
        if self.ncols == 0 { 0 } else { (self.ncols - 1) as usize }
    }

    pub open spec fn rows_reversed(self) -> MatLayout {
        MatLayout {
            offset: self.ptr_pos(self.last_row(), 0),
            nrows: self.nrows,
            ncols: self.ncols,
            row_stride: (-self.row_stride) as isize,
            col_stride: self.col_stride,
        }
    }

    /// The columns lie one after another in the buffer: every element of a column comes
    /// before the first element of the next column.
    pub open spec fn cols_in_order(self) -> bool {
        &&& self.row_stride >= 0
        &&& self.col_stride >= 0
        &&& self.nrows > 0 ==> (self.nrows - 1) * self.row_stride < self.col_stride
    }

    /// The rows lie one after another in the buffer.
    pub open spec fn rows_in_order(self) -> bool {
        self.transposed().cols_in_order()
    }

    pub open spec fn rows_reversed_ok(self) -> bool {
        self.row_stride != isize::MIN && self.ptr_ok(self.last_row(), 0)
    }

    pub open spec fn cols_reversed(self) -> MatLayout {
        MatLayout {
            offset: self.ptr_pos(0, self.last_col()),
            nrows: self.nrows,
            ncols: self.ncols,
            row_stride: self.row_stride,
            col_stride: (-self.col_stride) as isize,
        }
    }

    pub open spec fn cols_reversed_ok(self) -> bool {
        self.col_stride != isize::MIN && self.ptr_ok(0, self.last_col())
    }

    pub open spec fn both_reversed(self) -> MatLayout {
        MatLayout {
            offset: self.ptr_pos(self.last_row(), self.last_col()),
            nrows: self.nrows,
            ncols: self.ncols,
            row_stride: (-self.row_stride) as isize,
            col_stride: (-self.col_stride) as isize,
        }
    }

    pub open spec fn both_reversed_ok(self) -> bool {
        &&& self.row_stride != isize::MIN
        &&& self.col_stride != isize::MIN
        &&& self.ptr_ok(self.last_row(), self.last_col())
    }

    pub open spec fn min_dim(self) -> usize {
        if self.nrows <= self.ncols { self.nrows } else { self.ncols }
    }

    /// The diagonal as a column vector.
    pub open spec fn diag(self) -> MatLayout {
        MatLayout {
            offset: self.offset,
            nrows: self.min_dim(),
            ncols: 1,
            row_stride: (self.row_stride + self.col_stride) as isize,
            col_stride: 0,
        }
    }

    pub open spec fn diag_ok(self) -> bool {
        isize::MIN <= self.row_stride + self.col_stride <= isize::MAX
    }

    pub(crate) fn transposed_exec(&self) -> (r: MatLayout)
        ensures
            r == self.transposed(),
            r.offset == self.offset,
            r.nrows == self.ncols && r.ncols == self.nrows,
            r.row_stride == self.col_stride && r.col_stride == self.row_stride,
    {
        MatLayout {
            offset: self.offset,
            nrows: self.ncols,
            ncols: self.nrows,
            row_stride: self.col_stride,
            col_stride: self.row_stride,
        }
    }

    pub(crate) fn block_exec(&self, row_start: usize, col_start: usize, nrows: usize, ncols: usize) -> (r: MatLayout)
        requires
            self.ptr_ok(row_start, col_start),
        ensures
            r == self.block(row_start, col_start, nrows, ncols),
            r.nrows == nrows && r.ncols == ncols,
            r.row_stride == self.row_stride && r.col_stride == self.col_stride,
    {
        MatLayout {
            offset: self.ptr_at(row_start, col_start),
            nrows,
            ncols,
            row_stride: self.row_stride,
            col_stride: self.col_stride,
        }
    }

    pub(crate) fn rows_reversed_exec(&self) -> (r: MatLayout)
        requires
            self.rows_reversed_ok(),
        ensures
            r == self.rows_reversed(),
            r.nrows == self.nrows && r.ncols == self.ncols,
            r.row_stride == -self.row_stride && r.col_stride == self.col_stride,
    {
        let last = if self.nrows == 0 { 0 } else { self.nrows - 1 };
        MatLayout {
            offset: self.ptr_at(last, 0),
            nrows: self.nrows,
            ncols: self.ncols,
            row_stride: -self.row_stride,
            col_stride: self.col_stride,
        }
    }

    pub(crate) fn cols_reversed_exec(&self) -> (r: MatLayout)
        requires
            self.cols_reversed_ok(),
        ensures
            r == self.cols_reversed(),
            r.nrows == self.nrows && r.ncols == self.ncols,
            r.row_stride == self.row_stride && r.col_stride == -self.col_stride,
    {
        let last = if self.ncols == 0 { 0 } else { self.ncols - 1 };
        MatLayout {
            offset: self.ptr_at(0, last),
            nrows: self.nrows,
            ncols: self.ncols,
            row_stride: self.row_stride,
            col_stride: -self.col_stride,
        }
    }

    pub(crate) fn both_reversed_exec(&self) -> (r: MatLayout)
        requires
            self.both_reversed_ok(),
        ensures
            r == self.both_reversed(),
            r.nrows == self.nrows && r.ncols == self.ncols,
            r.row_stride == -self.row_stride && r.col_stride == -self.col_stride,
    {
        let last_row = if self.nrows == 0 { 0 } else { self.nrows - 1 };
        let last_col = if self.ncols == 0 { 0 } else { self.ncols - 1 };
        MatLayout {
            offset: self.ptr_at(last_row, last_col),
            nrows: self.nrows,
            ncols: self.ncols,
            row_stride: -self.row_stride,
            col_stride: -self.col_stride,
        }
    }

    pub(crate) fn diag_exec(&self) -> (r: MatLayout)
        requires
            self.diag_ok(),
        ensures
            r == self.diag(),
            r.offset == self.offset,
            r.ncols == 1,
            r.nrows <= self.nrows && r.nrows <= self.ncols,
            r.nrows == self.nrows || r.nrows == self.ncols,
    {
        let size = if self.nrows <= self.ncols { self.nrows } else { self.ncols };
        MatLayout {
            offset: self.offset,
            nrows: size,
            ncols: 1,
            row_stride: self.row_stride + self.col_stride,
            col_stride: 0,
        }
    }

    /// Computes `ptr_pos(row, col)`.
    pub(crate) fn ptr_at(&self, row: usize, col: usize) -> (r: isize)
        requires
            self.ptr_ok(row, col),
        ensures
            r == self.ptr_pos(row, col),
    {
        let a = (row as isize) * self.row_stride;
        let b = (col as isize) * self.col_stride;
        self.offset.wrapping_add(a).wrapping_add(b)
    }
}

pub proof fn lemma_mul_fits_zero(s: isize)
    ensures
        mul_fits(0, s),
        ((0usize as isize) * s) == 0,
{
    assert((0usize as isize) == 0);
    assert(0 * s == 0);
}

/// `x.wrapping_add(y)` is `x + y` whenever the sum does not overflow.
pub proof fn lemma_wrapping_add_exact(x: isize, y: isize)
    requires
        isize::MIN <= x + y <= isize::MAX,
    ensures
        x.wrapping_add(y) == x + y,
{
}

proof fn lemma_distrib(a: int, b: int, s: int)
    ensures
        (a + b) * s == a * s + b * s,
        (a - b) * s == a * s - b * s,
        a * (-s) == -(a * s),
{
    assert((a + b) * s == a * s + b * s) by (nonlinear_arith);
    assert((a - b) * s == a * s - b * s) by (nonlinear_arith);
    assert(a * (-s) == -(a * s)) by (nonlinear_arith);
}

/// Where element `(row, col)` lies inside a non-empty view that fits its buffer,
/// pointer arithmetic computes its exact position.
pub proof fn lemma_ptr_pos_exact(l: MatLayout, len: nat, row: usize, col: usize)
    requires
        l.fits(len),
        l.in_bounds(row as int, col as int),
    ensures
        l.ptr_ok(row, col),
        l.ptr_pos(row, col) == l.pos(row as int, col as int),
{
    assert(l.pos(row as int, 0) == l.offset + row * l.row_stride);
    assert(l.pos(0, col as int) == l.offset + col * l.col_stride);
    assert(l.pos(0, 0) == l.offset);
    let a = ((row as isize) * l.row_stride) as isize;
    let b = ((col as isize) * l.col_stride) as isize;
    assert(a == row * l.row_stride);
    assert(b == col * l.col_stride);
    assert(0 <= l.pos(row as int, col as int) <= isize::MAX);
    assert(0 <= l.pos(row as int, 0) <= isize::MAX);
    assert(0 <= l.pos(0, col as int) <= isize::MAX);
    lemma_wrapping_add_exact(l.offset, a);
    assert(l.offset.wrapping_add(a) == l.offset + a);
    lemma_wrapping_add_exact(l.offset.wrapping_add(a), b);
}

/// A block of a view that fits its buffer fits it too, and reads the elements
/// of the parent view shifted by its top left corner.
pub proof fn lemma_block(l: MatLayout, len: nat, row_start: usize, col_start: usize, nrows: usize, ncols: usize)
    requires
        l.fits(len),
        l.block_ok(row_start, col_start, nrows, ncols),
    ensures
        l.block(row_start, col_start, nrows, ncols).fits(len),
        forall|i: int, j: int|
            0 <= i < nrows && 0 <= j < ncols ==> #[trigger] l.block(row_start, col_start, nrows, ncols).pos(i, j)
                == l.pos(row_start + i, col_start + j),
{
    let b = l.block(row_start, col_start, nrows, ncols);
    if nrows > 0 && ncols > 0 {
        lemma_ptr_pos_exact(l, len, row_start, col_start);
        assert forall|i: int, j: int| 0 <= i < nrows && 0 <= j < ncols implies #[trigger] b.pos(i, j) == l.pos(
            row_start + i,
            col_start + j,
        ) by {
            lemma_distrib(row_start as int, i, l.row_stride as int);
            lemma_distrib(col_start as int, j, l.col_stride as int);
        }
        assert forall|i: int, j: int| #[trigger] b.in_bounds(i, j) implies 0 <= b.pos(i, j) < len && b.pos(i, j)
            <= isize::MAX by {
            assert(l.in_bounds(row_start + i, col_start + j));
            assert(l.pos(row_start + i, col_start + j) == b.pos(i, j));
        }
    }
}

pub proof fn lemma_transposed(l: MatLayout, len: nat)
    requires
        l.fits(len),
    ensures
        l.transposed().fits(len),
        forall|i: int, j: int| #[trigger] l.transposed().pos(i, j) == l.pos(j, i),
{
    let t = l.transposed();
    assert forall|i: int, j: int| #[trigger] t.in_bounds(i, j) implies 0 <= t.pos(i, j) < len && t.pos(i, j)
        <= isize::MAX by {
        assert(l.in_bounds(j, i));
        assert(l.pos(j, i) == t.pos(i, j));
    }
}

pub proof fn lemma_rows_reversed(l: MatLayout, len: nat)
    requires
        l.fits(len),
        l.rows_reversed_ok(),
    ensures
        l.rows_reversed().fits(len),
        forall|i: int, j: int|
            0 <= i < l.nrows ==> #[trigger] l.rows_reversed().pos(i, j) == l.pos(l.nrows - 1 - i, j)
                || l.ncols == 0,
{
    let r = l.rows_reversed();
    if !l.is_empty() {
        lemma_ptr_pos_exact(l, len, l.last_row(), 0);
        assert(l.last_row() == l.nrows - 1);
        assert(0 * l.col_stride == 0);
        assert(r.offset == l.pos(l.nrows - 1, 0));
        assert forall|i: int, j: int| 0 <= i < l.nrows implies #[trigger] r.pos(i, j) == l.pos(
            l.nrows - 1 - i,
            j,
        ) by {
            lemma_distrib(l.nrows - 1, i, l.row_stride as int);
            lemma_distrib(i, 0, l.row_stride as int);
            assert(r.row_stride == -l.row_stride);
            assert(r.offset == l.offset + (l.nrows - 1) * l.row_stride);
        }
        assert forall|i: int, j: int| #[trigger] r.in_bounds(i, j) implies 0 <= r.pos(i, j) < len && r.pos(i, j)
            <= isize::MAX by {
            assert(l.in_bounds(l.nrows - 1 - i, j));
        }
    }
}

pub proof fn lemma_cols_reversed(l: MatLayout, len: nat)
    requires
        l.fits(len),
        l.cols_reversed_ok(),
    ensures
        l.cols_reversed().fits(len),
        forall|i: int, j: int|
            0 <= j < l.ncols ==> #[trigger] l.cols_reversed().pos(i, j) == l.pos(i, l.ncols - 1 - j)
                || l.nrows == 0,
{
    let r = l.cols_reversed();
    if !l.is_empty() {
        lemma_ptr_pos_exact(l, len, 0, l.last_col());
        assert(l.last_col() == l.ncols - 1);
        assert(0 * l.row_stride == 0);
        assert(r.offset == l.pos(0, l.ncols - 1));
        assert forall|i: int, j: int| 0 <= j < l.ncols implies #[trigger] r.pos(i, j) == l.pos(
            i,
            l.ncols - 1 - j,
        ) by {
            lemma_distrib(l.ncols - 1, j, l.col_stride as int);
            lemma_distrib(j, 0, l.col_stride as int);
            assert(r.col_stride == -l.col_stride);
            assert(r.offset == l.offset + (l.ncols - 1) * l.col_stride);
        }
        assert forall|i: int, j: int| #[trigger] r.in_bounds(i, j) implies 0 <= r.pos(i, j) < len && r.pos(i, j)
            <= isize::MAX by {
            assert(l.in_bounds(i, l.ncols - 1 - j));
        }
    }
}

pub proof fn lemma_both_reversed(l: MatLayout, len: nat)
    requires
        l.fits(len),
        l.both_reversed_ok(),
    ensures
        l.both_reversed().fits(len),
        forall|i: int, j: int|
            0 <= i < l.nrows && 0 <= j < l.ncols ==> #[trigger] l.both_reversed().pos(i, j) == l.pos(
                l.nrows - 1 - i,
                l.ncols - 1 - j,
            ),
{
    let r = l.both_reversed();
    if !l.is_empty() {
        lemma_ptr_pos_exact(l, len, l.last_row(), l.last_col());
        assert forall|i: int, j: int| 0 <= i < l.nrows && 0 <= j < l.ncols implies #[trigger] r.pos(i, j) == l.pos(
            l.nrows - 1 - i,
            l.ncols - 1 - j,
        ) by {
            lemma_distrib(l.nrows - 1, i, l.row_stride as int);
            lemma_distrib(i, 0, l.row_stride as int);
            lemma_distrib(l.ncols - 1, j, l.col_stride as int);
            lemma_distrib(j, 0, l.col_stride as int);
        }
        assert forall|i: int, j: int| #[trigger] r.in_bounds(i, j) implies 0 <= r.pos(i, j) < len && r.pos(i, j)
            <= isize::MAX by {
            assert(l.in_bounds(l.nrows - 1 - i, l.ncols - 1 - j));
        }
    }
}

pub proof fn lemma_diag(l: MatLayout, len: nat)
    requires
        l.fits(len),
        l.diag_ok(),
    ensures
        l.diag().fits(len),
        forall|k: int| #[trigger] l.diag().pos(k, 0) == l.pos(k, k),
{
    let d = l.diag();
    assert forall|k: int| #[trigger] d.pos(k, 0) == l.pos(k, k) by {
        lemma_distrib(k, 0, l.row_stride as int);
        assert(k * (l.row_stride + l.col_stride) == k * l.row_stride + k * l.col_stride) by (nonlinear_arith);
    }
    if !d.is_empty() {
        assert forall|i: int, j: int| #[trigger] d.in_bounds(i, j) implies 0 <= d.pos(i, j) < len && d.pos(i, j)
            <= isize::MAX by {
            assert(j == 0);
            assert(l.in_bounds(i, i));
            assert(d.pos(i, 0) == l.pos(i, i));
        }
    }
}

/// The shape of every derived view, in terms of the parent's: a transposed view swaps
/// the dimensions and the strides; reversing rows or columns keeps the dimensions and
/// negates the reversed stride; a block has exactly the requested dimensions and the
/// parent's strides; the diagonal is a single column as long as the smaller dimension.
pub proof fn lemma_view_shapes(l: MatLayout, row_start: usize, col_start: usize, nrows: usize, ncols: usize)
    ensures
        l.transposed().nrows == l.ncols && l.transposed().ncols == l.nrows,
        l.transposed().row_stride == l.col_stride && l.transposed().col_stride == l.row_stride,
        l.transposed().offset == l.offset,
        l.rows_reversed().nrows == l.nrows && l.rows_reversed().ncols == l.ncols,
        l.rows_reversed().col_stride == l.col_stride,
        l.rows_reversed_ok() ==> l.rows_reversed().row_stride == -l.row_stride,
        l.cols_reversed().nrows == l.nrows && l.cols_reversed().ncols == l.ncols,
        l.cols_reversed().row_stride == l.row_stride,
        l.cols_reversed_ok() ==> l.cols_reversed().col_stride == -l.col_stride,
        l.both_reversed().nrows == l.nrows && l.both_reversed().ncols == l.ncols,
        l.both_reversed_ok() ==> l.both_reversed().row_stride == -l.row_stride && l.both_reversed().col_stride
            == -l.col_stride,
        l.block(row_start, col_start, nrows, ncols).nrows == nrows,
        l.block(row_start, col_start, nrows, ncols).ncols == ncols,
        l.block(row_start, col_start, nrows, ncols).row_stride == l.row_stride,
        l.block(row_start, col_start, nrows, ncols).col_stride == l.col_stride,
        l.diag().ncols == 1 && l.diag().offset == l.offset,
        l.diag().nrows <= l.nrows && l.diag().nrows <= l.ncols,
        l.diag().nrows == l.nrows || l.diag().nrows == l.ncols,
{
}

/// Reversing both the rows and the columns twice reads every element at its original
/// position.
pub proof fn lemma_both_reversed_involution(l: MatLayout, len: nat)
    requires
        l.fits(len),
        l.both_reversed_ok(),
        l.both_reversed().both_reversed_ok(),
    ensures
        forall|i: int, j: int| #[trigger] l.in_bounds(i, j) ==> l.both_reversed().both_reversed().pos(i, j) == l.pos(i, j),
{
    lemma_both_reversed(l, len);
    lemma_both_reversed(l.both_reversed(), len);
    assert forall|i: int, j: int| #[trigger] l.in_bounds(i, j) implies l.both_reversed().both_reversed().pos(i, j)
        == l.pos(i, j) by {
        assert(l.both_reversed().both_reversed().pos(i, j) == l.both_reversed().pos(
            l.nrows - 1 - i,
            l.ncols - 1 - j,
        ));
        assert(l.both_reversed().pos(l.nrows - 1 - i, l.ncols - 1 - j) == l.pos(
            l.nrows - 1 - (l.nrows - 1 - i),
            l.ncols - 1 - (l.ncols - 1 - j),
        ));
    }
}

/// Transposing twice gives back the layout.
pub proof fn lemma_transpose_involution(l: MatLayout)
    ensures
        l.transposed().transposed() == l,
{
}

/// Reversing the rows twice reads every element at its original position.
pub proof fn lemma_rows_reversed_involution(l: MatLayout, len: nat)
    requires
        l.fits(len),
        l.rows_reversed_ok(),
        l.rows_reversed().rows_reversed_ok(),
    ensures
        forall|i: int, j: int| #[trigger] l.in_bounds(i, j) ==> l.rows_reversed().rows_reversed().pos(i, j) == l.pos(i, j),
{
    lemma_rows_reversed(l, len);
    lemma_rows_reversed(l.rows_reversed(), len);
    assert forall|i: int, j: int| #[trigger] l.in_bounds(i, j) implies l.rows_reversed().rows_reversed().pos(i, j)
        == l.pos(i, j) by {
        assert(l.rows_reversed().rows_reversed().pos(i, j) == l.rows_reversed().pos(l.nrows - 1 - i, j));
        assert(l.rows_reversed().pos(l.nrows - 1 - i, j) == l.pos(l.nrows - 1 - (l.nrows - 1 - i), j));
    }
}

/// Reversing the columns twice reads every element at its original position.
pub proof fn lemma_cols_reversed_involution(l: MatLayout, len: nat)
    requires
        l.fits(len),
        l.cols_reversed_ok(),
        l.cols_reversed().cols_reversed_ok(),
    ensures
        forall|i: int, j: int| #[trigger] l.in_bounds(i, j) ==> l.cols_reversed().cols_reversed().pos(i, j) == l.pos(i, j),
{
    lemma_cols_reversed(l, len);
    lemma_cols_reversed(l.cols_reversed(), len);
    assert forall|i: int, j: int| #[trigger] l.in_bounds(i, j) implies l.cols_reversed().cols_reversed().pos(i, j)
        == l.pos(i, j) by {
        assert(l.cols_reversed().cols_reversed().pos(i, j) == l.cols_reversed().pos(i, l.ncols - 1 - j));
        assert(l.cols_reversed().pos(i, l.ncols - 1 - j) == l.pos(i, l.ncols - 1 - (l.ncols - 1 - j)));
    }
}

/// A block of a block is the block of the parent view at the summed corner.
pub proof fn lemma_block_of_block(
    l: MatLayout,
    len: nat,
    row_start: usize,
    col_start: usize,
    nrows: usize,
    ncols: usize,
    row_start2: usize,
    col_start2: usize,
    nrows2: usize,
    ncols2: usize,
)
    requires
        l.fits(len),
        l.block_ok(row_start, col_start, nrows, ncols),
        l.block(row_start, col_start, nrows, ncols).block_ok(row_start2, col_start2, nrows2, ncols2),
    ensures
        l.block(row_start, col_start, nrows, ncols).block(row_start2, col_start2, nrows2, ncols2).fits(len),
        forall|i: int, j: int|
            0 <= i < nrows2 && 0 <= j < ncols2 ==> #[trigger] l.block(row_start, col_start, nrows, ncols).block(
                row_start2,
                col_start2,
                nrows2,
                ncols2,
            ).pos(i, j) == l.pos(row_start + row_start2 + i, col_start + col_start2 + j),
{
    let b = l.block(row_start, col_start, nrows, ncols);
    lemma_block(l, len, row_start, col_start, nrows, ncols);
    lemma_block(b, len, row_start2, col_start2, nrows2, ncols2);
    assert forall|i: int, j: int| 0 <= i < nrows2 && 0 <= j < ncols2 implies #[trigger] b.block(
        row_start2,
        col_start2,
        nrows2,
        ncols2,
    ).pos(i, j) == l.pos(row_start + row_start2 + i, col_start + col_start2 + j) by {
        assert(b.pos(row_start2 + i, col_start2 + j) == l.pos(row_start + (row_start2 + i), col_start + (col_start2 + j)));
    }
}

/// The four blocks of `split_at(row, col)` tile the view: every element lies in
/// exactly one of them, at the same position in the buffer.
pub proof fn lemma_split_covers(l: MatLayout, len: nat, row: usize, col: usize)
    requires
        l.fits(len),
        row <= l.nrows,
        col <= l.ncols,
        l.ptr_ok(row, col),
    ensures
        forall|i: int, j: int|
            #![trigger l.pos(i, j)]
            l.in_bounds(i, j) ==> {
                &&& i < row && j < col ==> l.block(0, 0, row, col).pos(i, j) == l.pos(i, j)
                &&& i < row && j >= col ==> l.block(0, col, row, (l.ncols - col) as usize).pos(i, j - col) == l.pos(
                    i,
                    j,
                )
                &&& i >= row && j < col ==> l.block(row, 0, (l.nrows - row) as usize, col).pos(i - row, j) == l.pos(
                    i,
                    j,
                )
                &&& i >= row && j >= col ==> l.block(
                    row,
                    col,
                    (l.nrows - row) as usize,
                    (l.ncols - col) as usize,
                ).pos(i - row, j - col) == l.pos(i, j)
            },
{
    lemma_mul_fits_zero(l.row_stride);
    lemma_mul_fits_zero(l.col_stride);
    lemma_block(l, len, 0, 0, row, col);
    lemma_block(l, len, 0, col, row, (l.ncols - col) as usize);
    lemma_block(l, len, row, 0, (l.nrows - row) as usize, col);
    lemma_block(l, len, row, col, (l.nrows - row) as usize, (l.ncols - col) as usize);
    assert forall|i: int, j: int| #![trigger l.pos(i, j)] l.in_bounds(i, j) implies {
        &&& i < row && j < col ==> l.block(0, 0, row, col).pos(i, j) == l.pos(i, j)
        &&& i < row && j >= col ==> l.block(0, col, row, (l.ncols - col) as usize).pos(i, j - col) == l.pos(i, j)
        &&& i >= row && j < col ==> l.block(row, 0, (l.nrows - row) as usize, col).pos(i - row, j) == l.pos(i, j)
        &&& i >= row && j >= col ==> l.block(row, col, (l.nrows - row) as usize, (l.ncols - col) as usize).pos(
            i - row,
            j - col,
        ) == l.pos(i, j)
    } by {
        if i < row && j < col {
            assert(l.block(0, 0, row, col).pos(i, j) == l.pos(0 + i, 0 + j));
        } else if i < row {
            assert(l.block(0, col, row, (l.ncols - col) as usize).pos(i, j - col) == l.pos(0 + i, col + (j - col)));
        } else if j < col {
            assert(l.block(row, 0, (l.nrows - row) as usize, col).pos(i - row, j) == l.pos(row + (i - row), 0 + j));
        } else {
            assert(l.block(row, col, (l.nrows - row) as usize, (l.ncols - col) as usize).pos(i - row, j - col) == l.pos(
                row + (i - row),
                col + (j - col),
            ));
        }
    }
}

} // verus!
