use vstd::prelude::*;
use vstd::std_specs::cmp::PartialEqSpec;

use crate::conj::{lemma_read_as, read_as, total_function, Conj};
use crate::layout::MatLayout;
use crate::mat_mut::MatMut;
use crate::mat_ref::MatRef;

verus! {

/// Position of element `(i, j)` in column-major storage whose columns start
/// `stride` elements apart.
pub open spec fn cm(i: int, j: int, stride: int) -> int {
    j * stride + i
}

proof fn lemma_cm_bound(i: int, j: int, stride: int, ncols: int)
    requires
        0 <= i < stride,
        0 <= j < ncols,
    ensures
        0 <= cm(i, j, stride) < ncols * stride,
        cm(i, j, stride) < (j + 1) * stride,
        j * stride <= cm(i, j, stride),
        (j + 1) * stride <= ncols * stride,
{
    assert(0 <= j * stride) by (nonlinear_arith)
        requires
            0 <= j,
            0 <= stride,
    ;
    assert((j + 1) * stride == j * stride + stride) by (nonlinear_arith);
    assert((j + 1) * stride <= ncols * stride) by (nonlinear_arith)
        requires
            j + 1 <= ncols,
            0 <= stride,
    ;
}

proof fn lemma_cm_step(j: int, stride: int)
    ensures
        (j + 1) * stride == j * stride + stride,
{
    assert((j + 1) * stride == j * stride + stride) by (nonlinear_arith);
}

/// Distinct in-column positions of column-major storage are distinct.
proof fn lemma_cm_injective(i1: int, j1: int, i2: int, j2: int, stride: int)
    requires
        0 <= i1 < stride,
        0 <= i2 < stride,
        cm(i1, j1, stride) == cm(i2, j2, stride),
    ensures
        i1 == i2,
        j1 == j2,
{
    if j1 < j2 {
        assert(j1 * stride + stride <= j2 * stride) by (nonlinear_arith)
            requires
                j1 < j2,
                0 <= stride,
        ;
    } else if j2 < j1 {
        assert(j2 * stride + stride <= j1 * stride) by (nonlinear_arith)
            requires
                j2 < j1,
                0 <= stride,
        ;
    }
}

proof fn lemma_mul_le(a: int, b: int, c: int, d: int)
    requires
        0 <= a <= b,
        0 <= c <= d,
    ensures
        a * c <= b * d,
{
    assert(a * c <= b * d) by (nonlinear_arith)
        requires
            0 <= a <= b,
            0 <= c <= d,
    ;
}

/// Length of column-major storage of `nrows x ncols` elements whose columns start
/// `stride` elements apart; the last column is not padded.
pub open spec fn cm_len(nrows: int, ncols: int, stride: int) -> int {
    if nrows <= 0 || ncols <= 0 {
        0
    } else {
        (ncols - 1) * stride + nrows
    }
}

/// Where column `j` starts and ends in such storage.
proof fn lemma_cm_col(j: int, nrows: int, ncols: int, stride: int)
    requires
        0 < nrows <= stride,
        0 <= j < ncols,
    ensures
        0 <= j * stride,
        j * stride + nrows <= cm_len(nrows, ncols, stride),
        j + 1 < ncols ==> j * stride + stride <= cm_len(nrows, ncols, stride),
        (j + 1) * stride == j * stride + stride,
        j + 1 == ncols ==> j * stride + nrows == cm_len(nrows, ncols, stride),
{
    assert(0 <= j * stride) by (nonlinear_arith)
        requires
            0 <= j,
            0 <= stride,
    ;
    assert(j * stride <= (ncols - 1) * stride) by (nonlinear_arith)
        requires
            j <= ncols - 1,
            0 <= stride,
    ;
    assert((j + 1) * stride == j * stride + stride) by (nonlinear_arith);
    if j + 1 < ncols {
        assert((j + 1) * stride <= (ncols - 1) * stride) by (nonlinear_arith)
            requires
                j + 1 <= ncols - 1,
                0 <= stride,
        ;
    }
}

/// Such storage takes no more room than `ncols` full columns.
proof fn lemma_cm_len_le(nrows: int, ncols: int, stride: int)
    requires
        0 <= nrows <= stride,
        0 <= ncols,
    ensures
        0 <= cm_len(nrows, ncols, stride) <= ncols * stride,
{
    if nrows > 0 && ncols > 0 {
        assert((ncols - 1) * stride + stride == ncols * stride) by (nonlinear_arith);
        lemma_mul_le(0, ncols - 1, 0, stride);
    } else {
        lemma_mul_le(0, ncols, 0, stride);
    }
}

/// Such storage grows with the shape and the stride.
proof fn lemma_cm_len_mono(n1: int, c1: int, s1: int, n2: int, c2: int, s2: int)
    requires
        0 <= n1 <= n2,
        0 <= c1 <= c2,
        0 <= s1 <= s2,
    ensures
        cm_len(n1, c1, s1) <= cm_len(n2, c2, s2),
{
    if n1 > 0 && c1 > 0 {
        lemma_mul_le(c1 - 1, c2 - 1, s1, s2);
    } else if n2 > 0 && c2 > 0 {
        lemma_mul_le(0, c2 - 1, 0, s2);
    }
}

/// Copies the `nrows x ncols` elements of column-major storage whose columns start
/// `old_stride` elements apart into new storage whose columns start `new_stride` apart.
/// In every column but the last, the rows from `nrows` on hold copies of the first
/// element of their column.
fn relayout<T: Copy>(old: &Vec<T>, old_stride: usize, nrows: usize, ncols: usize, new_stride: usize) -> (out: Vec<T>)
    requires
        0 < nrows <= old_stride,
        nrows <= new_stride,
        old@.len() == cm_len(nrows as int, ncols as int, old_stride as int),
        cm_len(nrows as int, ncols as int, new_stride as int) <= isize::MAX,
    ensures
        out@.len() == cm_len(nrows as int, ncols as int, new_stride as int),
        forall|i: int, j: int|
            0 <= i < nrows && 0 <= j < ncols ==> #[trigger] out@[cm(i, j, new_stride as int)] == old@[cm(
                i,
                j,
                old_stride as int,
            )],
{
    let old_len = old.len();
    let mut out: Vec<T> = Vec::new();
    let mut j: usize = 0;
    while j < ncols
        invariant
            old_len == old@.len(),
            j <= ncols,
            0 < nrows <= old_stride,
            nrows <= new_stride,
            old@.len() == cm_len(nrows as int, ncols as int, old_stride as int),
            cm_len(nrows as int, ncols as int, new_stride as int) <= isize::MAX,
            j < ncols ==> out@.len() == j * new_stride,
            j == ncols ==> out@.len() == cm_len(nrows as int, ncols as int, new_stride as int),
            forall|i: int, jj: int|
                0 <= i < nrows && 0 <= jj < j ==> #[trigger] out@[cm(i, jj, new_stride as int)] == old@[cm(
                    i,
                    jj,
                    old_stride as int,
                )],
        decreases ncols - j,
    {
        proof {
            lemma_cm_col(j as int, nrows as int, ncols as int, old_stride as int);
            lemma_cm_col(j as int, nrows as int, ncols as int, new_stride as int);
        }
        let base = j * old_stride;
        let col_len = if j + 1 < ncols { new_stride } else { nrows };
        let ghost col_start = out@.len();
        let mut i: usize = 0;
        while i < col_len
            invariant
                old_len == old@.len(),
                j < ncols,
                0 < nrows <= old_stride,
                nrows <= new_stride,
                nrows <= col_len <= new_stride,
                base == j * old_stride,
                base + nrows <= old@.len(),
                col_start == j * new_stride,
                col_start + col_len <= cm_len(nrows as int, ncols as int, new_stride as int),
                i <= col_len,
                out@.len() == col_start + i,
                forall|ii: int, jj: int|
                    0 <= ii < nrows && 0 <= jj < j ==> #[trigger] out@[cm(ii, jj, new_stride as int)] == old@[cm(
                        ii,
                        jj,
                        old_stride as int,
                    )],
                forall|ii: int| 0 <= ii < i && ii < nrows ==> #[trigger] out@[col_start + ii] == old@[base + ii],
            decreases col_len - i,
        {
            let x = if i < nrows { old[base + i] } else { old[base] };
            let ghost before = out@;
            out.push(x);
            proof {
                assert forall|ii: int, jj: int| 0 <= ii < nrows && 0 <= jj < j implies #[trigger] out@[cm(
                    ii,
                    jj,
                    new_stride as int,
                )] == old@[cm(ii, jj, old_stride as int)] by {
                    lemma_cm_bound(ii, jj, new_stride as int, j as int);
                    assert(before[cm(ii, jj, new_stride as int)] == old@[cm(ii, jj, old_stride as int)]);
                }
                assert forall|ii: int| 0 <= ii < i + 1 && ii < nrows implies #[trigger] out@[col_start + ii]
                    == old@[base + ii] by {
                    if ii < i {
                        assert(before[col_start + ii] == old@[base + ii]);
                    }
                }
            }
            i += 1;
        }
        proof {
            assert forall|ii: int, jj: int| 0 <= ii < nrows && 0 <= jj < j + 1 implies #[trigger] out@[cm(
                ii,
                jj,
                new_stride as int,
            )] == old@[cm(ii, jj, old_stride as int)] by {
                if jj == j {
                    assert(out@[col_start + ii] == old@[base + ii]);
                }
            }
        }
        j += 1;
    }
    out
}

/// Column-major storage, columns `new_stride` apart, of the `new_nrows x new_ncols`
/// matrix that keeps the elements of the old `old_nrows x old_ncols` matrix (columns
/// `old_stride` apart) where both exist and takes `f(i, j)` at every other position
/// `(i, j)`. In every column but the last, the rows from `new_nrows` on hold copies of
/// the first element of their column.
fn build_resized<T: Copy, F: Fn(usize, usize) -> T>(
    old: &Vec<T>,
    old_stride: usize,
    old_nrows: usize,
    old_ncols: usize,
    new_stride: usize,
    new_nrows: usize,
    new_ncols: usize,
    f: &F,
) -> (out: Vec<T>)
    requires
        0 < new_nrows <= new_stride,
        old_nrows <= old_stride,
        old@.len() == cm_len(old_nrows as int, old_ncols as int, old_stride as int),
        cm_len(new_nrows as int, new_ncols as int, new_stride as int) <= isize::MAX,
        forall|i: usize, j: usize| i < new_nrows && j < new_ncols ==> call_requires(*f, (i, j)),
    ensures
        out@.len() == cm_len(new_nrows as int, new_ncols as int, new_stride as int),
        forall|i: int, j: int|
            0 <= i < new_nrows && 0 <= j < new_ncols ==> if i < old_nrows && j < old_ncols {
                #[trigger] out@[cm(i, j, new_stride as int)] == old@[cm(i, j, old_stride as int)]
            } else {
                call_ensures(*f, (i as usize, j as usize), out@[cm(i, j, new_stride as int)])
            },
{
    let old_len = old.len();
    let mut out: Vec<T> = Vec::new();
    let mut j: usize = 0;
    while j < new_ncols
        invariant
            old_len == old@.len(),
            j <= new_ncols,
            0 < new_nrows <= new_stride,
            old_nrows <= old_stride,
            old@.len() == cm_len(old_nrows as int, old_ncols as int, old_stride as int),
            cm_len(new_nrows as int, new_ncols as int, new_stride as int) <= isize::MAX,
            forall|i: usize, j: usize| i < new_nrows && j < new_ncols ==> call_requires(*f, (i, j)),
            j < new_ncols ==> out@.len() == j * new_stride,
            j == new_ncols ==> out@.len() == cm_len(new_nrows as int, new_ncols as int, new_stride as int),
            forall|i: int, jj: int|
                0 <= i < new_nrows && 0 <= jj < j ==> if i < old_nrows && jj < old_ncols {
                    #[trigger] out@[cm(i, jj, new_stride as int)] == old@[cm(i, jj, old_stride as int)]
                } else {
                    call_ensures(*f, (i as usize, jj as usize), out@[cm(i, jj, new_stride as int)])
                },
        decreases new_ncols - j,
    {
        proof {
            lemma_cm_col(j as int, new_nrows as int, new_ncols as int, new_stride as int);
        }
        let keep_col = j < old_ncols && old_nrows > 0;
        let base = if keep_col {
            proof {
                lemma_cm_col(j as int, old_nrows as int, old_ncols as int, old_stride as int);
            }
            j * old_stride
        } else {
            0
        };
        let col_len = if j + 1 < new_ncols { new_stride } else { new_nrows };
        let col_start = j * new_stride;
        let mut i: usize = 0;
        while i < col_len
            invariant
                old_len == old@.len(),
                j < new_ncols,
                0 < new_nrows <= new_stride,
                new_nrows <= col_len <= new_stride,
                old_nrows <= old_stride,
                old@.len() == cm_len(old_nrows as int, old_ncols as int, old_stride as int),
                cm_len(new_nrows as int, new_ncols as int, new_stride as int) <= isize::MAX,
                forall|i: usize, j: usize| i < new_nrows && j < new_ncols ==> call_requires(*f, (i, j)),
                keep_col == (j < old_ncols && old_nrows > 0),
                keep_col ==> base == j * old_stride && base + old_nrows <= old@.len(),
                col_start == j * new_stride,
                col_start + col_len <= cm_len(new_nrows as int, new_ncols as int, new_stride as int),
                i <= col_len,
                out@.len() == col_start + i,
                forall|ii: int, jj: int|
                    0 <= ii < new_nrows && 0 <= jj < j ==> if ii < old_nrows && jj < old_ncols {
                        #[trigger] out@[cm(ii, jj, new_stride as int)] == old@[cm(ii, jj, old_stride as int)]
                    } else {
                        call_ensures(*f, (ii as usize, jj as usize), out@[cm(ii, jj, new_stride as int)])
                    },
                forall|ii: int|
                    0 <= ii < i && ii < new_nrows ==> if ii < old_nrows && j < old_ncols {
                        #[trigger] out@[col_start + ii] == old@[base + ii]
                    } else {
                        call_ensures(*f, (ii as usize, j), out@[col_start + ii])
                    },
            decreases col_len - i,
        {
            let x = if i < new_nrows {
                if keep_col && i < old_nrows {
                    old[base + i]
                } else {
                    f(i, j)
                }
            } else {
                out[col_start]
            };
            let ghost before = out@;
            out.push(x);
            proof {
                assert forall|ii: int, jj: int| 0 <= ii < new_nrows && 0 <= jj < j implies if ii < old_nrows && jj
                    < old_ncols {
                    #[trigger] out@[cm(ii, jj, new_stride as int)] == old@[cm(ii, jj, old_stride as int)]
                } else {
                    call_ensures(*f, (ii as usize, jj as usize), out@[cm(ii, jj, new_stride as int)])
                } by {
                    lemma_cm_bound(ii, jj, new_stride as int, j as int);
                    assert(out@[cm(ii, jj, new_stride as int)] == before[cm(ii, jj, new_stride as int)]);
                }
                assert forall|ii: int| 0 <= ii < i + 1 && ii < new_nrows implies if ii < old_nrows && j < old_ncols {
                    #[trigger] out@[col_start + ii] == old@[base + ii]
                } else {
                    call_ensures(*f, (ii as usize, j), out@[col_start + ii])
                } by {
                    if ii < i {
                        assert(out@[col_start + ii] == before[col_start + ii]);
                    }
                }
            }
            i += 1;
        }
        proof {
            assert forall|ii: int, jj: int| 0 <= ii < new_nrows && 0 <= jj < j + 1 implies if ii < old_nrows && jj
                < old_ncols {
                #[trigger] out@[cm(ii, jj, new_stride as int)] == old@[cm(ii, jj, old_stride as int)]
            } else {
                call_ensures(*f, (ii as usize, jj as usize), out@[cm(ii, jj, new_stride as int)])
            } by {
                if jj == j {
                    assert(cm(ii, jj, new_stride as int) == col_start + ii);
                    if ii < old_nrows && jj < old_ncols {
                        assert(cm(ii, jj, old_stride as int) == base + ii);
                    }
                }
            }
        }
        j += 1;
    }
    out
}

/// An owned matrix in column-major storage, with room for `row_capacity()` rows and
/// `col_capacity()` columns; the columns start `row_capacity()` elements apart.
pub struct Mat<T> {
    data: Vec<T>,
    nrows: usize,
    ncols: usize,
    row_capacity: usize,
    col_capacity: usize,
}

/// The largest of two numbers.
pub open spec fn max_spec(a: usize, b: usize) -> usize {
    if a >= b { a } else { b }
}

/// A `row_capacity x col_capacity` allocation of `T` stays within `isize::MAX` bytes.
/// A zero-sized `T` takes no room whatever the capacity; its `nrows x ncols` elements
/// are still addressed by views at `isize` positions, columns `row_capacity` apart, so
/// those positions must fit.
pub open spec fn alloc_ok<T>(nrows: usize, ncols: usize, row_capacity: usize, col_capacity: usize) -> bool {
    if core::mem::size_of::<T>() > 0 {
        row_capacity * col_capacity * core::mem::size_of::<T>() <= isize::MAX
    } else {
        cm_len(nrows as int, ncols as int, row_capacity as int) <= isize::MAX
    }
}

/// Whether a matrix of `T` with `nrows x ncols` elements and room for
/// `row_capacity x col_capacity` stays within the allocation bound `alloc_ok`.
pub fn capacity_ok<T>(nrows: usize, ncols: usize, row_capacity: usize, col_capacity: usize) -> (r: bool)
    ensures
        r == alloc_ok::<T>(nrows, ncols, row_capacity, col_capacity),
{
    let size = core::mem::size_of::<T>();
    if size > 0 {
        match row_capacity.checked_mul(col_capacity) {
            Some(units) => match units.checked_mul(size) {
                Some(bytes) => bytes <= isize::MAX as usize,
                None => false,
            },
            None => {
                proof {
                    lemma_mul_le(1, size as int, (row_capacity * col_capacity) as int, (row_capacity * col_capacity) as int);
                    assert((row_capacity * col_capacity) * size == row_capacity * col_capacity * size)
                        by (nonlinear_arith);
                }
                false
            },
        }
    } else if nrows == 0 || ncols == 0 {
        true
    } else {
        match (ncols - 1).checked_mul(row_capacity) {
            Some(start) => start <= isize::MAX as usize && nrows <= isize::MAX as usize - start,
            None => false,
        }
    }
}

impl<T> Mat<T> {
    /// The storage holds the elements in column-major order, columns `row_capacity` apart.
    pub closed spec fn wf(&self) -> bool {
        &&& self.nrows <= self.row_capacity
        &&& self.ncols <= self.col_capacity
        &&& self.data@.len() == cm_len(self.nrows as int, self.ncols as int, self.row_capacity as int)
        &&& self.data@.len() <= isize::MAX
        &&& core::mem::size_of::<T>() > 0 ==> self.row_capacity * self.col_capacity * core::mem::size_of::<T>()
            <= isize::MAX
    }

    pub closed spec fn spec_nrows(&self) -> usize {
        self.nrows
    }

    pub closed spec fn spec_ncols(&self) -> usize {
        self.ncols
    }

    pub closed spec fn spec_row_capacity(&self) -> usize {
        self.row_capacity
    }

    pub closed spec fn spec_col_capacity(&self) -> usize {
        self.col_capacity
    }

    /// Element `(i, j)`.
    pub closed spec fn elem(&self, i: int, j: int) -> T {
        self.data@[cm(i, j, self.row_capacity as int)]
    }

    /// `self` and `other` hold the same elements at the same dimensions.
    pub open spec fn same_elems(&self, other: &Mat<T>) -> bool {
        &&& self.spec_nrows() == other.spec_nrows()
        &&& self.spec_ncols() == other.spec_ncols()
        &&& forall|i: int, j: int|
            0 <= i < self.spec_nrows() && 0 <= j < self.spec_ncols() ==> #[trigger] self.elem(i, j) == other.elem(
                i,
                j,
            )
    }

    /// What well-formedness tells callers: the shape fits the capacity, and the matrix
    /// meets the allocation bound at its own shape and capacity.
    pub proof fn lemma_wf(&self)
        requires
            self.wf(),
        ensures
            self.spec_nrows() <= self.spec_row_capacity(),
            self.spec_ncols() <= self.spec_col_capacity(),
            alloc_ok::<T>(self.spec_nrows(), self.spec_ncols(), self.spec_row_capacity(), self.spec_col_capacity()),
    {
    }

    /// An empty matrix that holds no storage.
    pub fn new() -> (r: Self)
        ensures
            r.spec_nrows() == 0,
            r.spec_ncols() == 0,
            r.spec_row_capacity() == 0,
            r.spec_col_capacity() == 0,
            r.wf(),
    {
        proof {
            let s = core::mem::size_of::<T>() as int;
            assert(0 * 0 * s == 0) by (nonlinear_arith);
        }
        Mat { data: Vec::new(), nrows: 0, ncols: 0, row_capacity: 0, col_capacity: 0 }
    }

    /// An empty matrix with room for `row_capacity` rows and `col_capacity` columns; the
    /// storage for them is allocated here.
    pub fn with_capacity(row_capacity: usize, col_capacity: usize) -> (r: Self)
        requires
            core::mem::size_of::<T>() > 0 ==> row_capacity * col_capacity * core::mem::size_of::<T>()
                <= isize::MAX,
        ensures
            r.spec_nrows() == 0,
            r.spec_ncols() == 0,
            r.spec_row_capacity() == row_capacity,
            r.spec_col_capacity() == col_capacity,
            r.wf(),
    {
        let units = if core::mem::size_of::<T>() > 0 {
            proof {
                lemma_mul_le(
                    (row_capacity * col_capacity) as int,
                    (row_capacity * col_capacity) as int,
                    1,
                    core::mem::size_of::<T>() as int,
                );
            }
            row_capacity * col_capacity
        } else {
            0
        };
        Mat { data: Vec::with_capacity(units), nrows: 0, ncols: 0, row_capacity, col_capacity }
    }

    #[verifier::when_used_as_spec(spec_nrows)]
    pub fn nrows(&self) -> (r: usize)
        ensures
            r == self.spec_nrows(),
    {
        self.nrows
    }

    #[verifier::when_used_as_spec(spec_ncols)]
    pub fn ncols(&self) -> (r: usize)
        ensures
            r == self.spec_ncols(),
    {
        self.ncols
    }

    /// Number of rows the matrix can hold without reallocating.
    #[verifier::when_used_as_spec(spec_row_capacity)]
    pub fn row_capacity(&self) -> (r: usize)
        ensures
            r == self.spec_row_capacity(),
    {
        self.row_capacity
    }

    /// Number of columns the matrix can hold without reallocating.
    #[verifier::when_used_as_spec(spec_col_capacity)]
    pub fn col_capacity(&self) -> (r: usize)
        ensures
            r == self.spec_col_capacity(),
    {
        self.col_capacity
    }

    /// Distance between successive rows: always `1`, the storage being column-major.
    pub fn row_stride(&self) -> (r: isize)
        ensures
            r == 1,
    {
        1
    }

    /// Distance between successive columns: the row capacity.
    pub fn col_stride(&self) -> (r: isize)
        ensures
            r == self.spec_row_capacity() as isize,
    {
        self.row_capacity as isize
    }
}

impl<T: Copy> Mat<T> {
    /// Makes room for at least `row_capacity` rows and `col_capacity` columns; does
    /// nothing when the capacity already suffices. The elements are kept.
    pub fn reserve_exact(&mut self, row_capacity: usize, col_capacity: usize)
        requires
            old(self).wf(),
            !(old(self).row_capacity() >= row_capacity && old(self).col_capacity() >= col_capacity) ==> alloc_ok::<
                T,
            >(
                old(self).nrows(),
                old(self).ncols(),
                max_spec(old(self).row_capacity(), row_capacity),
                max_spec(old(self).col_capacity(), col_capacity),
            ),
        ensures
            final(self).wf(),
            final(self).same_elems(old(self)),
            final(self).row_capacity() == max_spec(old(self).row_capacity(), row_capacity),
            final(self).col_capacity() == max_spec(old(self).col_capacity(), col_capacity),
    {
        if self.row_capacity >= row_capacity && self.col_capacity >= col_capacity {
            // the capacity already suffices
        } else {
            let new_row_capacity = if self.row_capacity >= row_capacity { self.row_capacity } else { row_capacity };
            let new_col_capacity = if self.col_capacity >= col_capacity { self.col_capacity } else { col_capacity };
            self.do_reserve_exact(new_row_capacity, new_col_capacity);
        }
    }

    /// Moves the elements into storage whose columns start `new_row_capacity` apart.
    fn do_reserve_exact(&mut self, new_row_capacity: usize, new_col_capacity: usize)
        requires
            old(self).wf(),
            old(self).row_capacity() <= new_row_capacity,
            old(self).col_capacity() <= new_col_capacity,
            alloc_ok::<T>(old(self).nrows(), old(self).ncols(), new_row_capacity, new_col_capacity),
        ensures
            final(self).wf(),
            final(self).same_elems(old(self)),
            final(self).row_capacity() == new_row_capacity,
            final(self).col_capacity() == new_col_capacity,
    {
        let mut this = Mat::new();
        core::mem::swap(self, &mut this);
        assert(this.wf());
        let Mat { data, nrows, ncols, row_capacity, col_capacity } = this;
        proof {
            let s = core::mem::size_of::<T>() as int;
            if s > 0 {
                lemma_cm_len_le(nrows as int, ncols as int, new_row_capacity as int);
                lemma_mul_le(ncols as int, new_col_capacity as int, new_row_capacity as int, new_row_capacity as int);
                lemma_mul_le(
                    (ncols * new_row_capacity) as int,
                    (new_col_capacity * new_row_capacity) as int,
                    1,
                    s,
                );
                assert(new_row_capacity * new_col_capacity == new_col_capacity * new_row_capacity) by (nonlinear_arith);
            }
        }
        let new_data = if nrows == 0 || ncols == 0 || row_capacity == new_row_capacity {
            data
        } else {
            relayout(&data, row_capacity, nrows, ncols, new_row_capacity)
        };
        *self = Mat { data: new_data, nrows, ncols, row_capacity: new_row_capacity, col_capacity: new_col_capacity };
    }
}

impl<T: Copy> Mat<T> {
    /// Resizes the matrix to `new_nrows x new_ncols`. The elements at positions that
    /// both shapes share are kept; every new element `(i, j)` is `f(i, j)`. The
    /// capacity grows to fit the new shape and never shrinks.
    pub fn resize_with<F: Fn(usize, usize) -> T>(&mut self, new_nrows: usize, new_ncols: usize, f: F)
        requires
            old(self).wf(),
            (new_nrows > old(self).nrows() || new_ncols > old(self).ncols()) ==> alloc_ok::<T>(
                new_nrows,
                new_ncols,
                max_spec(old(self).row_capacity(), new_nrows),
                max_spec(old(self).col_capacity(), new_ncols),
            ),
            forall|i: usize, j: usize| i < new_nrows && j < new_ncols ==> call_requires(f, (i, j)),
        ensures
            final(self).wf(),
            final(self).nrows() == new_nrows,
            final(self).ncols() == new_ncols,
            final(self).row_capacity() == max_spec(old(self).row_capacity(), new_nrows),
            final(self).col_capacity() == max_spec(old(self).col_capacity(), new_ncols),
            forall|i: int, j: int|
                0 <= i < new_nrows && 0 <= j < new_ncols ==> if i < old(self).nrows() && j < old(self).ncols() {
                    #[trigger] final(self).elem(i, j) == old(self).elem(i, j)
                } else {
                    call_ensures(f, (i as usize, j as usize), final(self).elem(i, j))
                },
    {
        let mut this = Mat::new();
        core::mem::swap(self, &mut this);
        assert(this.wf());
        let Mat { data, nrows, ncols, row_capacity, col_capacity } = this;
        if new_nrows <= nrows && new_ncols <= ncols {
            // only erases elements: the storage keeps its layout
            let mut data = data;
            if new_nrows == 0 || new_ncols == 0 {
                data.clear();
            } else {
                proof {
                    lemma_cm_len_mono(
                        new_nrows as int,
                        new_ncols as int,
                        row_capacity as int,
                        nrows as int,
                        ncols as int,
                        row_capacity as int,
                    );
                    assert forall|i: int, j: int| 0 <= i < new_nrows && 0 <= j < new_ncols implies cm(
                        i,
                        j,
                        row_capacity as int,
                    ) < cm_len(new_nrows as int, new_ncols as int, row_capacity as int) by {
                        lemma_cm_col(j, new_nrows as int, new_ncols as int, row_capacity as int);
                    }
                }
                data.truncate((new_ncols - 1) * row_capacity + new_nrows);
            }
            *self = Mat { data, nrows: new_nrows, ncols: new_ncols, row_capacity, col_capacity };
        } else {
            let new_row_capacity = if row_capacity >= new_nrows { row_capacity } else { new_nrows };
            let new_col_capacity = if col_capacity >= new_ncols { col_capacity } else { new_ncols };
            proof {
                let s = core::mem::size_of::<T>() as int;
                if s > 0 {
                    lemma_cm_len_le(new_nrows as int, new_ncols as int, new_row_capacity as int);
                    lemma_mul_le(new_ncols as int, new_col_capacity as int, new_row_capacity as int, new_row_capacity as int);
                    lemma_mul_le(
                        (new_ncols * new_row_capacity) as int,
                        (new_col_capacity * new_row_capacity) as int,
                        1,
                        s,
                    );
                    assert(new_row_capacity * new_col_capacity == new_col_capacity * new_row_capacity)
                        by (nonlinear_arith);
                }
            }
            let new_data = if new_nrows == 0 {
                Vec::new()
            } else {
                build_resized(&data, row_capacity, nrows, ncols, new_row_capacity, new_nrows, new_ncols, &f)
            };
            *self = Mat {
                data: new_data,
                nrows: new_nrows,
                ncols: new_ncols,
                row_capacity: new_row_capacity,
                col_capacity: new_col_capacity,
            };
        }
    }
}

/// The layout of the view over a matrix's storage.
pub open spec fn mat_layout(nrows: usize, ncols: usize, row_capacity: usize) -> MatLayout {
    MatLayout { offset: 0, nrows, ncols, row_stride: 1, col_stride: row_capacity as isize }
}

proof fn lemma_mat_layout(nrows: usize, ncols: usize, row_capacity: usize, len: nat)
    requires
        nrows <= row_capacity,
        len == cm_len(nrows as int, ncols as int, row_capacity as int),
        len <= isize::MAX,
    ensures
        mat_layout(nrows, ncols, row_capacity).fits(len),
        forall|i: int, j: int|
            0 <= i < nrows && 0 <= j < ncols ==> #[trigger] mat_layout(nrows, ncols, row_capacity).pos(i, j) == cm(
                i,
                j,
                row_capacity as int,
            ),
{
    let l = mat_layout(nrows, ncols, row_capacity);
    if nrows > 0 && ncols > 0 {
        if ncols >= 2 {
            lemma_mul_le(1, (ncols - 1) as int, row_capacity as int, row_capacity as int);
            lemma_mul_le((ncols - 1) as int, (ncols - 1) as int, 1, row_capacity as int);
        }
        assert(ncols <= isize::MAX);
        assert(nrows <= isize::MAX);
        assert forall|i: int, j: int| 0 <= i < nrows && 0 <= j < ncols implies #[trigger] l.pos(i, j) == cm(
            i,
            j,
            row_capacity as int,
        ) by {
            if j == 0 {
                assert(j * l.col_stride == 0 && j * row_capacity == 0) by (nonlinear_arith)
                    requires
                        j == 0,
                ;
            } else {
                assert(l.col_stride == row_capacity);
            }
        }
        assert forall|i: int, j: int| #[trigger] l.in_bounds(i, j) implies 0 <= l.pos(i, j) < len && l.pos(i, j)
            <= isize::MAX by {
            lemma_cm_col(j, nrows as int, ncols as int, row_capacity as int);
        }
    }
}

impl<T> Mat<T> {
    /// A view over the elements of the matrix.
    pub fn as_ref(&self) -> (r: MatRef<'_, T>)
        requires
            self.wf(),
        ensures
            r.layout() == mat_layout(self.nrows(), self.ncols(), self.row_capacity()),
            r.conj_state() == Conj::No,
            forall|i: int, j: int|
                0 <= i < self.nrows() && 0 <= j < self.ncols() ==> #[trigger] r.elem(i, j) == self.elem(i, j),
            r.layout().nrows == self.nrows() && r.layout().ncols == self.ncols(),
            r.layout().row_stride == 1 && r.layout().col_stride == self.row_capacity() as isize,
    {
        proof {
            lemma_mat_layout(self.nrows, self.ncols, self.row_capacity, self.data@.len());
        }
        MatRef::from_raw_parts(self.data.as_slice(), 0, self.nrows, self.ncols, 1, self.row_capacity as isize)
    }

    /// A mutable view over the elements of the matrix; what is written through it is
    /// what the matrix holds afterwards.
    pub fn as_mut(&mut self) -> (r: MatMut<'_, T>)
        requires
            old(self).wf(),
        ensures
            r.inner == mat_layout(old(self).nrows(), old(self).ncols(), old(self).row_capacity()),
            r.conj == Conj::No,
            r.wf(),
            final(r.data)@.len() == r.data@.len() ==> final(self).wf(),
            forall|i: int, j: int|
                0 <= i < old(self).nrows() && 0 <= j < old(self).ncols() ==> #[trigger] r.elem(i, j) == old(
                    self,
                ).elem(i, j),
            final(self).nrows() == old(self).nrows(),
            final(self).ncols() == old(self).ncols(),
            final(self).row_capacity() == old(self).row_capacity(),
            final(self).col_capacity() == old(self).col_capacity(),
            forall|i: int, j: int|
                0 <= i < old(self).nrows() && 0 <= j < old(self).ncols() ==> #[trigger] final(self).elem(i, j)
                    == final(r.data)@[r.inner.pos(i, j)],
            r.inner.nrows == old(self).nrows() && r.inner.ncols == old(self).ncols(),
            r.inner.row_stride == 1 && r.inner.col_stride == old(self).row_capacity() as isize,
    {
        proof {
            lemma_mat_layout(self.nrows, self.ncols, self.row_capacity, self.data@.len());
        }
        let nrows = self.nrows;
        let ncols = self.ncols;
        let col_stride = self.row_capacity as isize;
        MatMut::from_raw_parts(self.data.as_mut_slice(), 0, nrows, ncols, 1, col_stride)
    }
}

impl<T: Copy> Mat<T> {
    /// Copy of the in-bounds element `(row, col)`.
    pub fn read_unchecked(&self, row: usize, col: usize) -> (r: T)
        requires
            self.wf(),
            row < self.nrows(),
            col < self.ncols(),
        ensures
            r == self.elem(row as int, col as int),
    {
        self.as_ref().read_unchecked(row, col)
    }

    /// Copy of element `(row, col)`, which must be in bounds.
    pub fn read(&self, row: usize, col: usize) -> (r: T)
        requires
            self.wf(),
            row < self.nrows(),
            col < self.ncols(),
        ensures
            r == self.elem(row as int, col as int),
    {
        self.as_ref().read(row, col)
    }

    /// Stores `value` at the in-bounds element `(row, col)`; every other element is kept.
    pub fn write_unchecked(&mut self, row: usize, col: usize, value: T)
        requires
            old(self).wf(),
            row < old(self).nrows(),
            col < old(self).ncols(),
        ensures
            final(self).wf(),
            final(self).nrows() == old(self).nrows(),
            final(self).ncols() == old(self).ncols(),
            final(self).row_capacity() == old(self).row_capacity(),
            final(self).col_capacity() == old(self).col_capacity(),
            final(self).elem(row as int, col as int) == value,
            forall|i: int, j: int|
                0 <= i < old(self).nrows() && 0 <= j < old(self).ncols() && !(i == row && j == col)
                    ==> #[trigger] final(self).elem(i, j) == old(self).elem(i, j),
    {
        let ghost rc = self.row_capacity() as int;
        proof {
            lemma_mat_layout(self.nrows, self.ncols, self.row_capacity(), self.data@.len());
        }
        let ghost old_self = *self;
        let mut m = self.as_mut();
        let ghost before = m.data@;
        let ghost l = m.inner;
        proof {
            assert forall|i: int, j: int| 0 <= i < old_self.nrows() && 0 <= j < old_self.ncols() implies before[l.pos(
                i,
                j,
            )] == old_self.elem(i, j) by {
                assert(m.elem(i, j) == old_self.elem(i, j));
            }
        }
        m.write_unchecked(row, col, value);
        proof {
            assert(has_resolved(m));
            assert(has_resolved(m.data));
            assert(final(m.data)@ == m.data@);
            assert forall|i: int, j: int|
                0 <= i < old_self.nrows() && 0 <= j < old_self.ncols() && !(i == row && j == col) implies
                #[trigger] final(m.data)@[l.pos(i, j)] == old_self.elem(i, j) by {
                if l.pos(i, j) == l.pos(row as int, col as int) {
                    lemma_cm_injective(i, j, row as int, col as int, rc);
                }
                assert(m.data@[l.pos(i, j)] == before[l.pos(i, j)]);
            }
        }
    }

    /// Stores `value` at element `(row, col)`, which must be in bounds; every other
    /// element is kept.
    pub fn write(&mut self, row: usize, col: usize, value: T)
        requires
            old(self).wf(),
            row < old(self).nrows(),
            col < old(self).ncols(),
        ensures
            final(self).wf(),
            final(self).nrows() == old(self).nrows(),
            final(self).ncols() == old(self).ncols(),
            final(self).row_capacity() == old(self).row_capacity(),
            final(self).col_capacity() == old(self).col_capacity(),
            final(self).elem(row as int, col as int) == value,
            forall|i: int, j: int|
                0 <= i < old(self).nrows() && 0 <= j < old(self).ncols() && !(i == row && j == col)
                    ==> #[trigger] final(self).elem(i, j) == old(self).elem(i, j),
    {
        self.write_unchecked(row, col, value)
    }
}

impl<T: Copy> Mat<T> {
    /// A `nrows x ncols` matrix whose element `(i, j)` is `f(i, j)`, with exactly that
    /// capacity.
    pub fn with_dims<F: Fn(usize, usize) -> T>(nrows: usize, ncols: usize, f: F) -> (r: Self)
        requires
            alloc_ok::<T>(nrows, ncols, nrows, ncols),
            forall|i: usize, j: usize| i < nrows && j < ncols ==> call_requires(f, (i, j)),
        ensures
            r.wf(),
            r.nrows() == nrows,
            r.ncols() == ncols,
            r.row_capacity() == nrows,
            r.col_capacity() == ncols,
            forall|i: int, j: int|
                0 <= i < nrows && 0 <= j < ncols ==> call_ensures(f, (i as usize, j as usize), #[trigger] r.elem(i, j)),
    {
        let mut this = Self::new();
        this.resize_with(nrows, ncols, f);
        this
    }

    /// The matrix fits the allocation bound of a copy of itself with no spare capacity.
    proof fn lemma_copy_alloc_ok(&self)
        requires
            self.wf(),
        ensures
            alloc_ok::<T>(self.nrows(), self.ncols(), self.nrows(), self.ncols()),
    {
        let s = core::mem::size_of::<T>() as int;
        if s > 0 {
            lemma_mul_le(self.nrows as int, self.row_capacity as int, self.ncols as int, self.col_capacity as int);
            lemma_mul_le(
                (self.nrows * self.ncols) as int,
                (self.row_capacity * self.col_capacity) as int,
                s,
                s,
            );
        } else {
            lemma_cm_len_mono(
                self.nrows as int,
                self.ncols as int,
                self.nrows as int,
                self.nrows as int,
                self.ncols as int,
                self.row_capacity as int,
            );
        }
    }

    /// The view with rows and columns exchanged.
    pub fn transpose(&self) -> (r: MatRef<'_, T>)
        requires
            self.wf(),
        ensures
            r.layout() == mat_layout(self.nrows(), self.ncols(), self.row_capacity()).transposed(),
            r.conj_state() == Conj::No,
            forall|i: int, j: int|
                0 <= i < self.ncols() && 0 <= j < self.nrows() ==> #[trigger] r.elem(i, j) == self.elem(j, i),
            r.layout().nrows == self.ncols() && r.layout().ncols == self.nrows(),
    {
        let v = self.as_ref();
        let t = v.transpose();
        proof {
            assert forall|i: int, j: int| 0 <= i < self.ncols() && 0 <= j < self.nrows() implies #[trigger] t.elem(
                i,
                j,
            ) == self.elem(j, i) by {
                assert(v.elem(j, i) == self.elem(j, i));
            }
        }
        t
    }

    /// The view read as the complex conjugates of the elements.
    pub fn conjugate(&self) -> (r: MatRef<'_, T>)
        requires
            self.wf(),
        ensures
            r.layout() == mat_layout(self.nrows(), self.ncols(), self.row_capacity()),
            r.conj_state() == Conj::Yes,
            forall|i: int, j: int|
                0 <= i < self.nrows() && 0 <= j < self.ncols() ==> #[trigger] r.elem(i, j) == self.elem(i, j),
            r.layout().nrows == self.nrows() && r.layout().ncols == self.ncols(),
    {
        let v = self.as_ref();
        let c = v.conjugate();
        proof {
            assert forall|i: int, j: int| 0 <= i < self.nrows() && 0 <= j < self.ncols() implies #[trigger] c.elem(
                i,
                j,
            ) == self.elem(i, j) by {
                assert(v.elem(i, j) == self.elem(i, j));
            }
        }
        c
    }

    /// The conjugate transpose view.
    pub fn adjoint(&self) -> (r: MatRef<'_, T>)
        requires
            self.wf(),
        ensures
            r.layout() == mat_layout(self.nrows(), self.ncols(), self.row_capacity()).transposed(),
            r.conj_state() == Conj::Yes,
            forall|i: int, j: int|
                0 <= i < self.ncols() && 0 <= j < self.nrows() ==> #[trigger] r.elem(i, j) == self.elem(j, i),
            r.layout().nrows == self.ncols() && r.layout().ncols == self.nrows(),
    {
        let v = self.as_ref();
        let a = v.adjoint();
        proof {
            assert forall|i: int, j: int| 0 <= i < self.ncols() && 0 <= j < self.nrows() implies #[trigger] a.elem(
                i,
                j,
            ) == self.elem(j, i) by {
                assert(v.elem(j, i) == self.elem(j, i));
            }
        }
        a
    }

    /// A copy of the matrix, with no spare capacity.
    pub fn to_owned(&self) -> (r: Mat<T>)
        requires
            self.wf(),
        ensures
            r.wf(),
            r.same_elems(self),
            r.row_capacity() == self.nrows(),
            r.col_capacity() == self.ncols(),
    {
        proof {
            self.lemma_copy_alloc_ok();
        }
        let v = self.as_ref();
        v.to_owned(|x: T| x)
    }
}

impl<'a, T: Copy> MatRef<'a, T> {
    /// An owned copy of the values the view reads, with no spare capacity: the stored
    /// values, or, for a conjugated view, their conjugates computed by `conjugate`.
    pub fn to_owned<F: Fn(T) -> T>(&self, conjugate: F) -> (r: Mat<T>)
        requires
            alloc_ok::<T>(self.layout().nrows, self.layout().ncols, self.layout().nrows, self.layout().ncols),
            self.conj_state() == Conj::Yes ==> forall|x: T| #[trigger] call_requires(conjugate, (x,)),
        ensures
            r.wf(),
            r.nrows() == self.layout().nrows,
            r.ncols() == self.layout().ncols,
            r.row_capacity() == self.layout().nrows,
            r.col_capacity() == self.layout().ncols,
            forall|i: int, j: int|
                0 <= i < self.layout().nrows && 0 <= j < self.layout().ncols ==> if self.conj_state() == Conj::Yes {
                    call_ensures(conjugate, (self.elem(i, j),), #[trigger] r.elem(i, j))
                } else {
                    r.elem(i, j) == self.elem(i, j)
                },
    {
        let nrows = self.nrows();
        let ncols = self.ncols();
        let (this, conj) = self.canonicalize();
        let cj = &conjugate;
        let read = move |i: usize, j: usize| -> (v: T)
            requires
                this.layout().in_bounds(i as int, j as int),
                conj == Conj::Yes ==> forall|x: T| #[trigger] call_requires(*cj, (x,)),
            ensures
                if conj == Conj::Yes {
                    call_ensures(*cj, (this.elem(i as int, j as int),), v)
                } else {
                    v == this.elem(i as int, j as int)
                },
            {
                let x = this.read_unchecked(i, j);
                match conj {
                    Conj::Yes => cj(x),
                    Conj::No => x,
                }
            };
        Mat::with_dims(nrows, ncols, read)
    }
}

impl<'a, T: Copy> MatMut<'a, T> {
    /// An owned copy of the values the view reads, with no spare capacity: the stored
    /// values, or, for a conjugated view, their conjugates computed by `conjugate`.
    pub fn to_owned<F: Fn(T) -> T>(&self, conjugate: F) -> (r: Mat<T>)
        requires
            self.wf(),
            alloc_ok::<T>(self.inner.nrows, self.inner.ncols, self.inner.nrows, self.inner.ncols),
            self.conj == Conj::Yes ==> forall|x: T| #[trigger] call_requires(conjugate, (x,)),
        ensures
            r.wf(),
            r.nrows() == self.inner.nrows,
            r.ncols() == self.inner.ncols,
            r.row_capacity() == self.inner.nrows,
            r.col_capacity() == self.inner.ncols,
            forall|i: int, j: int|
                0 <= i < self.inner.nrows && 0 <= j < self.inner.ncols ==> if self.conj == Conj::Yes {
                    call_ensures(conjugate, (self.elem(i, j),), #[trigger] r.elem(i, j))
                } else {
                    r.elem(i, j) == self.elem(i, j)
                },
    {
        self.rb().to_owned(conjugate)
    }
}

/// A copy made by `to_owned` reads, as stored, the values that the view reads through its
/// conjugation state: so where `==` is reflexive, the copy's view and the original view
/// compare equal.
pub proof fn lemma_copy_reads_as_view<T: Copy + PartialEq, F: Fn(T) -> T>(view: MatRef<'_, T>, copy: Mat<T>, conjugate: F)
    requires
        total_function(conjugate),
        copy.wf(),
        copy.nrows() == view.layout().nrows,
        copy.ncols() == view.layout().ncols,
        forall|i: int, j: int|
            0 <= i < view.layout().nrows && 0 <= j < view.layout().ncols ==> if view.conj_state() == Conj::Yes {
                call_ensures(conjugate, (view.elem(i, j),), #[trigger] copy.elem(i, j))
            } else {
                copy.elem(i, j) == view.elem(i, j)
            },
    ensures
        forall|i: int, j: int|
            0 <= i < view.layout().nrows && 0 <= j < view.layout().ncols ==> #[trigger] copy.elem(i, j) == read_as(
                conjugate,
                view.elem(i, j),
                view.conj_state(),
            ),
        (forall|x: T| #[trigger] x.eq_spec(&x)) ==> forall|i: int, j: int|
            0 <= i < view.layout().nrows && 0 <= j < view.layout().ncols ==> #[trigger] read_as(
                conjugate,
                copy.elem(i, j),
                Conj::No,
            ).eq_spec(&read_as(conjugate, view.elem(i, j), view.conj_state())),
{
    assert forall|i: int, j: int| 0 <= i < view.layout().nrows && 0 <= j < view.layout().ncols implies #[trigger] copy.elem(
        i,
        j,
    ) == read_as(conjugate, view.elem(i, j), view.conj_state()) by {
        if view.conj_state() == Conj::Yes {
            lemma_read_as(conjugate, view.elem(i, j), copy.elem(i, j));
        }
    }
}

impl<T: Copy + PartialEq> Mat<T> {
    /// Whether both matrices have the same dimensions and equal elements. The result is
    /// the one stated where `T`'s `==` follows its specification.
    pub fn eq(&self, other: &Mat<T>) -> (r: bool)
        requires
            self.wf(),
            other.wf(),
        ensures
            self.nrows() != other.nrows() || self.ncols() != other.ncols() ==> !r,
            T::obeys_eq_spec() ==> (r <==> {
                &&& self.nrows() == other.nrows()
                &&& self.ncols() == other.ncols()
                &&& forall|i: int, j: int|
                    0 <= i < self.nrows() && 0 <= j < self.ncols() ==> #[trigger] self.elem(i, j).eq_spec(
                        &other.elem(i, j),
                    )
            }),
    {
        let a = self.as_ref();
        let b = other.as_ref();
        let same = |x: T| -> (y: T)
            ensures
                y == x,
            { x };
        let r = a.eq(&b, same);
        proof {
            if T::obeys_eq_spec() && self.nrows() == other.nrows() && self.ncols() == other.ncols() {
                assert forall|i: int, j: int| 0 <= i < self.nrows() && 0 <= j < self.ncols() implies #[trigger] self.elem(
                    i,
                    j,
                ).eq_spec(&other.elem(i, j)) == read_as(same, a.elem(i, j), a.conj_state()).eq_spec(
                    &read_as(same, b.elem(i, j), b.conj_state()),
                ) by {
                    assert(a.elem(i, j) == self.elem(i, j));
                    assert(b.elem(i, j) == other.elem(i, j));
                }
            }
        }
        r
    }
}

} // verus!
