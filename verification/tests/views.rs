use faer_core::mat::capacity_ok;
use faer_core::{
    join_parallelism, join_parallelism_for, par_split_indices, parallelism_degree, parallelism_degree_for, round_up_to, Conj, Mat, MatMut, MatRef, Parallelism,
};

fn grid(nrows: usize, ncols: usize) -> Mat<i64> {
    Mat::with_dims(nrows, ncols, |i, j| (10 * i + j) as i64)
}

#[test]
fn conj_compose_table() {
    assert_eq!(Conj::Yes.compose(Conj::Yes), Conj::No);
    assert_eq!(Conj::No.compose(Conj::No), Conj::No);
    assert_eq!(Conj::Yes.compose(Conj::No), Conj::Yes);
    assert_eq!(Conj::No.compose(Conj::Yes), Conj::Yes);
}

#[test]
fn par_split_indices_tiles_range() {
    assert_eq!(par_split_indices(10, 0, 3), (0, 4));
    assert_eq!(par_split_indices(10, 1, 3), (4, 3));
    assert_eq!(par_split_indices(10, 2, 3), (7, 3));
    let mut next = 0;
    for idx in 0..7 {
        let (start, len) = par_split_indices(23, idx, 7);
        assert_eq!(start, next);
        assert!(len == 3 || len == 4);
        next = start + len;
    }
    assert_eq!(next, 23);
    assert_eq!(par_split_indices(2, 3, 5), (2, 0));
}

#[test]
fn round_up_to_multiples() {
    assert_eq!(round_up_to(10, 4), 12);
    assert_eq!(round_up_to(8, 4), 8);
    assert_eq!(round_up_to(0, 3), 0);
    assert_eq!(round_up_to(1, 1), 1);
}

#[test]
fn parallelism_degrees() {
    assert_eq!(parallelism_degree(Parallelism::Sequential), 1);
    assert_eq!(parallelism_degree(Parallelism::Rayon(4)), 4);
    assert!(parallelism_degree(Parallelism::Rayon(0)) >= 1);
}

#[test]
fn join_parallelism_splits_threads() {
    assert_eq!(join_parallelism(Parallelism::Sequential), None);
    assert_eq!(join_parallelism(Parallelism::Rayon(1)), None);
    assert_eq!(join_parallelism(Parallelism::Rayon(5)), Some(Parallelism::Rayon(3)));
    assert_eq!(join_parallelism(Parallelism::Rayon(4)), Some(Parallelism::Rayon(2)));
    assert!(matches!(join_parallelism(Parallelism::Rayon(0)), Some(Parallelism::Rayon(n)) if n >= 1));
}

#[test]
fn join_parallelism_halves_the_pool() {
    assert_eq!(join_parallelism_for(Parallelism::Rayon(0), 8), Some(Parallelism::Rayon(4)));
    assert_eq!(join_parallelism_for(Parallelism::Rayon(0), 7), Some(Parallelism::Rayon(4)));
    assert_eq!(join_parallelism_for(Parallelism::Rayon(0), 1), Some(Parallelism::Rayon(1)));
    assert_eq!(join_parallelism_for(Parallelism::Rayon(6), 100), Some(Parallelism::Rayon(3)));
    assert_eq!(join_parallelism_for(Parallelism::Rayon(1), 100), None);
    assert_eq!(join_parallelism_for(Parallelism::Sequential, 100), None);
    assert_eq!(parallelism_degree_for(Parallelism::Rayon(0), 12), 12);
    assert_eq!(parallelism_degree_for(Parallelism::Rayon(3), 12), 3);
    assert_eq!(parallelism_degree_for(Parallelism::Sequential, 12), 1);
}

#[test]
fn view_strides_and_positions() {
    let data = [0, 1, 2, 3, 4, 5, 6, 7, 8, 9, 10, 11];
    let v = MatRef::from_raw_parts(&data, 1, 3, 2, 2, 5);
    assert_eq!(v.nrows(), 3);
    assert_eq!(v.ncols(), 2);
    assert_eq!(v.row_stride(), 2);
    assert_eq!(v.col_stride(), 5);
    assert_eq!(v.as_ptr(), 1);
    assert_eq!(v.ptr_at(2, 1), 1 + 4 + 5);
    assert_eq!(v.ptr_inbounds_at(1, 1), 8);
    assert_eq!(*v.get(2, 1), 10);
    assert_eq!(v.read(0, 1), 6);
}

#[test]
fn transpose_twice_is_identity() {
    let m = grid(3, 4);
    let t = m.as_ref().transpose();
    assert_eq!(t.nrows(), 4);
    assert_eq!(t.ncols(), 3);
    assert_eq!(t.read(3, 1), 13);
    let tt = t.transpose();
    for i in 0..3 {
        for j in 0..4 {
            assert_eq!(tt.read(i, j), m.read(i, j));
        }
    }
}

#[test]
fn reversals() {
    let m = grid(3, 4);
    let v = m.as_ref();
    let r = v.reverse_rows();
    assert_eq!(r.read(0, 1), 21);
    assert_eq!(r.read(2, 3), 3);
    let c = v.reverse_cols();
    assert_eq!(c.read(0, 0), 3);
    assert_eq!(c.read(2, 3), 20);
    let b = v.reverse_rows_and_cols();
    assert_eq!(b.read(0, 0), 23);
    assert_eq!(b.read(2, 3), 0);
    let rr = r.reverse_rows();
    for i in 0..3 {
        for j in 0..4 {
            assert_eq!(rr.read(i, j), v.read(i, j));
        }
    }
    let empty = Mat::<i64>::new();
    assert_eq!(empty.as_ref().reverse_rows().nrows(), 0);
}

#[test]
fn split_at_tiles_the_view() {
    let m = grid(4, 5);
    let v = m.as_ref();
    let [tl, tr, bl, br] = v.split_at(1, 2);
    assert_eq!((tl.nrows(), tl.ncols()), (1, 2));
    assert_eq!((tr.nrows(), tr.ncols()), (1, 3));
    assert_eq!((bl.nrows(), bl.ncols()), (3, 2));
    assert_eq!((br.nrows(), br.ncols()), (3, 3));
    for i in 0..4 {
        for j in 0..5 {
            let x = if i < 1 && j < 2 {
                tl.read(i, j)
            } else if i < 1 {
                tr.read(i, j - 2)
            } else if j < 2 {
                bl.read(i - 1, j)
            } else {
                br.read(i - 1, j - 2)
            };
            assert_eq!(x, v.read(i, j));
        }
    }
    let [top, bot] = v.split_at_row(3);
    assert_eq!(top.read(2, 4), 24);
    assert_eq!(bot.read(0, 0), 30);
    let [left, right] = v.split_at_col(1);
    assert_eq!(left.ncols(), 1);
    assert_eq!(right.read(3, 0), 31);
    let [e0, _, _, e3] = v.split_at(4, 5);
    assert_eq!((e0.nrows(), e0.ncols()), (4, 5));
    assert_eq!((e3.nrows(), e3.ncols()), (0, 0));
}

#[test]
fn blocks_rows_cols_diagonal() {
    let m = grid(4, 5);
    let v = m.as_ref();
    let s = v.submatrix(1, 2, 2, 3);
    assert_eq!(s.read(0, 0), 12);
    assert_eq!(s.read(1, 2), 24);
    let ss = s.submatrix(1, 1, 1, 2);
    assert_eq!(ss.read(0, 1), v.read(2, 4));
    assert_eq!(v.subrows(2, 2).read(1, 4), 34);
    assert_eq!(v.subcols(3, 2).read(3, 1), 34);
    assert_eq!(v.row(3).read(0, 2), 32);
    assert_eq!(v.col(4).read(1, 0), 14);
    let d = v.diagonal();
    assert_eq!((d.nrows(), d.ncols()), (4, 1));
    for k in 0..4 {
        assert_eq!(d.read(k, 0), v.read(k, k));
    }
}

#[test]
fn conjugation_states() {
    let m = grid(2, 3);
    let v = m.as_ref();
    let (c, state) = v.conjugate().canonicalize();
    assert_eq!(state, Conj::Yes);
    let (_, state2) = c.canonicalize();
    assert_eq!(state2, Conj::No);
    let (_, s3) = v.adjoint().adjoint().canonicalize();
    assert_eq!(s3, Conj::No);
    let a = m.adjoint();
    assert_eq!(a.nrows(), 3);
    assert_eq!(a.read(2, 1), 12);
    let (_, s4) = m.conjugate().canonicalize();
    assert_eq!(s4, Conj::Yes);
}

#[test]
fn mat_write_keeps_other_elements() {
    let mut m = grid(3, 3);
    m.write(1, 2, -5);
    assert_eq!(m.read(1, 2), -5);
    for i in 0..3 {
        for j in 0..3 {
            if (i, j) != (1, 2) {
                assert_eq!(m.read(i, j), (10 * i + j) as i64);
            }
        }
    }
    m.write_unchecked(0, 0, 7);
    assert_eq!(m.read_unchecked(0, 0), 7);
}

#[test]
fn writes_through_a_mutable_view() {
    let mut m = grid(3, 4);
    {
        let mut v = m.as_mut();
        v.write(2, 3, 99);
        assert_eq!(v.read(2, 3), 99);
        let mut t = v.rb_mut().transpose();
        t.write(0, 1, 42);
        *v.rb_mut().get(0, 0) = -1;
        let r = v.into_const();
        assert_eq!(r.read(1, 0), 42);
    }
    assert_eq!(m.read(2, 3), 99);
    assert_eq!(m.read(1, 0), 42);
    assert_eq!(m.read(0, 0), -1);
    {
        let v = m.as_mut().reverse_rows().submatrix(0, 1, 1, 2);
        let mut v = v;
        v.write(0, 1, 1000);
    }
    assert_eq!(m.read(2, 2), 1000);
    {
        let mut d = m.as_mut().diagonal();
        d.write(1, 0, 55);
    }
    assert_eq!(m.read(1, 1), 55);
}

#[test]
fn mutable_view_over_a_slice() {
    let mut data = [1, 2, 3, 4, 5, 6];
    {
        let mut v = MatMut::from_raw_parts(&mut data, 0, 2, 3, 3, 1);
        assert_eq!(v.read(1, 0), 4);
        v.write(1, 2, 60);
        let mut col = v.rb_mut().col(1);
        col.write(0, 0, 20);
        let owned = v.to_owned(|x: i32| -x);
        assert_eq!(owned.read(1, 2), 60);
        assert_eq!(owned.row_capacity(), 2);
        let other = MatMut::from_raw_parts(&mut [1, 20, 3, 4, 5, 60], 0, 2, 3, 3, 1).to_owned(|x: i32| -x);
        assert!(owned.eq(&other));
        let conj = v.rb_mut().conjugate().to_owned(|x: i32| -x);
        assert_eq!(conj.read(1, 2), -60);
        let mut negated = [-1, -20, -3, -4, -5, -60];
        let plain = MatMut::from_raw_parts(&mut negated, 0, 2, 3, 3, 1);
        assert!(v.rb_mut().conjugate().eq(&plain, |x: i32| -x));
        assert!(!v.eq(&plain, |x: i32| -x));
    }
    assert_eq!(data, [1, 20, 3, 4, 5, 60]);
}

#[test]
fn resize_keeps_overlap_and_fills_new() {
    let mut m = Mat::with_capacity(100, 10);
    m.resize_with(2, 3, |i, j| (i * 3 + j) as u32);
    assert_eq!(m.row_capacity(), 100);
    assert_eq!(m.col_capacity(), 10);
    assert_eq!(m.col_stride(), 100);
    assert_eq!(m.row_stride(), 1);
    m.resize_with(4, 2, |_, _| 7);
    assert_eq!((m.nrows(), m.ncols()), (4, 2));
    assert_eq!(m.read(1, 1), 4);
    assert_eq!(m.read(3, 1), 7);
    m.resize_with(4, 12, |_, _| 8);
    assert_eq!(m.col_capacity(), 12);
    assert_eq!(m.read(0, 11), 8);
    assert_eq!(m.read(1, 0), 3);
    m.resize_with(0, 5, |_, _| 9);
    assert_eq!((m.nrows(), m.ncols()), (0, 5));
    m.resize_with(1, 5, |_, j| j as u32);
    assert_eq!(m.read(0, 4), 4);
}

#[test]
fn reserve_keeps_elements() {
    let mut m = grid(2, 3);
    m.reserve_exact(5, 7);
    assert_eq!(m.row_capacity(), 5);
    assert_eq!(m.col_capacity(), 7);
    assert_eq!(m.col_stride(), 5);
    for i in 0..2 {
        for j in 0..3 {
            assert_eq!(m.read(i, j), (10 * i + j) as i64);
        }
    }
    m.reserve_exact(1, 1);
    assert_eq!(m.row_capacity(), 5);
    assert_eq!(m.col_capacity(), 7);
}

#[test]
fn owned_copies_have_exact_capacity() {
    let mut m = grid(3, 2);
    m.reserve_exact(10, 10);
    let c = m.to_owned();
    assert_eq!((c.row_capacity(), c.col_capacity()), (3, 2));
    assert!(c.eq(&m));
    let t = m.transpose().to_owned(|x: i64| x);
    assert_eq!(t.read(1, 2), 21);
    let mut d = c.to_owned();
    d.write(0, 0, 1);
    assert!(!d.eq(&c));
    assert!(!grid(2, 2).eq(&grid(2, 3)));
}

#[test]
fn capacity_bounds() {
    assert!(capacity_ok::<u64>(3, 4, 3, 4));
    assert!(!capacity_ok::<u64>(1, 1, usize::MAX, 2));
    assert!(!capacity_ok::<u64>(1, 1, usize::MAX / 8 + 1, 1));
    assert!(capacity_ok::<()>(1, 1, usize::MAX, usize::MAX));
    assert!(!capacity_ok::<()>(2, 2, usize::MAX, 2));
    assert!(capacity_ok::<()>(3, 2, 5, 2));
    assert!(!capacity_ok::<()>(usize::MAX, 1, 0, 0));
}

#[test]
fn zero_sized_capacity_is_free() {
    let mut m = Mat::<()>::new();
    m.reserve_exact(usize::MAX, 0);
    m.resize_with(1, 1, |_, _| ());
    assert_eq!((m.nrows(), m.ncols()), (1, 1));
    assert_eq!(m.row_capacity(), usize::MAX);
    assert_eq!(m.col_stride(), usize::MAX as isize);
    m.reserve_exact(usize::MAX, usize::MAX);
    assert_eq!(m.col_capacity(), usize::MAX);

    let mut z = Mat::<()>::with_capacity(2, 1);
    z.resize_with(1, 1, |_, _| ());
    assert_eq!(z.col_stride(), 2);
    assert_eq!(z.as_ref().col_stride(), 2);
    z.resize_with(2, 3, |_, _| ());
    assert_eq!((z.nrows(), z.ncols(), z.col_stride()), (2, 3, 2));
}

#[test]
fn blocks_read_their_parents_elements() {
    let data: Vec<u32> = (0..12).collect();
    let v = MatRef::from_raw_parts(&data, 0, 3, 4, 1, 3);
    assert_eq!(v.buffer_len(), 12);
    let [a, b, c, d] = v.split_at(1, 2);
    assert_eq!(*a.get(0, 1), *v.get(0, 1));
    assert_eq!(*b.get(0, 1), *v.get(0, 3));
    assert_eq!(*c.get(1, 0), *v.get(2, 0));
    assert_eq!(*d.get(1, 1), *v.get(2, 3));
    assert_eq!(*v.reverse_rows().get(0, 2), *v.get(2, 2));
    assert_eq!(*v.diagonal().get(2, 0), *v.get(2, 2));
}

#[test]
fn mutable_column_split_writes_reach_the_matrix() {
    let mut m = grid(3, 4);
    {
        let (mut left, mut right) = m.as_mut().split_at_col(1);
        assert_eq!((left.ncols(), right.ncols()), (1, 3));
        assert_eq!(right.read(2, 0), 21);
        left.write(0, 0, -1);
        right.write(1, 2, -13);
    }
    assert_eq!(m.read(0, 0), -1);
    assert_eq!(m.read(1, 3), -13);
    assert_eq!(m.read(2, 1), 21);
}

#[test]
fn mutable_row_split_of_row_major_data() {
    let mut data = [0, 1, 2, 10, 11, 12];
    {
        let v = MatMut::from_raw_parts(&mut data, 0, 2, 3, 3, 1);
        let (mut top, mut bottom) = v.split_at_row(1);
        assert_eq!(bottom.read(0, 2), 12);
        top.write(0, 1, 100);
        bottom.write(0, 0, 200);
    }
    assert_eq!(data, [0, 100, 2, 200, 11, 12]);
}
