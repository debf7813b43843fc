use faer_core::{Mat, MatRef};
use num_complex::Complex;
use num_complex::Complex as C;

#[derive(Debug, PartialEq, Clone, Copy)]
struct ZST;

/// The conjugate of a real number: the number itself.
fn conj_r<T>(x: T) -> T {
    x
}

/// The conjugate of a complex number of `f32`s.
fn conj_c32(z: Complex<f32>) -> Complex<f32> {
    z.conj()
}

/// The conjugate of a complex number of `f64`s.
fn conj_c64(z: Complex<f64>) -> Complex<f64> {
    z.conj()
}

#[test]
fn basic_slice() {
    let data = [1.0, 2.0, 3.0, 4.0, 5.0, 6.0];
    let slice = MatRef::<'_, f64>::from_raw_parts(&data, 0, 2, 3, 3, 1);

    assert!(slice.get(0, 0) == &1.0);
    assert!(slice.get(0, 1) == &2.0);
    assert!(slice.get(0, 2) == &3.0);

    assert!(slice.get(1, 0) == &4.0);
    assert!(slice.get(1, 1) == &5.0);
    assert!(slice.get(1, 2) == &6.0);
}

#[test]
fn empty() {
    {
        let m = Mat::<f64>::new();
        assert!(m.nrows() == 0);
        assert!(m.ncols() == 0);
        assert!(m.row_capacity() == 0);
        assert!(m.col_capacity() == 0);
    }

    {
        let m = Mat::<f64>::with_capacity(100, 120);
        assert!(m.nrows() == 0);
        assert!(m.ncols() == 0);
        assert!(m.row_capacity() == 100);
        assert!(m.col_capacity() == 120);
    }
}

#[test]
fn reserve() {
    let mut m = Mat::<f64>::new();

    m.reserve_exact(0, 0);
    assert!(m.row_capacity() == 0);
    assert!(m.col_capacity() == 0);

    m.reserve_exact(1, 1);
    assert!(m.row_capacity() >= 1);
    assert!(m.col_capacity() == 1);

    m.reserve_exact(2, 0);
    assert!(m.row_capacity() >= 2);
    assert!(m.col_capacity() == 1);

    m.reserve_exact(2, 3);
    assert!(m.row_capacity() >= 2);
    assert!(m.col_capacity() == 3);
}

#[test]
fn reserve_zst() {
    let mut m = Mat::<ZST>::new();

    m.reserve_exact(0, 0);
    assert!(m.row_capacity() == 0);
    assert!(m.col_capacity() == 0);

    m.reserve_exact(1, 1);
    assert!(m.row_capacity() == 1);
    assert!(m.col_capacity() == 1);

    m.reserve_exact(2, 0);
    assert!(m.row_capacity() == 2);
    assert!(m.col_capacity() == 1);

    m.reserve_exact(2, 3);
    assert!(m.row_capacity() == 2);
    assert!(m.col_capacity() == 3);

    m.reserve_exact(usize::MAX, usize::MAX);
}

#[test]
fn resize() {
    let mut m = Mat::new();
    let f = |i: usize, j: usize| i as f64 - j as f64;
    m.resize_with(2, 3, f);
    assert!(m.read(0, 0) == 0.0);
    assert!(m.read(0, 1) == -1.0);
    assert!(m.read(0, 2) == -2.0);
    assert!(m.read(1, 0) == 1.0);
    assert!(m.read(1, 1) == 0.0);
    assert!(m.read(1, 2) == -1.0);

    m.resize_with(1, 2, f);
    assert!(m.read(0, 0) == 0.0);
    assert!(m.read(0, 1) == -1.0);

    m.resize_with(2, 1, f);
    assert!(m.read(0, 0) == 0.0);
    assert!(m.read(1, 0) == 1.0);

    m.resize_with(1, 2, f);
    assert!(m.read(0, 0) == 0.0);
    assert!(m.read(0, 1) == -1.0);
}

#[test]
fn resize_zst() {
    let mut m = Mat::new();
    let f = |_i: usize, _j: usize| ZST;
    m.resize_with(2, 3, f);
    m.resize_with(1, 2, f);
    m.resize_with(2, 1, f);
    m.resize_with(1, 2, f);
}

/// The matrix whose rows are the given arrays.
fn from_rows<T: Copy, const R: usize, const C: usize>(rows: [[T; C]; R]) -> Mat<T> {
    Mat::with_dims(R, C, |i, j| rows[i][j])
}

#[test]
fn matrix_macro() {
    let x = from_rows([[1.0, 2.0, 3.0], [4.0, 5.0, 6.0], [7.0, 8.0, 9.0]]);

    assert!(x.read(0, 0) == 1.0);
    assert!(x.read(0, 1) == 2.0);
    assert!(x.read(0, 2) == 3.0);

    assert!(x.read(1, 0) == 4.0);
    assert!(x.read(1, 1) == 5.0);
    assert!(x.read(1, 2) == 6.0);

    assert!(x.read(2, 0) == 7.0);
    assert!(x.read(2, 1) == 8.0);
    assert!(x.read(2, 2) == 9.0);
}

#[test]
fn matrix_macro_cplx() {
    let new = Complex::new;
    let mut x = from_rows([
        [new(1.0, 2.0), new(3.0, 4.0), new(5.0, 6.0)],
        [new(7.0, 8.0), new(9.0, 10.0), new(11.0, 12.0)],
        [new(13.0, 14.0), new(15.0, 16.0), new(17.0, 18.0)],
    ]);

    assert!(x.read(0, 0) == Complex::new(1.0, 2.0));
    assert!(x.read(0, 1) == Complex::new(3.0, 4.0));
    assert!(x.read(0, 2) == Complex::new(5.0, 6.0));

    assert!(x.read(1, 0) == Complex::new(7.0, 8.0));
    assert!(x.read(1, 1) == Complex::new(9.0, 10.0));
    assert!(x.read(1, 2) == Complex::new(11.0, 12.0));

    assert!(x.read(2, 0) == Complex::new(13.0, 14.0));
    assert!(x.read(2, 1) == Complex::new(15.0, 16.0));
    assert!(x.read(2, 2) == Complex::new(17.0, 18.0));

    x.write(1, 0, Complex::new(3.0, 2.0));
    assert!(x.read(1, 0) == Complex::new(3.0, 2.0));
}

#[test]
fn matrix_macro_native_cplx() {
    let new = Complex::new;
    let mut x = from_rows([
        [new(1.0, 2.0), new(3.0, 4.0), new(5.0, 6.0)],
        [new(7.0, 8.0), new(9.0, 10.0), new(11.0, 12.0)],
        [new(13.0, 14.0), new(15.0, 16.0), new(17.0, 18.0)],
    ]);

    assert!(x.read(0, 0) == Complex::new(1.0, 2.0));
    assert!(x.read(0, 1) == Complex::new(3.0, 4.0));
    assert!(x.read(0, 2) == Complex::new(5.0, 6.0));

    assert!(x.read(1, 0) == Complex::new(7.0, 8.0));
    assert!(x.read(1, 1) == Complex::new(9.0, 10.0));
    assert!(x.read(1, 2) == Complex::new(11.0, 12.0));

    assert!(x.read(2, 0) == Complex::new(13.0, 14.0));
    assert!(x.read(2, 1) == Complex::new(15.0, 16.0));
    assert!(x.read(2, 2) == Complex::new(17.0, 18.0));

    x.write(1, 0, Complex::new(3.0, 2.0));
    assert!(x.read(1, 0) == Complex::new(3.0, 2.0));
}

#[test]
fn to_owned_equality() {
    let mut mf32: Mat<f32> = from_rows([[1., 2., 3.], [4., 5., 6.], [7., 8., 9.]]);
    let mut mf64: Mat<f64> = from_rows([[1., 2., 3.], [4., 5., 6.], [7., 8., 9.]]);
    let mut mf32c: Mat<Complex<f32>> = from_rows([
        [C::new(1., 1.), C::new(2., 2.), C::new(3., 3.)],
        [C::new(4., 4.), C::new(5., 5.), C::new(6., 6.)],
        [C::new(7., 7.), C::new(8., 8.), C::new(9., 9.)],
    ]);
    let mut mf64c: Mat<Complex<f64>> = from_rows([
        [C::new(1., 1.), C::new(2., 2.), C::new(3., 3.)],
        [C::new(4., 4.), C::new(5., 5.), C::new(6., 6.)],
        [C::new(7., 7.), C::new(8., 8.), C::new(9., 9.)],
    ]);

    assert!(mf32.transpose().to_owned(conj_r).as_ref().eq(&mf32.transpose(), conj_r));
    assert!(mf64.transpose().to_owned(conj_r).as_ref().eq(&mf64.transpose(), conj_r));
    assert!(mf32c.transpose().to_owned(conj_c32).as_ref().eq(&mf32c.transpose(), conj_c32));
    assert!(mf64c.transpose().to_owned(conj_c64).as_ref().eq(&mf64c.transpose(), conj_c64));

    assert!(mf32.as_mut().transpose().to_owned(conj_r).as_ref().eq(&mf32.transpose(), conj_r));
    assert!(mf64.as_mut().transpose().to_owned(conj_r).as_ref().eq(&mf64.transpose(), conj_r));
    assert!(mf32c.as_mut().transpose().to_owned(conj_c32).as_ref().eq(&mf32c.transpose(), conj_c32));
    assert!(mf64c.as_mut().transpose().to_owned(conj_c64).as_ref().eq(&mf64c.transpose(), conj_c64));
}

#[test]
fn conj_to_owned_equality() {
    let mut mf32: Mat<f32> = from_rows([[1., 2., 3.], [4., 5., 6.], [7., 8., 9.]]);
    let mut mf64: Mat<f64> = from_rows([[1., 2., 3.], [4., 5., 6.], [7., 8., 9.]]);
    let mut mf32c: Mat<Complex<f32>> = from_rows([
        [C::new(1., 1.), C::new(2., 2.), C::new(3., 3.)],
        [C::new(4., 4.), C::new(5., 5.), C::new(6., 6.)],
        [C::new(7., 7.), C::new(8., 8.), C::new(9., 9.)],
    ]);
    let mut mf64c: Mat<Complex<f64>> = from_rows([
        [C::new(1., 1.), C::new(2., 2.), C::new(3., 3.)],
        [C::new(4., 4.), C::new(5., 5.), C::new(6., 6.)],
        [C::new(7., 7.), C::new(8., 8.), C::new(9., 9.)],
    ]);

    assert!(mf32.as_ref().adjoint().to_owned(conj_r).as_ref().eq(&mf32.adjoint(), conj_r));
    assert!(mf64.as_ref().adjoint().to_owned(conj_r).as_ref().eq(&mf64.adjoint(), conj_r));
    assert!(mf32c.as_ref().adjoint().to_owned(conj_c32).as_ref().eq(&mf32c.adjoint(), conj_c32));
    assert!(mf64c.as_ref().adjoint().to_owned(conj_c64).as_ref().eq(&mf64c.adjoint(), conj_c64));

    assert!(mf32.as_mut().adjoint().to_owned(conj_r).as_ref().eq(&mf32.adjoint(), conj_r));
    assert!(mf64.as_mut().adjoint().to_owned(conj_r).as_ref().eq(&mf64.adjoint(), conj_r));
    assert!(mf32c.as_mut().adjoint().to_owned(conj_c32).as_ref().eq(&mf32c.adjoint(), conj_c32));
    assert!(mf64c.as_mut().adjoint().to_owned(conj_c64).as_ref().eq(&mf64c.adjoint(), conj_c64));

    let o = mf32c.as_ref().adjoint().to_owned(conj_c32);
    assert!(o.read(0, 1) == C::new(4., -4.));
    assert!(o.read(2, 2) == C::new(9., -9.));
    assert!(!o.as_ref().eq(&mf32c.transpose(), conj_c32));
    assert!(!mf32c.as_ref().eq(&mf32c.conjugate(), conj_c32));
}
