//! Dense matrix views and owned column-major matrices.
//!
//! A view ([`MatRef`], [`MatMut`]) reads the elements of a buffer through a
//! [`MatLayout`]: element `(i, j)` sits at `offset + i * row_stride + j * col_stride`.
//! Every view operation (transposition, reversal, blocks, splits, diagonal) is proved
//! to read exactly the elements it claims to read, and [`Mat`] is proved to keep
//! its elements through writes, resizes and reservations.

pub mod conj;
pub mod layout;
pub mod mat;
pub mod mat_mut;
pub mod mat_ref;
pub mod parallel;

pub use conj::Conj;
pub use layout::MatLayout;
pub use mat::{capacity_ok, Mat};
pub use mat_mut::MatMut;
pub use mat_ref::MatRef;
pub use parallel::{
    join_parallelism, join_parallelism_for, par_split_indices, parallelism_degree, parallelism_degree_for,
    round_up_to, Parallelism,
};
