//! 1D Poisson problem solved with linear (P1) finite elements.
//!
//! The verified part of the crate: the sparse matrix structure and the
//! index bookkeeping of finite element assembly, generic over the value type
//! so that the arithmetic on values stays with the caller's number type.
//!
//! * [`sparse`] -- triplet assembly, CSR storage, look-up, matrix-vector
//!   product, submatrices and tridiagonal extraction.
//! * [`fem`] -- scatter-add assembly on a 1D mesh, boundary conditions and
//!   scattering interior values back to the nodes.
//! * [`xorshift`] -- the bit manipulation of a small reproducible generator.
pub mod fem;
pub mod sparse;
pub mod xorshift;
