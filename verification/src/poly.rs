//! Multilinear and univariate polynomials over the scalar field.
pub mod bytes;
pub mod degree;
pub mod dense;
pub mod fix;
pub mod integer;
pub mod mlpoly;
pub mod sparse;
pub mod univariate;
