//! Reading of Matrix Market (`.mtx`) text into dense or sparse matrices.
pub mod laws;
pub mod matrix;
pub mod parse;
pub mod scalar;
pub mod text;

pub use matrix::{MtxData, MtxDataView, MtxError, MtxErrorView, SymInfo};
pub use scalar::Scalar;
