//! A small inference engine: strided tensors, feed-forward layers and the RTW
//! weight format, verified for every element type that offers the arithmetic
//! of [`scalar::Scalar`].

pub mod agreement;
pub mod algebra;
pub mod alike;
pub mod answers;
pub mod determinism;
pub mod graph;
pub mod grid;
pub mod http;
pub mod inference;
pub mod meaning;
pub mod model;
pub mod nn;
pub mod promises;
pub mod random;
pub mod reading;
pub mod reduce;
pub mod rtw;
pub mod rtw_laws;
pub mod scalar;
pub mod shape;
pub mod structure;
pub mod tensor;
pub mod text;
pub mod weights;
pub mod wire;

pub use tensor::Tensor;
