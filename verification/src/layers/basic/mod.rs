pub mod dropout;
pub mod embedding;
pub mod linear;
pub mod plain;

pub use crate::layers::basic::dropout::Dropout;
pub use crate::layers::basic::embedding::Embedding;
pub use crate::layers::basic::linear::Linear;
