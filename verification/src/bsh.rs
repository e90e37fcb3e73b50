//! The hierarchy under its shorter name.
pub mod iter;

pub use crate::bsh::iter::{BSHNode, BSHTraverseIterator, BSH};
