//! The events exchanged between the engine and its host.

pub use crate::fixed::Action;
