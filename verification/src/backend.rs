//! Transforms that run on lowered components before they are emitted.
pub mod agen;
