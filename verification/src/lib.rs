//! Derivation of per-species lipid tail topology from a compact textual
//! notation, relative to a per-lipid atom selection.

pub mod membrane;
pub mod notation;
pub mod selection;
