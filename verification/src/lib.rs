//! A reactive scope graph: an arena of scopes connected by `Inherits` and
//! `ProvidesAttribute` edges. Variable lookups resolve upward through the
//! inheritance chain, derived attribute bindings are recomputed when the
//! variables they reference change, and listeners registered on a scope are
//! told which of their variables changed, with a snapshot of the values they
//! need. The graph never runs listener callbacks itself: it hands back opaque
//! listener handles together with the environments to invoke them with, and
//! the host performs the side effects.

pub mod expr;
pub mod graph;
pub mod laws;
pub mod names;
pub mod numtext;
