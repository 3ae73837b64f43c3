//! Induction proving support for term rewriting over e-graphs: expressions,
//! patterns, well-founded-order rules, and the appliers used by the rules.

pub mod text;
pub mod expr;
pub mod lang;
pub mod pattern;
pub mod prover;
pub mod permute;
pub mod egraph;
pub mod appliers;
pub mod rules;
pub mod wfo;
pub mod generalize;
pub mod laws;
