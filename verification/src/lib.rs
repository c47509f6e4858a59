//! Bidirectional type inference for a higher-rank, predicative polymorphic
//! lambda calculus, in the style of Dunfield and Krishnaswami's algorithmic
//! system: an ordered typing context with existential variables, mutually
//! recursive `infer` / `check` / application inference, and a subtyping and
//! instantiation engine.

pub mod ast;
pub mod ctx;
pub mod laws;
pub mod typeck;
