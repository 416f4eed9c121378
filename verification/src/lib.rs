//! A verified execution engine for a minimal tape-based instruction
//! language: eight single-character operations over a growable byte tape,
//! with loops resolved lazily through a jump stack.
//!
//! `semantics` holds the mathematical model: a machine state, a small-step
//! transition function, and a fuel-indexed run function. `machine` holds the
//! executable engine, verified against that model. `laws` states and proves
//! the general properties of the language.

pub mod semantics;
pub mod machine;
pub mod laws;
