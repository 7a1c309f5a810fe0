//! Numeric building blocks for bounded, level-driven progression.
//!
//! The core is a textual-formula engine: a verified recursive-descent parser
//! that turns a fully parenthesized arithmetic grammar into an immutable
//! expression tree, and a serializer that renders a tree back to canonical
//! text.  Around it stand a clamp-or-wrap bound primitive, a bounded progress
//! accumulator, and a growth-curve composition that drives the accumulator's
//! ceiling from an evaluation.

pub mod bound;
pub mod evaluate;
pub mod growth;
pub mod progress;
