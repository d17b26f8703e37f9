//! A framework for rules that find structural patterns in a parsed source
//! file and mend them: an immutable syntax tree that keeps every byte of the
//! source, a query engine, mutation batches, and the protocol that a rule
//! follows, with one rule as an instance.
pub mod analyze;
pub mod batch;
pub mod batch_laws;
pub mod cursor;
pub mod edits;
pub mod equal;
pub mod kinds;
pub mod model;
pub mod navigate;
pub mod query;
pub mod range;
pub mod rule;
pub mod tree;
pub mod useless_constraint;
