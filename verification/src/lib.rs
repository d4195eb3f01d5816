//! An in-memory, temporally versioned entity store: entities grouped by
//! model name carry named attributes whose values are tracked across epochs,
//! with point-in-time reads driven by shared epoch cursors, dual-keyed
//! identity indexing with deduplication, and a composable filter evaluator.

pub mod entity;
pub mod entity_store;
pub mod errors;
pub mod expression;
