//! Transitive closure of a directed graph, evaluated as a fixpoint over
//! weighted relations.
//!
//! A relation is a finite collection of weighted facts `(from, to, weight)`.
//! The closure is computed by rounds of index, join, union and distinct,
//! either by the scheduler, which splits each round's join over shards, or by
//! the rule evaluator. Both are proved to end, and to end with the same set
//! of pairs: the least transitive relation that holds the edges.

pub mod closure;
pub mod index;
pub mod join;
pub mod loader;
pub mod relation;
pub mod scheduler;
pub mod seminaive;
pub mod shard;
