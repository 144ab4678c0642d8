//! An in-memory, path-addressed hierarchical data store.
//!
//! The store is a tree of named slots: each slot holds either a scalar value
//! or a nested sub-tree, and carries listener bookkeeping so that a mutation
//! can decide in time proportional to the written path's depth which
//! registered listeners must be notified.  Every node keeps an incrementally
//! maintained serialized byte footprint, and every node caches the number of
//! listeners registered anywhere below it; both caches are proved to agree
//! with the tree's actual content at every externally observable point.

pub mod command;
pub mod database;
pub mod event;
pub mod field;
pub mod laws;
pub mod model;
pub mod table;
pub mod value;
