//! Set reconciliation for a sharded, content-addressed store.
//!
//! Two peers that hold overlapping arcs of a circular address space find out
//! which operations the other one lacks by comparing aggregates of
//! rectangular regions of the (space, time) grid, and exchange only the
//! operations of the regions whose aggregates differ.

pub mod agent;
pub mod aggregate;
pub mod arq;
pub mod capability;
pub mod conductor;
pub mod convergence;
pub mod coords;
pub mod fenwick;
pub mod hash;
pub mod host;
pub mod node;
pub mod op;
pub mod op_store;
pub mod region;
pub mod round;
pub mod segment;
pub mod time;
pub mod tree;
