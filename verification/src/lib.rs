//! A social graph: nodes identified by static ids, and three interchangeable
//! edge stores (a sorted adjacency list per node, a double map keyed by node
//! pairs, and a byte-keyed child tree per node), together with the decisions
//! that the storage benchmarks make.
//!
//! `state` says, as a transition on an abstract state, what each call of the
//! graph does; `pallet` implements the calls and proves them against it;
//! `laws` proves properties that span several calls.

pub mod types;
pub mod encoding;
pub mod storage_key;
pub mod edges;
pub mod child_tree;
pub mod state;
pub mod pallet;
pub mod genesis;
pub mod outliers;
pub mod sampling;
pub mod transactions;
pub mod random;
pub mod laws;
