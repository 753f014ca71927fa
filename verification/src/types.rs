//! Plain data types of the graph.

use vstd::prelude::*;

verus! {

/// Identifier of a node (the "static id" of a message source).
pub type MessageSourceId = u64;

/// Permission attached to a connection.
#[derive(Clone, Copy, PartialEq, Eq, Structural, Debug, Hash, PartialOrd, Ord)]
pub struct Permission {
    /// permission type
    pub data: u16,
}

/// A directed edge of the adjacency-list graph.
#[derive(Clone, Copy, PartialEq, Eq, Structural, Debug, PartialOrd)]
pub struct Edge {
    /// target node id
    pub static_id: MessageSourceId,
    /// connection permission
    pub permission: Permission,
}

impl Edge {
    /// Total order on edges used by the adjacency lists: edges are ordered by
    /// their target id alone, whatever their permission.
    pub fn cmp(&self, other: &Self) -> (result: std::cmp::Ordering)
        ensures
            (result == std::cmp::Ordering::Less) <==> self.static_id < other.static_id,
            (result == std::cmp::Ordering::Equal) <==> self.static_id == other.static_id,
            (result == std::cmp::Ordering::Greater) <==> self.static_id > other.static_id,
    {
        if self.static_id < other.static_id {
            std::cmp::Ordering::Less
        } else if self.static_id == other.static_id {
            std::cmp::Ordering::Equal
        } else {
            std::cmp::Ordering::Greater
        }
    }
}

/// A graph node. A node carries no data of its own: its existence is what
/// the graph records, and its child tree is found by its static id.
#[derive(Clone, Copy, PartialEq, Eq, Structural, Debug)]
pub struct Node {}

/// Key of a graph page.
#[derive(Clone, Copy, PartialEq, Eq, Structural, Debug, Hash, PartialOrd, Ord)]
pub struct GraphKey {
    /// permission type
    pub permission: Permission,
    /// page number
    pub page: u16,
}

/// Kind of graph.
#[derive(Clone, Copy, PartialEq, Eq, Structural, Debug)]
pub enum GraphType {
    /// public graph
    Public,
    /// private graph
    Private,
}

} // verus!
