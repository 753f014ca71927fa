//! The abstract state of the graph pallet and the transition that each call
//! makes on it: what every dispatchable returns and how it changes the state.

use vstd::prelude::*;
use crate::types::{Edge, MessageSourceId, Node, Permission};
use crate::edges::{has_target, insert_sorted, remove_target};
use crate::encoding::le_bytes;

verus! {

/// Limits that the runtime configures.
#[derive(Clone, Copy, PartialEq, Eq, Structural, Debug)]
pub struct Config {
    /// The largest number of nodes the runtime intends to hold.
    pub max_nodes: u32,
    /// The largest number of edges in one adjacency list.
    pub max_follows: u32,
}

/// Errors of the pallet.
#[derive(Clone, Copy, PartialEq, Eq, Structural, Debug)]
pub enum Error {
    ActionNotPermitted,
    SigningFailed,
    SignatureInvalid,
    NoSuchNode,
    NoSuchEdge,
    NoSuchStaticId,
    NodeExists,
    EdgeExists,
    EdgeExistsInPublicGraph,
    InvalidEdge,
    TooManyNodes,
    TooManyEdges,
    InvalidSecret,
    SelfFollowNotPermitted,
}

/// Why a call was refused: its origin was not a signed account, or the
/// pallet raised one of its errors.
#[derive(Clone, Copy, PartialEq, Eq, Structural, Debug)]
pub enum DispatchError {
    BadOrigin,
    Module(Error),
}

/// Who makes a call.
#[derive(Clone, PartialEq, Eq, Debug)]
pub enum Origin<A> {
    /// A signed account.
    Signed(A),
    /// The root of the runtime.
    Root,
    /// No one.
    Unsigned,
}

/// What the pallet reports.
#[derive(Clone, PartialEq, Eq, Debug)]
pub enum Event<A> {
    /// A new static id was registered: [who, static id].
    NodeAdded(A, MessageSourceId),
    /// A follow was added: [who, from, to].
    Followed(A, MessageSourceId, MessageSourceId),
    /// A follow was removed: [who, from, to].
    Unfollowed(A, MessageSourceId, MessageSourceId),
}

/// The abstract state of the pallet.
pub struct PalletState<A> {
    pub config: Config,
    /// Number of nodes in existence.
    pub node_count: u64,
    /// Number of edges in existence.
    pub edge_count: u64,
    /// The registered nodes.
    pub nodes: Map<MessageSourceId, Node>,
    /// Adjacency lists; a node without an entry follows no one.
    pub graph: Map<MessageSourceId, Seq<Edge>>,
    /// Edges of the double-map graph.
    pub graph2: Map<(MessageSourceId, MessageSourceId), Permission>,
    /// Child trees; a node without an entry has an empty tree.
    pub trees: Map<MessageSourceId, Map<Seq<u8>, Seq<u8>>>,
    /// Events deposited so far, oldest first.
    pub events: Seq<Event<A>>,
}

/// The key under which a child tree stores a connection to `id`: the
/// encoding of `id`.
pub open spec fn storage_key(id: MessageSourceId) -> Seq<u8> {
    le_bytes(id as nat, 8)
}

/// The encoding of a permission.
pub open spec fn permission_bytes(p: Permission) -> Seq<u8> {
    le_bytes(p.data as nat, 2)
}

/// The account that signed the call, if any.
pub open spec fn signer<A>(origin: Origin<A>) -> Option<A> {
    match origin {
        Origin::Signed(a) => Some(a),
        _ => None,
    }
}

impl<A> PalletState<A> {
    /// The adjacency list of `id` (empty when it has none).
    pub open spec fn following(self, id: MessageSourceId) -> Seq<Edge> {
        if self.graph.contains_key(id) {
            self.graph[id]
        } else {
            Seq::empty()
        }
    }

    /// The child tree of `id` (empty when it has none).
    pub open spec fn tree(self, id: MessageSourceId) -> Map<Seq<u8>, Seq<u8>> {
        if self.trees.contains_key(id) {
            self.trees[id]
        } else {
            Map::empty()
        }
    }

    pub open spec fn is_node(self, id: MessageSourceId) -> bool {
        self.nodes.contains_key(id)
    }

    /// The state after a refused call: unchanged.
    pub open spec fn refuse(self, e: DispatchError) -> (Self, Result<(), DispatchError>) {
        (self, Err(e))
    }

    // ---- add_node ----

    pub open spec fn add_node_check(self, static_id: MessageSourceId) -> Result<(), Error> {
        if self.is_node(static_id) {
            Err(Error::NodeExists)
        } else if self.node_count == u64::MAX {
            Err(Error::TooManyNodes)
        } else {
            Ok(())
        }
    }

    pub open spec fn add_node(self, origin: Origin<A>, static_id: MessageSourceId) -> (
        Self,
        Result<(), DispatchError>,
    ) {
        match signer(origin) {
            None => self.refuse(DispatchError::BadOrigin),
            Some(who) => match self.add_node_check(static_id) {
                Err(e) => self.refuse(DispatchError::Module(e)),
                Ok(()) => (
                    PalletState {
                        nodes: self.nodes.insert(static_id, Node {  }),
                        node_count: (self.node_count + 1) as u64,
                        events: self.events.push(Event::NodeAdded(who, static_id)),
                        ..self
                    },
                    Ok(()),
                ),
            },
        }
    }

    // ---- follow / unfollow (adjacency lists) ----

    /// The checks shared by the three ways to follow, up to the lookup of
    /// the edge itself.
    pub open spec fn endpoints_check(self, from: MessageSourceId, to: MessageSourceId) -> Result<
        (),
        Error,
    > {
        if from == to {
            Err(Error::SelfFollowNotPermitted)
        } else if !self.is_node(from) {
            Err(Error::NoSuchNode)
        } else if !self.is_node(to) {
            Err(Error::NoSuchNode)
        } else {
            Ok(())
        }
    }

    pub open spec fn follow_check(self, from: MessageSourceId, to: MessageSourceId) -> Result<
        (),
        Error,
    > {
        match self.endpoints_check(from, to) {
            Err(e) => Err(e),
            Ok(()) => if has_target(self.following(from), to) {
                Err(Error::EdgeExists)
            } else if self.following(from).len() >= self.config.max_follows {
                Err(Error::TooManyEdges)
            } else {
                Ok(())
            },
        }
    }

    pub open spec fn follow(self, origin: Origin<A>, from: MessageSourceId, to: MessageSourceId) -> (
        Self,
        Result<(), DispatchError>,
    ) {
        match signer(origin) {
            None => self.refuse(DispatchError::BadOrigin),
            Some(who) => match self.follow_check(from, to) {
                Err(e) => self.refuse(DispatchError::Module(e)),
                Ok(()) => (
                    PalletState {
                        graph: self.graph.insert(
                            from,
                            insert_sorted(
                                self.following(from),
                                Edge { static_id: to, permission: Permission { data: 0 } },
                            ),
                        ),
                        edge_count: (self.edge_count + 1) as u64,
                        events: self.events.push(Event::Followed(who, from, to)),
                        ..self
                    },
                    Ok(()),
                ),
            },
        }
    }

    pub open spec fn unfollow_check(self, from: MessageSourceId, to: MessageSourceId) -> Result<
        (),
        Error,
    > {
        match self.endpoints_check(from, to) {
            Err(e) => Err(e),
            Ok(()) => if self.edge_count == 0 {
                Err(Error::NoSuchEdge)
            } else if !has_target(self.following(from), to) {
                Err(Error::NoSuchEdge)
            } else {
                Ok(())
            },
        }
    }

    pub open spec fn unfollow(self, origin: Origin<A>, from: MessageSourceId, to: MessageSourceId) -> (
        Self,
        Result<(), DispatchError>,
    ) {
        match signer(origin) {
            None => self.refuse(DispatchError::BadOrigin),
            Some(who) => match self.unfollow_check(from, to) {
                Err(e) => self.refuse(DispatchError::Module(e)),
                Ok(()) => (
                    PalletState {
                        graph: self.graph.insert(from, remove_target(self.following(from), to)),
                        edge_count: (self.edge_count - 1) as u64,
                        events: self.events.push(Event::Unfollowed(who, from, to)),
                        ..self
                    },
                    Ok(()),
                ),
            },
        }
    }

    // ---- follow2 / unfollow2 (double map) ----

    pub open spec fn follow2_check(self, from: MessageSourceId, to: MessageSourceId) -> Result<
        (),
        Error,
    > {
        match self.endpoints_check(from, to) {
            Err(e) => Err(e),
            Ok(()) => if self.graph2.contains_key((from, to)) {
                Err(Error::EdgeExists)
            } else {
                Ok(())
            },
        }
    }

    pub open spec fn follow2(self, origin: Origin<A>, from: MessageSourceId, to: MessageSourceId) -> (
        Self,
        Result<(), DispatchError>,
    ) {
        match signer(origin) {
            None => self.refuse(DispatchError::BadOrigin),
            Some(who) => match self.follow2_check(from, to) {
                Err(e) => self.refuse(DispatchError::Module(e)),
                Ok(()) => (
                    PalletState {
                        graph2: self.graph2.insert((from, to), Permission { data: 0 }),
                        edge_count: (self.edge_count + 1) as u64,
                        events: self.events.push(Event::Followed(who, from, to)),
                        ..self
                    },
                    Ok(()),
                ),
            },
        }
    }

    pub open spec fn unfollow2_check(self, from: MessageSourceId, to: MessageSourceId) -> Result<
        (),
        Error,
    > {
        if from == to {
            Err(Error::SelfFollowNotPermitted)
        } else if !self.graph2.contains_key((from, to)) {
            Err(Error::NoSuchEdge)
        } else if self.edge_count == 0 {
            Err(Error::NoSuchEdge)
        } else {
            Ok(())
        }
    }

    pub open spec fn unfollow2(self, origin: Origin<A>, from: MessageSourceId, to: MessageSourceId) -> (
        Self,
        Result<(), DispatchError>,
    ) {
        match signer(origin) {
            None => self.refuse(DispatchError::BadOrigin),
            Some(who) => match self.unfollow2_check(from, to) {
                Err(e) => self.refuse(DispatchError::Module(e)),
                Ok(()) => (
                    PalletState {
                        graph2: self.graph2.remove((from, to)),
                        edge_count: (self.edge_count - 1) as u64,
                        events: self.events.push(Event::Unfollowed(who, from, to)),
                        ..self
                    },
                    Ok(()),
                ),
            },
        }
    }

    // ---- follow3 / unfollow3 (child trees) ----

    pub open spec fn follow3_check(self, from: MessageSourceId, to: MessageSourceId) -> Result<
        (),
        Error,
    > {
        match self.endpoints_check(from, to) {
            Err(e) => Err(e),
            Ok(()) => if self.tree(from).contains_key(storage_key(to)) {
                Err(Error::EdgeExists)
            } else {
                Ok(())
            },
        }
    }

    pub open spec fn follow3(self, origin: Origin<A>, from: MessageSourceId, to: MessageSourceId) -> (
        Self,
        Result<(), DispatchError>,
    ) {
        match signer(origin) {
            None => self.refuse(DispatchError::BadOrigin),
            Some(who) => match self.follow3_check(from, to) {
                Err(e) => self.refuse(DispatchError::Module(e)),
                Ok(()) => (
                    PalletState {
                        trees: self.trees.insert(
                            from,
                            self.tree(from).insert(
                                storage_key(to),
                                permission_bytes(Permission { data: 1 }),
                            ),
                        ),
                        edge_count: (self.edge_count + 1) as u64,
                        events: self.events.push(Event::Followed(who, from, to)),
                        ..self
                    },
                    Ok(()),
                ),
            },
        }
    }

    pub open spec fn unfollow3_check(self, from: MessageSourceId, to: MessageSourceId) -> Result<
        (),
        Error,
    > {
        if from == to {
            Err(Error::SelfFollowNotPermitted)
        } else if !self.is_node(from) {
            Err(Error::NoSuchNode)
        } else if !self.tree(from).contains_key(storage_key(to)) {
            Err(Error::NoSuchEdge)
        } else {
            Ok(())
        }
    }

    pub open spec fn unfollow3(self, origin: Origin<A>, from: MessageSourceId, to: MessageSourceId) -> (
        Self,
        Result<(), DispatchError>,
    ) {
        match signer(origin) {
            None => self.refuse(DispatchError::BadOrigin),
            Some(who) => match self.unfollow3_check(from, to) {
                Err(e) => self.refuse(DispatchError::Module(e)),
                Ok(()) => (
                    PalletState {
                        trees: self.trees.insert(from, self.tree(from).remove(storage_key(to))),
                        edge_count: if self.edge_count > 0 {
                            (self.edge_count - 1) as u64
                        } else {
                            0
                        },
                        events: self.events.push(Event::Unfollowed(who, from, to)),
                        ..self
                    },
                    Ok(()),
                ),
            },
        }
    }
}

} // verus!
