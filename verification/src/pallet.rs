//! The graph pallet: its storage and its calls.

use vstd::prelude::*;
use std::collections::BTreeMap;
use crate::types::{Edge, MessageSourceId, Node, Permission};
use crate::edges::{sorted_edges, search_edges, insert_edge, remove_edge, targets};
use crate::storage_key::{StorageKey, key_bytes, to_storage_key, storage_key_bytes};
use crate::child_tree::{ChildTree, ordered_keys, byte_views, keys_sorted, lemma_sorted_unique};
use crate::encoding::{
    le_value, scale_encode_u64, scale_encode_u16, decode_le_key, lemma_le_value_bound,
    lemma_le_bytes_of_le_value, lemma_u64_round_trip,
};
use vstd::arithmetic::power2::{lemma2_to64, lemma2_to64_rest};
use crate::state::{
    Config, DispatchError, Error, Event, Origin, PalletState, signer, storage_key,
    permission_bytes,
};

verus! {

impl<A> PalletState<A> {
    /// What every reachable state satisfies: adjacency lists are sorted by
    /// target, hold no target twice and respect the configured bound, and
    /// every child tree holds finitely many keys, each of eight bytes.
    pub open spec fn inv(self) -> bool {
        &&& forall|id: MessageSourceId| #[trigger]
            self.graph.contains_key(id) ==> {
                &&& sorted_edges(self.graph[id])
                &&& self.graph[id].len() <= self.config.max_follows
            }
        &&& forall|id: MessageSourceId, k: Seq<u8>| #[trigger]
            self.trees.contains_key(id) && #[trigger] self.trees[id].contains_key(k) ==> k.len() == 8
        &&& forall|id: MessageSourceId| #[trigger]
            self.trees.contains_key(id) ==> self.trees[id].dom().finite()
    }
}

/// The pallet's storage.
pub struct Pallet<A> {
    config: Config,
    node_count: u64,
    edge_count: u64,
    nodes: BTreeMap<MessageSourceId, Node>,
    graph: BTreeMap<MessageSourceId, Vec<Edge>>,
    graph2: BTreeMap<(MessageSourceId, MessageSourceId), Permission>,
    trees: BTreeMap<MessageSourceId, ChildTree>,
    events: Vec<Event<A>>,
}

impl<A> View for Pallet<A> {
    type V = PalletState<A>;

    closed spec fn view(&self) -> PalletState<A> {
        PalletState {
            config: self.config,
            node_count: self.node_count,
            edge_count: self.edge_count,
            nodes: self.nodes@,
            graph: self.graph@.map_values(|v: Vec<Edge>| v@),
            graph2: self.graph2@,
            trees: self.trees@.map_values(|t: ChildTree| t@),
            events: self.events@,
        }
    }
}

/// The signer of a call, or `BadOrigin`.
pub fn ensure_signed<A>(origin: Origin<A>) -> (r: Result<A, DispatchError>)
    ensures
        r == match signer(origin) {
            Some(a) => Ok(a),
            None => Err::<A, DispatchError>(DispatchError::BadOrigin),
        },
{
    match origin {
        Origin::Signed(a) => Ok(a),
        _ => Err(DispatchError::BadOrigin),
    }
}

impl<A> Pallet<A> {
    /// Storage is consistent with its abstract state, and that state keeps
    /// its invariant.
    #[verifier::type_invariant]
    pub closed spec fn wf(&self) -> bool {
        &&& forall|id: MessageSourceId| #[trigger]
            self.graph@.contains_key(id) ==> {
                &&& sorted_edges(self.graph@[id]@)
                &&& self.graph@[id].len() <= self.config.max_follows
            }
        &&& forall|id: MessageSourceId| #[trigger]
            self.trees@.contains_key(id) ==> {
                &&& self.trees@[id].wf()
                &&& self.trees@[id]@.dom().finite()
                &&& forall|k: Seq<u8>| #[trigger] self.trees@[id]@.contains_key(k) ==> k.len() == 8
            }
    }

    /// Empty storage.
    pub fn new(config: Config) -> (p: Self)
        ensures
            p@.inv(),
            p@.config == config,
            p@.node_count == 0,
            p@.edge_count == 0,
            p@.nodes == Map::<MessageSourceId, Node>::empty(),
            p@.graph == Map::<MessageSourceId, Seq<Edge>>::empty(),
            p@.graph2 == Map::<(MessageSourceId, MessageSourceId), Permission>::empty(),
            p@.trees == Map::<MessageSourceId, Map<Seq<u8>, Seq<u8>>>::empty(),
            p@.events == Seq::<Event<A>>::empty(),
    {
        let p = Pallet {
            config,
            node_count: 0,
            edge_count: 0,
            nodes: BTreeMap::new(),
            graph: BTreeMap::new(),
            graph2: BTreeMap::new(),
            trees: BTreeMap::new(),
            events: Vec::new(),
        };
        proof {
            assert(p@.graph =~= Map::<MessageSourceId, Seq<Edge>>::empty());
            assert(p@.trees =~= Map::<MessageSourceId, Map<Seq<u8>, Seq<u8>>>::empty());
        }
        p
    }

    /// Registers the node `static_id`.
    pub fn add_node(&mut self, origin: Origin<A>, static_id: MessageSourceId) -> (r: Result<
        (),
        DispatchError,
    >)
        ensures
            final(self)@.inv(),
            (final(self)@, r) == old(self)@.add_node(origin, static_id),
    {
        proof {
            use_type_invariant(&*self);
        }
        let sender = match ensure_signed(origin) {
            Ok(a) => a,
            Err(e) => return Err(e),
        };
        if self.nodes.contains_key(&static_id) {
            return Err(DispatchError::Module(Error::NodeExists));
        }
        let node_id = match self.node_count.checked_add(1) {
            Some(n) => n,
            None => return Err(DispatchError::Module(Error::TooManyNodes)),
        };
        self.store_node(static_id);
        proof {
            use_type_invariant(&*self);
        }
        self.node_count = node_id;
        self.deposit_event(Event::NodeAdded(sender, static_id));
        Ok(())
    }

    /// Adds the edge `from -> to` to the adjacency list of `from`.
    pub fn follow(&mut self, origin: Origin<A>, from: MessageSourceId, to: MessageSourceId) -> (r:
        Result<(), DispatchError>)
        requires
            signer(origin) is Some && old(self)@.follow_check(from, to) is Ok ==> old(
                self,
            )@.edge_count < u64::MAX,
        ensures
            final(self)@.inv(),
            (final(self)@, r) == old(self)@.follow(origin, from, to),
    {
        proof {
            use_type_invariant(&*self);
        }
        let sender = match ensure_signed(origin) {
            Ok(a) => a,
            Err(e) => return Err(e),
        };
        if from == to {
            return Err(DispatchError::Module(Error::SelfFollowNotPermitted));
        }
        if !self.nodes.contains_key(&from) {
            return Err(DispatchError::Module(Error::NoSuchNode));
        }
        if !self.nodes.contains_key(&to) {
            return Err(DispatchError::Module(Error::NoSuchNode));
        }
        let edge = Edge { static_id: to, permission: Permission { data: 0 } };
        let bound = self.config.max_follows as usize;
        let pos = match self.graph.get(&from) {
            Some(list) => match search_edges(list, to) {
                Ok(_) => return Err(DispatchError::Module(Error::EdgeExists)),
                Err(i) => {
                    if list.len() >= bound {
                        return Err(DispatchError::Module(Error::TooManyEdges));
                    }
                    i
                },
            },
            None => {
                if 0 >= bound {
                    return Err(DispatchError::Module(Error::TooManyEdges));
                }
                0
            },
        };
        let mut list = self.take_list(from);
        insert_edge(&mut list, pos, edge);
        self.store_list(from, list);
        proof {
            use_type_invariant(&*self);
        }
        self.edge_count = self.edge_count + 1;
        self.deposit_event(Event::Followed(sender, from, to));
        proof {
            let post = old(self)@.follow(origin, from, to).0;
            assert(self@.graph =~= post.graph);
        }
        Ok(())
    }

    /// Removes the edge `from -> to` from the adjacency list of `from`.
    pub fn unfollow(&mut self, origin: Origin<A>, from: MessageSourceId, to: MessageSourceId) -> (r:
        Result<(), DispatchError>)
        ensures
            final(self)@.inv(),
            (final(self)@, r) == old(self)@.unfollow(origin, from, to),
    {
        proof {
            use_type_invariant(&*self);
        }
        let sender = match ensure_signed(origin) {
            Ok(a) => a,
            Err(e) => return Err(e),
        };
        if from == to {
            return Err(DispatchError::Module(Error::SelfFollowNotPermitted));
        }
        if !self.nodes.contains_key(&from) {
            return Err(DispatchError::Module(Error::NoSuchNode));
        }
        if !self.nodes.contains_key(&to) {
            return Err(DispatchError::Module(Error::NoSuchNode));
        }
        let cur_count: u64 = self.edge_count;
        if cur_count == 0 {
            return Err(DispatchError::Module(Error::NoSuchEdge));
        }
        let pos = match self.graph.get(&from) {
            Some(list) => match search_edges(list, to) {
                Ok(i) => i,
                Err(_) => return Err(DispatchError::Module(Error::NoSuchEdge)),
            },
            None => return Err(DispatchError::Module(Error::NoSuchEdge)),
        };
        let mut list = self.take_list(from);
        remove_edge(&mut list, pos, to);
        self.store_list(from, list);
        proof {
            use_type_invariant(&*self);
        }
        self.edge_count = cur_count - 1;
        self.deposit_event(Event::Unfollowed(sender, from, to));
        proof {
            let post = old(self)@.unfollow(origin, from, to).0;
            assert(self@.graph =~= post.graph);
        }
        Ok(())
    }

    /// Adds the edge `from -> to` to the double map.
    pub fn follow2(&mut self, origin: Origin<A>, from: MessageSourceId, to: MessageSourceId) -> (r:
        Result<(), DispatchError>)
        requires
            signer(origin) is Some && old(self)@.follow2_check(from, to) is Ok ==> old(
                self,
            )@.edge_count < u64::MAX,
        ensures
            final(self)@.inv(),
            (final(self)@, r) == old(self)@.follow2(origin, from, to),
    {
        proof {
            use_type_invariant(&*self);
        }
        let sender = match ensure_signed(origin) {
            Ok(a) => a,
            Err(e) => return Err(e),
        };
        if from == to {
            return Err(DispatchError::Module(Error::SelfFollowNotPermitted));
        }
        if !self.nodes.contains_key(&from) {
            return Err(DispatchError::Module(Error::NoSuchNode));
        }
        if !self.nodes.contains_key(&to) {
            return Err(DispatchError::Module(Error::NoSuchNode));
        }
        if self.graph2.contains_key(&(from, to)) {
            return Err(DispatchError::Module(Error::EdgeExists));
        }
        self.store_pair(from, to, Permission { data: 0 });
        proof {
            use_type_invariant(&*self);
        }
        self.edge_count = self.edge_count + 1;
        self.deposit_event(Event::Followed(sender, from, to));
        Ok(())
    }

    /// Removes the edge `from -> to` from the double map.
    pub fn unfollow2(&mut self, origin: Origin<A>, from: MessageSourceId, to: MessageSourceId) -> (r:
        Result<(), DispatchError>)
        ensures
            final(self)@.inv(),
            (final(self)@, r) == old(self)@.unfollow2(origin, from, to),
    {
        proof {
            use_type_invariant(&*self);
        }
        let sender = match ensure_signed(origin) {
            Ok(a) => a,
            Err(e) => return Err(e),
        };
        if from == to {
            return Err(DispatchError::Module(Error::SelfFollowNotPermitted));
        }
        if !self.graph2.contains_key(&(from, to)) {
            return Err(DispatchError::Module(Error::NoSuchEdge));
        }
        let cur_count: u64 = self.edge_count;
        if cur_count == 0 {
            return Err(DispatchError::Module(Error::NoSuchEdge));
        }
        self.remove_pair(from, to);
        proof {
            use_type_invariant(&*self);
        }
        self.edge_count = cur_count - 1;
        self.deposit_event(Event::Unfollowed(sender, from, to));
        Ok(())
    }

    /// Adds the edge `from -> to` to the child tree of `from`.
    pub fn follow3(&mut self, origin: Origin<A>, from: MessageSourceId, to: MessageSourceId) -> (r:
        Result<(), DispatchError>)
        requires
            signer(origin) is Some && old(self)@.follow3_check(from, to) is Ok ==> old(
                self,
            )@.edge_count < u64::MAX,
        ensures
            final(self)@.inv(),
            (final(self)@, r) == old(self)@.follow3(origin, from, to),
    {
        proof {
            use_type_invariant(&*self);
        }
        let sender = match ensure_signed(origin) {
            Ok(a) => a,
            Err(e) => return Err(e),
        };
        if from == to {
            return Err(DispatchError::Module(Error::SelfFollowNotPermitted));
        }
        if !self.nodes.contains_key(&from) {
            return Err(DispatchError::Module(Error::NoSuchNode));
        }
        if !self.nodes.contains_key(&to) {
            return Err(DispatchError::Module(Error::NoSuchNode));
        }
        let key = storage_key_bytes(Self::get_storage_key(to));
        let perm = self.read_tree(from, &key);
        if perm.is_some() {
            return Err(DispatchError::Module(Error::EdgeExists));
        }
        let data = Permission { data: 1 };
        let value = encode_permission(data);
        let mut tree = self.take_tree(from);
        tree.insert(key, value);
        self.store_tree(from, tree);
        proof {
            use_type_invariant(&*self);
        }
        self.edge_count = self.edge_count + 1;
        self.deposit_event(Event::Followed(sender, from, to));
        proof {
            let post = old(self)@.follow3(origin, from, to).0;
            assert(self@.trees =~= post.trees);
        }
        Ok(())
    }

    /// Removes the edge `from -> to` from the child tree of `from`, and
    /// counts one edge less; a counter already at 0 stays there.
    pub fn unfollow3(&mut self, origin: Origin<A>, from: MessageSourceId, to: MessageSourceId) -> (r:
        Result<(), DispatchError>)
        ensures
            final(self)@.inv(),
            (final(self)@, r) == old(self)@.unfollow3(origin, from, to),
    {
        proof {
            use_type_invariant(&*self);
        }
        let sender = match ensure_signed(origin) {
            Ok(a) => a,
            Err(e) => return Err(e),
        };
        if from == to {
            return Err(DispatchError::Module(Error::SelfFollowNotPermitted));
        }
        if !self.nodes.contains_key(&from) {
            return Err(DispatchError::Module(Error::NoSuchNode));
        }
        let key = storage_key_bytes(Self::get_storage_key(to));
        let perm = self.read_tree(from, &key);
        if perm.is_none() {
            return Err(DispatchError::Module(Error::NoSuchEdge));
        }
        let cur_count: u64 = self.edge_count;
        let mut tree = self.take_tree(from);
        tree.remove(&key);
        self.store_tree(from, tree);
        proof {
            use_type_invariant(&*self);
        }
        self.edge_count = if cur_count > 0 {
            cur_count - 1
        } else {
            0
        };
        self.deposit_event(Event::Unfollowed(sender, from, to));
        proof {
            let post = old(self)@.unfollow3(origin, from, to).0;
            assert(self@.trees =~= post.trees);
        }
        Ok(())
    }

    /// The targets that `static_id` follows in its adjacency list, in order.
    pub fn get_following_list_public(&self, static_id: MessageSourceId) -> (r: Result<
        Vec<MessageSourceId>,
        DispatchError,
    >)
        ensures
            match r {
                Ok(ids) => self@.is_node(static_id) && ids@ == targets(self@.following(static_id)),
                Err(e) => !self@.is_node(static_id) && e == DispatchError::Module(Error::NoSuchNode),
            },
    {
        proof {
            use_type_invariant(self);
        }
        if !self.nodes.contains_key(&static_id) {
            return Err(DispatchError::Module(Error::NoSuchNode));
        }
        let mut ids: Vec<MessageSourceId> = Vec::new();
        match self.graph.get(&static_id) {
            Some(list) => {
                let mut i: usize = 0;
                while i < list.len()
                    invariant
                        i <= list.len(),
                        ids@ == targets(list@.take(i as int)),
                    decreases list.len() - i,
                {
                    ids.push(list[i].static_id);
                    i = i + 1;
                    proof {
                        assert(targets(list@.take(i as int)) =~= targets(list@.take(i - 1)).push(
                            list@[i - 1].static_id,
                        ));
                    }
                }
                proof {
                    assert(list@.take(i as int) =~= list@);
                }
            },
            None => {
                proof {
                    assert(targets(self@.following(static_id)) =~= Seq::<MessageSourceId>::empty());
                }
            },
        }
        Ok(ids)
    }

    /// What the child tree of `static_id` stores under `key`; `None` for a
    /// node that does not exist.
    pub fn read_from_child_tree(&self, static_id: MessageSourceId, key: StorageKey) -> (r: Option<
        Vec<u8>,
    >)
        ensures
            match r {
                Some(v) => {
                    &&& self@.is_node(static_id)
                    &&& self@.tree(static_id).contains_key(key_bytes(key))
                    &&& v@ == self@.tree(static_id)[key_bytes(key)]
                },
                None => !self@.is_node(static_id) || !self@.tree(static_id).contains_key(
                    key_bytes(key),
                ),
            },
    {
        if self.nodes.contains_key(&static_id) {
            let bytes = storage_key_bytes(key);
            return self.read_tree(static_id, &bytes);
        }
        None
    }

    /// The node ids that the child tree of `static_id` holds edges to, read
    /// back from its keys in key order; empty for a node that does not exist.
    pub fn read_all_keys(&self, static_id: MessageSourceId) -> (r: Vec<MessageSourceId>)
        ensures
            r@ == if self@.is_node(static_id) {
                decoded_keys(ordered_keys(self@.tree(static_id)))
            } else {
                Seq::empty()
            },
            self@.is_node(static_id) ==> r.len() == self@.tree(static_id).dom().len(),
            forall|b: MessageSourceId| #[trigger] r@.contains(b) <==> self@.is_node(static_id)
                && self@.tree(static_id).contains_key(storage_key(b)),
    {
        proof {
            use_type_invariant(self);
        }
        let mut r: Vec<MessageSourceId> = Vec::new();
        if !self.nodes.contains_key(&static_id) {
            return r;
        }
        match self.trees.get(&static_id) {
            Some(tree) => {
                let keys = tree.keys();
                proof {
                    tree.lemma_keys();
                    assert(self@.trees.contains_key(static_id));
                    assert(self@.trees[static_id] == tree@);
                    assert forall|k: Seq<u8>| #[trigger] tree@.contains_key(k) implies k.len() == 8 by {
                        assert(self@.trees[static_id].contains_key(k));
                    }
                }
                let mut i: usize = 0;
                while i < keys.len()
                    invariant
                        i <= keys.len(),
                        byte_views(keys@) == tree.key_seq(),
                        tree.key_seq().to_set() == tree@.dom(),
                        forall|k: Seq<u8>| #[trigger] tree@.contains_key(k) ==> k.len() == 8,
                        r@ == decoded_keys(byte_views(keys@).take(i as int)),
                    decreases keys.len() - i,
                {
                    proof {
                        assert(byte_views(keys@)[i as int] == keys@[i as int]@);
                        assert(tree.key_seq().to_set().contains(tree.key_seq()[i as int]));
                    }
                    let id = decode_le_key(&keys[i]);
                    r.push(id);
                    i = i + 1;
                    proof {
                        assert(decoded_keys(byte_views(keys@).take(i as int)) =~= decoded_keys(
                            byte_views(keys@).take(i - 1),
                        ).push(id));
                    }
                }
                proof {
                    assert(byte_views(keys@).take(i as int) =~= byte_views(keys@));
                    lemma_decoded_keys_members(tree.key_seq(), tree@);
                }
            },
            None => {
                proof {
                    let o = ordered_keys(Map::<Seq<u8>, Seq<u8>>::empty());
                    assert(keys_sorted(Seq::<Seq<u8>>::empty()));
                    assert(Seq::<Seq<u8>>::empty().to_set() =~= Map::<Seq<u8>, Seq<u8>>::empty().dom());
                    lemma_sorted_unique(o, Seq::empty());
                    assert(decoded_keys(o) =~= Seq::<MessageSourceId>::empty());
                    assert(self@.tree(static_id) == Map::<Seq<u8>, Seq<u8>>::empty());
                }
            },
        }
        r
    }

    /// The key under which a child tree records an edge to `static_id`: the
    /// SCALE encoding of the id.
    pub fn get_storage_key(static_id: MessageSourceId) -> (r: StorageKey)
        ensures
            key_bytes(r) == storage_key(static_id),
    {
        to_storage_key(scale_encode_u64(static_id)).unwrap()
    }

    /// Number of nodes.
    pub fn node_count(&self) -> (r: u64)
        ensures
            r == self@.node_count,
    {
        self.node_count
    }

    /// Number of edges in existence, in all three stores.
    pub fn edge_count(&self) -> (r: u64)
        ensures
            r == self@.edge_count,
    {
        self.edge_count
    }

    /// The node registered under `static_id`.
    pub fn get_node(&self, static_id: MessageSourceId) -> (r: Option<Node>)
        ensures
            r == self@.nodes.get(static_id),
    {
        match self.nodes.get(&static_id) {
            Some(n) => Some(*n),
            None => None,
        }
    }

    /// The adjacency list of `static_id` (empty when it has none).
    pub fn graph(&self, static_id: MessageSourceId) -> (r: Vec<Edge>)
        ensures
            r@ == self@.following(static_id),
    {
        let mut out: Vec<Edge> = Vec::new();
        match self.graph.get(&static_id) {
            Some(list) => {
                let mut i: usize = 0;
                while i < list.len()
                    invariant
                        i <= list.len(),
                        out@ == list@.take(i as int),
                    decreases list.len() - i,
                {
                    out.push(list[i]);
                    i = i + 1;
                    proof {
                        assert(out@ =~= list@.take(i as int));
                    }
                }
                proof {
                    assert(list@.take(i as int) =~= list@);
                }
            },
            None => {},
        }
        out
    }

    /// The permission of the double-map edge `from -> to`, if there is one.
    pub fn graph2(&self, from: MessageSourceId, to: MessageSourceId) -> (r: Option<Permission>)
        ensures
            r == self@.graph2.get((from, to)),
    {
        match self.graph2.get(&(from, to)) {
            Some(p) => Some(*p),
            None => None,
        }
    }

    /// The configured limits.
    pub fn config(&self) -> (r: Config)
        ensures
            r == self@.config,
    {
        self.config
    }

    /// The events deposited so far, oldest first.
    pub fn events(&self) -> (r: &Vec<Event<A>>)
        ensures
            r@ == self@.events,
    {
        &self.events
    }
}

/// Storage primitives. Each moves one map out of the pallet, changes it and
/// puts it back, so that the pallet stays well formed at every step.
impl<A> Pallet<A> {
    /// Registers `id` as a node.
    pub(crate) fn store_node(&mut self, id: MessageSourceId)
        ensures
            final(self)@.inv(),
            final(self)@ == (PalletState { nodes: old(self)@.nodes.insert(id, Node {  }), ..old(self)@ }),
    {
        proof {
            use_type_invariant(&*self);
        }
        let mut nodes = BTreeMap::new();
        std::mem::swap(&mut self.nodes, &mut nodes);
        nodes.insert(id, Node {  });
        self.nodes = nodes;
        proof {
            use_type_invariant(&*self);
        }
    }

    /// Appends an event.
    pub(crate) fn deposit_event(&mut self, event: Event<A>)
        ensures
            final(self)@.inv(),
            final(self)@ == (PalletState { events: old(self)@.events.push(event), ..old(self)@ }),
    {
        proof {
            use_type_invariant(&*self);
        }
        let mut events = Vec::new();
        std::mem::swap(&mut self.events, &mut events);
        events.push(event);
        self.events = events;
        proof {
            use_type_invariant(&*self);
        }
    }

    /// Sets both counters.
    pub(crate) fn set_counts(&mut self, node_count: u64, edge_count: u64)
        ensures
            final(self)@.inv(),
            final(self)@ == (PalletState { node_count, edge_count, ..old(self)@ }),
    {
        proof {
            use_type_invariant(&*self);
        }
        self.node_count = node_count;
        self.edge_count = edge_count;
        proof {
            use_type_invariant(&*self);
        }
    }

    /// Takes the adjacency list of `id` out of storage.
    pub(crate) fn take_list(&mut self, id: MessageSourceId) -> (list: Vec<Edge>)
        ensures
            final(self)@.inv(),
            list@ == old(self)@.following(id),
            sorted_edges(list@),
            list.len() <= old(self)@.config.max_follows,
            final(self)@ == (PalletState { graph: old(self)@.graph.remove(id), ..old(self)@ }),
    {
        proof {
            use_type_invariant(&*self);
        }
        let mut graph = BTreeMap::new();
        std::mem::swap(&mut self.graph, &mut graph);
        let list = match graph.remove(&id) {
            Some(l) => l,
            None => Vec::new(),
        };
        self.graph = graph;
        proof {
            assert(self@.graph =~= old(self)@.graph.remove(id));
        }
        proof {
            use_type_invariant(&*self);
        }
        list
    }

    /// Stores the adjacency list of `id`.
    pub(crate) fn store_list(&mut self, id: MessageSourceId, list: Vec<Edge>)
        requires
            sorted_edges(list@),
            list.len() <= old(self)@.config.max_follows,
        ensures
            final(self)@.inv(),
            final(self)@ == (PalletState { graph: old(self)@.graph.insert(id, list@), ..old(self)@ }),
    {
        proof {
            use_type_invariant(&*self);
        }
        let ghost l = list@;
        let mut graph = BTreeMap::new();
        std::mem::swap(&mut self.graph, &mut graph);
        graph.insert(id, list);
        self.graph = graph;
        proof {
            assert(self@.graph =~= old(self)@.graph.insert(id, l));
        }
        proof {
            use_type_invariant(&*self);
        }
    }

    /// Records the double-map edge `from -> to`.
    pub(crate) fn store_pair(&mut self, from: MessageSourceId, to: MessageSourceId, permission: Permission)
        ensures
            final(self)@.inv(),
            final(self)@ == (PalletState {
                graph2: old(self)@.graph2.insert((from, to), permission),
                ..old(self)@
            }),
    {
        proof {
            use_type_invariant(&*self);
        }
        let mut graph2 = BTreeMap::new();
        std::mem::swap(&mut self.graph2, &mut graph2);
        graph2.insert((from, to), permission);
        self.graph2 = graph2;
        proof {
            use_type_invariant(&*self);
        }
    }

    /// Deletes the double-map edge `from -> to`.
    pub(crate) fn remove_pair(&mut self, from: MessageSourceId, to: MessageSourceId)
        ensures
            final(self)@.inv(),
            final(self)@ == (PalletState { graph2: old(self)@.graph2.remove((from, to)), ..old(self)@ }),
    {
        proof {
            use_type_invariant(&*self);
        }
        let mut graph2 = BTreeMap::new();
        std::mem::swap(&mut self.graph2, &mut graph2);
        graph2.remove(&(from, to));
        self.graph2 = graph2;
        proof {
            use_type_invariant(&*self);
        }
    }

    /// What the child tree of `id` stores under `key`.
    pub(crate) fn read_tree(&self, id: MessageSourceId, key: &Vec<u8>) -> (r: Option<Vec<u8>>)
        ensures
            match r {
                Some(v) => self@.tree(id).contains_key(key@) && v@ == self@.tree(id)[key@],
                None => !self@.tree(id).contains_key(key@),
            },
    {
        proof {
            use_type_invariant(self);
        }
        match self.trees.get(&id) {
            Some(tree) => tree.get(key),
            None => None,
        }
    }

    /// Takes the child tree of `id` out of storage.
    pub(crate) fn take_tree(&mut self, id: MessageSourceId) -> (tree: ChildTree)
        ensures
            final(self)@.inv(),
            tree.wf(),
            tree@ == old(self)@.tree(id),
            forall|k: Seq<u8>| #[trigger] tree@.contains_key(k) ==> k.len() == 8,
            final(self)@ == (PalletState { trees: old(self)@.trees.remove(id), ..old(self)@ }),
    {
        proof {
            use_type_invariant(&*self);
        }
        let mut trees = BTreeMap::new();
        std::mem::swap(&mut self.trees, &mut trees);
        let tree = match trees.remove(&id) {
            Some(t) => t,
            None => ChildTree::new(),
        };
        self.trees = trees;
        proof {
            assert(self@.trees =~= old(self)@.trees.remove(id));
            if old(self)@.trees.contains_key(id) {
                assert forall|k: Seq<u8>| #[trigger] tree@.contains_key(k) implies k.len() == 8 by {
                    assert(old(self)@.trees[id].contains_key(k));
                }
            }
        }
        proof {
            use_type_invariant(&*self);
        }
        tree
    }

    /// Stores the child tree of `id`.
    pub(crate) fn store_tree(&mut self, id: MessageSourceId, tree: ChildTree)
        requires
            tree.wf(),
            forall|k: Seq<u8>| #[trigger] tree@.contains_key(k) ==> k.len() == 8,
        ensures
            final(self)@.inv(),
            final(self)@ == (PalletState { trees: old(self)@.trees.insert(id, tree@), ..old(self)@ }),
    {
        proof {
            use_type_invariant(&*self);
        }
        let ghost t = tree@;
        proof {
            tree.lemma_keys();
        }
        let mut trees = BTreeMap::new();
        std::mem::swap(&mut self.trees, &mut trees);
        trees.insert(id, tree);
        self.trees = trees;
        proof {
            assert(self@.trees =~= old(self)@.trees.insert(id, t));
        }
        proof {
            use_type_invariant(&*self);
        }
    }
}

/// The ids that a sequence of eight-byte keys encode.
pub open spec fn decoded_keys(keys: Seq<Seq<u8>>) -> Seq<MessageSourceId> {
    keys.map_values(|k: Seq<u8>| le_value(k) as MessageSourceId)
}

/// When the keys of a map of eight-byte keys are listed, the ids they decode
/// to are exactly the ids whose keys the map holds.
pub proof fn lemma_decoded_keys_members(keys: Seq<Seq<u8>>, m: Map<Seq<u8>, Seq<u8>>)
    requires
        keys.to_set() == m.dom(),
        forall|k: Seq<u8>| #[trigger] m.contains_key(k) ==> k.len() == 8,
    ensures
        forall|b: MessageSourceId| #[trigger] decoded_keys(keys).contains(b) <==> m.contains_key(
            storage_key(b),
        ),
{
    assert forall|b: MessageSourceId| #[trigger] decoded_keys(keys).contains(b) <==> m.contains_key(
        storage_key(b),
    ) by {
        if decoded_keys(keys).contains(b) {
            let i = choose|i: int| 0 <= i < decoded_keys(keys).len() && decoded_keys(keys)[i] == b;
            let k = keys[i];
            assert(keys.to_set().contains(k));
            assert(k.len() == 8);
            lemma_le_value_bound(k);
            lemma2_to64();
            lemma2_to64_rest();
            assert(le_value(k) == b);
            lemma_le_bytes_of_le_value(k);
            assert(storage_key(b) == k);
        }
        if m.contains_key(storage_key(b)) {
            assert(keys.to_set().contains(storage_key(b)));
            let i = choose|i: int| 0 <= i < keys.len() && keys[i] == storage_key(b);
            lemma_u64_round_trip(b);
            assert(decoded_keys(keys)[i] == b);
        }
    }
}


/// The SCALE encoding of a permission: that of its one field.
pub fn encode_permission(p: Permission) -> (r: Vec<u8>)
    ensures
        r@ == permission_bytes(p),
{
    scale_encode_u16(p.data)
}

} // verus!
