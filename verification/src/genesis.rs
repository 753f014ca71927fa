//! Genesis: the initial graph that a chain starts from, laid out in one of
//! the three edge stores.

use vstd::prelude::*;
use vstd::arithmetic::div_mod::{lemma_mod_add_multiples_vanish, lemma_mod_equivalence, lemma_small_mod};
use crate::types::{Edge, MessageSourceId, Node, Permission};
use crate::state::{Config, PalletState, storage_key, permission_bytes};
use crate::pallet::{Pallet, encode_permission};
use crate::edges::{plain_sorted_list, plain_list_to, lemma_plain_list_unique, targets, has_target, search_edges, insert_edge};
use crate::child_tree::ChildTree;
use crate::storage_key::storage_key_bytes;
use crate::encoding::lemma_u64_round_trip;

verus! {

/// How genesis lays out the initial graph.
#[derive(Clone, Copy, PartialEq, Eq, Structural, Debug)]
pub struct GenesisConfig {
    /// Edge store: 0 for the double map, 1 for adjacency lists, anything
    /// else for child trees.
    pub structure: u8,
    /// Number of nodes, with ids `0 .. nodes`.
    pub nodes: u32,
    /// Number of edges out of each node: node `n` follows
    /// `(n + e + 1) % nodes` for every `e < edges`.
    pub edges: u32,
}

impl Default for GenesisConfig {
    fn default() -> (r: Self)
        ensures
            r == (GenesisConfig { structure: 2, nodes: 1_000_000, edges: 300 }),
    {
        GenesisConfig { structure: 2, nodes: 1_000_000, edges: 300 }
    }
}

/// The smaller of two integers.
pub open spec fn min(a: int, b: int) -> int {
    if a < b {
        a
    } else {
        b
    }
}

impl GenesisConfig {
    /// The target of edge `e` out of node `n`.
    pub open spec fn target(self, n: int, e: int) -> MessageSourceId {
        ((n + e + 1) % (self.nodes as int)) as MessageSourceId
    }

    /// The targets of the first `k` edges out of node `n`.
    pub open spec fn targets_before(self, n: int, k: int) -> Set<MessageSourceId> {
        Set::new(|t: MessageSourceId| exists|e: int| 0 <= e < k && t == #[trigger] self.target(n, e))
    }

    /// The targets of node `n`.
    pub open spec fn target_set(self, n: int) -> Set<MessageSourceId> {
        self.targets_before(n, self.edges as int)
    }

    /// The child tree that genesis gives node `n` after its first `k` edges:
    /// the encoding of each target, mapped to the encoding of permission 1.
    pub open spec fn tree_before(self, n: int, k: int) -> Map<Seq<u8>, Seq<u8>> {
        Map::new(
            |key: Seq<u8>| exists|t: MessageSourceId| #[trigger] self.targets_before(n, k).contains(t) && key == storage_key(t),
            |key: Seq<u8>| permission_bytes(Permission { data: 1 }),
        )
    }

    /// The inputs on which genesis completes: no target computation
    /// overflows, and with adjacency lists no list exceeds the bound.
    pub open spec fn can_build(self, config: Config) -> bool {
        &&& (self.nodes == 0 || self.edges == 0 || self.nodes + self.edges - 1 <= u32::MAX)
        &&& (self.structure == 1 ==> min(self.edges as int, self.nodes as int) <= config.max_follows)
    }

    /// The double-map edges once the nodes below `n` are done, and the first
    /// `k` edges of node `n`.
    pub open spec fn pairs_before(self, n: int, k: int) -> Map<(MessageSourceId, MessageSourceId), Permission> {
        Map::new(
            |p: (MessageSourceId, MessageSourceId)|
                (p.0 < n && self.target_set(p.0 as int).contains(p.1)) || (p.0 == n
                    && self.targets_before(n, k).contains(p.1)),
            |p: (MessageSourceId, MessageSourceId)| Permission { data: 0 },
        )
    }

    /// The state once every node exists and the edges of the nodes below `n`
    /// (and the first `k` edges of node `n`) are stored; counters still 0.
    pub open spec fn phase<A>(self, config: Config, n: int, k: int) -> PalletState<A> {
        PalletState {
            config,
            node_count: 0,
            edge_count: 0,
            nodes: Map::new(|id: MessageSourceId| id < self.nodes, |id: MessageSourceId| Node {  }),
            graph: if self.structure == 1 {
                Map::new(
                    |id: MessageSourceId| id < n,
                    |id: MessageSourceId| plain_list_to(self.target_set(id as int)),
                )
            } else {
                Map::empty()
            },
            graph2: if self.structure == 0 {
                self.pairs_before(n, k)
            } else {
                Map::empty()
            },
            trees: if self.structure != 0 && self.structure != 1 {
                Map::new(
                    |id: MessageSourceId| id < n,
                    |id: MessageSourceId| self.tree_before(id as int, self.edges as int),
                )
            } else {
                Map::empty()
            },
            events: Seq::empty(),
        }
    }

    /// The number of edges genesis lays out: each node reaches
    /// `min(edges, nodes)` distinct targets, in whichever store.
    pub open spec fn edge_total(self) -> int {
        self.nodes * min(self.edges as int, self.nodes as int)
    }

    /// The state genesis builds.
    pub open spec fn genesis_state<A>(self, config: Config) -> PalletState<A> {
        PalletState {
            node_count: self.nodes as u64,
            edge_count: self.edge_total() as u64,
            ..self.phase(config, self.nodes as int, 0)
        }
    }

    /// Edge `e` of node `n` points where an earlier edge of `n` already
    /// points exactly when `e` has gone round all the nodes.
    pub proof fn lemma_target_seen(self, n: int, e: int)
        requires
            self.nodes > 0,
            0 <= n,
            0 <= e,
        ensures
            self.targets_before(n, e).contains(self.target(n, e)) <==> e >= self.nodes,
    {
        let m = self.nodes as int;
        if e >= m {
            lemma_mod_add_multiples_vanish(n + (e - m) + 1, m);
            assert(self.target(n, e - m) == self.target(n, e));
        }
        if self.targets_before(n, e).contains(self.target(n, e)) && e < m {
            let e2 = choose|e2: int| 0 <= e2 < e && self.target(n, e) == #[trigger] self.target(n, e2);
            assert(0 <= (n + e + 1) % m < m);
            assert(0 <= (n + e2 + 1) % m < m);
            assert((n + e + 1) % m == (n + e2 + 1) % m);
            lemma_mod_equivalence(n + e + 1, n + e2 + 1, m);
            lemma_small_mod((e - e2) as nat, m as nat);
        }
    }

    pub proof fn lemma_targets_step(self, n: int, e: int)
        requires
            0 <= e,
        ensures
            self.targets_before(n, e + 1) == self.targets_before(n, e).insert(self.target(n, e)),
    {
        assert(self.targets_before(n, e + 1) =~= self.targets_before(n, e).insert(self.target(n, e)));
    }

    pub proof fn lemma_pairs_step(self, n: int, e: int)
        requires
            0 <= n <= u32::MAX,
            0 <= e,
        ensures
            self.pairs_before(n, e + 1) == self.pairs_before(n, e).insert(
                (n as MessageSourceId, self.target(n, e)),
                Permission { data: 0 },
            ),
    {
        self.lemma_targets_step(n, e);
        let lhs = self.pairs_before(n, e + 1);
        let rhs = self.pairs_before(n, e).insert((n as MessageSourceId, self.target(n, e)), Permission { data: 0 });
        assert forall|p: (MessageSourceId, MessageSourceId)| lhs.contains_key(p) <==> rhs.contains_key(p) by {
            if p.0 == n {
                assert(self.targets_before(n, e + 1).contains(p.1) <==> (self.targets_before(n, e).contains(p.1) || p.1 == self.target(n, e)));
            }
        }
        assert(self.pairs_before(n, e + 1) =~= self.pairs_before(n, e).insert(
            (n as MessageSourceId, self.target(n, e)),
            Permission { data: 0 },
        ));
    }

    /// The double-map edges of node `n`.
    fn build_pairs<A>(&self, p: &mut Pallet<A>, n: u32, Ghost(config): Ghost<Config>) -> (added: u32)
        requires
            self.can_build(config),
            n < self.nodes,
            self.structure == 0,
            old(p)@ == self.phase::<A>(config, n as int, 0),
        ensures
            final(p)@ == self.phase::<A>(config, n as int, self.edges as int),
            added == min(self.edges as int, self.nodes as int),
    {
        let nodes = self.nodes;
        let edges = self.edges;
        let from = n as MessageSourceId;
        let mut added: u32 = 0;
        let mut e: u32 = 0;
        while e < edges
            invariant
                self.can_build(config),
                n < nodes == self.nodes,
                edges == self.edges,
                self.structure == 0,
                e <= edges,
                from == n as MessageSourceId,
                p@ == self.phase::<A>(config, n as int, e as int),
                added == min(e as int, nodes as int),
            decreases edges - e,
        {
            let ed = (n + e + 1) % nodes;
            proof {
                assert(ed as MessageSourceId == self.target(n as int, e as int));
                self.lemma_pairs_step(n as int, e as int);
                assert(p@.graph2 == self.pairs_before(n as int, e as int));
                assert(from == n as MessageSourceId);
                self.lemma_target_seen(n as int, e as int);
                assert(p@.graph2.contains_key((from, ed as MessageSourceId)) <==> self.targets_before(
                    n as int,
                    e as int,
                ).contains(ed as MessageSourceId));
            }
            if p.graph2(from, ed as MessageSourceId).is_none() {
                added = added + 1;
            }
            p.store_pair(from, ed as MessageSourceId, Permission { data: 0 });
            proof {
                assert(p@.graph2 == self.pairs_before(n as int, e + 1));
            }
            e = e + 1;
            proof {
                assert(p@.graph2 == self.pairs_before(n as int, e as int));
                assert(p@ == self.phase::<A>(config, n as int, e as int));
            }
        }
        added
    }

    /// The adjacency list of node `n`.
    fn build_list(&self, n: u32) -> (list: Vec<Edge>)
        requires
            n < self.nodes,
            self.nodes == 0 || self.edges == 0 || self.nodes + self.edges - 1 <= u32::MAX,
        ensures
            plain_sorted_list(list@, self.target_set(n as int)),
            list.len() == min(self.edges as int, self.nodes as int),
    {
        let nodes = self.nodes;
        let edges = self.edges;
        let mut list: Vec<Edge> = Vec::new();
        let mut e: u32 = 0;
        proof {
            assert(self.targets_before(n as int, 0) =~= Set::<MessageSourceId>::empty());
            assert(targets(list@).to_set() =~= Set::<MessageSourceId>::empty());
        }
        while e < edges
            invariant
                n < nodes == self.nodes,
                edges == self.edges,
                self.nodes + self.edges - 1 <= u32::MAX,
                e <= edges,
                plain_sorted_list(list@, self.targets_before(n as int, e as int)),
                list.len() == min(e as int, nodes as int),
            decreases edges - e,
        {
            let ed = (n + e + 1) % nodes;
            let to = ed as MessageSourceId;
            let edge = Edge { static_id: to, permission: Permission { data: 0 } };
            proof {
                assert(to == self.target(n as int, e as int));
                self.lemma_targets_step(n as int, e as int);
                self.lemma_target_seen(n as int, e as int);
                assert(has_target(list@, to) <==> targets(list@).to_set().contains(to)) by {
                    if has_target(list@, to) {
                        let i = choose|i: int| 0 <= i < list@.len() && list@[i].static_id == to;
                        assert(targets(list@)[i] == to);
                    }
                    if targets(list@).to_set().contains(to) {
                        let i = choose|i: int| 0 <= i < targets(list@).len() && targets(list@)[i] == to;
                        assert(list@[i].static_id == to);
                    }
                }
            }
            match search_edges(&list, to) {
                Ok(_) => {
                    proof {
                        assert(self.targets_before(n as int, e as int).insert(to) =~= self.targets_before(n as int, e as int));
                    }
                },
                Err(i) => {
                    let ghost old_list = list@;
                    insert_edge(&mut list, i, edge);
                    proof {
                        assert(list@ == old_list.insert(i as int, edge));
                        assert(targets(list@).to_set() =~= targets(old_list).to_set().insert(to)) by {
                            assert forall|x: MessageSourceId| targets(list@).to_set().contains(x)
                                implies #[trigger] targets(old_list).to_set().insert(to).contains(x) by {
                                let k = choose|k: int| 0 <= k < targets(list@).len() && targets(list@)[k] == x;
                                if k < i {
                                    assert(targets(old_list)[k] == x);
                                } else if k > i {
                                    assert(targets(old_list)[k - 1] == x);
                                }
                            }
                            assert forall|x: MessageSourceId| #[trigger] targets(old_list).to_set().insert(to).contains(x)
                                implies targets(list@).to_set().contains(x) by {
                                if x == to {
                                    assert(targets(list@)[i as int] == x);
                                } else {
                                    let k = choose|k: int| 0 <= k < targets(old_list).len() && targets(old_list)[k] == x;
                                    if k < i {
                                        assert(targets(list@)[k] == x);
                                    } else {
                                        assert(targets(list@)[k + 1] == x);
                                    }
                                }
                            }
                        }
                        assert forall|k: int| 0 <= k < list@.len() implies #[trigger] list@[k].permission
                            == Permission { data: 0 } by {
                            if k < i {
                                assert(list@[k] == old_list[k]);
                            } else if k > i {
                                assert(list@[k] == old_list[k - 1]);
                            }
                        }
                    }
                },
            }
            e = e + 1;
        }
        list
    }

    /// The child tree of node `n`.
    fn build_tree<A>(&self, n: u32) -> (r: (ChildTree, u32))
        requires
            n < self.nodes,
            self.nodes == 0 || self.edges == 0 || self.nodes + self.edges - 1 <= u32::MAX,
        ensures
            r.0.wf(),
            r.0@ == self.tree_before(n as int, self.edges as int),
            forall|k: Seq<u8>| #[trigger] r.0@.contains_key(k) ==> k.len() == 8,
            r.1 == min(self.edges as int, self.nodes as int),
    {
        let nodes = self.nodes;
        let edges = self.edges;
        let mut tree = ChildTree::new();
        let mut added: u32 = 0;
        let mut e: u32 = 0;
        proof {
            assert(tree@ =~= self.tree_before(n as int, 0));
        }
        while e < edges
            invariant
                n < nodes == self.nodes,
                edges == self.edges,
                self.nodes + self.edges - 1 <= u32::MAX,
                e <= edges,
                tree.wf(),
                tree@ == self.tree_before(n as int, e as int),
                forall|k: Seq<u8>| #[trigger] tree@.contains_key(k) ==> k.len() == 8,
                added == min(e as int, nodes as int),
            decreases edges - e,
        {
            let ed = (n + e + 1) % nodes;
            let to = ed as MessageSourceId;
            let data = Permission { data: 1 };
            let key = storage_key_bytes(Pallet::<A>::get_storage_key(to));
            let value = encode_permission(data);
            let ghost old_tree = tree@;
            proof {
                assert(to == self.target(n as int, e as int));
                self.lemma_target_seen(n as int, e as int);
                assert(old_tree.contains_key(storage_key(to)) <==> self.targets_before(n as int, e as int).contains(to)) by {
                    if old_tree.contains_key(storage_key(to)) {
                        let t = choose|t: MessageSourceId| #[trigger] self.targets_before(n as int, e as int).contains(t) && storage_key(to) == storage_key(t);
                        lemma_u64_round_trip(t);
                        lemma_u64_round_trip(to);
                    }
                    if self.targets_before(n as int, e as int).contains(to) {
                        assert(old_tree.contains_key(storage_key(to)));
                    }
                }
            }
            if tree.get(&key).is_none() {
                added = added + 1;
            }
            tree.insert(key, value);
            proof {
                assert(to == self.target(n as int, e as int));
                self.lemma_targets_step(n as int, e as int);
                let nt = self.tree_before(n as int, e + 1);
                assert forall|k: Seq<u8>| #[trigger] nt.contains_key(k) implies tree@.contains_key(k) by {
                    let t = choose|t: MessageSourceId| #[trigger] self.targets_before(n as int, e + 1).contains(t) && k == storage_key(t);
                    if t != to {
                        assert(self.targets_before(n as int, e as int).contains(t));
                        assert(old_tree.contains_key(k));
                    }
                }
                assert forall|k: Seq<u8>| #[trigger] tree@.contains_key(k) implies nt.contains_key(k) by {
                    if k != storage_key(to) {
                        assert(old_tree.contains_key(k));
                        let t = choose|t: MessageSourceId| #[trigger] self.targets_before(n as int, e as int).contains(t) && k == storage_key(t);
                        assert(self.targets_before(n as int, e + 1).contains(t));
                    } else {
                        assert(self.targets_before(n as int, e + 1).contains(to));
                    }
                }
                assert(tree@ =~= nt);
            }
            e = e + 1;
        }
        (tree, added)
    }

    /// Builds the initial storage: nodes `0 .. nodes`, then the edges of each
    /// node in the chosen store.
    pub fn build<A>(&self, config: Config) -> (p: Pallet<A>)
        requires
            self.can_build(config),
        ensures
            p@.inv(),
            p@ == self.genesis_state::<A>(config),
    {
        let nodes = self.nodes;
        let edges = self.edges;
        let mut p: Pallet<A> = Pallet::new(config);
        let mut node_count: u64 = 0;
        let mut n: u32 = 0;
        proof {
            let ph = self.phase::<A>(config, 0, 0);
            assert(p@.nodes =~= Map::new(|id: MessageSourceId| id < 0int, |id: MessageSourceId| Node {  }));
            assert(p@.graph =~= ph.graph);
            assert(p@.graph2 =~= ph.graph2);
            assert(p@.trees =~= ph.trees);
            assert(p@.events =~= ph.events);
        }
        while n < nodes
            invariant
                n <= nodes == self.nodes,
                node_count == n,
                p@ == (PalletState {
                    nodes: Map::new(|id: MessageSourceId| id < n, |id: MessageSourceId| Node {  }),
                    ..self.phase::<A>(config, 0, 0)
                }),
            decreases nodes - n,
        {
            p.store_node(n as MessageSourceId);
            node_count = node_count + 1;
            n = n + 1;
            proof {
                assert(p@.nodes =~= Map::new(|id: MessageSourceId| id < n, |id: MessageSourceId| Node {  }));
            }
        }
        proof {
            assert(p@.graph =~= self.phase::<A>(config, 0, 0).graph);
            assert(p@.graph2 =~= self.phase::<A>(config, 0, 0).graph2);
            assert(p@.trees =~= self.phase::<A>(config, 0, 0).trees);
            assert(p@ == self.phase::<A>(config, 0, 0));
        }
        let mut edge_count: u64 = 0;
        n = 0;
        while n < nodes
            invariant
                self.can_build(config),
                n <= nodes == self.nodes,
                edges == self.edges,
                node_count == nodes,
                p@ == self.phase::<A>(config, n as int, 0),
                edge_count == n * min(edges as int, nodes as int),
            decreases nodes - n,
        {
            let from = n as MessageSourceId;
            proof {
                assert(n * edges + edges <= nodes * edges) by (nonlinear_arith)
                    requires n < nodes;
                assert(nodes * edges <= 0xffff_ffff * 0xffff_ffffu64) by (nonlinear_arith)
                    requires nodes <= 0xffff_ffff, edges <= 0xffff_ffff;
                assert(n * min(edges as int, nodes as int) + min(edges as int, nodes as int) <= nodes * edges) by (nonlinear_arith)
                    requires n < nodes, 0 <= min(edges as int, nodes as int) <= edges;
                assert((n + 1) * edges == n * edges + edges) by (nonlinear_arith);
                assert((n + 1) * min(edges as int, nodes as int) == n * min(edges as int, nodes as int) + min(edges as int, nodes as int)) by (nonlinear_arith);
            }
            if self.structure == 0 {
                let added = self.build_pairs(&mut p, n, Ghost(config));
                edge_count = edge_count + added as u64;
                proof {
                    assert(p@.graph2 =~= self.pairs_before(n + 1, 0));
                }
            } else if self.structure == 1 {
                let list = self.build_list(n);
                let ghost l = list@;
                p.store_list(from, list);
                edge_count = edge_count + list_len_u64(min_u32(edges, nodes));
                proof {
                    lemma_plain_list_unique(l, plain_list_to(self.target_set(n as int)), self.target_set(n as int));
                    assert(p@.graph =~= self.phase::<A>(config, n + 1, 0).graph);
                }
            } else {
                let (tree, added) = self.build_tree::<A>(n);
                p.store_tree(from, tree);
                edge_count = edge_count + added as u64;
                proof {
                    assert(p@.trees =~= self.phase::<A>(config, n + 1, 0).trees);
                }
            }
            n = n + 1;
            proof {
                assert(p@.graph2 =~= self.phase::<A>(config, n as int, 0).graph2);
                assert(p@.graph =~= self.phase::<A>(config, n as int, 0).graph);
                assert(p@.trees =~= self.phase::<A>(config, n as int, 0).trees);
            }
        }
        p.set_counts(node_count, edge_count);
        proof {
            use_type_invariant(&p);
        }
        p
    }
}

fn min_u32(a: u32, b: u32) -> (r: u32)
    ensures
        r == min(a as int, b as int),
{
    if a < b {
        a
    } else {
        b
    }
}

fn list_len_u64(x: u32) -> (r: u64)
    ensures
        r == x,
{
    x as u64
}

} // verus!
