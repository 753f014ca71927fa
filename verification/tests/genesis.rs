use social_graph::genesis::GenesisConfig;
use social_graph::pallet::Pallet;
use social_graph::state::Config;
use social_graph::types::{Edge, Node, Permission};

fn cfg(max_follows: u32) -> Config {
    Config { max_nodes: 1000, max_follows }
}

#[test]
fn default_genesis() {
    let g = GenesisConfig::default();
    assert_eq!(g, GenesisConfig { structure: 2, nodes: 1_000_000, edges: 300 });
}

#[test]
fn genesis_double_map() {
    let g = GenesisConfig { structure: 0, nodes: 4, edges: 2 };
    let p: Pallet<u8> = g.build(cfg(10));
    assert_eq!(p.node_count(), 4);
    assert_eq!(p.edge_count(), 8);
    for n in 0..4u64 {
        assert_eq!(p.get_node(n), Some(Node {}));
        assert_eq!(p.graph2(n, (n + 1) % 4), Some(Permission { data: 0 }));
        assert_eq!(p.graph2(n, (n + 2) % 4), Some(Permission { data: 0 }));
        assert_eq!(p.graph2(n, (n + 3) % 4), None);
        assert_eq!(p.graph(n), vec![]);
    }
    assert_eq!(p.get_node(4), None);
}

#[test]
fn genesis_adjacency_lists_wrap_and_dedup() {
    // 5 edges over 3 nodes: targets repeat, and node n reaches itself
    let g = GenesisConfig { structure: 1, nodes: 3, edges: 5 };
    let p: Pallet<u8> = g.build(cfg(3));
    assert_eq!(p.node_count(), 3);
    assert_eq!(p.edge_count(), 9);
    let e = |t: u64| Edge { static_id: t, permission: Permission { data: 0 } };
    assert_eq!(p.graph(0), vec![e(0), e(1), e(2)]);
    assert_eq!(p.get_following_list_public(1), Ok(vec![0, 1, 2]));
}

#[test]
fn genesis_adjacency_lists_fewer_edges() {
    let g = GenesisConfig { structure: 1, nodes: 5, edges: 2 };
    let p: Pallet<u8> = g.build(cfg(2));
    assert_eq!(p.edge_count(), 10);
    assert_eq!(p.get_following_list_public(4), Ok(vec![0, 1]));
    assert_eq!(p.get_following_list_public(2), Ok(vec![3, 4]));
}

#[test]
fn genesis_child_trees() {
    let g = GenesisConfig { structure: 2, nodes: 3, edges: 2 };
    let p: Pallet<u8> = g.build(cfg(0));
    assert_eq!(p.edge_count(), 6);
    assert_eq!(p.read_all_keys(0), vec![1, 2]);
    assert_eq!(p.read_from_child_tree(2, Pallet::<u8>::get_storage_key(0)), Some(vec![1, 0]));
    assert_eq!(p.read_from_child_tree(2, Pallet::<u8>::get_storage_key(2)), None);
}

#[test]
fn genesis_without_nodes() {
    let g = GenesisConfig { structure: 1, nodes: 0, edges: 7 };
    let p: Pallet<u8> = g.build(cfg(0));
    assert_eq!(p.node_count(), 0);
    assert_eq!(p.edge_count(), 0);
}

#[test]
fn genesis_double_map_counts_distinct_edges() {
    // with more edges than nodes, targets repeat: the double map holds each
    // pair once, and the counter counts the edges that exist
    let g = GenesisConfig { structure: 0, nodes: 3, edges: 5 };
    let p: Pallet<u8> = g.build(cfg(0));
    let mut pairs = 0;
    for a in 0..3u64 {
        for b in 0..3u64 {
            if p.graph2(a, b).is_some() {
                pairs += 1;
            }
        }
    }
    assert_eq!(pairs, 9);
    assert_eq!(p.edge_count(), 9);
}

#[test]
fn genesis_double_map_two_nodes_three_edges() {
    let g = GenesisConfig { structure: 0, nodes: 2, edges: 3 };
    let p: Pallet<u8> = g.build(cfg(0));
    assert_eq!(p.node_count(), 2);
    assert_eq!(p.edge_count(), 4);
    for a in 0..2u64 {
        for b in 0..2u64 {
            assert_eq!(p.graph2(a, b), Some(Permission { data: 0 }));
        }
    }
}

#[test]
fn genesis_child_trees_count_distinct_keys() {
    let g = GenesisConfig { structure: 2, nodes: 2, edges: 3 };
    let p: Pallet<u8> = g.build(cfg(0));
    assert_eq!(p.edge_count(), 4);
    assert_eq!(p.read_all_keys(0), vec![0, 1]);
    assert_eq!(p.read_all_keys(1), vec![0, 1]);
}

#[test]
fn genesis_counts_nodes() {
    let g = GenesisConfig { structure: 2, nodes: 50, edges: 0 };
    let p: Pallet<u8> = g.build(cfg(0));
    assert_eq!(p.node_count(), 50);
    assert_eq!(p.edge_count(), 0);
    assert_eq!(p.get_node(49), Some(Node {}));
    assert_eq!(p.read_all_keys(10), Vec::<u64>::new());
}
