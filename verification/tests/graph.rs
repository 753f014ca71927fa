use social_graph::pallet::{Pallet, encode_permission, ensure_signed};
use social_graph::state::{Config, DispatchError, Error, Event, Origin};
use social_graph::types::{Edge, Node, Permission};
use std::cmp::Ordering;
use social_graph::storage_key::{storage_key_bytes, to_storage_key};

fn config() -> Config {
    Config { max_nodes: 100, max_follows: 3 }
}

fn pallet_with_nodes(ids: &[u64]) -> Pallet<u32> {
    let mut p: Pallet<u32> = Pallet::new(config());
    for id in ids {
        assert_eq!(p.add_node(Origin::Signed(1), *id), Ok(()));
    }
    p
}

fn edge(to: u64) -> Edge {
    Edge { static_id: to, permission: Permission { data: 0 } }
}

#[test]
fn add_node_registers_and_counts() {
    let mut p: Pallet<u32> = Pallet::new(config());
    assert_eq!(p.add_node(Origin::Signed(9), 5), Ok(()));
    assert_eq!(p.node_count(), 1);
    assert_eq!(p.get_node(5), Some(Node {}));
    assert_eq!(p.get_node(6), None);
    assert_eq!(p.events().clone(), vec![Event::NodeAdded(9, 5)]);
}

#[test]
fn add_node_twice_is_node_exists() {
    let mut p = pallet_with_nodes(&[5]);
    assert_eq!(p.add_node(Origin::Signed(1), 5), Err(DispatchError::Module(Error::NodeExists)));
    assert_eq!(p.node_count(), 1);
}

#[test]
fn unsigned_calls_are_bad_origin() {
    let mut p = pallet_with_nodes(&[1, 2]);
    assert_eq!(p.add_node(Origin::Unsigned, 3), Err(DispatchError::BadOrigin));
    assert_eq!(p.follow(Origin::Root, 1, 2), Err(DispatchError::BadOrigin));
    assert_eq!(p.unfollow(Origin::Unsigned, 1, 2), Err(DispatchError::BadOrigin));
    assert_eq!(p.follow2(Origin::Root, 1, 2), Err(DispatchError::BadOrigin));
    assert_eq!(p.unfollow2(Origin::Root, 1, 2), Err(DispatchError::BadOrigin));
    assert_eq!(p.follow3(Origin::Unsigned, 1, 2), Err(DispatchError::BadOrigin));
    assert_eq!(p.unfollow3(Origin::Unsigned, 1, 2), Err(DispatchError::BadOrigin));
    assert_eq!(p.node_count(), 2);
    assert_eq!(ensure_signed(Origin::Signed(4u8)), Ok(4u8));
}

#[test]
fn follow_keeps_list_sorted_and_counts_edges() {
    let mut p = pallet_with_nodes(&[1, 2, 3, 4]);
    assert_eq!(p.follow(Origin::Signed(1), 1, 4), Ok(()));
    assert_eq!(p.follow(Origin::Signed(1), 1, 2), Ok(()));
    assert_eq!(p.follow(Origin::Signed(1), 1, 3), Ok(()));
    assert_eq!(p.graph(1), vec![edge(2), edge(3), edge(4)]);
    assert_eq!(p.get_following_list_public(1), Ok(vec![2, 3, 4]));
    assert_eq!(p.edge_count(), 3);
    assert_eq!(p.events().last(), Some(&Event::Followed(1, 1, 3)));
}

#[test]
fn follow_errors() {
    let mut p = pallet_with_nodes(&[1, 2, 3, 4, 5]);
    assert_eq!(p.follow(Origin::Signed(1), 1, 1), Err(DispatchError::Module(Error::SelfFollowNotPermitted)));
    assert_eq!(p.follow(Origin::Signed(1), 9, 1), Err(DispatchError::Module(Error::NoSuchNode)));
    assert_eq!(p.follow(Origin::Signed(1), 1, 9), Err(DispatchError::Module(Error::NoSuchNode)));
    assert_eq!(p.follow(Origin::Signed(1), 1, 2), Ok(()));
    assert_eq!(p.follow(Origin::Signed(1), 1, 2), Err(DispatchError::Module(Error::EdgeExists)));
    assert_eq!(p.follow(Origin::Signed(1), 1, 3), Ok(()));
    assert_eq!(p.follow(Origin::Signed(1), 1, 4), Ok(()));
    assert_eq!(p.follow(Origin::Signed(1), 1, 5), Err(DispatchError::Module(Error::TooManyEdges)));
    assert_eq!(p.graph(1).len(), 3);
    assert_eq!(p.edge_count(), 3);
}

#[test]
fn unfollow_undoes_follow() {
    let mut p = pallet_with_nodes(&[1, 2, 3]);
    assert_eq!(p.follow(Origin::Signed(1), 1, 3), Ok(()));
    let before = p.graph(1);
    let count = p.edge_count();
    assert_eq!(p.follow(Origin::Signed(1), 1, 2), Ok(()));
    assert_eq!(p.unfollow(Origin::Signed(1), 1, 2), Ok(()));
    assert_eq!(p.graph(1), before);
    assert_eq!(p.edge_count(), count);
    assert_eq!(p.events().last(), Some(&Event::Unfollowed(1, 1, 2)));
}

#[test]
fn unfollow_errors() {
    let mut p = pallet_with_nodes(&[1, 2, 3]);
    assert_eq!(p.unfollow(Origin::Signed(1), 2, 2), Err(DispatchError::Module(Error::SelfFollowNotPermitted)));
    assert_eq!(p.unfollow(Origin::Signed(1), 7, 2), Err(DispatchError::Module(Error::NoSuchNode)));
    assert_eq!(p.unfollow(Origin::Signed(1), 2, 7), Err(DispatchError::Module(Error::NoSuchNode)));
    // no edges at all yet
    assert_eq!(p.unfollow(Origin::Signed(1), 1, 2), Err(DispatchError::Module(Error::NoSuchEdge)));
    assert_eq!(p.follow(Origin::Signed(1), 1, 3), Ok(()));
    assert_eq!(p.unfollow(Origin::Signed(1), 1, 2), Err(DispatchError::Module(Error::NoSuchEdge)));
    assert_eq!(p.unfollow(Origin::Signed(1), 2, 1), Err(DispatchError::Module(Error::NoSuchEdge)));
}

#[test]
fn follow2_and_unfollow2() {
    let mut p = pallet_with_nodes(&[1, 2]);
    assert_eq!(p.graph2(1, 2), None);
    assert_eq!(p.follow2(Origin::Signed(3), 1, 2), Ok(()));
    assert_eq!(p.graph2(1, 2), Some(Permission { data: 0 }));
    assert_eq!(p.edge_count(), 1);
    assert_eq!(p.follow2(Origin::Signed(3), 1, 2), Err(DispatchError::Module(Error::EdgeExists)));
    assert_eq!(p.follow2(Origin::Signed(3), 1, 1), Err(DispatchError::Module(Error::SelfFollowNotPermitted)));
    assert_eq!(p.follow2(Origin::Signed(3), 1, 8), Err(DispatchError::Module(Error::NoSuchNode)));
    assert_eq!(p.unfollow2(Origin::Signed(3), 1, 2), Ok(()));
    assert_eq!(p.graph2(1, 2), None);
    assert_eq!(p.edge_count(), 0);
    assert_eq!(p.unfollow2(Origin::Signed(3), 1, 2), Err(DispatchError::Module(Error::NoSuchEdge)));
    assert_eq!(p.unfollow2(Origin::Signed(3), 2, 2), Err(DispatchError::Module(Error::SelfFollowNotPermitted)));
}

#[test]
fn edge_count_is_shared_by_list_and_double_map() {
    let mut p = pallet_with_nodes(&[1, 2, 3]);
    assert_eq!(p.follow2(Origin::Signed(3), 1, 2), Ok(()));
    assert_eq!(p.follow(Origin::Signed(3), 1, 3), Ok(()));
    assert_eq!(p.unfollow(Origin::Signed(3), 1, 3), Ok(()));
    assert_eq!(p.unfollow(Origin::Signed(3), 1, 3), Err(DispatchError::Module(Error::NoSuchEdge)));
    assert_eq!(p.edge_count(), 1);
    assert_eq!(p.unfollow2(Origin::Signed(3), 1, 2), Ok(()));
    assert_eq!(p.follow2(Origin::Signed(3), 2, 1), Ok(()));
    assert_eq!(p.follow(Origin::Signed(3), 2, 3), Ok(()));
    assert_eq!(p.unfollow(Origin::Signed(3), 2, 3), Ok(()));
    assert_eq!(p.unfollow(Origin::Signed(3), 2, 1), Err(DispatchError::Module(Error::NoSuchEdge)));
    assert_eq!(p.edge_count(), 1);
}

#[test]
fn follow3_writes_child_tree() {
    let mut p = pallet_with_nodes(&[1, 2, 258]);
    assert_eq!(p.follow3(Origin::Signed(4), 1, 258), Ok(()));
    assert_eq!(p.read_from_child_tree(1, Pallet::<u32>::get_storage_key(258)), Some(vec![1, 0]));
    assert_eq!(p.read_from_child_tree(1, Pallet::<u32>::get_storage_key(2)), None);
    assert_eq!(p.read_from_child_tree(9, Pallet::<u32>::get_storage_key(258)), None);
    assert_eq!(p.read_all_keys(1), vec![258]);
    // a child-tree edge is counted like any other
    assert_eq!(p.edge_count(), 1);
    assert_eq!(p.follow3(Origin::Signed(4), 1, 258), Err(DispatchError::Module(Error::EdgeExists)));
    assert_eq!(p.follow3(Origin::Signed(4), 1, 1), Err(DispatchError::Module(Error::SelfFollowNotPermitted)));
    assert_eq!(p.follow3(Origin::Signed(4), 5, 1), Err(DispatchError::Module(Error::NoSuchNode)));
    assert_eq!(p.follow3(Origin::Signed(4), 1, 5), Err(DispatchError::Module(Error::NoSuchNode)));
}

#[test]
fn read_all_keys_in_key_order() {
    let mut p = pallet_with_nodes(&[1, 2, 256, 3]);
    assert_eq!(p.follow3(Origin::Signed(4), 1, 256), Ok(()));
    assert_eq!(p.follow3(Origin::Signed(4), 1, 3), Ok(()));
    assert_eq!(p.follow3(Origin::Signed(4), 1, 2), Ok(()));
    // keys are little-endian: 256 encodes as [0, 1, ...], before [2, ...] and [3, ...]
    assert_eq!(p.read_all_keys(1), vec![256, 2, 3]);
    assert_eq!(p.read_all_keys(2), Vec::<u64>::new());
    assert_eq!(p.read_all_keys(77), Vec::<u64>::new());
}

#[test]
fn unfollow3_undoes_follow3() {
    let mut p = pallet_with_nodes(&[1, 2, 3]);
    assert_eq!(p.follow3(Origin::Signed(4), 1, 3), Ok(()));
    assert_eq!(p.follow3(Origin::Signed(4), 1, 2), Ok(()));
    assert_eq!(p.edge_count(), 2);
    assert_eq!(p.unfollow3(Origin::Signed(4), 1, 2), Ok(()));
    assert_eq!(p.edge_count(), 1);
    assert_eq!(p.read_all_keys(1), vec![3]);
    assert_eq!(p.read_from_child_tree(1, Pallet::<u32>::get_storage_key(2)), None);
    assert_eq!(p.unfollow3(Origin::Signed(4), 1, 2), Err(DispatchError::Module(Error::NoSuchEdge)));
    assert_eq!(p.unfollow3(Origin::Signed(4), 1, 1), Err(DispatchError::Module(Error::SelfFollowNotPermitted)));
    assert_eq!(p.unfollow3(Origin::Signed(4), 8, 1), Err(DispatchError::Module(Error::NoSuchNode)));
    assert_eq!(p.events().last(), Some(&Event::Unfollowed(4, 1, 2)));
}

#[test]
fn following_list_of_missing_node() {
    let p = pallet_with_nodes(&[1]);
    assert_eq!(p.get_following_list_public(2), Err(DispatchError::Module(Error::NoSuchNode)));
    assert_eq!(p.get_following_list_public(1), Ok(vec![]));
    assert_eq!(p.graph(2), vec![]);
}

#[test]
fn storage_key_is_little_endian() {
    assert_eq!(Pallet::<u32>::get_storage_key(0x0102030405060708).into_inner(), vec![8, 7, 6, 5, 4, 3, 2, 1]);
    assert_eq!(storage_key_bytes(Pallet::<u32>::get_storage_key(1000)), vec![0xe8, 0x03, 0, 0, 0, 0, 0, 0]);
    assert_eq!(encode_permission(Permission { data: 0x0201 }), vec![1, 2]);
    assert_eq!(encode_permission(Permission { data: 1 }), vec![1, 0]);
}

#[test]
fn large_id_round_trips_through_child_tree() {
    let big = u64::MAX - 5;
    let mut p = pallet_with_nodes(&[1, big]);
    assert_eq!(p.follow3(Origin::Signed(4), 1, big), Ok(()));
    assert_eq!(p.read_all_keys(1), vec![big]);
}

#[test]
fn edge_order_by_target() {
    let a = Edge { static_id: 1, permission: Permission { data: 9 } };
    let b = Edge { static_id: 2, permission: Permission { data: 0 } };
    let c = Edge { static_id: 1, permission: Permission { data: 0 } };
    assert_eq!(a.cmp(&b), Ordering::Less);
    assert_eq!(b.cmp(&a), Ordering::Greater);
    assert_eq!(a.cmp(&c), Ordering::Equal);
}

#[test]
fn add_node_counts_up() {
    let mut p = pallet_with_nodes(&[]);
    for id in 0..10u64 {
        assert_eq!(p.add_node(Origin::Signed(1), id), Ok(()));
    }
    assert_eq!(p.node_count(), 10);
    assert_eq!(p.config(), config());
}

#[test]
fn refused_calls_change_nothing() {
    let mut p = pallet_with_nodes(&[1, 2, 3]);
    assert_eq!(p.follow(Origin::Signed(1), 1, 2), Ok(()));
    assert_eq!(p.follow2(Origin::Signed(1), 1, 2), Ok(()));
    assert_eq!(p.follow3(Origin::Signed(1), 1, 2), Ok(()));
    let events = p.events().len();
    let count = p.edge_count();
    assert!(p.follow(Origin::Signed(1), 1, 2).is_err());
    assert!(p.follow2(Origin::Signed(1), 1, 2).is_err());
    assert!(p.follow3(Origin::Signed(1), 1, 2).is_err());
    assert!(p.unfollow(Origin::Signed(1), 2, 1).is_err());
    assert!(p.unfollow2(Origin::Signed(1), 2, 1).is_err());
    assert!(p.unfollow3(Origin::Signed(1), 2, 1).is_err());
    assert!(p.add_node(Origin::Signed(1), 3).is_err());
    assert_eq!(p.events().len(), events);
    assert_eq!(p.edge_count(), count);
    assert_eq!(p.node_count(), 3);
    assert_eq!(p.graph(1), vec![edge(2)]);
    assert_eq!(p.graph2(1, 2), Some(Permission { data: 0 }));
    assert_eq!(p.read_all_keys(1), vec![2]);
}

#[test]
fn storage_keys_are_bounded() {
    assert!(to_storage_key(vec![0u8; 4097]).is_none());
    let k = to_storage_key(vec![7u8; 4096]).unwrap();
    assert_eq!(storage_key_bytes(k), vec![7u8; 4096]);
}

#[test]
fn child_tree_read_with_foreign_key() {
    let mut p = pallet_with_nodes(&[1, 2]);
    assert_eq!(p.follow3(Origin::Signed(4), 1, 2), Ok(()));
    // a key that no follow writes: the first three bytes of the key of 2
    assert_eq!(p.read_from_child_tree(1, to_storage_key(vec![2, 0, 0]).unwrap()), None);
    assert_eq!(p.read_from_child_tree(1, to_storage_key(vec![2, 0, 0, 0, 0, 0, 0, 0]).unwrap()), Some(vec![1, 0]));
}

#[test]
fn edge_count_sums_all_stores() {
    let mut p = pallet_with_nodes(&[1, 2, 3]);
    assert_eq!(p.follow(Origin::Signed(1), 1, 2), Ok(()));
    assert_eq!(p.follow(Origin::Signed(1), 1, 3), Ok(()));
    assert_eq!(p.follow2(Origin::Signed(1), 2, 3), Ok(()));
    assert_eq!(p.follow3(Origin::Signed(1), 3, 1), Ok(()));
    assert_eq!(p.follow3(Origin::Signed(1), 3, 2), Ok(()));
    let total = |p: &Pallet<u32>| {
        let mut n = 0u64;
        for a in 1..=3u64 {
            n += p.graph(a).len() as u64;
            n += p.read_all_keys(a).len() as u64;
            for b in 1..=3u64 {
                if p.graph2(a, b).is_some() {
                    n += 1;
                }
            }
        }
        n
    };
    assert_eq!(p.edge_count(), 5);
    assert_eq!(total(&p), 5);
    assert_eq!(p.unfollow3(Origin::Signed(1), 3, 1), Ok(()));
    assert_eq!(p.unfollow(Origin::Signed(1), 1, 2), Ok(()));
    assert_eq!(p.edge_count(), 3);
    assert_eq!(total(&p), 3);
}

#[test]
fn follow_lists_only_other_nodes() {
    let mut p = pallet_with_nodes(&[1, 2, 3]);
    assert_eq!(p.follow(Origin::Signed(1), 1, 3), Ok(()));
    assert_eq!(p.follow(Origin::Signed(1), 1, 1), Err(DispatchError::Module(Error::SelfFollowNotPermitted)));
    assert_eq!(p.follow(Origin::Signed(1), 1, 9), Err(DispatchError::Module(Error::NoSuchNode)));
    assert_eq!(p.follow(Origin::Signed(1), 1, 2), Ok(()));
    for a in 1..=3u64 {
        for e in p.graph(a) {
            assert_ne!(e.static_id, a);
            assert!(p.get_node(e.static_id).is_some());
        }
    }
    assert_eq!(p.get_following_list_public(1), Ok(vec![2, 3]));
}
