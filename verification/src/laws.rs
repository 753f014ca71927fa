//! Properties that span calls of the pallet and of the benchmark helpers.

use vstd::prelude::*;
use crate::types::{Edge, MessageSourceId, Permission};
use crate::edges::{has_target, insert_sorted, remove_target, sorted_edges, targets, lemma_remove_absent, plain_sorted_list, plain_list_to};
use crate::encoding::{le_value, lemma_u64_round_trip};
use crate::state::{DispatchError, Error, Event, Origin, PalletState, signer, storage_key, permission_bytes};
use crate::transactions::{TrieChange, DbChangeView, converted};
use crate::genesis::{GenesisConfig, min};
use crate::state::Config;
use vstd::set_lib::lemma_map_size;
use vstd::relations::injective_on;

verus! {

/// An edge inserted into a list is found there afterwards.
pub proof fn lemma_insert_sorted_has(s: Seq<Edge>, e: Edge, id: MessageSourceId)
    ensures
        has_target(insert_sorted(s, e), id) <==> (has_target(s, id) || id == e.static_id),
    decreases s.len(),
{
    let r = insert_sorted(s, e);
    if s.len() == 0 {
        assert(r[0] == e);
    } else if e.static_id <= s[0].static_id {
        assert(r == seq![e] + s);
        if has_target(s, id) {
            let i = choose|i: int| 0 <= i < s.len() && s[i].static_id == id;
            assert(r[i + 1] == s[i]);
        }
        if has_target(r, id) {
            let i = choose|i: int| 0 <= i < r.len() && r[i].static_id == id;
            if i > 0 {
                assert(s[i - 1] == r[i]);
            }
        }
        assert(r[0] == e);
    } else {
        let t = s.drop_first();
        lemma_insert_sorted_has(t, e, id);
        let rt = insert_sorted(t, e);
        assert(r == seq![s[0]] + rt);
        if has_target(s, id) {
            let i = choose|i: int| 0 <= i < s.len() && s[i].static_id == id;
            if i == 0 {
                assert(r[0] == s[0]);
            } else {
                assert(t[i - 1] == s[i]);
                assert(has_target(rt, id));
                let k = choose|k: int| 0 <= k < rt.len() && rt[k].static_id == id;
                assert(r[k + 1] == rt[k]);
            }
        }
        if id == e.static_id {
            assert(has_target(rt, id));
            let k = choose|k: int| 0 <= k < rt.len() && rt[k].static_id == id;
            assert(r[k + 1] == rt[k]);
        }
        if has_target(r, id) {
            let i = choose|i: int| 0 <= i < r.len() && r[i].static_id == id;
            if i == 0 {
                assert(s[0].static_id == id);
            } else {
                assert(rt[i - 1] == r[i]);
                assert(has_target(rt, id));
                if has_target(t, id) {
                    let k = choose|k: int| 0 <= k < t.len() && t[k].static_id == id;
                    assert(s[k + 1] == t[k]);
                }
            }
        }
    }
}

/// Removing what was just inserted gives back the list, when the list did
/// not point at that target before.
pub proof fn lemma_remove_inserted(s: Seq<Edge>, e: Edge)
    requires
        !has_target(s, e.static_id),
    ensures
        remove_target(insert_sorted(s, e), e.static_id) == s,
    decreases s.len(),
{
    assert forall|j: int| 0 <= j < s.len() implies s[j].static_id != e.static_id by {
        if s[j].static_id == e.static_id {
            assert(has_target(s, e.static_id));
        }
    }
    if s.len() == 0 {
        let r = insert_sorted(s, e);
        assert(r == seq![e]);
        assert(r[0] == e);
        assert(r.drop_first() =~= Seq::<Edge>::empty());
        assert(remove_target(r, e.static_id) == remove_target(r.drop_first(), e.static_id));
    } else if e.static_id <= s[0].static_id {
        let r = insert_sorted(s, e);
        assert(r == seq![e] + s);
        assert(r[0] == e);
        assert(r.drop_first() =~= s);
        lemma_remove_absent(s, e.static_id);
    } else {
        let t = s.drop_first();
        assert(!has_target(t, e.static_id)) by {
            if has_target(t, e.static_id) {
                let k = choose|k: int| 0 <= k < t.len() && t[k].static_id == e.static_id;
                assert(s[k + 1] == t[k]);
            }
        }
        lemma_remove_inserted(t, e);
        let r = seq![s[0]] + insert_sorted(t, e);
        assert(insert_sorted(s, e) == r);
        assert(r[0] == s[0]);
        assert(r.drop_first() =~= insert_sorted(t, e));
        assert(remove_target(r, e.static_id) == seq![r[0]] + remove_target(r.drop_first(), e.static_id));
        assert(seq![s[0]] + t =~= s);
    }
}

/// Following and then unfollowing the same pair, both signed, gives every
/// node back the adjacency list it had and leaves the edge count, the nodes,
/// the double map and the child trees as they were.
pub proof fn law_unfollow_undoes_follow<A>(
    s: PalletState<A>,
    who: A,
    from: MessageSourceId,
    to: MessageSourceId,
)
    requires
        s.follow_check(from, to) is Ok,
        s.edge_count < u64::MAX,
    ensures
        ({
            let s1 = s.follow(Origin::Signed(who), from, to).0;
            let (s2, r2) = s1.unfollow(Origin::Signed(who), from, to);
            &&& r2 is Ok
            &&& forall|id: MessageSourceId| #[trigger] s2.following(id) == s.following(id)
            &&& s2.edge_count == s.edge_count
            &&& s2.nodes == s.nodes
            &&& s2.graph2 == s.graph2
            &&& s2.trees == s.trees
        }),
{
    let e = Edge { static_id: to, permission: Permission { data: 0 } };
    let s1 = s.follow(Origin::Signed(who), from, to).0;
    lemma_insert_sorted_has(s.following(from), e, to);
    assert(s1.following(from) == insert_sorted(s.following(from), e));
    assert(s1.unfollow_check(from, to) is Ok);
    lemma_remove_inserted(s.following(from), e);
}

/// Following and then unfollowing the same pair in the double map, both
/// signed, restores the double map and the edge count exactly.
pub proof fn law_unfollow2_undoes_follow2<A>(
    s: PalletState<A>,
    who: A,
    from: MessageSourceId,
    to: MessageSourceId,
)
    requires
        s.follow2_check(from, to) is Ok,
        s.edge_count < u64::MAX,
    ensures
        ({
            let s1 = s.follow2(Origin::Signed(who), from, to).0;
            let (s2, r2) = s1.unfollow2(Origin::Signed(who), from, to);
            &&& r2 is Ok
            &&& s2.graph2 == s.graph2
            &&& s2.edge_count == s.edge_count
            &&& s2.nodes == s.nodes
            &&& s2.graph == s.graph
            &&& s2.trees == s.trees
        }),
{
    let s1 = s.follow2(Origin::Signed(who), from, to).0;
    assert(s1.graph2.insert((from, to), Permission { data: 0 }).remove((from, to)) =~= s.graph2.remove((from, to)));
    assert(s.graph2.insert((from, to), Permission { data: 0 }).remove((from, to)) =~= s.graph2);
}

/// Following and then unfollowing the same pair in the child trees, both
/// signed, gives every node back the child tree it had and the edge count
/// back its value.
pub proof fn law_unfollow3_undoes_follow3<A>(
    s: PalletState<A>,
    who: A,
    from: MessageSourceId,
    to: MessageSourceId,
)
    requires
        s.follow3_check(from, to) is Ok,
        s.edge_count < u64::MAX,
    ensures
        ({
            let s1 = s.follow3(Origin::Signed(who), from, to).0;
            let (s2, r2) = s1.unfollow3(Origin::Signed(who), from, to);
            &&& r2 is Ok
            &&& forall|id: MessageSourceId| #[trigger] s2.tree(id) == s.tree(id)
            &&& s2.edge_count == s.edge_count
            &&& s2.nodes == s.nodes
            &&& s2.graph == s.graph
            &&& s2.graph2 == s.graph2
        }),
{
    let k = storage_key(to);
    let v = permission_bytes(Permission { data: 1 });
    assert(s.tree(from).insert(k, v).remove(k) =~= s.tree(from));
}

/// After a successful child-tree follow, the child tree of `from` holds the
/// encoded permission 1 under the key of `to`, and that key decodes back to
/// `to`.
pub proof fn law_follow3_reads_back<A>(
    s: PalletState<A>,
    who: A,
    from: MessageSourceId,
    to: MessageSourceId,
)
    requires
        s.follow3_check(from, to) is Ok,
    ensures
        ({
            let s1 = s.follow3(Origin::Signed(who), from, to).0;
            &&& s1.tree(from).contains_key(storage_key(to))
            &&& s1.tree(from)[storage_key(to)] == permission_bytes(Permission { data: 1 })
            &&& le_value(storage_key(to)) == to
        }),
{
    lemma_u64_round_trip(to);
}

/// A successful follow puts `to` in the adjacency list of `from`, which stays
/// sorted and holds `to` once.
pub proof fn law_follow_lists_target<A>(
    s: PalletState<A>,
    who: A,
    from: MessageSourceId,
    to: MessageSourceId,
)
    requires
        s.inv(),
        s.follow_check(from, to) is Ok,
    ensures
        ({
            let s1 = s.follow(Origin::Signed(who), from, to).0;
            &&& has_target(s1.following(from), to)
            &&& sorted_edges(s1.following(from))
            &&& targets(s1.following(from)).len() == s.following(from).len() + 1
        }),
{
    let e = Edge { static_id: to, permission: Permission { data: 0 } };
    lemma_insert_sorted_has(s.following(from), e, to);
    lemma_insert_sorted_sorted(s.following(from), e);
}

/// `insert_sorted` adds exactly one edge.
pub proof fn lemma_insert_sorted_len(s: Seq<Edge>, e: Edge)
    ensures
        insert_sorted(s, e).len() == s.len() + 1,
    decreases s.len(),
{
    if s.len() > 0 && e.static_id > s[0].static_id {
        lemma_insert_sorted_len(s.drop_first(), e);
    }
}

/// `insert_sorted` keeps a sorted list sorted when the target is new, and
/// adds one edge.
pub proof fn lemma_insert_sorted_sorted(s: Seq<Edge>, e: Edge)
    requires
        sorted_edges(s),
        !has_target(s, e.static_id),
    ensures
        sorted_edges(insert_sorted(s, e)),
        insert_sorted(s, e).len() == s.len() + 1,
    decreases s.len(),
{
    if s.len() == 0 {
    } else if e.static_id <= s[0].static_id {
        if e.static_id == s[0].static_id {
            assert(has_target(s, e.static_id));
        }
        let r = seq![e] + s;
        assert forall|i: int, j: int| 0 <= i < j < r.len() implies r[i].static_id < r[j].static_id by {
            if i > 0 {
                assert(r[i] == s[i - 1] && r[j] == s[j - 1]);
            } else {
                assert(r[j] == s[j - 1]);
            }
        }
    } else {
        let t = s.drop_first();
        assert(sorted_edges(t)) by {
            assert forall|i: int, j: int| 0 <= i < j < t.len() implies t[i].static_id < t[j].static_id by {
                assert(t[i] == s[i + 1] && t[j] == s[j + 1]);
            }
        }
        assert(!has_target(t, e.static_id)) by {
            if has_target(t, e.static_id) {
                let k = choose|k: int| 0 <= k < t.len() && t[k].static_id == e.static_id;
                assert(s[k + 1] == t[k]);
            }
        }
        lemma_insert_sorted_sorted(t, e);
        let rt = insert_sorted(t, e);
        let r = seq![s[0]] + rt;
        assert forall|i: int, j: int| 0 <= i < j < r.len() implies r[i].static_id < r[j].static_id by {
            if i > 0 {
                assert(r[i] == rt[i - 1] && r[j] == rt[j - 1]);
            } else {
                assert(r[j] == rt[j - 1]);
                lemma_insert_sorted_has(t, e, rt[j - 1].static_id);
                if rt[j - 1].static_id != e.static_id {
                    let k = choose|k: int| 0 <= k < t.len() && t[k].static_id == rt[j - 1].static_id;
                    assert(s[k + 1] == t[k]);
                }
            }
        }
    }
}

/// A call that is refused leaves the state exactly as it was, whatever the
/// call.
pub proof fn law_refused_calls_change_nothing<A>(
    s: PalletState<A>,
    origin: Origin<A>,
    from: MessageSourceId,
    to: MessageSourceId,
)
    ensures
        s.add_node(origin, from).1 is Err ==> s.add_node(origin, from).0 == s,
        s.follow(origin, from, to).1 is Err ==> s.follow(origin, from, to).0 == s,
        s.unfollow(origin, from, to).1 is Err ==> s.unfollow(origin, from, to).0 == s,
        s.follow2(origin, from, to).1 is Err ==> s.follow2(origin, from, to).0 == s,
        s.unfollow2(origin, from, to).1 is Err ==> s.unfollow2(origin, from, to).0 == s,
        s.follow3(origin, from, to).1 is Err ==> s.follow3(origin, from, to).0 == s,
        s.unfollow3(origin, from, to).1 is Err ==> s.unfollow3(origin, from, to).0 == s,
{
}

/// Calls without a signed origin are refused with `BadOrigin`, and a node
/// can never follow itself, in any of the three stores.
pub proof fn law_origin_and_self_follow<A>(s: PalletState<A>, origin: Origin<A>, id: MessageSourceId)
    ensures
        signer(origin) is None ==> s.add_node(origin, id).1 == Err::<(), DispatchError>(DispatchError::BadOrigin),
        signer(origin) is None ==> s.follow(origin, id, id).1 == Err::<(), DispatchError>(DispatchError::BadOrigin),
        signer(origin) is Some ==> s.follow(origin, id, id).1 == Err::<(), DispatchError>(
            DispatchError::Module(Error::SelfFollowNotPermitted),
        ),
        signer(origin) is Some ==> s.follow2(origin, id, id).1 == Err::<(), DispatchError>(
            DispatchError::Module(Error::SelfFollowNotPermitted),
        ),
        signer(origin) is Some ==> s.follow3(origin, id, id).1 == Err::<(), DispatchError>(
            DispatchError::Module(Error::SelfFollowNotPermitted),
        ),
{
}

/// When each call succeeds: a signed origin, two different endpoints, the
/// nodes that the call needs, and an edge that is absent (to add) or present
/// (to remove); lists stay within their bound and a removal from a list or
/// from the double map needs a positive counter.
pub proof fn law_calls_succeed_exactly_when<A>(
    s: PalletState<A>,
    origin: Origin<A>,
    from: MessageSourceId,
    to: MessageSourceId,
)
    ensures
        s.add_node(origin, from).1 is Ok <==> signer(origin) is Some && !s.nodes.contains_key(from)
            && s.node_count < u64::MAX,
        s.follow(origin, from, to).1 is Ok <==> signer(origin) is Some && from != to && s.nodes.contains_key(
            from,
        ) && s.nodes.contains_key(to) && !has_target(s.following(from), to) && s.following(from).len()
            < s.config.max_follows,
        s.unfollow(origin, from, to).1 is Ok <==> signer(origin) is Some && from != to && s.nodes.contains_key(
            from,
        ) && s.nodes.contains_key(to) && s.edge_count > 0 && has_target(s.following(from), to),
        s.follow2(origin, from, to).1 is Ok <==> signer(origin) is Some && from != to && s.nodes.contains_key(
            from,
        ) && s.nodes.contains_key(to) && !s.graph2.contains_key((from, to)),
        s.unfollow2(origin, from, to).1 is Ok <==> signer(origin) is Some && from != to
            && s.graph2.contains_key((from, to)) && s.edge_count > 0,
        s.follow3(origin, from, to).1 is Ok <==> signer(origin) is Some && from != to && s.nodes.contains_key(
            from,
        ) && s.nodes.contains_key(to) && !s.tree(from).contains_key(storage_key(to)),
        s.unfollow3(origin, from, to).1 is Ok <==> signer(origin) is Some && from != to
            && s.nodes.contains_key(from) && s.tree(from).contains_key(storage_key(to)),
{
}

/// Each successful call reports itself, signed by its caller: a node added as
/// `NodeAdded(who, id)`, a follow in any store as `Followed(who, from, to)`,
/// an unfollow in any store as `Unfollowed(who, from, to)`; nothing else is
/// appended to the events.
pub proof fn law_calls_report_events<A>(
    s: PalletState<A>,
    who: A,
    from: MessageSourceId,
    to: MessageSourceId,
)
    ensures
        s.add_node(Origin::Signed(who), from).1 is Ok ==> s.add_node(Origin::Signed(who), from).0.events
            == s.events.push(Event::NodeAdded(who, from)),
        s.follow(Origin::Signed(who), from, to).1 is Ok ==> s.follow(Origin::Signed(who), from, to).0.events
            == s.events.push(Event::Followed(who, from, to)),
        s.follow2(Origin::Signed(who), from, to).1 is Ok ==> s.follow2(Origin::Signed(who), from, to).0.events
            == s.events.push(Event::Followed(who, from, to)),
        s.follow3(Origin::Signed(who), from, to).1 is Ok ==> s.follow3(Origin::Signed(who), from, to).0.events
            == s.events.push(Event::Followed(who, from, to)),
        s.unfollow(Origin::Signed(who), from, to).1 is Ok ==> s.unfollow(Origin::Signed(who), from, to).0.events
            == s.events.push(Event::Unfollowed(who, from, to)),
        s.unfollow2(Origin::Signed(who), from, to).1 is Ok ==> s.unfollow2(Origin::Signed(who), from, to).0.events
            == s.events.push(Event::Unfollowed(who, from, to)),
        s.unfollow3(Origin::Signed(who), from, to).1 is Ok ==> s.unfollow3(Origin::Signed(who), from, to).0.events
            == s.events.push(Event::Unfollowed(who, from, to)),
{
}

/// A successful double-map call adds or removes exactly the pair
/// `(from, to)`, with the default permission when it adds it, moves the
/// counter by one, and touches no other store.
pub proof fn law_double_map_calls_change_one_pair<A>(
    s: PalletState<A>,
    origin: Origin<A>,
    from: MessageSourceId,
    to: MessageSourceId,
)
    requires
        s.edge_count < u64::MAX,
    ensures
        ({
            let s1 = s.follow2(origin, from, to).0;
            s.follow2(origin, from, to).1 is Ok ==> {
                &&& s1.graph2.contains_key((from, to))
                &&& s1.graph2[(from, to)] == Permission { data: 0 }
                &&& forall|p: (MessageSourceId, MessageSourceId)| p != (from, to) ==> (#[trigger] s1.graph2.contains_key(p)
                    <==> s.graph2.contains_key(p)) && (s.graph2.contains_key(p) ==> s1.graph2[p] == s.graph2[p])
                &&& s1.edge_count == s.edge_count + 1
                &&& s1.graph == s.graph && s1.trees == s.trees && s1.nodes == s.nodes
                &&& s1.node_count == s.node_count
            }
        }),
        ({
            let s1 = s.unfollow2(origin, from, to).0;
            s.unfollow2(origin, from, to).1 is Ok ==> {
                &&& !s1.graph2.contains_key((from, to))
                &&& forall|p: (MessageSourceId, MessageSourceId)| p != (from, to) ==> (#[trigger] s1.graph2.contains_key(p)
                    <==> s.graph2.contains_key(p)) && (s.graph2.contains_key(p) ==> s1.graph2[p] == s.graph2[p])
                &&& s1.edge_count + 1 == s.edge_count
                &&& s1.graph == s.graph && s1.trees == s.trees && s1.nodes == s.nodes
                &&& s1.node_count == s.node_count
            }
        }),
{
}

/// A successful child-tree call writes or deletes exactly the key of `to`
/// in the tree of `from`, moves the counter by one (a counter at 0 stays
/// there on a removal), and touches no other tree or store.
pub proof fn law_child_tree_calls_change_one_key<A>(
    s: PalletState<A>,
    origin: Origin<A>,
    from: MessageSourceId,
    to: MessageSourceId,
)
    requires
        s.edge_count < u64::MAX,
    ensures
        ({
            let s1 = s.follow3(origin, from, to).0;
            s.follow3(origin, from, to).1 is Ok ==> {
                &&& s1.tree(from).contains_key(storage_key(to))
                &&& s1.tree(from)[storage_key(to)] == permission_bytes(Permission { data: 1 })
                &&& forall|k: Seq<u8>| k != storage_key(to) ==> (#[trigger] s1.tree(from).contains_key(k)
                    <==> s.tree(from).contains_key(k)) && (s.tree(from).contains_key(k) ==> s1.tree(from)[k] == s.tree(from)[k])
                &&& forall|x: MessageSourceId| x != from ==> #[trigger] s1.tree(x) == s.tree(x)
                &&& s1.edge_count == s.edge_count + 1
                &&& s1.graph == s.graph && s1.graph2 == s.graph2 && s1.nodes == s.nodes
            }
        }),
        ({
            let s1 = s.unfollow3(origin, from, to).0;
            s.unfollow3(origin, from, to).1 is Ok ==> {
                &&& !s1.tree(from).contains_key(storage_key(to))
                &&& forall|k: Seq<u8>| k != storage_key(to) ==> (#[trigger] s1.tree(from).contains_key(k)
                    <==> s.tree(from).contains_key(k)) && (s.tree(from).contains_key(k) ==> s1.tree(from)[k] == s.tree(from)[k])
                &&& forall|x: MessageSourceId| x != from ==> #[trigger] s1.tree(x) == s.tree(x)
                &&& (s.edge_count > 0 ==> s1.edge_count + 1 == s.edge_count)
                &&& (s.edge_count == 0 ==> s1.edge_count == 0)
                &&& s1.graph == s.graph && s1.graph2 == s.graph2 && s1.nodes == s.nodes
            }
        }),
{
}

/// A successful list call adds or removes exactly the target `to` in the
/// list of `from`, moves the counter by one, and touches no other list or
/// store; a node added is a node, counted once more.
pub proof fn law_list_calls_change_one_target<A>(
    s: PalletState<A>,
    origin: Origin<A>,
    from: MessageSourceId,
    to: MessageSourceId,
)
    requires
        s.edge_count < u64::MAX,
    ensures
        ({
            let s1 = s.follow(origin, from, to).0;
            s.follow(origin, from, to).1 is Ok ==> {
                &&& has_target(s1.following(from), to)
                &&& forall|t: MessageSourceId| t != to ==> (#[trigger] has_target(s1.following(from), t)
                    <==> has_target(s.following(from), t))
                &&& s1.following(from).len() == s.following(from).len() + 1
                &&& forall|x: MessageSourceId| x != from ==> #[trigger] s1.following(x) == s.following(x)
                &&& s1.edge_count == s.edge_count + 1
                &&& s1.graph2 == s.graph2 && s1.trees == s.trees && s1.nodes == s.nodes
            }
        }),
        ({
            let s1 = s.unfollow(origin, from, to).0;
            s.unfollow(origin, from, to).1 is Ok ==> {
                &&& !has_target(s1.following(from), to)
                &&& forall|t: MessageSourceId| t != to ==> (#[trigger] has_target(s1.following(from), t)
                    <==> has_target(s.following(from), t))
                &&& forall|x: MessageSourceId| x != from ==> #[trigger] s1.following(x) == s.following(x)
                &&& s1.edge_count + 1 == s.edge_count
                &&& s1.graph2 == s.graph2 && s1.trees == s.trees && s1.nodes == s.nodes
            }
        }),
        ({
            let s1 = s.add_node(origin, from).0;
            s.add_node(origin, from).1 is Ok ==> {
                &&& s1.nodes.contains_key(from)
                &&& forall|x: MessageSourceId| x != from ==> (#[trigger] s1.nodes.contains_key(x) <==> s.nodes.contains_key(x))
                &&& s1.node_count == s.node_count + 1
                &&& s1.graph == s.graph && s1.graph2 == s.graph2 && s1.trees == s.trees
                &&& s1.edge_count == s.edge_count
            }
        }),
{
    let e = Edge { static_id: to, permission: Permission { data: 0 } };
    if s.follow(origin, from, to).1 is Ok {
        let s1 = s.follow(origin, from, to).0;
        assert forall|t: MessageSourceId| #[trigger] has_target(s1.following(from), t) <==> (has_target(s.following(from), t) || t == to) by {
            lemma_insert_sorted_has(s.following(from), e, t);
        }
        lemma_insert_sorted_len(s.following(from), e);
    }
    if s.unfollow(origin, from, to).1 is Ok {
        let s1 = s.unfollow(origin, from, to).0;
        lemma_remove_target_drops(s.following(from), to);
        assert forall|t: MessageSourceId| t != to implies (#[trigger] has_target(s1.following(from), t)
            <==> has_target(s.following(from), t)) by {
            lemma_remove_target_keeps_others(s.following(from), to, t);
        }
    }
}

/// Every double-map pair joins two different registered nodes.
pub open spec fn double_map_closed<A>(s: PalletState<A>) -> bool {
    forall|p: (MessageSourceId, MessageSourceId)| #[trigger] s.graph2.contains_key(p) ==> p.0 != p.1
        && s.nodes.contains_key(p.0) && s.nodes.contains_key(p.1)
}

/// Every call, whatever it returns, keeps each double-map pair between two
/// different registered nodes.
pub proof fn law_calls_keep_double_map_closed<A>(
    s: PalletState<A>,
    origin: Origin<A>,
    from: MessageSourceId,
    to: MessageSourceId,
)
    requires
        double_map_closed(s),
    ensures
        double_map_closed(s.add_node(origin, from).0),
        double_map_closed(s.follow(origin, from, to).0),
        double_map_closed(s.unfollow(origin, from, to).0),
        double_map_closed(s.follow2(origin, from, to).0),
        double_map_closed(s.unfollow2(origin, from, to).0),
        double_map_closed(s.follow3(origin, from, to).0),
        double_map_closed(s.unfollow3(origin, from, to).0),
{
}

/// Every state that the calls reach keeps the invariant: sorted, bounded
/// adjacency lists and eight-byte child-tree keys.
pub proof fn law_calls_keep_invariant<A>(
    s: PalletState<A>,
    origin: Origin<A>,
    from: MessageSourceId,
    to: MessageSourceId,
)
    requires
        s.inv(),
    ensures
        s.add_node(origin, from).0.inv(),
        s.follow(origin, from, to).0.inv(),
        s.unfollow(origin, from, to).0.inv(),
        s.follow2(origin, from, to).0.inv(),
        s.unfollow2(origin, from, to).0.inv(),
        s.follow3(origin, from, to).0.inv(),
        s.unfollow3(origin, from, to).0.inv(),
{
    let e = Edge { static_id: to, permission: Permission { data: 0 } };
    if s.follow_check(from, to) is Ok {
        lemma_insert_sorted_sorted(s.following(from), e);
        let l = insert_sorted(s.following(from), e);
        let s1 = s.follow(origin, from, to).0;
        assert forall|id: MessageSourceId| #[trigger] s1.graph.contains_key(id) implies {
            &&& sorted_edges(s1.graph[id])
            &&& s1.graph[id].len() <= s1.config.max_follows
        } by {
            if id != from {
                assert(s.graph.contains_key(id));
            }
        }
    }
    if s.unfollow_check(from, to) is Ok {
        lemma_remove_target_sorted(s.following(from), to);
        let s1 = s.unfollow(origin, from, to).0;
        assert forall|id: MessageSourceId| #[trigger] s1.graph.contains_key(id) implies {
            &&& sorted_edges(s1.graph[id])
            &&& s1.graph[id].len() <= s1.config.max_follows
        } by {
            if id != from {
                assert(s.graph.contains_key(id));
            }
        }
    }
}

/// Every adjacency list points only at registered nodes, and never at the
/// node it belongs to.
pub open spec fn lists_closed<A>(s: PalletState<A>) -> bool {
    forall|x: MessageSourceId, t: MessageSourceId| #[trigger] has_target(s.following(x), t) ==> t != x
        && s.is_node(t)
}

/// Every call, whatever its result, keeps the adjacency lists sorted, within
/// the bound, free of their own node and pointing only at nodes.
pub proof fn law_calls_keep_lists_closed<A>(
    s: PalletState<A>,
    origin: Origin<A>,
    from: MessageSourceId,
    to: MessageSourceId,
)
    requires
        s.inv(),
        lists_closed(s),
    ensures
        s.add_node(origin, from).0.inv() && lists_closed(s.add_node(origin, from).0),
        s.follow(origin, from, to).0.inv() && lists_closed(s.follow(origin, from, to).0),
        s.unfollow(origin, from, to).0.inv() && lists_closed(s.unfollow(origin, from, to).0),
        s.follow2(origin, from, to).0.inv() && lists_closed(s.follow2(origin, from, to).0),
        s.unfollow2(origin, from, to).0.inv() && lists_closed(s.unfollow2(origin, from, to).0),
        s.follow3(origin, from, to).0.inv() && lists_closed(s.follow3(origin, from, to).0),
        s.unfollow3(origin, from, to).0.inv() && lists_closed(s.unfollow3(origin, from, to).0),
{
    law_calls_keep_invariant(s, origin, from, to);
    let e = Edge { static_id: to, permission: Permission { data: 0 } };
    let s0 = s.add_node(origin, from).0;
    assert forall|x: MessageSourceId, t: MessageSourceId| #[trigger] has_target(s0.following(x), t)
        implies t != x && s0.is_node(t) by {
        assert(s0.following(x) == s.following(x));
        assert(has_target(s.following(x), t));
    }
    let s1 = s.follow(origin, from, to).0;
    assert forall|x: MessageSourceId, t: MessageSourceId| #[trigger] has_target(s1.following(x), t)
        implies t != x && s1.is_node(t) by {
        if signer(origin) is Some && s.follow_check(from, to) is Ok && x == from {
            lemma_insert_sorted_has(s.following(from), e, t);
            if t != to {
                assert(has_target(s.following(x), t));
            }
        } else {
            assert(s1.following(x) == s.following(x));
            assert(has_target(s.following(x), t));
        }
    }
    let s2 = s.unfollow(origin, from, to).0;
    assert forall|x: MessageSourceId, t: MessageSourceId| #[trigger] has_target(s2.following(x), t)
        implies t != x && s2.is_node(t) by {
        if signer(origin) is Some && s.unfollow_check(from, to) is Ok && x == from {
            if t == to {
                lemma_remove_target_drops(s.following(from), to);
            } else {
                lemma_remove_target_keeps_others(s.following(from), to, t);
                assert(has_target(s.following(x), t));
            }
        } else {
            assert(s2.following(x) == s.following(x));
            assert(has_target(s.following(x), t));
        }
    }
    let s3 = s.follow2(origin, from, to).0;
    let s4 = s.unfollow2(origin, from, to).0;
    let s5 = s.follow3(origin, from, to).0;
    let s6 = s.unfollow3(origin, from, to).0;
    assert forall|x: MessageSourceId, t: MessageSourceId| #[trigger] has_target(s3.following(x), t)
        implies t != x && s3.is_node(t) by {
        assert(s3.following(x) == s.following(x));
        assert(has_target(s.following(x), t));
    }
    assert forall|x: MessageSourceId, t: MessageSourceId| #[trigger] has_target(s4.following(x), t)
        implies t != x && s4.is_node(t) by {
        assert(s4.following(x) == s.following(x));
        assert(has_target(s.following(x), t));
    }
    assert forall|x: MessageSourceId, t: MessageSourceId| #[trigger] has_target(s5.following(x), t)
        implies t != x && s5.is_node(t) by {
        assert(s5.following(x) == s.following(x));
        assert(has_target(s.following(x), t));
    }
    assert forall|x: MessageSourceId, t: MessageSourceId| #[trigger] has_target(s6.following(x), t)
        implies t != x && s6.is_node(t) by {
        assert(s6.following(x) == s.following(x));
        assert(has_target(s.following(x), t));
    }
}

/// Removing a target keeps a list sorted and never lengthens it.
pub proof fn lemma_remove_target_sorted(s: Seq<Edge>, id: MessageSourceId)
    requires
        sorted_edges(s),
    ensures
        sorted_edges(remove_target(s, id)),
        remove_target(s, id).len() <= s.len(),
        forall|x: MessageSourceId| has_target(remove_target(s, id), x) ==> has_target(s, x),
    decreases s.len(),
{
    if s.len() > 0 {
        let t = s.drop_first();
        assert(sorted_edges(t)) by {
            assert forall|i: int, j: int| 0 <= i < j < t.len() implies t[i].static_id < t[j].static_id by {
                assert(t[i] == s[i + 1] && t[j] == s[j + 1]);
            }
        }
        lemma_remove_target_sorted(t, id);
        let rt = remove_target(t, id);
        assert forall|x: MessageSourceId| has_target(rt, x) implies has_target(s, x) by {
            assert(has_target(t, x));
            let k = choose|k: int| 0 <= k < t.len() && t[k].static_id == x;
            assert(s[k + 1] == t[k]);
        }
        if s[0].static_id != id {
            let r = seq![s[0]] + rt;
            assert forall|i: int, j: int| 0 <= i < j < r.len() implies r[i].static_id < r[j].static_id by {
                if i > 0 {
                    assert(r[i] == rt[i - 1] && r[j] == rt[j - 1]);
                } else {
                    assert(r[j] == rt[j - 1]);
                    assert(has_target(rt, rt[j - 1].static_id));
                    assert(has_target(t, rt[j - 1].static_id));
                    let k = choose|k: int| 0 <= k < t.len() && t[k].static_id == rt[j - 1].static_id;
                    assert(s[k + 1] == t[k]);
                }
            }
            assert forall|x: MessageSourceId| has_target(r, x) implies has_target(s, x) by {
                let i = choose|i: int| 0 <= i < r.len() && r[i].static_id == x;
                if i == 0 {
                    assert(s[0].static_id == x);
                } else {
                    assert(r[i] == rt[i - 1]);
                    assert(has_target(rt, x));
                }
            }
        }
    }
}

/// `u` removes the key that `w` writes.
pub open spec fn undoes(u: DbChangeView, w: DbChangeView) -> bool {
    &&& u matches DbChangeView::Remove(k)
    &&& w matches DbChangeView::Write(k2, _)
    &&& k == k2
}

/// The transaction that undoes a write removes exactly the keys that the
/// write sets, in the same order.
pub proof fn law_inverted_tx_undoes(changes: Seq<TrieChange>, n: int)
    requires
        0 <= n <= changes.len(),
    ensures
        converted(changes, true, n).len() == converted(changes, false, n).len(),
        forall|i: int| 0 <= i < converted(changes, true, n).len() ==> undoes(
            #[trigger] converted(changes, true, n)[i],
            converted(changes, false, n)[i],
        ),
    decreases n,
{
    if n > 0 {
        law_inverted_tx_undoes(changes, n - 1);
    }
}

/// A database change applied to the database's contents.
pub open spec fn apply_change(db: Map<Seq<u8>, Seq<u8>>, c: DbChangeView) -> Map<Seq<u8>, Seq<u8>> {
    match c {
        DbChangeView::Write(k, v) => db.insert(k, v),
        DbChangeView::Remove(k) => db.remove(k),
    }
}

/// A transaction applied to the database's contents, change by change.
pub open spec fn apply_tx(db: Map<Seq<u8>, Seq<u8>>, tx: Seq<DbChangeView>) -> Map<Seq<u8>, Seq<u8>>
    decreases tx.len(),
{
    if tx.len() == 0 {
        db
    } else {
        apply_change(apply_tx(db, tx.drop_last()), tx.last())
    }
}

/// The keys that the first `n` trie changes insert.
pub open spec fn inserted_keys(changes: Seq<TrieChange>, n: int) -> Set<Seq<u8>> {
    Set::new(|k: Seq<u8>| exists|i: int| 0 <= i < n && #[trigger] changes[i].rc > 0 && changes[i].key@ == k)
}

/// Applying the write transaction adds the inserted keys and leaves every
/// other key as it was.
#[verifier::spinoff_prover]
pub proof fn lemma_apply_writes(db: Map<Seq<u8>, Seq<u8>>, changes: Seq<TrieChange>, n: int)
    requires
        0 <= n <= changes.len(),
    ensures
        forall|k: Seq<u8>| #[trigger] apply_tx(db, converted(changes, false, n)).contains_key(k)
            <==> db.contains_key(k) || inserted_keys(changes, n).contains(k),
        forall|k: Seq<u8>| db.contains_key(k) && !inserted_keys(changes, n).contains(k)
            ==> #[trigger] apply_tx(db, converted(changes, false, n))[k] == db[k],
    decreases n,
{
    if n > 0 {
        lemma_apply_writes(db, changes, n - 1);
        let c = changes[n - 1];
        let t = converted(changes, false, n);
        let prev = apply_tx(db, converted(changes, false, n - 1));
        if c.rc > 0 {
            assert(t =~= converted(changes, false, n - 1).push(DbChangeView::Write(c.key@, c.value@)));
            assert(t.drop_last() =~= converted(changes, false, n - 1));
            assert(apply_tx(db, t) == prev.insert(c.key@, c.value@));
            assert(inserted_keys(changes, n) =~= inserted_keys(changes, n - 1).insert(c.key@)) by {
                assert forall|k: Seq<u8>| #[trigger] inserted_keys(changes, n).contains(k)
                    implies inserted_keys(changes, n - 1).insert(c.key@).contains(k) by {
                    let i = choose|i: int| 0 <= i < n && #[trigger] changes[i].rc > 0 && changes[i].key@ == k;
                    if i < n - 1 {
                        assert(inserted_keys(changes, n - 1).contains(k));
                    }
                }
                assert(changes[n - 1].rc > 0);
            }
        } else {
            assert(inserted_keys(changes, n) =~= inserted_keys(changes, n - 1)) by {
                assert forall|k: Seq<u8>| #[trigger] inserted_keys(changes, n).contains(k)
                    implies inserted_keys(changes, n - 1).contains(k) by {
                    let i = choose|i: int| 0 <= i < n && #[trigger] changes[i].rc > 0 && changes[i].key@ == k;
                    assert(i < n - 1);
                }
            }
        }
    } else {
        assert(inserted_keys(changes, 0) =~= Set::<Seq<u8>>::empty());
    }
}

/// Applying the inverted transaction removes the inserted keys and leaves
/// every other key as it was.
#[verifier::spinoff_prover]
pub proof fn lemma_apply_removals(db: Map<Seq<u8>, Seq<u8>>, changes: Seq<TrieChange>, n: int)
    requires
        0 <= n <= changes.len(),
    ensures
        forall|k: Seq<u8>| #[trigger] apply_tx(db, converted(changes, true, n)).contains_key(k)
            <==> db.contains_key(k) && !inserted_keys(changes, n).contains(k),
        forall|k: Seq<u8>| #[trigger] apply_tx(db, converted(changes, true, n)).contains_key(k)
            ==> apply_tx(db, converted(changes, true, n))[k] == db[k],
    decreases n,
{
    if n > 0 {
        lemma_apply_removals(db, changes, n - 1);
        let c = changes[n - 1];
        let t = converted(changes, true, n);
        let prev = apply_tx(db, converted(changes, true, n - 1));
        if c.rc > 0 {
            assert(t =~= converted(changes, true, n - 1).push(DbChangeView::Remove(c.key@)));
            assert(t.drop_last() =~= converted(changes, true, n - 1));
            assert(apply_tx(db, t) == prev.remove(c.key@));
            assert(inserted_keys(changes, n) =~= inserted_keys(changes, n - 1).insert(c.key@)) by {
                assert forall|k: Seq<u8>| #[trigger] inserted_keys(changes, n).contains(k)
                    implies inserted_keys(changes, n - 1).insert(c.key@).contains(k) by {
                    let i = choose|i: int| 0 <= i < n && #[trigger] changes[i].rc > 0 && changes[i].key@ == k;
                    if i < n - 1 {
                        assert(inserted_keys(changes, n - 1).contains(k));
                    }
                }
                assert(changes[n - 1].rc > 0);
            }
        } else {
            assert(inserted_keys(changes, n) =~= inserted_keys(changes, n - 1)) by {
                assert forall|k: Seq<u8>| #[trigger] inserted_keys(changes, n).contains(k)
                    implies inserted_keys(changes, n - 1).contains(k) by {
                    let i = choose|i: int| 0 <= i < n && #[trigger] changes[i].rc > 0 && changes[i].key@ == k;
                    assert(i < n - 1);
                }
            }
        }
    } else {
        assert(inserted_keys(changes, 0) =~= Set::<Seq<u8>>::empty());
    }
}

/// Committing the transaction of a trie update and then its inverted
/// transaction gives back the database as it was, when none of the keys that
/// the update inserts was in the database before.
pub proof fn law_inverted_tx_restores(db: Map<Seq<u8>, Seq<u8>>, changes: Seq<TrieChange>)
    requires
        forall|i: int| 0 <= i < changes.len() && #[trigger] changes[i].rc > 0 ==> !db.contains_key(changes[i].key@),
    ensures
        apply_tx(
            apply_tx(db, converted(changes, false, changes.len() as int)),
            converted(changes, true, changes.len() as int),
        ) == db,
{
    let n = changes.len() as int;
    let w = apply_tx(db, converted(changes, false, n));
    lemma_apply_writes(db, changes, n);
    lemma_apply_removals(w, changes, n);
    let r = apply_tx(w, converted(changes, true, n));
    assert forall|k: Seq<u8>| db.contains_key(k) implies !inserted_keys(changes, n).contains(k) by {
        if inserted_keys(changes, n).contains(k) {
            let i = choose|i: int| 0 <= i < n && #[trigger] changes[i].rc > 0 && changes[i].key@ == k;
            assert(!db.contains_key(changes[i].key@));
        }
    }
    assert forall|k: Seq<u8>| #[trigger] r.contains_key(k) <==> db.contains_key(k) by {
        assert(w.contains_key(k) <==> db.contains_key(k) || inserted_keys(changes, n).contains(k));
    }
    assert forall|k: Seq<u8>| #[trigger] r.contains_key(k) implies r[k] == db[k] by {
        assert(w.contains_key(k));
        assert(w[k] == db[k]);
    }
    assert(r =~= db);
}

/// Removing a target keeps every other target.
pub proof fn lemma_remove_target_keeps_others(s: Seq<Edge>, id: MessageSourceId, x: MessageSourceId)
    requires
        x != id,
    ensures
        has_target(remove_target(s, id), x) <==> has_target(s, x),
    decreases s.len(),
{
    if s.len() > 0 {
        let t = s.drop_first();
        lemma_remove_target_keeps_others(t, id, x);
        let rt = remove_target(t, id);
        if has_target(t, x) {
            let k = choose|k: int| 0 <= k < t.len() && t[k].static_id == x;
            assert(s[k + 1] == t[k]);
        }
        if has_target(s, x) {
            let k = choose|k: int| 0 <= k < s.len() && s[k].static_id == x;
            if k > 0 {
                assert(t[k - 1] == s[k]);
            }
        }
        if s[0].static_id != id {
            let r = seq![s[0]] + rt;
            assert(remove_target(s, id) == r);
            if has_target(rt, x) {
                let k = choose|k: int| 0 <= k < rt.len() && rt[k].static_id == x;
                assert(r[k + 1] == rt[k]);
            }
            if has_target(r, x) {
                let k = choose|k: int| 0 <= k < r.len() && r[k].static_id == x;
                if k > 0 {
                    assert(rt[k - 1] == r[k]);
                }
            }
            if s[0].static_id == x {
                assert(r[0].static_id == x);
            }
        }
    }
}

/// A sorted list no longer points at a target once it is removed.
pub proof fn lemma_remove_target_drops(s: Seq<Edge>, id: MessageSourceId)
    ensures
        !has_target(remove_target(s, id), id),
    decreases s.len(),
{
    if s.len() > 0 {
        let t = s.drop_first();
        lemma_remove_target_drops(t, id);
        if s[0].static_id != id {
            let rt = remove_target(t, id);
            let r = seq![s[0]] + rt;
            assert(remove_target(s, id) == r);
            if has_target(r, id) {
                let k = choose|k: int| 0 <= k < r.len() && r[k].static_id == id;
                assert(k > 0);
                assert(rt[k - 1] == r[k]);
            }
        }
    }
}

/// The edges that the adjacency lists hold, as `(from, to)` pairs.
pub open spec fn list_edges<A>(s: PalletState<A>) -> Set<(MessageSourceId, MessageSourceId)> {
    Set::new(|p: (MessageSourceId, MessageSourceId)| has_target(s.following(p.0), p.1))
}

/// The edges that the child trees hold, as `(from, key)` pairs.
pub open spec fn tree_edges<A>(s: PalletState<A>) -> Set<(MessageSourceId, Seq<u8>)> {
    Set::new(|p: (MessageSourceId, Seq<u8>)| s.tree(p.0).contains_key(p.1))
}

/// The edge counter counts the edges in existence: those of the adjacency
/// lists, of the double map and of the child trees.
pub open spec fn edges_counted<A>(s: PalletState<A>) -> bool {
    &&& list_edges(s).finite()
    &&& s.graph2.dom().finite()
    &&& tree_edges(s).finite()
    &&& s.edge_count == list_edges(s).len() + s.graph2.dom().len() + tree_edges(s).len()
}

/// Every call keeps the edge counter equal to the number of edges in
/// existence, once it is.
pub proof fn law_edge_count_counts_edges<A>(
    s: PalletState<A>,
    origin: Origin<A>,
    from: MessageSourceId,
    to: MessageSourceId,
)
    requires
        edges_counted(s),
    ensures
        edges_counted(s.add_node(origin, from).0),
        s.edge_count < u64::MAX ==> edges_counted(s.follow(origin, from, to).0),
        edges_counted(s.unfollow(origin, from, to).0),
        s.edge_count < u64::MAX ==> edges_counted(s.follow2(origin, from, to).0),
        edges_counted(s.unfollow2(origin, from, to).0),
        s.edge_count < u64::MAX ==> edges_counted(s.follow3(origin, from, to).0),
        edges_counted(s.unfollow3(origin, from, to).0),
{
    let e = Edge { static_id: to, permission: Permission { data: 0 } };
    let s0 = s.add_node(origin, from).0;
    assert(list_edges(s0) =~= list_edges(s));
    assert(tree_edges(s0) =~= tree_edges(s));
    let s3 = s.follow3(origin, from, to).0;
    assert(list_edges(s3) =~= list_edges(s));
    let s4 = s.unfollow3(origin, from, to).0;
    assert(list_edges(s4) =~= list_edges(s));
    let k = storage_key(to);
    if signer(origin) is Some && s.follow3_check(from, to) is Ok {
        assert(tree_edges(s3) =~= tree_edges(s).insert((from, k)));
        assert(!tree_edges(s).contains((from, k)));
    } else {
        assert(tree_edges(s3) =~= tree_edges(s));
    }
    if signer(origin) is Some && s.unfollow3_check(from, to) is Ok {
        assert(tree_edges(s4) =~= tree_edges(s).remove((from, k)));
        assert(tree_edges(s).contains((from, k)));
    } else {
        assert(tree_edges(s4) =~= tree_edges(s));
    }
    assert(tree_edges(s.follow(origin, from, to).0) =~= tree_edges(s));
    assert(tree_edges(s.unfollow(origin, from, to).0) =~= tree_edges(s));
    assert(tree_edges(s.follow2(origin, from, to).0) =~= tree_edges(s));
    assert(tree_edges(s.unfollow2(origin, from, to).0) =~= tree_edges(s));
    if signer(origin) is Some && s.follow_check(from, to) is Ok && s.edge_count < u64::MAX {
        let s1 = s.follow(origin, from, to).0;
        assert(list_edges(s1) =~= list_edges(s).insert((from, to))) by {
            assert forall|p: (MessageSourceId, MessageSourceId)| list_edges(s1).contains(p) <==> list_edges(s).insert((from, to)).contains(p) by {
                if p.0 == from {
                    lemma_insert_sorted_has(s.following(from), e, p.1);
                }
            }
        }
        assert(!list_edges(s).contains((from, to)));
    }
    if signer(origin) is Some && s.unfollow_check(from, to) is Ok {
        let s1 = s.unfollow(origin, from, to).0;
        assert(list_edges(s1) =~= list_edges(s).remove((from, to))) by {
            assert forall|p: (MessageSourceId, MessageSourceId)| list_edges(s1).contains(p) <==> list_edges(s).remove((from, to)).contains(p) by {
                if p.0 == from {
                    if p.1 == to {
                        lemma_remove_target_drops(s.following(from), to);
                    } else {
                        lemma_remove_target_keeps_others(s.following(from), to, p.1);
                    }
                }
            }
        }
        assert(list_edges(s).contains((from, to)));
    }
    if signer(origin) is Some && s.follow2_check(from, to) is Ok && s.edge_count < u64::MAX {
        let s1 = s.follow2(origin, from, to).0;
        assert(list_edges(s1) =~= list_edges(s));
        assert(s1.graph2.dom() =~= s.graph2.dom().insert((from, to)));
    }
    if signer(origin) is Some && s.unfollow2_check(from, to) is Ok {
        let s1 = s.unfollow2(origin, from, to).0;
        assert(list_edges(s1) =~= list_edges(s));
        assert(s1.graph2.dom() =~= s.graph2.dom().remove((from, to)));
    }
}

/// The lengths of the adjacency lists, added up over the nodes that have one.
pub open spec fn list_length_total<A>(s: PalletState<A>) -> nat {
    s.graph.dom().fold(0nat, |acc: nat, id: MessageSourceId| acc + s.graph[id].len())
}

/// The list edges that start at a node of `ids`.
pub open spec fn list_edges_from<A>(s: PalletState<A>, ids: Set<MessageSourceId>) -> Set<
    (MessageSourceId, MessageSourceId),
> {
    Set::new(|p: (MessageSourceId, MessageSourceId)| ids.contains(p.0) && has_target(s.following(p.0), p.1))
}

/// A sorted list holds as many distinct targets as it has edges, so the
/// list edges out of one node number the length of its list.
pub proof fn lemma_list_edges_of_node<A>(s: PalletState<A>, a: MessageSourceId)
    requires
        sorted_edges(s.following(a)),
    ensures
        list_edges_from(s, set![a]).finite(),
        list_edges_from(s, set![a]).len() == s.following(a).len(),
{
    let l = s.following(a);
    let ts = targets(l);
    assert(ts.no_duplicates()) by {
        assert forall|i: int, j: int| 0 <= i < ts.len() && 0 <= j < ts.len() && i != j implies ts[i] != ts[j] by {
            if i < j {
                assert(l[i].static_id < l[j].static_id);
            } else {
                assert(l[j].static_id < l[i].static_id);
            }
        }
    }
    ts.unique_seq_to_set();
    let f = |t: MessageSourceId| (a, t);
    assert(injective_on(f, ts.to_set()));
    assert(ts.to_set().map(f) =~= list_edges_from(s, set![a])) by {
        assert forall|p: (MessageSourceId, MessageSourceId)| #[trigger] list_edges_from(s, set![a]).contains(p)
            implies ts.to_set().map(f).contains(p) by {
            let i = choose|i: int| 0 <= i < l.len() && l[i].static_id == p.1;
            assert(ts[i] == p.1);
            assert(ts.to_set().contains(p.1));
            assert(f(p.1) == p);
        }
        assert forall|p: (MessageSourceId, MessageSourceId)| #[trigger] ts.to_set().map(f).contains(p)
            implies list_edges_from(s, set![a]).contains(p) by {
            let t = choose|t: MessageSourceId| ts.to_set().contains(t) && f(t) == p;
            let i = choose|i: int| 0 <= i < ts.len() && ts[i] == t;
            assert(l[i].static_id == t);
        }
    }
    lemma_map_size(ts.to_set(), list_edges_from(s, set![a]), f);
}

/// Over any finite set of nodes with sorted lists, the list edges out of
/// them number the lengths of their lists added up.
pub proof fn lemma_list_edges_from_count<A>(s: PalletState<A>, ids: Set<MessageSourceId>)
    requires
        ids.finite(),
        forall|id: MessageSourceId| #[trigger] ids.contains(id) ==> s.graph.contains_key(id) && sorted_edges(s.graph[id]),
    ensures
        list_edges_from(s, ids).finite(),
        list_edges_from(s, ids).len() == ids.fold(0nat, |acc: nat, id: MessageSourceId| acc + s.graph[id].len()),
    decreases ids.len(),
{
    let f = |acc: nat, id: MessageSourceId| acc + s.graph[id].len();
    if ids.len() == 0 {
        assert(ids =~= Set::<MessageSourceId>::empty());
        assert(list_edges_from(s, ids) =~= Set::<(MessageSourceId, MessageSourceId)>::empty());
        vstd::set::fold::lemma_fold_empty(0nat, f);
    } else {
        let a = ids.choose();
        let rest = ids.remove(a);
        lemma_list_edges_from_count(s, rest);
        lemma_list_edges_of_node(s, a);
        assert(list_edges_from(s, ids) =~= list_edges_from(s, rest) + list_edges_from(s, set![a]));
        assert(list_edges_from(s, rest).disjoint(list_edges_from(s, set![a])));
        vstd::set_lib::lemma_set_disjoint_lens(list_edges_from(s, rest), list_edges_from(s, set![a]));
        assert(vstd::set::fold::is_fun_commutative(f));
        vstd::set::fold::lemma_fold_insert(rest, 0nat, f, a);
        assert(rest.insert(a) =~= ids);
    }
}

/// With every adjacency list sorted, the list edges number the lengths of
/// the lists added up: where the counter counts the edges, it is that total,
/// plus the double map's size, plus the child-tree keys.
pub proof fn law_edge_count_sums_lengths<A>(s: PalletState<A>)
    requires
        s.inv(),
        s.graph.dom().finite(),
    ensures
        list_edges(s).finite(),
        list_edges(s).len() == list_length_total(s),
        edges_counted(s) ==> s.edge_count == list_length_total(s) + s.graph2.dom().len() + tree_edges(s).len(),
{
    lemma_list_edges_from_count(s, s.graph.dom());
    assert(list_edges_from(s, s.graph.dom()) =~= list_edges(s)) by {
        assert forall|p: (MessageSourceId, MessageSourceId)| #[trigger] list_edges(s).contains(p)
            implies s.graph.dom().contains(p.0) by {
            if !s.graph.contains_key(p.0) {
                assert(s.following(p.0) == Seq::<Edge>::empty());
            }
        }
    }
}

/// The edge counter is the lengths of the adjacency lists added up, plus the
/// double map's size, plus the child-tree keys.
pub open spec fn edges_summed<A>(s: PalletState<A>) -> bool {
    &&& s.graph.dom().finite()
    &&& s.graph2.dom().finite()
    &&& tree_edges(s).finite()
    &&& s.edge_count == list_length_total(s) + s.graph2.dom().len() + tree_edges(s).len()
}

/// Every call keeps the edge counter equal to the lengths of the adjacency
/// lists added up, plus the double map's size, plus the child-tree keys, in
/// every state that keeps the invariant.
pub proof fn law_edge_count_sums_lengths_kept<A>(
    s: PalletState<A>,
    origin: Origin<A>,
    from: MessageSourceId,
    to: MessageSourceId,
)
    requires
        s.inv(),
        edges_summed(s),
    ensures
        edges_summed(s.add_node(origin, from).0),
        s.edge_count < u64::MAX ==> edges_summed(s.follow(origin, from, to).0),
        edges_summed(s.unfollow(origin, from, to).0),
        s.edge_count < u64::MAX ==> edges_summed(s.follow2(origin, from, to).0),
        edges_summed(s.unfollow2(origin, from, to).0),
        s.edge_count < u64::MAX ==> edges_summed(s.follow3(origin, from, to).0),
        edges_summed(s.unfollow3(origin, from, to).0),
{
    law_edge_count_sums_lengths(s);
    law_edge_count_counts_edges(s, origin, from, to);
    law_calls_keep_invariant(s, origin, from, to);
    let s0 = s.add_node(origin, from).0;
    let s1 = s.follow(origin, from, to).0;
    let s2 = s.unfollow(origin, from, to).0;
    let s3 = s.follow2(origin, from, to).0;
    let s4 = s.unfollow2(origin, from, to).0;
    let s5 = s.follow3(origin, from, to).0;
    let s6 = s.unfollow3(origin, from, to).0;
    assert(s0.graph.dom() =~= s.graph.dom());
    assert(s1.graph.dom() =~= s.graph.dom() || s1.graph.dom() =~= s.graph.dom().insert(from));
    assert(s2.graph.dom() =~= s.graph.dom() || s2.graph.dom() =~= s.graph.dom().insert(from));
    assert(s3.graph.dom() =~= s.graph.dom());
    assert(s4.graph.dom() =~= s.graph.dom());
    assert(s5.graph.dom() =~= s.graph.dom());
    assert(s6.graph.dom() =~= s.graph.dom());
    law_edge_count_sums_lengths(s0);
    law_edge_count_sums_lengths(s1);
    law_edge_count_sums_lengths(s2);
    law_edge_count_sums_lengths(s3);
    law_edge_count_sums_lengths(s4);
    law_edge_count_sums_lengths(s5);
    law_edge_count_sums_lengths(s6);
}

/// The edge counter is the lengths of the adjacency lists added up, plus the
/// double map's size: the count of a graph that keeps no child-tree edges.
pub open spec fn edges_summed_without_trees<A>(s: PalletState<A>) -> bool {
    &&& s.graph.dom().finite()
    &&& s.graph2.dom().finite()
    &&& s.edge_count == list_length_total(s) + s.graph2.dom().len()
}

/// The calls on the adjacency lists and on the double map keep the edge
/// counter equal to the lengths of the lists added up plus the double map's
/// size, whatever they return.
pub proof fn law_list_and_map_calls_keep_sum<A>(
    s: PalletState<A>,
    origin: Origin<A>,
    from: MessageSourceId,
    to: MessageSourceId,
)
    requires
        s.inv(),
        edges_summed_without_trees(s),
    ensures
        edges_summed_without_trees(s.add_node(origin, from).0),
        s.edge_count < u64::MAX ==> edges_summed_without_trees(s.follow(origin, from, to).0),
        edges_summed_without_trees(s.unfollow(origin, from, to).0),
        s.edge_count < u64::MAX ==> edges_summed_without_trees(s.follow2(origin, from, to).0),
        edges_summed_without_trees(s.unfollow2(origin, from, to).0),
{
    law_calls_keep_invariant(s, origin, from, to);
    law_edge_count_sums_lengths(s);
    let e = Edge { static_id: to, permission: Permission { data: 0 } };
    let s0 = s.add_node(origin, from).0;
    let s1 = s.follow(origin, from, to).0;
    let s2 = s.unfollow(origin, from, to).0;
    let s3 = s.follow2(origin, from, to).0;
    let s4 = s.unfollow2(origin, from, to).0;
    assert(s0.graph == s.graph);
    assert(s3.graph == s.graph);
    assert(s4.graph == s.graph);
    assert(list_length_total(s0) == list_length_total(s));
    assert(list_length_total(s3) == list_length_total(s));
    assert(list_length_total(s4) == list_length_total(s));
    assert(s1.graph.dom() =~= s.graph.dom() || s1.graph.dom() =~= s.graph.dom().insert(from));
    assert(s2.graph.dom() =~= s.graph.dom() || s2.graph.dom() =~= s.graph.dom().insert(from));
    law_edge_count_sums_lengths(s1);
    law_edge_count_sums_lengths(s2);
    if signer(origin) is Some && s.follow_check(from, to) is Ok {
        assert(list_edges(s1) =~= list_edges(s).insert((from, to))) by {
            assert forall|p: (MessageSourceId, MessageSourceId)| list_edges(s1).contains(p) <==> list_edges(s).insert((from, to)).contains(p) by {
                if p.0 == from {
                    lemma_insert_sorted_has(s.following(from), e, p.1);
                }
            }
        }
        assert(!list_edges(s).contains((from, to)));
    } else {
        assert(s1.graph == s.graph);
    }
    if signer(origin) is Some && s.unfollow_check(from, to) is Ok {
        assert(list_edges(s2) =~= list_edges(s).remove((from, to))) by {
            assert forall|p: (MessageSourceId, MessageSourceId)| list_edges(s2).contains(p) <==> list_edges(s).remove((from, to)).contains(p) by {
                if p.0 == from {
                    if p.1 == to {
                        lemma_remove_target_drops(s.following(from), to);
                    } else {
                        lemma_remove_target_keeps_others(s.following(from), to, p.1);
                    }
                }
            }
        }
        assert(list_edges(s).contains((from, to)));
    } else {
        assert(s2.graph == s.graph);
    }
    if signer(origin) is Some && s.follow2_check(from, to) is Ok {
        assert(s3.graph2.dom() =~= s.graph2.dom().insert((from, to)));
    }
    if signer(origin) is Some && s.unfollow2_check(from, to) is Ok {
        assert(s4.graph2.dom() =~= s.graph2.dom().remove((from, to)));
    }
}

/// The node counter counts the registered nodes.
pub open spec fn nodes_counted<A>(s: PalletState<A>) -> bool {
    &&& s.nodes.dom().finite()
    &&& s.node_count == s.nodes.dom().len()
}

/// Registering a node keeps the node counter equal to the number of nodes,
/// and no other call touches either.
pub proof fn law_node_count_counts_nodes<A>(
    s: PalletState<A>,
    origin: Origin<A>,
    from: MessageSourceId,
    to: MessageSourceId,
)
    requires
        nodes_counted(s),
    ensures
        nodes_counted(s.add_node(origin, from).0),
        nodes_counted(s.follow(origin, from, to).0),
        nodes_counted(s.unfollow(origin, from, to).0),
        nodes_counted(s.follow2(origin, from, to).0),
        nodes_counted(s.unfollow2(origin, from, to).0),
        nodes_counted(s.follow3(origin, from, to).0),
        nodes_counted(s.unfollow3(origin, from, to).0),
{
    if signer(origin) is Some && s.add_node_check(from) is Ok {
        let s1 = s.add_node(origin, from).0;
        assert(s1.nodes.dom() =~= s.nodes.dom().insert(from));
    }
}

/// For every finite set of targets there is a sorted list of
/// default-permission edges to exactly those targets.
pub proof fn lemma_plain_list_exists(ids: Set<MessageSourceId>)
    requires
        ids.finite(),
    ensures
        plain_sorted_list(plain_list_to(ids), ids),
    decreases ids.len(),
{
    if ids.len() == 0 {
        let l = Seq::<Edge>::empty();
        assert(ids =~= Set::<MessageSourceId>::empty());
        assert(targets(l).to_set() =~= ids);
        assert(plain_sorted_list(l, ids));
    } else {
        let x = ids.choose();
        let rest = ids.remove(x);
        lemma_plain_list_exists(rest);
        let l0 = plain_list_to(rest);
        let e = Edge { static_id: x, permission: Permission { data: 0 } };
        assert(!has_target(l0, x)) by {
            if has_target(l0, x) {
                let i = choose|i: int| 0 <= i < l0.len() && l0[i].static_id == x;
                assert(targets(l0)[i] == x);
                assert(targets(l0).to_set().contains(x));
            }
        }
        lemma_insert_sorted_sorted(l0, e);
        let l = insert_sorted(l0, e);
        assert(targets(l).to_set() =~= ids) by {
            assert forall|t: MessageSourceId| targets(l).to_set().contains(t) <==> ids.contains(t) by {
                lemma_insert_sorted_has(l0, e, t);
                if targets(l).to_set().contains(t) {
                    let i = choose|i: int| 0 <= i < targets(l).len() && targets(l)[i] == t;
                    assert(l[i].static_id == t);
                }
                if has_target(l, t) {
                    let i = choose|i: int| 0 <= i < l.len() && l[i].static_id == t;
                    assert(targets(l)[i] == t);
                }
                if has_target(l0, t) {
                    let i = choose|i: int| 0 <= i < l0.len() && l0[i].static_id == t;
                    assert(targets(l0)[i] == t);
                }
                if targets(l0).to_set().contains(t) {
                    let i = choose|i: int| 0 <= i < targets(l0).len() && targets(l0)[i] == t;
                    assert(l0[i].static_id == t);
                }
            }
        }
        assert forall|i: int| 0 <= i < l.len() implies #[trigger] l[i].permission == Permission { data: 0 } by {
            lemma_insert_sorted_elements(l0, e, i);
        }
        assert(plain_sorted_list(l, ids));
    }
}

/// Every edge of `insert_sorted(s, e)` is `e` or an edge of `s`.
pub proof fn lemma_insert_sorted_elements(s: Seq<Edge>, e: Edge, i: int)
    requires
        0 <= i < insert_sorted(s, e).len(),
    ensures
        insert_sorted(s, e)[i] == e || exists|j: int| 0 <= j < s.len() && s[j] == insert_sorted(s, e)[i],
    decreases s.len(),
{
    let r = insert_sorted(s, e);
    if s.len() == 0 {
    } else if e.static_id <= s[0].static_id {
        if i > 0 {
            assert(r[i] == s[i - 1]);
        }
    } else {
        let t = s.drop_first();
        if i > 0 {
            lemma_insert_sorted_elements(t, e, i - 1);
            assert(r[i] == insert_sorted(t, e)[i - 1]);
            if insert_sorted(t, e)[i - 1] != e {
                let j = choose|j: int| 0 <= j < t.len() && t[j] == insert_sorted(t, e)[i - 1];
                assert(s[j + 1] == t[j]);
            }
        } else {
            assert(r[0] == s[0]);
        }
    }
}

/// The ids below `n` are `n` many.
pub proof fn lemma_ids_below(n: nat)
    requires
        n <= u64::MAX + 1,
    ensures
        Set::new(|id: MessageSourceId| id < n).finite(),
        Set::new(|id: MessageSourceId| id < n).len() == n,
    decreases n,
{
    if n == 0 {
        assert(Set::new(|id: MessageSourceId| id < n) =~= Set::<MessageSourceId>::empty());
    } else {
        let m = (n - 1) as nat;
        lemma_ids_below(m);
        assert(Set::new(|id: MessageSourceId| id < n) =~= Set::new(|id: MessageSourceId| id < m).insert(
            m as MessageSourceId,
        ));
    }
}

/// Genesis lays out `min(edges, nodes)` distinct targets per node: the
/// double-map pairs once the nodes below `n` and the first `k` edges of node
/// `n` are done number `n * min(edges, nodes) + min(k, nodes)`.
#[verifier::spinoff_prover]
pub proof fn lemma_genesis_pairs_count(g: GenesisConfig, n: int, k: int)
    requires
        0 <= n <= g.nodes,
        0 <= k <= g.edges,
        g.nodes > 0 || (n == 0 && k == 0),
    ensures
        g.pairs_before(n, k).dom().finite(),
        g.pairs_before(n, k).dom().len() == n * min(g.edges as int, g.nodes as int) + min(k, g.nodes as int),
    decreases n, k,
{
    let m = min(g.edges as int, g.nodes as int);
    if k > 0 {
        lemma_genesis_pairs_count(g, n, k - 1);
        g.lemma_pairs_step(n, k - 1);
        g.lemma_target_seen(n, k - 1);
        let t = g.target(n, k - 1);
        let before = g.pairs_before(n, k - 1).dom();
        let p = (n as MessageSourceId, t);
        assert(g.pairs_before(n, k).dom() =~= before.insert(p));
        assert(before.contains(p) <==> g.targets_before(n, k - 1).contains(t));
        if k - 1 >= g.nodes {
            assert(before.insert(p) =~= before);
            assert(min(k, g.nodes as int) == min(k - 1, g.nodes as int));
        } else {
            assert(!before.contains(p));
            assert(before.insert(p).len() == before.len() + 1);
            assert(min(k, g.nodes as int) == min(k - 1, g.nodes as int) + 1);
        }
    } else if n > 0 {
        lemma_genesis_pairs_count(g, n - 1, g.edges as int);
        assert(g.pairs_before(n, 0).dom() =~= g.pairs_before(n - 1, g.edges as int).dom()) by {
            assert(g.targets_before(n, 0) =~= Set::<MessageSourceId>::empty());
        }
        assert((n - 1) * m + m == n * m) by (nonlinear_arith);
    } else {
        assert(g.targets_before(0, 0) =~= Set::<MessageSourceId>::empty());
        assert(g.pairs_before(0, 0).dom() =~= Set::<(MessageSourceId, MessageSourceId)>::empty());
    }
}

/// Genesis counts its nodes and the edges it lays out, in whichever store:
/// each node gets one edge per distinct target.
pub proof fn law_genesis_counts<A>(g: GenesisConfig, config: Config)
    requires
        g.can_build(config),
    ensures
        nodes_counted(g.genesis_state::<A>(config)),
        edges_counted(g.genesis_state::<A>(config)),
{
    let gs = g.genesis_state::<A>(config);
    lemma_ids_below(g.nodes as nat);
    assert(gs.nodes.dom() =~= Set::new(|id: MessageSourceId| id < g.nodes));
    if g.nodes > 0 {
        lemma_genesis_pairs_count(g, g.nodes as int, 0);
    } else {
        lemma_genesis_pairs_count(g, 0, 0);
    }
    let pairs = g.pairs_before(g.nodes as int, 0).dom();
    let m = min(g.edges as int, g.nodes as int);
    assert(g.nodes * m + min(0, g.nodes as int) == g.nodes * m);
    assert(0 <= g.nodes * m <= 0xffff_ffff * 0xffff_ffffu64) by (nonlinear_arith)
        requires 0 <= m <= g.nodes <= 0xffff_ffff;
    assert(g.edge_total() == g.nodes * m);
    assert(gs.edge_count == pairs.len());
    if g.structure == 1 {
        assert(list_edges(gs) =~= pairs) by {
            assert forall|p: (MessageSourceId, MessageSourceId)| list_edges(gs).contains(p) <==> pairs.contains(p) by {
                if p.0 < g.nodes {
                    let ids = g.target_set(p.0 as int);
                    lemma_targets_finite(g, p.0 as int, g.edges as int);
                    lemma_plain_list_exists(ids);
                    let l = plain_list_to(ids);
                    assert(gs.following(p.0) == l);
                    if has_target(l, p.1) {
                        let i = choose|i: int| 0 <= i < l.len() && l[i].static_id == p.1;
                        assert(targets(l)[i] == p.1);
                        assert(targets(l).to_set().contains(p.1));
                    }
                    if ids.contains(p.1) {
                        assert(targets(l).to_set().contains(p.1));
                        let i = choose|i: int| 0 <= i < targets(l).len() && targets(l)[i] == p.1;
                        assert(l[i].static_id == p.1);
                    }
                } else {
                    assert(gs.following(p.0) == Seq::<Edge>::empty());
                }
            }
        }
    } else {
        assert(list_edges(gs) =~= Set::<(MessageSourceId, MessageSourceId)>::empty());
    }
    if g.structure == 0 {
        assert(gs.graph2.dom() =~= pairs);
    } else {
        assert(gs.graph2.dom() =~= Set::<(MessageSourceId, MessageSourceId)>::empty());
    }
    if g.structure != 0 && g.structure != 1 {
        lemma_genesis_tree_edges::<A>(g, config);
    } else {
        assert(tree_edges(gs) =~= Set::<(MessageSourceId, Seq<u8>)>::empty());
    }
}

/// In the child-tree layout, genesis stores one key per double-map pair:
/// the key of each target, under its node.
pub proof fn lemma_genesis_tree_edges<A>(g: GenesisConfig, config: Config)
    requires
        g.structure != 0,
        g.structure != 1,
        g.pairs_before(g.nodes as int, 0).dom().finite(),
    ensures
        tree_edges(g.genesis_state::<A>(config)).finite(),
        tree_edges(g.genesis_state::<A>(config)).len() == g.pairs_before(g.nodes as int, 0).dom().len(),
{
    let gs = g.genesis_state::<A>(config);
    let pairs = g.pairs_before(g.nodes as int, 0).dom();
    let f = |p: (MessageSourceId, MessageSourceId)| (p.0, storage_key(p.1));
    assert(injective_on(f, pairs)) by {
        assert forall|x1: (MessageSourceId, MessageSourceId), x2: (MessageSourceId, MessageSourceId)|
            pairs.contains(x1) && pairs.contains(x2) && #[trigger] f(x1) == #[trigger] f(x2) implies x1 == x2 by {
            lemma_u64_round_trip(x1.1);
            lemma_u64_round_trip(x2.1);
        }
    }
    assert(pairs.map(f) =~= tree_edges(gs)) by {
        assert forall|q: (MessageSourceId, Seq<u8>)| tree_edges(gs).contains(q) implies #[trigger] pairs.map(f).contains(q) by {
            let t = choose|t: MessageSourceId| #[trigger] g.targets_before(q.0 as int, g.edges as int).contains(t) && q.1 == storage_key(t);
            assert(pairs.contains((q.0, t)));
            assert(f((q.0, t)) == q);
        }
        assert forall|q: (MessageSourceId, Seq<u8>)| #[trigger] pairs.map(f).contains(q) implies tree_edges(gs).contains(q) by {
            let p = choose|p: (MessageSourceId, MessageSourceId)| pairs.contains(p) && f(p) == q;
            assert(g.targets_before(p.0 as int, g.edges as int).contains(p.1));
            assert(gs.tree(q.0).contains_key(q.1));
        }
    }
    lemma_map_size(pairs, tree_edges(gs), f);
}

/// The targets of the first `k` edges of a node are finitely many.
pub proof fn lemma_targets_finite(g: GenesisConfig, n: int, k: int)
    requires
        0 <= k,
    ensures
        g.targets_before(n, k).finite(),
    decreases k,
{
    if k == 0 {
        assert(g.targets_before(n, 0) =~= Set::<MessageSourceId>::empty());
    } else {
        lemma_targets_finite(g, n, k - 1);
        assert(g.targets_before(n, k) =~= g.targets_before(n, k - 1).insert(g.target(n, k - 1)));
    }
}

} // verus!
