//! Adjacency lists: the edges out of a node, kept sorted by target id with no
//! target twice, as the pallet's binary search requires.

use vstd::prelude::*;
use crate::types::{Edge, MessageSourceId, Permission};

verus! {

/// Targets strictly increase along the list (so no target occurs twice).
pub open spec fn sorted_edges(s: Seq<Edge>) -> bool {
    forall|i: int, j: int| 0 <= i < j < s.len() ==> s[i].static_id < s[j].static_id
}

/// Some edge of the list points at `id`.
pub open spec fn has_target(s: Seq<Edge>, id: MessageSourceId) -> bool {
    exists|i: int| 0 <= i < s.len() && s[i].static_id == id
}

/// The list with `e` inserted before the first edge whose target is not
/// smaller than that of `e`.
pub open spec fn insert_sorted(s: Seq<Edge>, e: Edge) -> Seq<Edge>
    decreases s.len(),
{
    if s.len() == 0 {
        seq![e]
    } else if e.static_id <= s[0].static_id {
        seq![e] + s
    } else {
        seq![s[0]] + insert_sorted(s.drop_first(), e)
    }
}

/// The list without the edges that point at `id`.
pub open spec fn remove_target(s: Seq<Edge>, id: MessageSourceId) -> Seq<Edge>
    decreases s.len(),
{
    if s.len() == 0 {
        s
    } else if s[0].static_id == id {
        remove_target(s.drop_first(), id)
    } else {
        seq![s[0]] + remove_target(s.drop_first(), id)
    }
}

/// The targets of the list, in order.
pub open spec fn targets(s: Seq<Edge>) -> Seq<MessageSourceId> {
    s.map_values(|e: Edge| e.static_id)
}

/// `s` is sorted by target, its targets are exactly `ids`, and every edge
/// carries the default permission.
pub open spec fn plain_sorted_list(s: Seq<Edge>, ids: Set<MessageSourceId>) -> bool {
    &&& sorted_edges(s)
    &&& targets(s).to_set() == ids
    &&& forall|i: int| 0 <= i < s.len() ==> #[trigger] s[i].permission == Permission { data: 0 }
}

/// The sorted list of default-permission edges to the targets `ids`.
pub open spec fn plain_list_to(ids: Set<MessageSourceId>) -> Seq<Edge> {
    choose|s: Seq<Edge>| plain_sorted_list(s, ids)
}

/// At most one sorted list of default-permission edges has a given set of targets.
pub proof fn lemma_plain_list_unique(s1: Seq<Edge>, s2: Seq<Edge>, ids: Set<MessageSourceId>)
    requires
        plain_sorted_list(s1, ids),
        plain_sorted_list(s2, ids),
    ensures
        s1 == s2,
    decreases s1.len(),
{
    let g1 = targets(s1);
    let g2 = targets(s2);
    if s1.len() == 0 {
        if s2.len() > 0 {
            assert(g2.to_set().contains(g2[0]));
            assert(g1.to_set().contains(g2[0]));
        }
        assert(s1 =~= s2);
    } else {
        assert(g1.to_set().contains(g1[0]));
        assert(s2.len() > 0);
        assert(g2.to_set().contains(g2[0]));
        let j = choose|j: int| 0 <= j < g2.len() && g2[j] == g1[0];
        let i = choose|i: int| 0 <= i < g1.len() && g1[i] == g2[0];
        assert(s1[0].static_id == s2[0].static_id) by {
            if s1[0].static_id != s2[0].static_id {
                assert(i > 0 && j > 0);
                assert(s1[0].static_id < s1[i].static_id);
                assert(s2[0].static_id < s2[j].static_id);
            }
        }
        assert(s1[0].permission == Permission { data: 0 });
        assert(s2[0].permission == Permission { data: 0 });
        let x = s1[0].static_id;
        let t1 = s1.drop_first();
        let t2 = s2.drop_first();
        let rest = ids.remove(x);
        assert(targets(t1).to_set() =~= rest) by {
            assert forall|y: MessageSourceId| targets(t1).to_set().contains(y) implies rest.contains(y) by {
                let k = choose|k: int| 0 <= k < targets(t1).len() && targets(t1)[k] == y;
                assert(g1[k + 1] == y);
                assert(s1[0].static_id < s1[k + 1].static_id);
            }
            assert forall|y: MessageSourceId| rest.contains(y) implies targets(t1).to_set().contains(y) by {
                let k = choose|k: int| 0 <= k < g1.len() && g1[k] == y;
                assert(k > 0);
                assert(targets(t1)[k - 1] == y);
            }
        }
        assert(targets(t2).to_set() =~= rest) by {
            assert forall|y: MessageSourceId| targets(t2).to_set().contains(y) implies rest.contains(y) by {
                let k = choose|k: int| 0 <= k < targets(t2).len() && targets(t2)[k] == y;
                assert(g2[k + 1] == y);
                assert(s2[0].static_id < s2[k + 1].static_id);
            }
            assert forall|y: MessageSourceId| rest.contains(y) implies targets(t2).to_set().contains(y) by {
                let k = choose|k: int| 0 <= k < g2.len() && g2[k] == y;
                assert(k > 0);
                assert(targets(t2)[k - 1] == y);
            }
        }
        assert forall|k: int| 0 <= k < t1.len() implies #[trigger] t1[k].permission == Permission {
            data: 0,
        } by {
            assert(t1[k] == s1[k + 1]);
        }
        assert forall|k: int| 0 <= k < t2.len() implies #[trigger] t2[k].permission == Permission {
            data: 0,
        } by {
            assert(t2[k] == s2[k + 1]);
        }
        lemma_plain_list_unique(t1, t2, rest);
        assert(s1 =~= s2) by {
            assert forall|k: int| 0 <= k < s1.len() implies s1[k] == s2[k] by {
                if k > 0 {
                    assert(s1[k] == t1[k - 1]);
                    assert(s2[k] == t2[k - 1]);
                }
            }
        }
    }
}

/// Inserting at the position that keeps the list sorted is `insert_sorted`.
proof fn lemma_insert_at(s: Seq<Edge>, e: Edge, p: int)
    requires
        0 <= p <= s.len(),
        forall|j: int| 0 <= j < p ==> s[j].static_id < e.static_id,
        forall|j: int| p <= j < s.len() ==> s[j].static_id > e.static_id,
    ensures
        s.insert(p, e) == insert_sorted(s, e),
    decreases s.len(),
{
    if s.len() == 0 {
        assert(s.insert(p, e) =~= seq![e]);
    } else if e.static_id <= s[0].static_id {
        assert(p == 0);
        assert(s.insert(p, e) =~= seq![e] + s);
    } else {
        assert(p >= 1);
        let t = s.drop_first();
        lemma_insert_at(t, e, p - 1);
        assert(s.insert(p, e) =~= seq![s[0]] + t.insert(p - 1, e));
    }
}

/// In a sorted list, removing the one edge that points at `id` is `remove_target`.
proof fn lemma_remove_at(s: Seq<Edge>, id: MessageSourceId, p: int)
    requires
        sorted_edges(s),
        0 <= p < s.len(),
        s[p].static_id == id,
    ensures
        s.remove(p) == remove_target(s, id),
    decreases s.len(),
{
    let t = s.drop_first();
    if p == 0 {
        lemma_remove_absent(t, id);
        assert(s.remove(0) =~= t);
    } else {
        lemma_remove_at(t, id, p - 1);
        assert(s.remove(p) =~= seq![s[0]] + t.remove(p - 1));
    }
}

/// Removing a target that does not occur leaves the list as it is.
pub proof fn lemma_remove_absent(s: Seq<Edge>, id: MessageSourceId)
    requires
        forall|j: int| 0 <= j < s.len() ==> s[j].static_id != id,
    ensures
        remove_target(s, id) == s,
    decreases s.len(),
{
    if s.len() > 0 {
        lemma_remove_absent(s.drop_first(), id);
        assert(seq![s[0]] + s.drop_first() =~= s);
    }
}

/// Binary search by target id: `Ok(i)` when edge `i` points at `id`, else
/// `Err(i)` with `i` the position at which an edge to `id` keeps the list
/// sorted.
pub fn search_edges(v: &Vec<Edge>, id: MessageSourceId) -> (r: Result<usize, usize>)
    requires
        sorted_edges(v@),
    ensures
        match r {
            Ok(i) => i < v.len() && v@[i as int].static_id == id,
            Err(i) => {
                &&& i <= v.len()
                &&& forall|j: int| 0 <= j < i ==> v@[j].static_id < id
                &&& forall|j: int| i <= j < v.len() ==> v@[j].static_id > id
            },
        },
        r is Ok <==> has_target(v@, id),
{
    let mut lo: usize = 0;
    let mut hi: usize = v.len();
    while lo < hi
        invariant
            lo <= hi <= v.len(),
            sorted_edges(v@),
            forall|j: int| 0 <= j < lo ==> v@[j].static_id < id,
            forall|j: int| hi <= j < v.len() ==> v@[j].static_id > id,
        decreases hi - lo,
    {
        let mid = lo + (hi - lo) / 2;
        let t = v[mid].static_id;
        if t == id {
            return Ok(mid);
        } else if t < id {
            lo = mid + 1;
        } else {
            hi = mid;
        }
    }
    Err(lo)
}

/// Inserts `e` at its sorted place, given that its target is absent.
pub fn insert_edge(v: &mut Vec<Edge>, pos: usize, e: Edge)
    requires
        sorted_edges(old(v)@),
        pos <= old(v).len(),
        forall|j: int| 0 <= j < pos ==> old(v)@[j].static_id < e.static_id,
        forall|j: int| pos <= j < old(v).len() ==> old(v)@[j].static_id > e.static_id,
    ensures
        final(v)@ == insert_sorted(old(v)@, e),
        final(v)@ == old(v)@.insert(pos as int, e),
        sorted_edges(final(v)@),
        final(v).len() == old(v).len() + 1,
{
    proof {
        lemma_insert_at(old(v)@, e, pos as int);
    }
    v.insert(pos, e);
}

/// Removes the edge at `pos`, which points at `id`.
pub fn remove_edge(v: &mut Vec<Edge>, pos: usize, id: MessageSourceId)
    requires
        sorted_edges(old(v)@),
        pos < old(v).len(),
        old(v)@[pos as int].static_id == id,
    ensures
        final(v)@ == remove_target(old(v)@, id),
        sorted_edges(final(v)@),
        final(v).len() == old(v).len() - 1,
{
    proof {
        lemma_remove_at(old(v)@, id, pos as int);
    }
    v.remove(pos);
}

} // verus!
