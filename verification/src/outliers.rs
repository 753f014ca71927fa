//! The slowest measurements of a storage benchmark: a bounded double-ended
//! priority queue keeps the largest samples seen so far and hands them out
//! slowest first.

use vstd::prelude::*;
use vstd::multiset::Multiset;
use min_max_heap::MinMaxHeap;

verus! {

broadcast use {vstd::multiset::group_multiset_properties, vstd::seq_lib::group_to_multiset_ensures};

/// A measurement: its duration in nanoseconds, and the sequence number that
/// tells apart measurements of equal duration. Samples are ordered as tuples.
pub type Sample = (u128, u64);

/// The order of samples: by duration, then by sequence number.
pub open spec fn sample_le(a: Sample, b: Sample) -> bool {
    a.0 < b.0 || (a.0 == b.0 && a.1 <= b.1)
}

#[verifier::external_type_specification]
#[verifier::external_body]
#[verifier::reject_recursive_types(T)]
pub struct ExMinMaxHeap<T>(MinMaxHeap<T>);

/// What a heap holds.
pub uninterp spec fn heap_items(h: MinMaxHeap<Sample>) -> Multiset<Sample>;

/// `MinMaxHeap::with_capacity`: a new, empty heap.
#[verifier::external_body]
fn heap_with_capacity(len: usize) -> (h: MinMaxHeap<Sample>)
    ensures
        heap_items(h) == Multiset::<Sample>::empty(),
{
    MinMaxHeap::with_capacity(len)
}

/// `MinMaxHeap::len`: the number of items held.
#[verifier::external_body]
fn heap_len(h: &MinMaxHeap<Sample>) -> (n: usize)
    ensures
        n == heap_items(*h).len(),
{
    h.len()
}

/// `MinMaxHeap::push`: adds one item.
#[verifier::external_body]
fn heap_push(h: &mut MinMaxHeap<Sample>, x: Sample)
    ensures
        heap_items(*final(h)) == heap_items(*old(h)).insert(x),
{
    h.push(x)
}

/// `MinMaxHeap::pop_min`: removes and returns a smallest item, or `None` on
/// an empty heap.
#[verifier::external_body]
fn heap_pop_min(h: &mut MinMaxHeap<Sample>) -> (r: Option<Sample>)
    ensures
        match r {
            None => heap_items(*old(h)).len() == 0 && heap_items(*final(h)) == heap_items(*old(h)),
            Some(x) => {
                &&& heap_items(*old(h)).count(x) > 0
                &&& forall|y: Sample| heap_items(*old(h)).count(y) > 0 ==> sample_le(x, y)
                &&& heap_items(*final(h)) == heap_items(*old(h)).remove(x)
            },
        },
{
    h.pop_min()
}

/// `MinMaxHeap::pop_max`: removes and returns a largest item, or `None` on
/// an empty heap.
#[verifier::external_body]
fn heap_pop_max(h: &mut MinMaxHeap<Sample>) -> (r: Option<Sample>)
    ensures
        match r {
            None => heap_items(*old(h)).len() == 0 && heap_items(*final(h)) == heap_items(*old(h)),
            Some(x) => {
                &&& heap_items(*old(h)).count(x) > 0
                &&& forall|y: Sample| heap_items(*old(h)).count(y) > 0 ==> sample_le(y, x)
                &&& heap_items(*final(h)) == heap_items(*old(h)).remove(x)
            },
        },
{
    h.pop_max()
}

/// The state of a tracker: its bound, the samples it keeps, and those it
/// has let go.
pub struct OutlierView {
    pub limit: nat,
    pub kept: Multiset<Sample>,
    pub dropped: Multiset<Sample>,
}

impl OutlierView {
    /// The kept samples are the `limit` largest of all seen: there are
    /// `min(limit, seen)` of them, and none that was let go exceeds any that
    /// is kept.
    pub open spec fn keeps_slowest(self) -> bool {
        &&& self.kept.len() == if self.kept.len() + self.dropped.len() < self.limit {
            self.kept.len() + self.dropped.len()
        } else {
            self.limit
        }
        &&& forall|d: Sample, k: Sample| #[trigger]
            self.dropped.count(d) > 0 && #[trigger] self.kept.count(k) > 0 ==> sample_le(d, k)
    }

    /// Everything the tracker has been given.
    pub open spec fn seen(self) -> Multiset<Sample> {
        self.kept.add(self.dropped)
    }
}

/// Letting go of a smallest sample after adding `x` keeps the largest ones.
proof fn lemma_evict(k0: Multiset<Sample>, d0: Multiset<Sample>, x: Sample, v: Sample, limit: nat)
    requires
        (OutlierView { limit, kept: k0, dropped: d0 }).keeps_slowest(),
        k0.insert(x).len() > limit,
        k0.insert(x).count(v) > 0,
        forall|y: Sample| k0.insert(x).count(y) > 0 ==> sample_le(v, y),
    ensures
        (OutlierView { limit, kept: k0.insert(x).remove(v), dropped: d0.insert(v) }).keeps_slowest(),
        k0.insert(x).remove(v).len() == k0.len(),
{
    let k1 = k0.insert(x);
    let k2 = k1.remove(v);
    let d1 = d0.insert(v);
    let old_v = OutlierView { limit, kept: k0, dropped: d0 };
    assert(forall|d: Sample, k: Sample| d0.count(d) > 0 && k0.count(k) > 0 ==> sample_le(d, k)) by {
        assert forall|d: Sample, k: Sample| d0.count(d) > 0 && k0.count(k) > 0 implies sample_le(d, k) by {
            assert(old_v.dropped.count(d) > 0 && old_v.kept.count(k) > 0);
        }
    }
    assert forall|d: Sample, k: Sample| #[trigger] d1.count(d) > 0 && #[trigger] k2.count(k) > 0 implies sample_le(
        d,
        k,
    ) by {
        assert(k1.count(k) > 0);
        assert(sample_le(v, k));
        if d != v {
            assert(d0.count(d) > 0);
            if k0.count(k) == 0 {
                assert(k == x);
                if v != x {
                    assert(k0.count(v) > 0);
                    assert(sample_le(d, v));
                } else {
                    assert(k1.count(x) == k0.count(x) + 1);
                    assert(k2.count(x) == k1.count(x) - 1);
                    assert(k0.count(x) > 0);
                }
            }
        }
    }
    assert(k2.len() == k0.len());
}

/// Keeps the `limit` slowest samples of a benchmark run.
pub struct OutlierTracker {
    heap: MinMaxHeap<Sample>,
    limit: usize,
    dropped: Ghost<Multiset<Sample>>,
}

impl View for OutlierTracker {
    type V = OutlierView;

    closed spec fn view(&self) -> OutlierView {
        OutlierView { limit: self.limit as nat, kept: heap_items(self.heap), dropped: self.dropped@ }
    }
}

impl OutlierTracker {
    /// A tracker always keeps the largest of the samples it was given.
    #[verifier::type_invariant]
    closed spec fn keeps(&self) -> bool {
        self@.keeps_slowest()
    }

    /// A tracker that keeps at most `limit` samples.
    pub fn new(limit: usize) -> (t: Self)
        ensures
            t@.limit == limit,
            t@.kept == Multiset::<Sample>::empty(),
            t@.dropped == Multiset::<Sample>::empty(),
            t@.keeps_slowest(),
    {
        OutlierTracker { heap: heap_with_capacity(limit), limit, dropped: Ghost(Multiset::empty()) }
    }

    /// Number of samples kept.
    pub fn len(&self) -> (n: usize)
        ensures
            n == self@.kept.len(),
    {
        heap_len(&self.heap)
    }

    /// Records a sample: it is kept, and when that takes the tracker over its
    /// bound the smallest kept sample is let go and returned.
    pub fn record(&mut self, x: Sample) -> (evicted: Option<Sample>)
        ensures
            final(self)@.keeps_slowest(),
            final(self)@.limit == old(self)@.limit,
            final(self)@.seen() == old(self)@.seen().insert(x),
            evicted is Some <==> old(self)@.kept.len() + 1 > old(self)@.limit,
            match evicted {
                None => final(self)@.kept == old(self)@.kept.insert(x) && final(self)@.dropped
                    == old(self)@.dropped,
                Some(m) => {
                    &&& old(self)@.kept.insert(x).count(m) > 0
                    &&& forall|y: Sample| old(self)@.kept.insert(x).count(y) > 0 ==> sample_le(m, y)
                    &&& final(self)@.kept == old(self)@.kept.insert(x).remove(m)
                    &&& final(self)@.dropped == old(self)@.dropped.insert(m)
                },
            },
    {
        proof {
            use_type_invariant(&*self);
        }
        let mut current = OutlierTracker::new(self.limit);
        std::mem::swap(self, &mut current);
        let OutlierTracker { mut heap, limit, dropped } = current;
        let ghost k0 = heap_items(heap);
        let ghost d0 = dropped@;
        heap_push(&mut heap, x);
        if heap_len(&heap) > limit {
            let m = heap_pop_min(&mut heap);
            match m {
                Some(v) => {
                    proof {
                        lemma_evict(k0, d0, x, v, limit as nat);
                        assert(heap_items(heap) == k0.insert(x).remove(v));
                    }
                    *self = OutlierTracker { heap, limit, dropped: Ghost(d0.insert(v)) };
                    proof {
                        assert(self@.seen() =~= k0.add(d0).insert(x));
                    }
                    Some(v)
                },
                None => {
                    proof {
                        assert(false);
                    }
                    None
                },
            }
        } else {
            proof {
                assert(d0.len() == 0);
                assert forall|d: Sample| d0.count(d) == 0 by {
                }
                assert forall|d: Sample, k: Sample| #[trigger]
                    d0.count(d) > 0 && #[trigger] heap_items(heap).count(k) > 0 implies sample_le(d, k) by {
                }
            }
            *self = OutlierTracker { heap, limit, dropped: Ghost(d0) };
            proof {
                assert(self@.seen() =~= k0.add(d0).insert(x));
            }
            None
        }
    }

    /// Hands out the kept samples, largest first.
    pub fn into_descending(self) -> (r: Vec<Sample>)
        ensures
            self@.keeps_slowest(),
            r@.to_multiset() == self@.kept,
            forall|i: int, j: int| 0 <= i < j < r@.len() ==> sample_le(r@[j], r@[i]),
    {
        proof {
            use_type_invariant(&self);
        }
        let mut heap = self.heap;
        let ghost k0 = heap_items(heap);
        let mut out: Vec<Sample> = Vec::new();
        proof {
            assert(out@.to_multiset() =~= Multiset::<Sample>::empty());
        }
        while heap_len(&heap) > 0
            invariant
                out@.to_multiset().add(heap_items(heap)) == k0,
                forall|i: int, j: int| 0 <= i < j < out@.len() ==> sample_le(out@[j], out@[i]),
                forall|i: int, y: Sample| 0 <= i < out@.len() && #[trigger] heap_items(heap).count(y) > 0
                    ==> sample_le(y, #[trigger] out@[i]),
            decreases heap_items(heap).len(),
        {
            let ghost h0 = heap_items(heap);
            let m = heap_pop_max(&mut heap);
            match m {
                Some(v) => {
                    let ghost o0 = out@;
                    out.push(v);
                    proof {
                        assert(out@ == o0.push(v));
                        assert(out@.to_multiset() =~= o0.to_multiset().insert(v));
                        assert(out@.to_multiset().add(heap_items(heap)) =~= k0);
                    }
                },
                None => {
                    proof {
                        assert(false);
                    }
                },
            }
        }
        proof {
            assert(heap_items(heap) =~= Multiset::<Sample>::empty());
            assert(out@.to_multiset().add(heap_items(heap)) =~= out@.to_multiset());
        }
        out
    }
}

} // verus!
