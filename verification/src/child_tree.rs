//! A node's child tree: a byte-keyed store that, like a trie, holds each key
//! at most once and hands its keys out in lexicographic order.

use vstd::prelude::*;

verus! {

/// `a` sorts strictly before `b` in lexicographic byte order: at the first
/// position where they differ `a` holds the smaller byte, or `a` is a proper
/// prefix of `b`.
pub open spec fn lex_lt(a: Seq<u8>, b: Seq<u8>) -> bool {
    exists|k: int| #[trigger] lex_split(a, b, k)
}

/// `k` is where `a` and `b` part, with `a` on the smaller side.
pub open spec fn lex_split(a: Seq<u8>, b: Seq<u8>, k: int) -> bool {
    &&& 0 <= k <= a.len()
    &&& k <= b.len()
    &&& forall|j: int| 0 <= j < k ==> a[j] == b[j]
    &&& ((k == a.len() && k < b.len()) || (k < a.len() && k < b.len() && a[k] < b[k]))
}

/// Lexicographic order never puts a key before itself.
pub proof fn lemma_lex_irreflexive(a: Seq<u8>)
    ensures
        !lex_lt(a, a),
{
}

/// Lexicographic order is transitive.
pub proof fn lemma_lex_transitive(a: Seq<u8>, b: Seq<u8>, c: Seq<u8>)
    requires
        lex_lt(a, b),
        lex_lt(b, c),
    ensures
        lex_lt(a, c),
{
    let k1 = choose|k: int| lex_split(a, b, k);
    let k2 = choose|k: int| lex_split(b, c, k);
    if k1 < k2 {
        assert(lex_split(a, c, k1));
    } else if k2 < k1 {
        assert(lex_split(a, c, k2));
    } else {
        assert(lex_split(a, c, k1));
    }
}

/// Keys strictly increase along the sequence.
pub open spec fn keys_sorted(keys: Seq<Seq<u8>>) -> bool {
    forall|i: int, j: int| 0 <= i < j < keys.len() ==> lex_lt(#[trigger] keys[i], #[trigger] keys[j])
}

/// The keys of `m` in increasing lexicographic order, each once.
pub open spec fn ordered_keys(m: Map<Seq<u8>, Seq<u8>>) -> Seq<Seq<u8>> {
    choose|s: Seq<Seq<u8>>| keys_sorted(s) && s.to_set() == m.dom()
}

/// Two sorted key sequences with the same keys are the same sequence.
pub proof fn lemma_sorted_unique(s1: Seq<Seq<u8>>, s2: Seq<Seq<u8>>)
    requires
        keys_sorted(s1),
        keys_sorted(s2),
        s1.to_set() == s2.to_set(),
    ensures
        s1 == s2,
    decreases s1.len(),
{
    if s1.len() == 0 {
        if s2.len() > 0 {
            assert(s2.to_set().contains(s2[0]));
        }
        assert(s1 =~= s2);
    } else {
        assert(s1.to_set().contains(s1[0]));
        assert(s2.to_set().contains(s1[0]));
        assert(s2.len() > 0);
        assert(s2.to_set().contains(s2[0]));
        let j = choose|j: int| 0 <= j < s2.len() && s2[j] == s1[0];
        let i = choose|i: int| 0 <= i < s1.len() && s1[i] == s2[0];
        if s1[0] != s2[0] {
            assert(i > 0 && j > 0);
            lemma_lex_asymmetric(s1[0], s1[i]);
        }
        let t1 = s1.drop_first();
        let t2 = s2.drop_first();
        assert forall|k: int| 0 < k < s1.len() implies #[trigger] s1[k] != s1[0] by {
            lemma_lex_asymmetric(s1[0], s1[k]);
        }
        assert forall|k: int| 0 < k < s2.len() implies #[trigger] s2[k] != s2[0] by {
            lemma_lex_asymmetric(s2[0], s2[k]);
        }
        assert(t1.to_set() =~= s1.to_set().remove(s1[0])) by {
            assert forall|x: Seq<u8>| t1.to_set().contains(x) implies s1.to_set().remove(
                s1[0],
            ).contains(x) by {
                let k = choose|k: int| 0 <= k < t1.len() && t1[k] == x;
                assert(s1[k + 1] == x);
            }
            assert forall|x: Seq<u8>| s1.to_set().remove(s1[0]).contains(x) implies t1.to_set().contains(
                x,
            ) by {
                let k = choose|k: int| 0 <= k < s1.len() && s1[k] == x;
                assert(k > 0);
                assert(t1[k - 1] == x);
            }
        }
        assert(t2.to_set() =~= s2.to_set().remove(s2[0])) by {
            assert forall|x: Seq<u8>| t2.to_set().contains(x) implies s2.to_set().remove(
                s2[0],
            ).contains(x) by {
                let k = choose|k: int| 0 <= k < t2.len() && t2[k] == x;
                assert(s2[k + 1] == x);
            }
            assert forall|x: Seq<u8>| s2.to_set().remove(s2[0]).contains(x) implies t2.to_set().contains(
                x,
            ) by {
                let k = choose|k: int| 0 <= k < s2.len() && s2[k] == x;
                assert(k > 0);
                assert(t2[k - 1] == x);
            }
        }
        assert(keys_sorted(t1)) by {
            assert forall|a: int, b: int| 0 <= a < b < t1.len() implies lex_lt(
                #[trigger] t1[a],
                #[trigger] t1[b],
            ) by {
                assert(t1[a] == s1[a + 1] && t1[b] == s1[b + 1]);
            }
        }
        assert(keys_sorted(t2)) by {
            assert forall|a: int, b: int| 0 <= a < b < t2.len() implies lex_lt(
                #[trigger] t2[a],
                #[trigger] t2[b],
            ) by {
                assert(t2[a] == s2[a + 1] && t2[b] == s2[b + 1]);
            }
        }
        lemma_sorted_unique(t1, t2);
        assert(s1 =~= s2) by {
            assert forall|k: int| 0 <= k < s1.len() implies s1[k] == s2[k] by {
                if k > 0 {
                    assert(s1[k] == t1[k - 1]);
                    assert(s2[k] == t2[k - 1]);
                }
            }
        }
    }
}

/// Result of comparing two byte strings.
#[derive(Clone, Copy, PartialEq, Eq, Structural, Debug)]
pub enum ByteOrder {
    Less,
    Equal,
    Greater,
}

/// Compares two byte strings lexicographically.
pub fn compare_bytes(a: &Vec<u8>, b: &Vec<u8>) -> (r: ByteOrder)
    ensures
        r == ByteOrder::Less <==> lex_lt(a@, b@),
        r == ByteOrder::Equal <==> a@ == b@,
        r == ByteOrder::Greater <==> lex_lt(b@, a@),
{
    let mut i: usize = 0;
    while i < a.len() && i < b.len()
        invariant
            i <= a.len(),
            i <= b.len(),
            forall|j: int| 0 <= j < i ==> a@[j] == b@[j],
        decreases a.len() - i,
    {
        if a[i] < b[i] {
            proof {
                assert(lex_split(a@, b@, i as int));
                lemma_lex_asymmetric(a@, b@);
            }
            return ByteOrder::Less;
        } else if a[i] > b[i] {
            proof {
                assert(lex_split(b@, a@, i as int));
                lemma_lex_asymmetric(b@, a@);
            }
            return ByteOrder::Greater;
        }
        i = i + 1;
    }
    if a.len() < b.len() {
        proof {
            assert(lex_split(a@, b@, i as int));
            lemma_lex_asymmetric(a@, b@);
        }
        ByteOrder::Less
    } else if a.len() > b.len() {
        proof {
            assert(lex_split(b@, a@, i as int));
            lemma_lex_asymmetric(b@, a@);
        }
        ByteOrder::Greater
    } else {
        proof {
            assert(a@ =~= b@);
            lemma_lex_irreflexive(a@);
        }
        ByteOrder::Equal
    }
}

/// Lexicographic order never holds both ways.
pub proof fn lemma_lex_asymmetric(a: Seq<u8>, b: Seq<u8>)
    requires
        lex_lt(a, b),
    ensures
        !lex_lt(b, a),
        a != b,
{
    if lex_lt(b, a) {
        lemma_lex_transitive(a, b, a);
    }
}

/// The contents of a sequence of byte vectors.
pub open spec fn byte_views(s: Seq<Vec<u8>>) -> Seq<Seq<u8>> {
    s.map_values(|k: Vec<u8>| k@)
}

/// Copies a byte string.
pub fn copy_bytes(v: &Vec<u8>) -> (r: Vec<u8>)
    ensures
        r@ == v@,
{
    let mut r: Vec<u8> = Vec::new();
    let mut i: usize = 0;
    while i < v.len()
        invariant
            i <= v.len(),
            r@ == v@.take(i as int),
        decreases v.len() - i,
    {
        r.push(v[i]);
        i = i + 1;
        proof {
            assert(r@ =~= v@.take(i as int));
        }
    }
    proof {
        assert(v@.take(v.len() as int) =~= v@);
    }
    r
}

/// The byte-keyed store of one node.
pub struct ChildTree {
    entries: Vec<(Vec<u8>, Vec<u8>)>,
    contents: Ghost<Map<Seq<u8>, Seq<u8>>>,
}

impl View for ChildTree {
    type V = Map<Seq<u8>, Seq<u8>>;

    closed spec fn view(&self) -> Map<Seq<u8>, Seq<u8>> {
        self.contents@
    }
}

impl ChildTree {
    /// The keys, in the order in which the tree holds them.
    pub closed spec fn key_seq(&self) -> Seq<Seq<u8>> {
        self.entries@.map_values(|e: (Vec<u8>, Vec<u8>)| e.0@)
    }

    /// Keys are sorted and unique, and the entries are exactly the map.
    pub closed spec fn wf(&self) -> bool {
        &&& keys_sorted(self.key_seq())
        &&& forall|i: int|
            0 <= i < self.entries.len() ==> {
                &&& #[trigger] self.contents@.contains_key(self.entries@[i].0@)
                &&& self.contents@[self.entries@[i].0@] == self.entries@[i].1@
            }
        &&& forall|k: Seq<u8>|
            #[trigger] self.contents@.contains_key(k) ==> exists|i: int|
                0 <= i < self.entries.len() && #[trigger] self.entries@[i].0@ == k
    }

    /// What a well-formed tree promises of its key order: the keys are the
    /// domain of the map, each once, in increasing lexicographic order.
    pub proof fn lemma_keys(&self)
        requires
            self.wf(),
        ensures
            keys_sorted(self.key_seq()),
            self.key_seq().to_set() == self@.dom(),
            self.key_seq().len() == self@.dom().len(),
            self@.dom().finite(),
            self.key_seq() == ordered_keys(self@),
    {
        let ks = self.key_seq();
        assert(ks.to_set() =~= self@.dom()) by {
            assert forall|k: Seq<u8>| ks.to_set().contains(k) implies self@.dom().contains(k) by {
                let i = choose|i: int| 0 <= i < ks.len() && ks[i] == k;
                assert(self.entries@[i].0@ == k);
            }
            assert forall|k: Seq<u8>| self@.dom().contains(k) implies ks.to_set().contains(k) by {
                let i = choose|i: int| 0 <= i < self.entries.len() && #[trigger] self.entries@[i].0@ == k;
                assert(ks[i] == k);
            }
        }
        assert(ks.no_duplicates()) by {
            assert forall|i: int, j: int| 0 <= i < ks.len() && 0 <= j < ks.len() && i != j
                implies ks[i] != ks[j] by {
                if i < j {
                    lemma_lex_asymmetric(ks[i], ks[j]);
                } else {
                    lemma_lex_asymmetric(ks[j], ks[i]);
                }
            }
        }
        ks.unique_seq_to_set();
        let o = ordered_keys(self@);
        assert(keys_sorted(o) && o.to_set() == self@.dom());
        lemma_sorted_unique(ks, o);
    }

    /// An empty tree.
    pub fn new() -> (t: Self)
        ensures
            t.wf(),
            t@ == Map::<Seq<u8>, Seq<u8>>::empty(),
    {
        ChildTree { entries: Vec::new(), contents: Ghost(Map::empty()) }
    }

    /// Position of `key`, or the position at which it keeps the keys sorted.
    fn find(&self, key: &Vec<u8>) -> (r: Result<usize, usize>)
        requires
            self.wf(),
        ensures
            match r {
                Ok(i) => i < self.entries.len() && self.entries@[i as int].0@ == key@,
                Err(i) => {
                    &&& i <= self.entries.len()
                    &&& forall|j: int| 0 <= j < i ==> lex_lt(#[trigger] self.key_seq()[j], key@)
                    &&& forall|j: int|
                        i <= j < self.entries.len() ==> lex_lt(key@, #[trigger] self.key_seq()[j])
                    &&& !self@.contains_key(key@)
                },
            },
    {
        let mut i: usize = 0;
        while i < self.entries.len()
            invariant
                self.wf(),
                i <= self.entries.len(),
                forall|j: int| 0 <= j < i ==> lex_lt(#[trigger] self.key_seq()[j], key@),
            decreases self.entries.len() - i,
        {
            let c = compare_bytes(&self.entries[i].0, key);
            if c == ByteOrder::Equal {
                return Ok(i);
            } else if c == ByteOrder::Greater {
                proof {
                    let ks = self.key_seq();
                    assert(ks[i as int] == self.entries@[i as int].0@);
                    assert forall|j: int| i <= j < self.entries.len() implies lex_lt(
                        key@,
                        #[trigger] ks[j],
                    ) by {
                        if j > i {
                            lemma_lex_transitive(key@, ks[i as int], ks[j]);
                        }
                    }
                    self.lemma_absent(key@, i as int);
                }
                return Err(i);
            }
            i = i + 1;
        }
        proof {
            self.lemma_absent(key@, i as int);
        }
        Err(i)
    }

    proof fn lemma_absent(&self, key: Seq<u8>, p: int)
        requires
            self.wf(),
            0 <= p <= self.entries.len(),
            forall|j: int| 0 <= j < p ==> lex_lt(#[trigger] self.key_seq()[j], key),
            forall|j: int| p <= j < self.entries.len() ==> lex_lt(key, #[trigger] self.key_seq()[j]),
        ensures
            !self@.contains_key(key),
    {
        if self@.contains_key(key) {
            let i = choose|i: int| 0 <= i < self.entries.len() && #[trigger] self.entries@[i].0@ == key;
            let ks = self.key_seq();
            assert(ks[i] == key);
            lemma_lex_irreflexive(key);
        }
    }

    /// The value stored under `key`.
    pub fn get(&self, key: &Vec<u8>) -> (r: Option<Vec<u8>>)
        requires
            self.wf(),
        ensures
            match r {
                Some(v) => self@.contains_key(key@) && v@ == self@[key@],
                None => !self@.contains_key(key@),
            },
    {
        match self.find(key) {
            Ok(i) => {
                proof {
                    assert(self.contents@.contains_key(self.entries@[i as int].0@));
                }
                Some(copy_bytes(&self.entries[i].1))
            },
            Err(_) => None,
        }
    }

    /// Stores `value` under `key`, replacing what was there.
    pub fn insert(&mut self, key: Vec<u8>, value: Vec<u8>)
        requires
            old(self).wf(),
        ensures
            final(self).wf(),
            final(self)@ == old(self)@.insert(key@, value@),
    {
        let ghost kv = key@;
        let ghost vv = value@;
        let ghost old_ks = self.key_seq();
        match self.find(&key) {
            Ok(i) => {
                self.entries.set(i, (key, value));
                self.contents = Ghost(self.contents@.insert(kv, vv));
                proof {
                    assert(self.key_seq() =~= old_ks);
                    assert forall|j: int| 0 <= j < self.entries.len() && j != i implies
                        self.entries@[j].0@ != kv by {
                        if j < i {
                            lemma_lex_asymmetric(old_ks[j], old_ks[i as int]);
                        } else {
                            lemma_lex_asymmetric(old_ks[i as int], old_ks[j]);
                        }
                    }
                    assert forall|k: Seq<u8>| #[trigger] self.contents@.contains_key(k) implies exists|
                        j: int,
                    | 0 <= j < self.entries.len() && #[trigger] self.entries@[j].0@ == k by {
                        if k == kv {
                            assert(self.entries@[i as int].0@ == k);
                        } else {
                            let j = choose|j: int|
                                0 <= j < old(self).entries.len() && #[trigger] old(self).entries@[j].0@
                                    == k;
                            assert(self.entries@[j].0@ == k);
                        }
                    }
                }
            },
            Err(i) => {
                self.entries.insert(i, (key, value));
                self.contents = Ghost(self.contents@.insert(kv, vv));
                proof {
                    let ks = self.key_seq();
                    assert(ks =~= old_ks.insert(i as int, kv));
                    assert forall|a: int, b: int| 0 <= a < b < ks.len() implies lex_lt(
                        #[trigger] ks[a],
                        #[trigger] ks[b],
                    ) by {
                        if b < i {
                        } else if a < i && b == i {
                        } else if a < i && b > i {
                            lemma_lex_transitive(ks[a], kv, ks[b]);
                        } else if a == i {
                        } else {
                            assert(ks[a] == old_ks[a - 1]);
                            assert(ks[b] == old_ks[b - 1]);
                        }
                    }
                    assert forall|j: int| 0 <= j < self.entries.len() && j != i implies
                        self.entries@[j].0@ != kv by {
                        if j < i {
                            lemma_lex_asymmetric(old_ks[j], kv);
                        } else {
                            lemma_lex_asymmetric(kv, old_ks[j - 1]);
                        }
                    }
                    assert forall|j: int| 0 <= j < self.entries.len() implies {
                        &&& #[trigger] self.contents@.contains_key(self.entries@[j].0@)
                        &&& self.contents@[self.entries@[j].0@] == self.entries@[j].1@
                    } by {
                        if j > i {
                            assert(self.entries@[j] == old(self).entries@[j - 1]);
                        }
                    }
                    assert forall|k: Seq<u8>| #[trigger] self.contents@.contains_key(k) implies exists|
                        j: int,
                    | 0 <= j < self.entries.len() && #[trigger] self.entries@[j].0@ == k by {
                        if k == kv {
                            assert(self.entries@[i as int].0@ == k);
                        } else {
                            let j = choose|j: int|
                                0 <= j < old(self).entries.len() && #[trigger] old(self).entries@[j].0@
                                    == k;
                            if j < i {
                                assert(self.entries@[j].0@ == k);
                            } else {
                                assert(self.entries@[j + 1].0@ == k);
                            }
                        }
                    }
                }
            },
        }
    }

    /// Deletes what is stored under `key`, if anything.
    pub fn remove(&mut self, key: &Vec<u8>)
        requires
            old(self).wf(),
        ensures
            final(self).wf(),
            final(self)@ == old(self)@.remove(key@),
    {
        let ghost old_ks = self.key_seq();
        match self.find(key) {
            Ok(i) => {
                self.entries.remove(i);
                self.contents = Ghost(self.contents@.remove(key@));
                proof {
                    let ks = self.key_seq();
                    assert(ks =~= old_ks.remove(i as int));
                    assert forall|a: int, b: int| 0 <= a < b < ks.len() implies lex_lt(
                        #[trigger] ks[a],
                        #[trigger] ks[b],
                    ) by {
                        if a >= i {
                            assert(ks[a] == old_ks[a + 1]);
                        }
                        if b >= i {
                            assert(ks[b] == old_ks[b + 1]);
                        }
                    }
                    assert forall|j: int| 0 <= j < self.entries.len() implies {
                        &&& #[trigger] self.contents@.contains_key(self.entries@[j].0@)
                        &&& self.contents@[self.entries@[j].0@] == self.entries@[j].1@
                    } by {
                        let oj = if j < i { j } else { j + 1 };
                        assert(self.entries@[j] == old(self).entries@[oj]);
                        assert(old(self).contents@.contains_key(old(self).entries@[oj].0@));
                        assert(old_ks[oj] == old(self).entries@[oj].0@);
                        assert(old_ks[i as int] == key@);
                        if oj < i {
                            lemma_lex_asymmetric(old_ks[oj], old_ks[i as int]);
                        } else {
                            lemma_lex_asymmetric(old_ks[i as int], old_ks[oj]);
                        }
                    }
                    assert forall|k: Seq<u8>| #[trigger] self.contents@.contains_key(k) implies exists|
                        j: int,
                    | 0 <= j < self.entries.len() && #[trigger] self.entries@[j].0@ == k by {
                        let j = choose|j: int|
                            0 <= j < old(self).entries.len() && #[trigger] old(self).entries@[j].0@ == k;
                        if j < i {
                            assert(self.entries@[j].0@ == k);
                        } else {
                            assert(j != i);
                            assert(self.entries@[j - 1].0@ == k);
                        }
                    }
                }
            },
            Err(_) => {
                proof {
                    assert(self.contents@.remove(key@) =~= self.contents@);
                }
            },
        }
    }

    /// The keys, in order.
    pub fn keys(&self) -> (r: Vec<Vec<u8>>)
        requires
            self.wf(),
        ensures
            byte_views(r@) == self.key_seq(),
    {
        let mut r: Vec<Vec<u8>> = Vec::new();
        let mut i: usize = 0;
        while i < self.entries.len()
            invariant
                i <= self.entries.len(),
                r.len() == i,
                byte_views(r@) == self.key_seq().take(i as int),
            decreases self.entries.len() - i,
        {
            let k = copy_bytes(&self.entries[i].0);
            let ghost r0 = r@;
            r.push(k);
            proof {
                assert(r@ == r0.push(k));
                assert forall|j: int| 0 <= j < i + 1 implies #[trigger] byte_views(r@)[j] == self.key_seq().take(i + 1)[j] by {
                    assert(self.key_seq()[j] == self.entries@[j].0@);
                    if j < i {
                        assert(r@[j] == r0[j]);
                        assert(byte_views(r0)[j] == self.key_seq().take(i as int)[j]);
                    }
                }
                assert(byte_views(r@) =~= self.key_seq().take(i + 1));
            }
            i = i + 1;
        }
        proof {
            assert(self.key_seq().take(i as int) =~= self.key_seq());
        }
        r
    }
}

} // verus!
