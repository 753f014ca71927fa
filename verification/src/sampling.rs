//! Which storage keys a benchmark run visits.

use vstd::prelude::*;
use crate::child_tree::copy_bytes;

verus! {

/// The value of a hexadecimal digit, upper or lower case.
pub open spec fn hex_digit(c: char) -> Option<u8> {
    let v = c as int;
    if 48 <= v <= 57 {
        Some((v - 48) as u8)
    } else if 97 <= v <= 102 {
        Some((v - 87) as u8)
    } else if 65 <= v <= 70 {
        Some((v - 55) as u8)
    } else {
        None
    }
}

/// The bytes that a string of hexadecimal digit pairs spells, high digit
/// first; `None` when the length is odd or a character is not a digit.
pub open spec fn hex_bytes(s: Seq<char>) -> Option<Seq<u8>> {
    if s.len() % 2 != 0 {
        None
    } else if exists|i: int| 0 <= i < s.len() && #[trigger] hex_digit(s[i]) is None {
        None
    } else {
        Some(
            Seq::new(
                s.len() / 2,
                |i: int| (16 * hex_digit(s[2 * i])->0 + hex_digit(s[2 * i + 1])->0) as u8,
            ),
        )
    }
}

/// `hex::decode`: the bytes that `s` spells in hexadecimal, or `None` where
/// the crate reports an error (odd length or a character that is not a
/// hexadecimal digit).
#[verifier::external_body]
fn hex_decode(s: &str) -> (r: Option<Vec<u8>>)
    ensures
        match r {
            Some(v) => hex_bytes(s@) == Some(v@),
            None => hex_bytes(s@) is None,
        },
{
    match hex::decode(s) {
        Ok(v) => Some(v),
        Err(_) => None,
    }
}

/// The key that a read benchmark reads in place of a child-tree key: the
/// bytes of the hexadecimal string `e8030000`.
pub fn child_tree_probe_key() -> (k: Vec<u8>)
    ensures
        k@ == seq![0xe8u8, 0x03u8, 0x00u8, 0x00u8],
{
    let s = "e8030000";
    proof {
        reveal_strlit("e8030000");
        let c = s@;
        assert(c.len() == 8);
        assert(forall|i: int| 0 <= i < 8 ==> #[trigger] hex_digit(c[i]) is Some);
        assert(hex_bytes(c) =~= Some(seq![0xe8u8, 0x03u8, 0x00u8, 0x00u8]));
    }
    match hex_decode(s) {
        Some(v) => v,
        None => {
            proof {
                assert(false);
            }
            Vec::new()
        },
    }
}

/// A key offered to the read benchmark, with the child tree it lies in when
/// it is a child-tree key.
pub struct ReadCandidate {
    pub key: Vec<u8>,
    pub child: Option<u64>,
}

/// A key the benchmark visits, with the child tree to read it from.
pub struct SampledKey {
    pub key: Vec<u8>,
    pub child: Option<u64>,
}

/// What the read benchmark samples for one candidate: with child trees
/// included, a child-tree key is replaced by the probe key of its tree;
/// any other key is read from the top-level trie.
pub open spec fn read_sample(include_child_trees: bool, c: ReadCandidate) -> (Seq<u8>, Option<u64>) {
    if include_child_trees && c.child is Some {
        (seq![0xe8u8, 0x03u8, 0x00u8, 0x00u8], c.child)
    } else {
        (c.key@, None)
    }
}

/// Samples the keys of a read benchmark, one for each candidate, in order.
pub fn sample_read_keys(include_child_trees: bool, candidates: &Vec<ReadCandidate>) -> (r: Vec<
    SampledKey,
>)
    ensures
        r.len() == candidates.len(),
        forall|i: int|
            0 <= i < r.len() ==> read_sample(include_child_trees, #[trigger] candidates@[i]) == (
            r@[i].key@,
            r@[i].child,
        ),
{
    let mut r: Vec<SampledKey> = Vec::new();
    let mut i: usize = 0;
    while i < candidates.len()
        invariant
            i <= candidates.len(),
            r.len() == i,
            forall|j: int|
                0 <= j < i ==> read_sample(include_child_trees, #[trigger] candidates@[j]) == (
                r@[j].key@,
                r@[j].child,
            ),
        decreases candidates.len() - i,
    {
        let c = &candidates[i];
        let s = match (include_child_trees, c.child) {
            (true, Some(info)) => SampledKey { key: child_tree_probe_key(), child: Some(info) },
            _ => SampledKey { key: copy_bytes(&c.key), child: None },
        };
        r.push(s);
        i = i + 1;
    }
    r
}

/// The keys of one child tree offered to the write benchmark, each with the
/// percentage that was rolled for it (the roll of the first key is not used).
pub struct ChildKeys {
    pub child: u64,
    pub keys: Vec<Vec<u8>>,
    pub rolls: Vec<u32>,
}

/// A key-value pair offered to the write benchmark; for a child-tree key,
/// the keys of that child tree.
pub struct WriteCandidate {
    pub key: Vec<u8>,
    pub value_len: usize,
    pub child: Option<ChildKeys>,
}

/// A key the write benchmark overwrites, with the size of the value it
/// writes and the child tree the key lies in.
pub struct WriteSample {
    pub key: Vec<u8>,
    pub size: usize,
    pub child: Option<u64>,
}

/// The size of the values written to child-tree keys.
pub const CHILD_VALUE_SIZE: usize = 4096;

/// The child keys among the first `n` that are sampled: the first key
/// always, each later one when its roll is at most `threshold`.
pub open spec fn kept_child_keys(ck: ChildKeys, threshold: u32, n: int) -> Seq<(Seq<u8>, usize, Option<u64>)>
    decreases n,
{
    if n <= 0 {
        Seq::empty()
    } else {
        let rest = kept_child_keys(ck, threshold, n - 1);
        if n - 1 == 0 || ck.rolls@[n - 1] <= threshold {
            rest.push((ck.keys@[n - 1]@, CHILD_VALUE_SIZE, Some(ck.child)))
        } else {
            rest
        }
    }
}

/// What the write benchmark samples for one candidate.
pub open spec fn write_samples_of(include_child_trees: bool, threshold: u32, c: WriteCandidate) -> Seq<
    (Seq<u8>, usize, Option<u64>),
> {
    match c.child {
        Some(ck) if include_child_trees => kept_child_keys(ck, threshold, ck.keys.len() as int),
        _ => seq![(c.key@, c.value_len, None)],
    }
}

/// What the write benchmark samples for the first `n` candidates.
pub open spec fn write_samples(
    include_child_trees: bool,
    threshold: u32,
    cs: Seq<WriteCandidate>,
    n: int,
) -> Seq<(Seq<u8>, usize, Option<u64>)>
    decreases n,
{
    if n <= 0 {
        Seq::empty()
    } else {
        write_samples(include_child_trees, threshold, cs, n - 1) + write_samples_of(
            include_child_trees,
            threshold,
            cs[n - 1],
        )
    }
}

/// The view of a list of write samples.
pub open spec fn write_sample_views(s: Seq<WriteSample>) -> Seq<(Seq<u8>, usize, Option<u64>)> {
    s.map_values(|w: WriteSample| (w.key@, w.size, w.child))
}

/// Appends the sampled child keys of one child tree.
fn push_child_samples(out: &mut Vec<WriteSample>, ck: &ChildKeys, threshold: u32)
    requires
        ck.rolls.len() == ck.keys.len(),
    ensures
        write_sample_views(final(out)@) == write_sample_views(old(out)@) + kept_child_keys(
            *ck,
            threshold,
            ck.keys.len() as int,
        ),
{
    let mut first = true;
    let mut j: usize = 0;
    while j < ck.keys.len()
        invariant
            ck.rolls.len() == ck.keys.len(),
            j <= ck.keys.len(),
            first <==> j == 0,
            write_sample_views(out@) == write_sample_views(old(out)@) + kept_child_keys(
                *ck,
                threshold,
                j as int,
            ),
        decreases ck.keys.len() - j,
    {
        let ghost before = out@;
        if first || ck.rolls[j] <= threshold {
            first = false;
            out.push(WriteSample { key: copy_bytes(&ck.keys[j]), size: CHILD_VALUE_SIZE, child: Some(ck.child) });
            proof {
                assert(write_sample_views(out@) =~= write_sample_views(before).push(
                    (ck.keys@[j as int]@, CHILD_VALUE_SIZE, Some(ck.child)),
                ));
            }
        }
        j = j + 1;
        proof {
            assert(write_sample_views(old(out)@) + kept_child_keys(*ck, threshold, j as int)
                =~= write_sample_views(out@));
        }
    }
}

/// Samples the keys of a write benchmark, candidate by candidate.
pub fn sample_write_keys(
    include_child_trees: bool,
    threshold: u32,
    candidates: &Vec<WriteCandidate>,
) -> (r: Vec<WriteSample>)
    requires
        forall|i: int|
            0 <= i < candidates.len() ==> match #[trigger] candidates@[i].child {
                Some(ck) => ck.rolls.len() == ck.keys.len(),
                None => true,
            },
    ensures
        write_sample_views(r@) == write_samples(
            include_child_trees,
            threshold,
            candidates@,
            candidates.len() as int,
        ),
{
    let mut r: Vec<WriteSample> = Vec::new();
    let mut i: usize = 0;
    proof {
        assert(write_sample_views(r@) =~= Seq::<(Seq<u8>, usize, Option<u64>)>::empty());
    }
    while i < candidates.len()
        invariant
            i <= candidates.len(),
            forall|k: int|
                0 <= k < candidates.len() ==> match #[trigger] candidates@[k].child {
                    Some(ck) => ck.rolls.len() == ck.keys.len(),
                    None => true,
                },
            write_sample_views(r@) == write_samples(include_child_trees, threshold, candidates@, i as int),
        decreases candidates.len() - i,
    {
        let c = &candidates[i];
        let ghost before = r@;
        match (include_child_trees, &c.child) {
            (true, Some(ck)) => {
                push_child_samples(&mut r, ck, threshold);
            },
            _ => {
                r.push(WriteSample { key: copy_bytes(&c.key), size: c.value_len, child: None });
                proof {
                    assert(write_sample_views(r@) =~= write_sample_views(before) + seq![
                        (c.key@, c.value_len, None::<u64>),
                    ]);
                }
            },
        }
        i = i + 1;
    }
    r
}

} // verus!
