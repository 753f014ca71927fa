//! The random choices of the storage benchmarks: percentage rolls that thin
//! out child-tree keys, the order in which keys are visited, and the values
//! written.

use vstd::prelude::*;
use rand::rngs::StdRng;
use rand::seq::SliceRandom;
use rand::{Rng, RngCore};
use crate::sampling::{SampledKey, WriteSample};

verus! {

broadcast use vstd::seq_lib::group_to_multiset_ensures;

#[verifier::external_type_specification]
#[verifier::external_body]
pub struct ExStdRng(StdRng);

/// `Rng::gen_range(1..=100)`: a number drawn from the inclusive range
/// `1 ..= 100`. The uniform sampler draws at least one word from the
/// generator, so its state moves on (the block index of the ChaCha generator
/// behind `StdRng` advances, or its block is refilled).
#[verifier::external_body]
fn gen_percent(rng: &mut StdRng) -> (r: u32)
    ensures
        1 <= r <= 100,
        *final(rng) != *old(rng),
{
    rng.gen_range(1..=100)
}

/// `SliceRandom::shuffle`: the items in a random order, each one as often as
/// before. Fewer than two items are left as they are and draw nothing; with
/// two or more, the shuffle draws from the generator, whose state moves on
/// (each draw advances the block index of the ChaCha generator behind
/// `StdRng`, or refills its block).
#[verifier::external_body]
fn shuffle_vec<T>(v: &mut Vec<T>, rng: &mut StdRng)
    ensures
        final(v)@.to_multiset() == old(v)@.to_multiset(),
        old(v).len() < 2 ==> final(v)@ == old(v)@ && *final(rng) == *old(rng),
        old(v).len() >= 2 ==> *final(rng) != *old(rng),
{
    v.shuffle(rng)
}

/// `RngCore::fill_bytes`: overwrites the buffer with random bytes; its
/// length stays. An empty buffer draws nothing; a non-empty one draws from
/// the generator, whose state moves on (its block index advances past the
/// words consumed).
#[verifier::external_body]
fn fill_random(buf: &mut Vec<u8>, rng: &mut StdRng)
    ensures
        final(buf).len() == old(buf).len(),
        old(buf).len() == 0 ==> final(buf)@ == old(buf)@ && *final(rng) == *old(rng),
        old(buf).len() > 0 ==> *final(rng) != *old(rng),
{
    rng.fill_bytes(&mut buf[..])
}

/// The rolls for the `n` keys of a child tree: the first key is always
/// sampled and gets no roll (0); every later key gets a percentage, drawn
/// from the generator. With fewer than two keys nothing is drawn; with two,
/// the one draw moves the generator on. With more, each draw moves it away
/// from the state just before that draw, which is all that is stated of the
/// state it ends in.
pub fn draw_child_rolls(n: usize, rng: &mut StdRng) -> (rolls: Vec<u32>)
    ensures
        rolls.len() == n,
        n > 0 ==> rolls@[0] == 0,
        forall|j: int| 1 <= j < n ==> 1 <= #[trigger] rolls@[j] <= 100,
        n < 2 ==> *final(rng) == *old(rng),
        n == 2 ==> *final(rng) != *old(rng),
{
    let ghost start = *rng;
    let mut rolls: Vec<u32> = Vec::new();
    let mut j: usize = 0;
    while j < n
        invariant
            j <= n,
            rolls.len() == j,
            j > 0 ==> rolls@[0] == 0,
            forall|k: int| 1 <= k < j ==> 1 <= #[trigger] rolls@[k] <= 100,
            j < 2 ==> *rng == start,
            j == 2 ==> *rng != start,
        decreases n - j,
    {
        if j == 0 {
            rolls.push(0);
        } else {
            let r = gen_percent(rng);
            rolls.push(r);
        }
        j = j + 1;
    }
    rolls
}

/// Puts the sampled read keys in a random order, drawing from the generator
/// when there are at least two.
pub fn shuffle_read_samples(v: &mut Vec<SampledKey>, rng: &mut StdRng)
    ensures
        final(v)@.to_multiset() == old(v)@.to_multiset(),
        final(v).len() == old(v).len(),
        old(v).len() < 2 ==> final(v)@ == old(v)@ && *final(rng) == *old(rng),
        old(v).len() >= 2 ==> *final(rng) != *old(rng),
{
    let ghost before = v@;
    shuffle_vec(v, rng);
    proof {
        assert(before.to_multiset().len() == before.len());
        assert(v@.to_multiset().len() == v@.len());
    }
}

/// Puts the sampled write keys in a random order, drawing from the generator
/// when there are at least two.
pub fn shuffle_write_samples(v: &mut Vec<WriteSample>, rng: &mut StdRng)
    ensures
        final(v)@.to_multiset() == old(v)@.to_multiset(),
        final(v).len() == old(v).len(),
        old(v).len() < 2 ==> final(v)@ == old(v)@ && *final(rng) == *old(rng),
        old(v).len() >= 2 ==> *final(rng) != *old(rng),
{
    let ghost before = v@;
    shuffle_vec(v, rng);
    proof {
        assert(before.to_multiset().len() == before.len());
        assert(v@.to_multiset().len() == v@.len());
    }
}

/// A buffer of `size` bytes for the values that the write benchmark draws.
pub fn value_buffer(size: usize) -> (buf: Vec<u8>)
    ensures
        buf.len() == size,
        forall|i: int| 0 <= i < size ==> #[trigger] buf@[i] == 0,
{
    let mut buf: Vec<u8> = Vec::new();
    let mut i: usize = 0;
    while i < size
        invariant
            i <= size,
            buf.len() == i,
            forall|k: int| 0 <= k < i ==> #[trigger] buf@[k] == 0,
        decreases size - i,
    {
        buf.push(0);
        i = i + 1;
    }
    buf
}

/// Draws a fresh random value into the buffer, keeping its size; a
/// non-empty buffer consumes randomness, so the generator moves on and the
/// next draw comes from a new state.
pub fn redraw_value(buf: &mut Vec<u8>, rng: &mut StdRng)
    ensures
        final(buf).len() == old(buf).len(),
        old(buf).len() == 0 ==> final(buf)@ == old(buf)@ && *final(rng) == *old(rng),
        old(buf).len() > 0 ==> *final(rng) != *old(rng),
{
    fill_random(buf, rng);
}

} // verus!
