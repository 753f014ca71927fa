//! Little-endian encoding of integers, as the SCALE codec writes them, and
//! the decoding of child-tree keys back into node ids.

use vstd::prelude::*;
use vstd::arithmetic::power2::*;
use vstd::arithmetic::div_mod::*;
use vstd::arithmetic::mul::*;
use vstd::bits::*;
use parity_scale_codec::Encode;

verus! {

/// The `n` low bytes of `x`, least significant first: byte `i` is
/// `(x / 2^(8 i)) % 256`.
pub open spec fn le_bytes(x: nat, n: nat) -> Seq<u8> {
    Seq::new(n, |i: int| ((x / pow2((8 * i) as nat)) % 256) as u8)
}

/// The number that a little-endian byte string stands for:
/// the sum of byte `i` times `2^(8 i)`.
pub open spec fn le_value(s: Seq<u8>) -> nat
    decreases s.len(),
{
    if s.len() == 0 {
        0
    } else {
        le_value(s.drop_last()) + s.last() as nat * pow2((8 * (s.len() - 1)) as nat)
    }
}

/// `<u64 as parity_scale_codec::Encode>::encode`: the SCALE codec writes a
/// fixed-width integer as its `to_le_bytes`, so the result is the eight
/// little-endian bytes of `x`.
#[verifier::external_body]
pub(crate) fn scale_encode_u64(x: u64) -> (bytes: Vec<u8>)
    ensures
        bytes@ == le_bytes(x as nat, 8),
{
    x.encode()
}

/// `<u16 as parity_scale_codec::Encode>::encode`: the two little-endian bytes
/// of `x`.
#[verifier::external_body]
pub(crate) fn scale_encode_u16(x: u16) -> (bytes: Vec<u8>)
    ensures
        bytes@ == le_bytes(x as nat, 2),
{
    x.encode()
}

proof fn lemma_pow2_step(i: nat)
    ensures
        pow2(8 * (i + 1)) == pow2(8 * i) * 256,
        pow2(8 * i) > 0,
{
    lemma_pow2_adds(8 * i, 8);
    lemma2_to64();
    lemma_pow2_pos(8 * i);
}

/// Decoding the `n` little-endian bytes of `x` gives `x` modulo `2^(8 n)`.
pub proof fn lemma_le_value_of_le_bytes(x: nat, n: nat)
    ensures
        le_value(le_bytes(x, n)) == x % pow2(8 * n),
    decreases n,
{
    if n == 0 {
        lemma2_to64();
        assert(le_bytes(x, 0) =~= Seq::<u8>::empty());
    } else {
        let m = (n - 1) as nat;
        let p = pow2(8 * m);
        lemma_le_value_of_le_bytes(x, m);
        assert(le_bytes(x, n).drop_last() =~= le_bytes(x, m));
        lemma_pow2_step(m);
        lemma_mod_breakdown(x as int, p as int, 256);
        lemma_mul_is_commutative(p as int, ((x / p) % 256) as int);
    }
}

/// A little-endian byte string of length `n` stands for a number below `2^(8 n)`.
pub proof fn lemma_le_value_bound(s: Seq<u8>)
    ensures
        le_value(s) < pow2(8 * s.len()),
    decreases s.len(),
{
    if s.len() == 0 {
        lemma2_to64();
    } else {
        let m = (s.len() - 1) as nat;
        let p = pow2(8 * m);
        lemma_le_value_bound(s.drop_last());
        lemma_pow2_step(m);
        lemma_mul_inequality(s.last() as int, 255, p as int);
    }
}

/// Byte `i` of `y + c * 2^(8 m)`, for `y < 2^(8 m)` and a byte `c`: byte
/// `i` of `y` below `m`, and `c` at `m`.
proof fn lemma_le_byte_of_sum(y: nat, c: nat, m: nat, i: nat)
    requires
        y < pow2(8 * m),
        c < 256,
        i <= m,
    ensures
        i < m ==> ((y + c * pow2(8 * m)) / pow2(8 * i)) % 256 == (y / pow2(8 * i)) % 256,
        i == m ==> ((y + c * pow2(8 * m)) / pow2(8 * i)) % 256 == c,
{
    let p = pow2(8 * m) as int;
    let x = y + c * p;
    lemma_pow2_pos(8 * m);
    if i == m {
        lemma_fundamental_div_mod_converse(x, p, c as int, y as int);
        lemma_small_mod(c, 256);
    } else {
        let q = pow2(8 * i) as int;
        let r = pow2((8 * (m - i - 1)) as nat) as int;
        lemma_pow2_pos(8 * i);
        lemma_pow2_adds(8 * i, 8);
        lemma_pow2_adds(8 * i + 8, (8 * (m - i - 1)) as nat);
        lemma2_to64();
        assert(8 * i + 8 + 8 * (m - i - 1) == 8 * m);
        assert(pow2(8 * i + 8) == q * 256);
        assert(p == q * 256 * r);
        let yq = y as int / q;
        let yr = y as int % q;
        lemma_fundamental_div_mod(y as int, q);
        assert(0 <= yr < q) by {
            lemma_mod_bound(y as int, q);
        }
        assert(x == (yq + 256 * (c * r)) * q + yr) by (nonlinear_arith)
            requires
                x == y + c * p,
                p == q * 256 * r,
                y == q * yq + yr,
        ;
        lemma_fundamental_div_mod_converse(x, q, yq + 256 * (c * r), yr);
        lemma_mod_multiples_vanish(c * r, yq, 256);
        assert(256 * (c * r) + yq == yq + 256 * (c * r));
    }
}

/// A byte string is the little-endian encoding of the number it stands for,
/// at its own length.
pub proof fn lemma_le_bytes_of_le_value(s: Seq<u8>)
    ensures
        le_bytes(le_value(s), s.len()) == s,
    decreases s.len(),
{
    if s.len() == 0 {
        assert(le_bytes(le_value(s), 0) =~= s);
    } else {
        let t = s.drop_last();
        let m = t.len();
        let y = le_value(t);
        let c = s.last() as nat;
        lemma_le_bytes_of_le_value(t);
        lemma_le_value_bound(t);
        let x = le_value(s);
        assert(x == y + c * pow2(8 * m));
        assert forall|i: int| 0 <= i < s.len() implies #[trigger] le_bytes(x, s.len())[i] == s[i] by {
            lemma_le_byte_of_sum(y, c, m, i as nat);
            if i < m {
                assert(le_bytes(y, m)[i] == t[i]);
            }
        }
        assert(le_bytes(x, s.len()) =~= s);
    }
}

/// Eight little-endian bytes decode back to the `u64` they encode.
pub proof fn lemma_u64_round_trip(x: u64)
    ensures
        le_value(le_bytes(x as nat, 8)) == x,
{
    lemma_le_value_of_le_bytes(x as nat, 8);
    lemma2_to64();
    lemma2_to64_rest();
    lemma_small_mod(x as nat, pow2(64));
}

/// Reads a key of at most eight bytes as a little-endian node id: byte `i`
/// is worth `2^(8 i)`.
pub fn decode_le_key(v: &Vec<u8>) -> (m: u64)
    requires
        v.len() <= 8,
    ensures
        m == le_value(v@),
{
    let mut m: u64 = 0;
    let mut i: usize = 0;
    while i < v.len()
        invariant
            i <= v.len() <= 8,
            m == le_value(v@.take(i as int)),
        decreases v.len() - i,
    {
        let b: u8 = v[i];
        let shift: u64 = (i * 8) as u64;
        proof {
            let s = v@.take(i as int);
            lemma_le_value_bound(s);
            lemma_pow2_step(i as nat);
            lemma2_to64();
            lemma2_to64_rest();
            lemma_mul_inequality(b as int, 255, pow2(8 * i as nat) as int);
            lemma_pow2_pos(shift as nat);
            assert(1u64 * pow2(shift as nat) <= u64::MAX);
            lemma_u64_shl_is_mul(1u64, shift);
            assert(v@.take(i + 1).drop_last() =~= s);
        }
        let factor: u64 = 1u64 << shift;
        m = m + (b as u64) * factor;
        i = i + 1;
    }
    assert(v@.take(v.len() as int) =~= v@);
    m
}

} // verus!
