//! Child-tree keys: byte strings bounded to 4096 bytes, held in the runtime
//! framework's bounded vector.

use vstd::prelude::*;
use frame_support::traits::ConstU32;
use frame_support::BoundedVec;

verus! {

#[verifier::external_type_specification]
#[verifier::external_body]
#[verifier::reject_recursive_types(T)]
#[verifier::reject_recursive_types(S)]
pub struct ExBoundedVec<T, S>(BoundedVec<T, S>);

#[verifier::external_type_specification]
#[verifier::external_body]
pub struct ExConstU32<const N: u32>(ConstU32<N>);

/// A key of a child tree.
pub type StorageKey = BoundedVec<u8, ConstU32<4096>>;

/// The bytes that a storage key holds.
pub uninterp spec fn key_bytes(k: BoundedVec<u8, ConstU32<4096>>) -> Seq<u8>;

/// `<BoundedVec<u8, ConstU32<4096>> as TryFrom<Vec<u8>>>::try_from`: the
/// bytes as a storage key when there are at most 4096 of them, else the
/// bytes handed back.
#[verifier::external_body]
fn storage_key_try_from(v: Vec<u8>) -> (r: Result<BoundedVec<u8, ConstU32<4096>>, Vec<u8>>)
    ensures
        match r {
            Ok(k) => v.len() <= 4096 && key_bytes(k) == v@,
            Err(back) => v.len() > 4096 && back@ == v@,
        },
{
    BoundedVec::try_from(v)
}

/// `BoundedVec::into_inner`: the bytes of a storage key.
#[verifier::external_body]
fn storage_key_into_inner(k: BoundedVec<u8, ConstU32<4096>>) -> (v: Vec<u8>)
    ensures
        v@ == key_bytes(k),
{
    k.into_inner()
}

/// The storage key that holds `bytes`, when there are at most 4096 of them.
pub fn to_storage_key(bytes: Vec<u8>) -> (r: Option<StorageKey>)
    ensures
        match r {
            Some(k) => key_bytes(k) == bytes@,
            None => bytes.len() > 4096,
        },
        r is Some <==> bytes.len() <= 4096,
{
    match storage_key_try_from(bytes) {
        Ok(k) => Some(k),
        Err(_) => None,
    }
}

/// The bytes of a storage key.
pub fn storage_key_bytes(k: StorageKey) -> (v: Vec<u8>)
    ensures
        v@ == key_bytes(k),
{
    storage_key_into_inner(k)
}

} // verus!
