//! Hashing of keys with std's `DefaultHasher`.
use std::collections::hash_map::DefaultHasher;
use std::hash::{Hash, Hasher};
use vstd::prelude::*;
use vstd::std_specs::hash::DefaultHasherAdditionalSpecFns;

verus! {

/// The state of a `DefaultHasher` whose state was `before`, once a string with
/// the characters `s` has been hashed into it.
pub uninterp spec fn state_after_str(before: Seq<Seq<u8>>, s: Seq<char>) -> Seq<Seq<u8>>;

/// The hash of a key: a fresh `DefaultHasher`, the key hashed into it, and
/// the hasher finished.
pub open spec fn key_hash(k: Seq<char>) -> u64 {
    DefaultHasher::spec_finish(state_after_str(Seq::empty(), k))
}

/// Relies on `<String as Hash>::hash`: what it feeds the hasher depends only
/// on the hasher's state and on the characters of the string.
#[verifier::external_body]
fn hash_str_into(key: &String, hasher: &mut DefaultHasher)
    ensures
        final(hasher)@ == state_after_str(old(hasher)@, key@),
{
    key.hash(hasher);
}

/// Hashes `key` with a fresh `DefaultHasher`.
pub fn hash_key(key: &String) -> (r: u64)
    ensures
        r == key_hash(key@),
{
    let mut hasher = DefaultHasher::new();
    hash_str_into(key, &mut hasher);
    hasher.finish()
}

} // verus!
