//! The one call that hashing a key of an arbitrary type needs.
//!
//! The module is private to the crate: `feed` is written `pub` only so that
//! the contract of `digest_of` can say that the key was fed to the hasher.

use std::collections::hash_map::DefaultHasher;
use std::hash::Hash;
use vstd::prelude::*;

verus! {

/// Feeds `key` to `state` by `Hash::hash`. What an impl of `Hash` writes to
/// the hasher is its own affair, so nothing is claimed of `state` afterwards.
#[verifier::external_body]
pub fn feed<K: Hash>(key: &K, state: &mut DefaultHasher) {
    key.hash(state);
}

} // verus!
