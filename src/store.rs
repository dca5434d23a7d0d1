//! A key-value object store, for callers to implement.

use vstd::prelude::*;

verus! {

/// A store of byte values under string keys.
pub trait ObjectStore {
    /// Stores `value` under `key`.
    fn put(&self, key: &str, value: &[u8]) -> Result<(), String>;

    /// The value under `key`, if any.
    fn get(&self, key: &str) -> Result<Option<Vec<u8>>, String>;

    /// Removes the value under `key`.
    fn delete(&self, key: &str) -> Result<(), String>;
}

} // verus!
