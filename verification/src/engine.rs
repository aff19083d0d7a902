//! The pluggable engine interface: the capability set {set, get, remove}.

use vstd::prelude::*;

verus! {

use crate::error::KvStoreError;

/// A storage engine: a mutable map from string keys to string values.
///
/// `live()` is the map the engine currently holds; `inv()` is whatever shape
/// the implementation needs its state to keep. Every operation may fail with
/// an engine error; when it succeeds it moves `live()` exactly as a map
/// would.
pub trait KvsEngine: Sized {
    /// The key-value pairs the engine currently holds.
    spec fn live(&self) -> Map<Seq<char>, Seq<char>>;

    /// The engine's internal well-formedness.
    spec fn inv(&self) -> bool;

    /// Sets `key` to `value`. Even a failed attempt touches no other key.
    fn set(&mut self, key: String, value: String) -> (r: Result<(), KvStoreError>)
        requires
            old(self).inv(),
        ensures
            final(self).inv(),
            r is Ok ==> final(self).live() == old(self).live().insert(key@, value@),
            r is Err ==> final(self).live() == old(self).live() || final(self).live() == old(
                self,
            ).live().insert(key@, value@),
    ;

    /// The value of `key`, or `None` when it is not held.
    fn get(&mut self, key: String) -> (r: Result<Option<String>, KvStoreError>)
        requires
            old(self).inv(),
        ensures
            final(self).inv(),
            final(self).live() == old(self).live(),
            r matches Ok(Some(v)) ==> old(self).live().dom().contains(key@) && v@ == old(
                self,
            ).live()[key@],
            r matches Ok(None) ==> !old(self).live().dom().contains(key@),
    ;

    /// Removes `key`; fails with `KeyNotFound` when it is not held. Even a
    /// failed attempt touches no other key.
    fn remove(&mut self, key: String) -> (r: Result<(), KvStoreError>)
        requires
            old(self).inv(),
        ensures
            final(self).inv(),
            r is Ok ==> final(self).live() == old(self).live().remove(key@) && old(
                self,
            ).live().dom().contains(key@),
            r matches Err(e) && e is KeyNotFound ==> final(self).live() == old(self).live()
                && !old(self).live().dom().contains(key@),
            r matches Err(e) && !(e is KeyNotFound) ==> final(self).live() == old(self).live()
                || final(self).live() == old(self).live().remove(key@),
    ;
}

} // verus!
