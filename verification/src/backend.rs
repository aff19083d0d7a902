//! A placeholder backend descriptor: it only remembers where a store would
//! live.

use vstd::prelude::*;

verus! {

use crate::error::KvStoreError;

/// A backend that has been pointed at a directory but not opened.
pub struct SerdeBackend {
    path: String,
}

impl SerdeBackend {
    /// The directory this backend was pointed at.
    pub closed spec fn path_spec(&self) -> Seq<char> {
        self.path@
    }

    /// Records the directory the backend would use.
    pub fn new(path: String) -> (r: Result<Self, KvStoreError>)
        ensures
            r matches Ok(b) && b.path_spec() == path@,
    {
        Ok(Self { path })
    }

    /// The directory this backend was pointed at.
    pub fn path(&self) -> (r: &String)
        ensures
            r@ == self.path_spec(),
    {
        &self.path
    }
}

} // verus!
