//! Build options: the caller-side owner of one foreign options object,
//! filled through the builder calls before a context is created from it.

use vstd::prelude::*;

verus! {

/// An owned handle to one boundary-side options object.
pub struct BuildOptions {
    handle: u64,
}

impl BuildOptions {
    /// The options handle this owner names.
    pub closed spec fn id(self) -> u64 {
        self.handle
    }

    pub(crate) fn from_handle(handle: u64) -> (r: BuildOptions)
        ensures
            r.id() == handle,
    {
        BuildOptions { handle }
    }

    /// The raw handle, for passing across the boundary.
    pub(crate) fn handle(&self) -> (h: u64)
        ensures
            h == self.id(),
    {
        self.handle
    }
}

} // verus!
