//! Build contexts: the caller-side owner of one foreign context object,
//! shared by reference count between the caller and any in-flight
//! asynchronous builds, and the owned error aggregate a failed creation
//! returns.

use vstd::prelude::*;

verus! {

/// A shared owner of one context handle. The underlying object is
/// destroyed exactly once, when the last owner releases it.
#[derive(Debug)]
pub struct Context {
    handle: u64,
}

impl Context {
    /// The context handle this owner names.
    pub closed spec fn id(self) -> u64 {
        self.handle
    }

    pub(crate) fn from_handle(handle: u64) -> (r: Context)
        ensures
            r.id() == handle,
    {
        Context { handle }
    }

    /// The raw handle, for passing across the boundary.
    pub(crate) fn handle(&self) -> (h: u64)
        ensures
            h == self.id(),
    {
        self.handle
    }
}

/// The owned error aggregate of a failed context creation. Distinct from
/// build diagnostics; destroyed exactly once.
#[derive(Debug)]
pub struct ContextError {
    handle: u64,
}

impl ContextError {
    pub closed spec fn id(self) -> u64 {
        self.handle
    }

    pub(crate) fn from_handle(handle: u64) -> (r: ContextError)
        ensures
            r.id() == handle,
    {
        ContextError { handle }
    }

    pub(crate) fn handle(&self) -> (h: u64)
        ensures
            h == self.id(),
    {
        self.handle
    }
}

} // verus!
