//! The async completion bridge: a one-shot completion slot with the
//! states Pending and Completed, a stored resumption token, and take-once
//! consumption. The producer side delivers at most one result; a second
//! delivery to a completed bridge is handed back untouched so the caller
//! can tear it down.

use vstd::prelude::*;

use crate::result::BuildResult;

verus! {

/// The shared completion slot of one asynchronous build.
pub struct BuildFutureState {
    /// The stored result, present from completion until consumption.
    pub result: Option<BuildResult>,
    /// The resumption token of a consumer suspended on this bridge.
    pub waker: Option<u64>,
    /// True once the one-shot completion has fired.
    pub completed: bool,
    /// True once the consumer is gone; a late completion is then dropped.
    pub abandoned: bool,
}

impl BuildFutureState {
    /// A fresh bridge: Pending, with no consumer suspended.
    pub fn new() -> (r: BuildFutureState)
        ensures
            r.result is None,
            r.waker is None,
            !r.completed,
            !r.abandoned,
    {
        BuildFutureState { result: None, waker: None, completed: false, abandoned: false }
    }

    /// The one-shot completion: stores the result and hands back the
    /// token of a suspended consumer to wake. Fires at most once per
    /// bridge: delivered to an already-completed bridge, the state is
    /// left untouched and the late result is handed back for teardown.
    pub fn set_and_wake(&mut self, res: BuildResult) -> (r: (Option<u64>, Option<BuildResult>))
        ensures
            !old(self).completed ==> {
                &&& final(self).completed
                &&& final(self).result == Some(res)
                &&& final(self).waker is None
                &&& final(self).abandoned == old(self).abandoned
                &&& r.0 == old(self).waker
                &&& r.1 is None
            },
            old(self).completed ==> {
                &&& *final(self) == *old(self)
                &&& r.0 is None
                &&& r.1 == Some(res)
            },
    {
        if self.completed {
            (None, Some(res))
        } else {
            self.completed = true;
            self.result = Some(res);
            let mut waker: Option<u64> = None;
            core::mem::swap(&mut waker, &mut self.waker);
            (waker, None)
        }
    }

    /// One poll of the consumer: takes the stored result if completion
    /// has fired, else records the resumption token and stays Pending.
    pub fn poll_take(&mut self, waker: u64) -> (r: Option<BuildResult>)
        ensures
            old(self).result is Some ==> {
                &&& r == old(self).result
                &&& final(self).result is None
                &&& final(self).waker == old(self).waker
                &&& final(self).completed == old(self).completed
                &&& final(self).abandoned == old(self).abandoned
            },
            old(self).result is None ==> {
                &&& r is None
                &&& final(self).result is None
                &&& final(self).waker == Some(waker)
                &&& final(self).completed == old(self).completed
                &&& final(self).abandoned == old(self).abandoned
            },
    {
        let mut taken: Option<BuildResult> = None;
        core::mem::swap(&mut taken, &mut self.result);
        match taken {
            Some(res) => Some(res),
            None => {
                self.waker = Some(waker);
                None
            }
        }
    }

    /// The consumer is gone: marks the bridge abandoned and hands back
    /// any result already stored, so it can be torn down.
    pub fn abandon(&mut self) -> (r: Option<BuildResult>)
        ensures
            final(self).abandoned,
            final(self).result is None,
            final(self).completed == old(self).completed,
            final(self).waker == old(self).waker,
            r == old(self).result,
    {
        self.abandoned = true;
        let mut taken: Option<BuildResult> = None;
        core::mem::swap(&mut taken, &mut self.result);
        taken
    }
}

/// The caller-visible future of one asynchronous build: an owned interest
/// in a bridge, with cancellation-on-drop when made cancellable.
pub struct BuildFuture {
    /// The bridge this future consumes.
    pub(crate) bridge: u64,
    /// The context a cancellation signal would go to.
    pub(crate) context: Option<u64>,
    /// Whether discarding this future signals a cancellation.
    pub(crate) cancellable: bool,
}

impl BuildFuture {
    pub closed spec fn bridge_id(self) -> u64 {
        self.bridge
    }

    pub closed spec fn context_of(self) -> Option<u64> {
        self.context
    }

    pub closed spec fn is_cancellable(self) -> bool {
        self.cancellable
    }

    pub(crate) fn bridge_id_exec(&self) -> (h: u64)
        ensures
            h == self.bridge_id(),
    {
        self.bridge
    }

    pub(crate) fn cancellable_exec(&self) -> (b: bool)
        ensures
            b == self.is_cancellable(),
    {
        self.cancellable
    }

    pub(crate) fn context_exec(&self) -> (c: Option<u64>)
        ensures
            c == self.context_of(),
    {
        self.context
    }

    pub(crate) fn new(bridge: u64, context: Option<u64>) -> (r: BuildFuture)
        ensures
            r.bridge_id() == bridge,
            r.context_of() == context,
            !r.is_cancellable(),
    {
        BuildFuture { bridge, context, cancellable: false }
    }

    /// Makes dropping this future before completion signal a best-effort
    /// cancellation to the context.
    pub fn cancellable(self) -> (r: BuildFuture)
        ensures
            r.bridge_id() == self.bridge_id(),
            r.context_of() == self.context_of(),
            r.is_cancellable(),
    {
        BuildFuture { cancellable: true, ..self }
    }
}

} // verus!
