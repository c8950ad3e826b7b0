//! One-shot teardown handles: a `Disposable` runs its action at most once,
//! on `dispose()`, or never if it is forgotten.

use vstd::prelude::*;

verus! {

/// Runs a teardown action at most once.
pub struct Disposable<F: FnOnce()> {
    pub action: Option<F>,
}

impl<F: FnOnce()> Disposable<F> {
    /// Wraps a teardown action.
    pub fn new(action: F) -> (d: Disposable<F>)
        ensures
            d.action == Some(action),
    {
        Disposable { action: Some(action) }
    }

    /// A disposable that does nothing.
    pub fn noop() -> (d: Disposable<F>)
        ensures
            d.action is None,
    {
        Disposable { action: None }
    }

    /// Whether the action is still to run.
    pub fn is_armed(&self) -> (b: bool)
        ensures
            b == self.action is Some,
    {
        self.action.is_some()
    }

    /// Runs the action now, if it has not run yet; afterwards it never runs
    /// again. Returns whether it ran.
    pub fn dispose(&mut self) -> (ran: bool)
        requires
            old(self).action matches Some(f) ==> f.requires(()),
        ensures
            ran == old(self).action is Some,
            final(self).action is None,
            old(self).action matches Some(f) ==> f.ensures((), ()),
    {
        let mut taken: Option<F> = None;
        std::mem::swap(&mut taken, &mut self.action);
        match taken {
            Some(action) => {
                action();
                true
            },
            None => false,
        }
    }

    /// Drops the handle without running the action. Returns the action that
    /// will now never run through this handle.
    pub fn forget(self) -> (skipped: Option<F>)
        ensures
            skipped == self.action,
    {
        let Disposable { action } = self;
        action
    }
}

} // verus!
