//! The shutdown coordinator's bookkeeping: one shared cancellation flag
//! and a reference count of outstanding quit handles.
//!
//! The flag flips from `false` to `true` at most once and never resets.
//! Every issued handle raises the count by one; the holder lowers it again
//! when it is done. Teardown may begin only once the flag is set and the
//! count has returned to its baseline of zero, which proves that no
//! cooperating background task is still in flight.

use vstd::prelude::*;

verus! {

/// A capability held by a background task that lets it observe the shared
/// cancellation flag. The runtime counts outstanding handles; the holder
/// gives the handle back through `QuitState::drop_handle` when its work
/// has unwound.
pub struct QuitHandle {}

/// The shared cancellation state: the flag plus the number of quit handles
/// issued and not yet returned.
pub struct QuitState {
    pub quitting: bool,
    pub outstanding: u64,
}

impl QuitState {
    /// A fresh state: not quitting, no handles outstanding.
    pub fn new() -> (r: QuitState)
        ensures
            !r.quitting,
            r.outstanding == 0,
    {
        QuitState { quitting: false, outstanding: 0 }
    }

    /// Whether the cancellation flag has been set.
    pub fn is_quitting(&self) -> (r: bool)
        ensures
            r == self.quitting,
    {
        self.quitting
    }

    /// Sets the cancellation flag. Idempotent: the flag only ever moves
    /// from `false` to `true`, and the handle count is untouched.
    pub fn quit(&mut self)
        ensures
            final(self).quitting,
            final(self).outstanding == old(self).outstanding,
    {
        self.quitting = true;
    }

    /// Issues a new quit handle, raising the outstanding count by one.
    /// Once the flag is set, no further handles are issued and the state
    /// is left untouched.
    pub fn quit_handle(&mut self) -> (r: Option<QuitHandle>)
        requires
            old(self).outstanding < u64::MAX,
        ensures
            old(self).quitting ==> r is None && *final(self) == *old(self),
            !old(self).quitting ==> r is Some && final(self).outstanding == old(self).outstanding + 1
                && final(self).quitting == old(self).quitting,
    {
        if self.quitting {
            None
        } else {
            self.outstanding = self.outstanding + 1;
            Some(QuitHandle {})
        }
    }

    /// Returns one issued handle, lowering the outstanding count by one.
    pub fn drop_handle(&mut self, handle: QuitHandle)
        requires
            old(self).outstanding > 0,
        ensures
            final(self).outstanding == old(self).outstanding - 1,
            final(self).quitting == old(self).quitting,
    {
        let _ = handle;
        self.outstanding = self.outstanding - 1;
    }

    /// Whether teardown may begin: the flag is set and every issued handle
    /// has been returned.
    pub fn ready_for_teardown(&self) -> (r: bool)
        ensures
            r == (self.quitting && self.outstanding == 0),
    {
        self.quitting && self.outstanding == 0
    }
}

} // verus!
