//! The slot in which a task leaves word that it wants to be woken.
use core::task::Waker;
use vstd::prelude::*;

verus! {

/// `core::task::Waker`, as a value that is only carried and handed back.
#[verifier::external_type_specification]
#[verifier::external_body]
pub struct ExWaker(Waker);

/// `core::task::Waker::wake`: consumes the waker and wakes its task. Nothing is
/// claimed of what the task does.
pub assume_specification[ Waker::wake ](waker: Waker);

/// `core::task::Waker::clone`: another waker for the same task. Wakers cannot be
/// told apart here, so nothing is claimed of it.
pub assume_specification[ <Waker as Clone>::clone ](waker: &Waker) -> Waker;

/// At most one registered waker.
#[derive(Debug)]
pub struct WakerRegistration {
    pub waker: Option<Waker>,
}

impl WakerRegistration {
    /// No waker is registered.
    pub fn new() -> (r: WakerRegistration)
        ensures
            r.waker is None,
    {
        WakerRegistration { waker: None }
    }

    /// Registers a waker, in place of any other.
    pub fn register(&mut self, waker: &Waker)
        ensures
            final(self).waker matches Some(kept) && cloned(*waker, kept),
    {
        self.waker = Some(waker.clone());
    }

    /// Wakes the registered task, if any, once: it has to register again.
    pub fn wake(&mut self)
        ensures
            final(self).waker is None,
    {
        if let Some(waker) = self.waker.take() {
            waker.wake();
        }
    }
}

} // verus!
