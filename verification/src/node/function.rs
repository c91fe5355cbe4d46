//! A step given as a function.

use vstd::prelude::*;

verus! {

/// A step that is a function from a request to an outcome.
pub struct NodeFunction<F>(pub F);

impl<F> NodeFunction<F> {
    /// Runs the step: calls the function on `request`.
    pub fn call<Req, Out>(&self, request: Req) -> (outcome: Out) where F: Fn(Req) -> Out
        requires
            call_requires(self.0, (request,)),
        ensures
            call_ensures(self.0, (request,), outcome),
    {
        (self.0)(request)
    }
}

} // verus!
