//! What a step or a routing function is called with.

use vstd::prelude::*;
use crate::Context;

verus! {

/// A request: the caller's context and a handle to the shared state.
///
/// `H` is the handle; whoever shares the state between concurrent steps
/// chooses one that guards it.
#[derive(Debug, Default)]
pub struct Request<S, H> {
    pub context: Context<S>,
    pub state: H,
}

impl<S: Clone, H: Clone> Clone for Request<S, H> {
    fn clone(&self) -> (copy: Self)
        ensures
            cloned(self.context.state, copy.context.state),
            cloned(self.state, copy.state),
    {
        Request { context: self.context.clone(), state: self.state.clone() }
    }
}

impl<S: Clone> Context<S> {
    /// The request that carries a copy of this context and the handle
    /// `state`.
    pub fn new_request<H>(&self, state: H) -> (request: Request<S, H>)
        ensures
            cloned(self.state, request.context.state),
            request.state == state,
    {
        Request { context: self.clone(), state }
    }
}

} // verus!
