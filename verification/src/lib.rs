//! A typed directed-graph engine for multi-step workflows: steps share one
//! structured document, and edges decide which steps run next.
//!
//! A [`graph::Graph`] registers steps and edges and validates them. A
//! [`scheduler::Scheduler`] decides, for every completed step, which steps run
//! next. A [`state::State`] is the document that the steps of one run share.

use vstd::prelude::*;

pub mod edge;
pub mod error;
pub mod graph;
pub mod keys;
pub mod node;
pub mod request;
pub mod scheduler;
pub mod state;
pub mod typed;
pub mod utils;

pub use error::{GraphError, RunError};
pub use graph::Graph;
pub use state::{JsonObject, JsonValue};

verus! {

/// What the caller hands to every step of a run: its own collaborators.
#[derive(Debug, Default)]
pub struct Context<S> {
    pub state: S,
}

impl<S: Clone> Clone for Context<S> {
    fn clone(&self) -> (copy: Self)
        ensures
            cloned(self.state, copy.state),
    {
        Context { state: self.state.clone() }
    }
}

/// A value that can be read from the shared document and written as one.
///
/// `reads` and `writes` say what the two conversions give; where an
/// implementation says nothing, every result is allowed.
pub trait TransferObject: Sized {
    /// `read` is what reading `object` as a `Self` gives.
    open spec fn reads(object: &JsonObject, read: Result<Self, RunError>) -> bool {
        true
    }

    /// `written` is what writing this value gives.
    open spec fn writes(self, written: Result<JsonValue, RunError>) -> bool {
        true
    }

    /// Reads `object` as a `Self`; fails where `object` has not the shape of
    /// one.
    fn from_object(object: &JsonObject) -> (read: Result<Self, RunError>)
        ensures
            Self::reads(object, read),
    ;

    /// Writes this value as a structured value.
    fn to_value(self) -> (written: Result<JsonValue, RunError>)
        ensures
            self.writes(written),
    ;
}

} // verus!
