//! The typed projection of the whole document.

use std::marker::PhantomData;
use vstd::prelude::*;
use crate::error::RunError;
use crate::state::{JsonObject, StateView};
use crate::TransferObject;

verus! {

/// The view that reads the whole document as a `T`.
pub struct TypedState<T>(PhantomData<T>);

impl<T> TypedState<T> {
    /// The view.
    pub fn new() -> Self {
        TypedState(PhantomData)
    }
}

impl<T> Default for TypedState<T> {
    fn default() -> Self {
        TypedState::new()
    }
}

impl<T: TransferObject> StateView<JsonObject> for TypedState<T> {
    type Data = Result<T, RunError>;

    /// The result is what `T` reads from the document: a value only where
    /// `T` reads one, and otherwise the failure that `T` reports.
    open spec fn projects(self, target: &JsonObject, data: Result<T, RunError>) -> bool {
        T::reads(target, data)
    }

    fn view(self, target: &JsonObject) -> (data: Result<T, RunError>) {
        T::from_object(target)
    }
}

} // verus!
