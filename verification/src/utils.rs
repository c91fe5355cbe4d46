//! Promotion of single values and lists to sets.
//!
//! A step or a routing function may name one successor or several; either
//! way the engine works on a set. The marker types tell the conversions
//! apart.

use std::marker::PhantomData;
use vstd::prelude::*;
use crate::error::RunError;
use crate::keys::KeySet;
use crate::node::NodeKey;
use crate::scheduler::keys_of;

verus! {

/// Marks the promotion of a single value to a one-member set.
pub struct ByInto;

/// Marks the conversion of a list of values to the set of its members.
pub struct ByIntoIter;

/// Marks the conversion of a result whose success is converted as `T` marks.
pub struct ByResult<T> {
    _marker: PhantomData<T>,
}

/// Marks the conversion that cannot fail, done as `T` marks.
pub struct ByOk<T> {
    _marker: PhantomData<T>,
}

/// A value that converts into a set of type `S`.
pub trait IntoSet<S, A>: Sized {
    /// `set` is the set that this value converts into.
    open spec fn is_set(self, set: S) -> bool {
        true
    }

    /// The set of this value.
    fn into_set(self) -> (set: S)
        ensures
            self.is_set(set),
    ;
}

/// A value that converts into a set of type `S`, or fails.
pub trait TryIntoSet<S, A>: Sized {
    /// `outcome` is what the conversion of this value gives.
    open spec fn gives(self, outcome: Result<S, RunError>) -> bool {
        true
    }

    /// The set of this value, or its failure.
    fn try_into_set(self) -> (outcome: Result<S, RunError>)
        ensures
            self.gives(outcome),
    ;
}

impl IntoSet<KeySet, ByInto> for NodeKey {
    open spec fn is_set(self, set: KeySet) -> bool {
        set.wf() && set@ == set![self@]
    }

    fn into_set(self) -> (set: KeySet) {
        KeySet::single(self)
    }
}

impl IntoSet<KeySet, ByIntoIter> for Vec<NodeKey> {
    open spec fn is_set(self, set: KeySet) -> bool {
        set.wf() && set@ == keys_of(self@).to_set()
    }

    fn into_set(self) -> (set: KeySet) {
        KeySet::from_vec(self)
    }
}

impl IntoSet<Vec<String>, ByInto> for String {
    open spec fn is_set(self, set: Vec<String>) -> bool {
        set@ == seq![self]
    }

    fn into_set(self) -> (set: Vec<String>) {
        let mut set: Vec<String> = Vec::new();
        set.push(self);
        assert(set@ =~= seq![self]);
        set
    }
}

impl IntoSet<Vec<String>, ByInto> for &'static str {
    open spec fn is_set(self, set: Vec<String>) -> bool {
        set@.len() == 1 && set@[0]@ == self@
    }

    fn into_set(self) -> (set: Vec<String>) {
        let mut set: Vec<String> = Vec::new();
        set.push(self.to_owned());
        set
    }
}

impl IntoSet<Vec<String>, ByIntoIter> for Vec<String> {
    open spec fn is_set(self, set: Vec<String>) -> bool {
        set == self
    }

    fn into_set(self) -> (set: Vec<String>) {
        self
    }
}

impl<S, A, T: IntoSet<S, A>> TryIntoSet<S, ByOk<A>> for T {
    open spec fn gives(self, outcome: Result<S, RunError>) -> bool {
        outcome matches Ok(set) && self.is_set(set)
    }

    fn try_into_set(self) -> (outcome: Result<S, RunError>) {
        Ok(self.into_set())
    }
}

impl<S, A, T: TryIntoSet<S, A>> TryIntoSet<S, ByResult<A>> for Result<T, RunError> {
    open spec fn gives(self, outcome: Result<S, RunError>) -> bool {
        match self {
            Ok(value) => value.gives(outcome),
            Err(error) => outcome == Err::<S, RunError>(error),
        }
    }

    fn try_into_set(self) -> (outcome: Result<S, RunError>) {
        match self {
            Ok(value) => value.try_into_set(),
            Err(error) => Err(error),
        }
    }
}

} // verus!
