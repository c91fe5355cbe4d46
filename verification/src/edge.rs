//! Edges: the rules that name the steps to run after a step has completed.

use vstd::prelude::*;
use vstd::string::StringExecFns;
use crate::error::GraphError;
use crate::keys::KeySet;
use crate::node::{KeyView, NodeKey};

pub mod function;

pub use function::{AsyncEdgeFunction, EdgeFunction, Router};

verus! {

/// The text of a routing value as it appears in
/// [`GraphError::UndefinedRoute`]: the value in quotes, with the characters
/// that `std` escapes when it formats a string for debugging escaped.
pub uninterp spec fn route_text(value: Seq<char>) -> Seq<char>;

/// The text `std` gives a list of keys when it formats it for debugging.
pub uninterp spec fn keys_text(keys: Seq<KeyView>) -> Seq<char>;

/// The routing values handed to an edge, as plain texts.
pub open spec fn texts(values: Seq<String>) -> Seq<Seq<char>> {
    values.map_values(|value: String| value@)
}

/// A rule that computes the next steps once its source step has completed.
///
/// An edge has a *static* destination set, known before any run, and resolves
/// the routing values computed at run time to the destinations actually taken.
pub trait Edge {
    /// The edge's own invariant.
    spec fn wf(&self) -> bool;

    /// Every destination the edge can ever name.
    spec fn targets(&self) -> Set<KeyView>;

    /// The text that describes the edge in error reports.
    spec fn label(&self) -> Seq<char>;

    /// The first routing value in `routed` that the edge does not accept.
    spec fn rejected(&self, routed: Seq<Seq<char>>) -> Option<Seq<char>>;

    /// The destinations taken for the routing values `routed`.
    spec fn destinations(&self, routed: Seq<Seq<char>>) -> Set<KeyView>;

    /// Whatever an edge resolves to lies within its static destination set.
    proof fn lemma_destinations_are_targets(&self, routed: Seq<Seq<char>>)
        requires
            self.wf(),
        ensures
            self.destinations(routed).subset_of(self.targets()),
    ;

    /// The static destination set is finite.
    proof fn lemma_targets_finite(&self)
        requires
            self.wf(),
        ensures
            self.targets().finite(),
    ;

    /// The static destination set.
    fn neighbours(&self) -> (set: KeySet)
        requires
            self.wf(),
        ensures
            set.wf(),
            set@ == self.targets(),
    ;

    /// A text that describes the edge.
    fn description(&self) -> (text: String)
        requires
            self.wf(),
        ensures
            text@ == self.label(),
    ;

    /// The destinations for the routing values `routed`, or
    /// `UndefinedRoute` naming the first value that the edge does not accept.
    fn resolve(&self, routed: &Vec<String>) -> (next: Result<KeySet, GraphError>)
        requires
            self.wf(),
        ensures
            match next {
                Ok(set) => self.rejected(texts(routed@)) is None && set.wf() && set@
                    == self.destinations(texts(routed@)),
                Err(GraphError::UndefinedRoute(name)) => self.rejected(texts(routed@)) matches Some(
                    value,
                ) && name@ == route_text(value),
                Err(_) => false,
            },
    ;
}

/// Formats a list of keys with `std`'s `format!` and `{:?}`.
///
/// Claims only that the text is a function of the keys.
#[verifier::external_body]
pub(crate) fn debug_keys(keys: &Vec<NodeKey>) -> (text: String)
    ensures
        text@ == keys_text(keys@.map_values(|k: NodeKey| k@)),
{
    format!("{:?}", keys)
}

/// Formats a routing value with `std`'s `format!` and `{:?}`.
///
/// Claims only that the text is a function of the value.
#[verifier::external_body]
pub(crate) fn debug_route(value: &String) -> (text: String)
    ensures
        text@ == route_text(value@),
{
    format!("{:?}", value)
}

/// A single key is an edge to exactly that step.
impl Edge for NodeKey {
    open spec fn wf(&self) -> bool {
        true
    }

    open spec fn targets(&self) -> Set<KeyView> {
        set![self@]
    }

    open spec fn label(&self) -> Seq<char> {
        "To NodeKey("@ + self@.text() + ")"@
    }

    open spec fn rejected(&self, routed: Seq<Seq<char>>) -> Option<Seq<char>> {
        None
    }

    open spec fn destinations(&self, routed: Seq<Seq<char>>) -> Set<KeyView> {
        set![self@]
    }

    proof fn lemma_destinations_are_targets(&self, routed: Seq<Seq<char>>) {
    }

    proof fn lemma_targets_finite(&self) {
    }

    fn neighbours(&self) -> (set: KeySet) {
        KeySet::single(self.clone())
    }

    fn description(&self) -> (text: String) {
        let mut text = String::from_str("To NodeKey(");
        text.append(self.to_text().as_str());
        text.append(")");
        text
    }

    fn resolve(&self, routed: &Vec<String>) -> (next: Result<KeySet, GraphError>) {
        Ok(KeySet::single(self.clone()))
    }
}

/// A set of keys is an edge to all of its members.
impl Edge for KeySet {
    open spec fn wf(&self) -> bool {
        self.wf()
    }

    open spec fn targets(&self) -> Set<KeyView> {
        self@
    }

    open spec fn label(&self) -> Seq<char> {
        "To Nodekeys "@ + keys_text(self.order())
    }

    open spec fn rejected(&self, routed: Seq<Seq<char>>) -> Option<Seq<char>> {
        None
    }

    open spec fn destinations(&self, routed: Seq<Seq<char>>) -> Set<KeyView> {
        self@
    }

    proof fn lemma_destinations_are_targets(&self, routed: Seq<Seq<char>>) {
    }

    proof fn lemma_targets_finite(&self) {
        self.lemma_cardinality();
    }

    fn neighbours(&self) -> (set: KeySet) {
        self.duplicate()
    }

    fn description(&self) -> (text: String) {
        self.describe("To Nodekeys ")
    }

    fn resolve(&self, routed: &Vec<String>) -> (next: Result<KeySet, GraphError>) {
        Ok(self.duplicate())
    }
}

/// Any of the edges that this library provides, so that one graph can hold
/// edges of different kinds.
pub enum EdgeKind<F, G> {
    /// To one step.
    To(NodeKey),
    /// To every step of a set.
    ToAll(KeySet),
    /// Routed by a function that answers at once.
    Routed(EdgeFunction<F>),
    /// Routed by a function that may suspend.
    RoutedLater(AsyncEdgeFunction<G>),
}

impl<F: Clone, G: Clone> Clone for EdgeKind<F, G> {
    /// The copy is an edge of the same kind, with the same destinations
    /// and the same text.
    fn clone(&self) -> (copy: Self)
        ensures
            self.wf() ==> copy.wf(),
            copy.targets() == self.targets(),
            copy.label() == self.label(),
            forall|routed: Seq<Seq<char>>| #[trigger] copy.rejected(routed) == self.rejected(routed),
            forall|routed: Seq<Seq<char>>| #[trigger]
                copy.destinations(routed) == self.destinations(routed),
    {
        match self {
            EdgeKind::To(key) => EdgeKind::To(key.clone()),
            EdgeKind::ToAll(keys) => EdgeKind::ToAll(keys.clone()),
            EdgeKind::Routed(edge) => EdgeKind::Routed(edge.clone()),
            EdgeKind::RoutedLater(edge) => EdgeKind::RoutedLater(edge.clone()),
        }
    }
}

impl<F, G> Edge for EdgeKind<F, G> {
    open spec fn wf(&self) -> bool {
        match self {
            EdgeKind::To(key) => key.wf(),
            EdgeKind::ToAll(keys) => keys.wf(),
            EdgeKind::Routed(edge) => edge.wf(),
            EdgeKind::RoutedLater(edge) => edge.wf(),
        }
    }

    open spec fn targets(&self) -> Set<KeyView> {
        match self {
            EdgeKind::To(key) => key.targets(),
            EdgeKind::ToAll(keys) => keys.targets(),
            EdgeKind::Routed(edge) => edge.targets(),
            EdgeKind::RoutedLater(edge) => edge.targets(),
        }
    }

    open spec fn label(&self) -> Seq<char> {
        match self {
            EdgeKind::To(key) => key.label(),
            EdgeKind::ToAll(keys) => keys.label(),
            EdgeKind::Routed(edge) => edge.label(),
            EdgeKind::RoutedLater(edge) => edge.label(),
        }
    }

    open spec fn rejected(&self, routed: Seq<Seq<char>>) -> Option<Seq<char>> {
        match self {
            EdgeKind::To(key) => key.rejected(routed),
            EdgeKind::ToAll(keys) => keys.rejected(routed),
            EdgeKind::Routed(edge) => edge.rejected(routed),
            EdgeKind::RoutedLater(edge) => edge.rejected(routed),
        }
    }

    open spec fn destinations(&self, routed: Seq<Seq<char>>) -> Set<KeyView> {
        match self {
            EdgeKind::To(key) => key.destinations(routed),
            EdgeKind::ToAll(keys) => keys.destinations(routed),
            EdgeKind::Routed(edge) => edge.destinations(routed),
            EdgeKind::RoutedLater(edge) => edge.destinations(routed),
        }
    }

    proof fn lemma_destinations_are_targets(&self, routed: Seq<Seq<char>>) {
        match self {
            EdgeKind::To(key) => key.lemma_destinations_are_targets(routed),
            EdgeKind::ToAll(keys) => keys.lemma_destinations_are_targets(routed),
            EdgeKind::Routed(edge) => edge.lemma_destinations_are_targets(routed),
            EdgeKind::RoutedLater(edge) => edge.lemma_destinations_are_targets(routed),
        }
    }

    proof fn lemma_targets_finite(&self) {
        match self {
            EdgeKind::To(key) => key.lemma_targets_finite(),
            EdgeKind::ToAll(keys) => keys.lemma_targets_finite(),
            EdgeKind::Routed(edge) => edge.lemma_targets_finite(),
            EdgeKind::RoutedLater(edge) => edge.lemma_targets_finite(),
        }
    }

    fn neighbours(&self) -> (set: KeySet) {
        match self {
            EdgeKind::To(key) => key.neighbours(),
            EdgeKind::ToAll(keys) => keys.neighbours(),
            EdgeKind::Routed(edge) => edge.neighbours(),
            EdgeKind::RoutedLater(edge) => edge.neighbours(),
        }
    }

    fn description(&self) -> (text: String) {
        match self {
            EdgeKind::To(key) => key.description(),
            EdgeKind::ToAll(keys) => keys.description(),
            EdgeKind::Routed(edge) => edge.description(),
            EdgeKind::RoutedLater(edge) => edge.description(),
        }
    }

    fn resolve(&self, routed: &Vec<String>) -> (next: Result<KeySet, GraphError>) {
        match self {
            EdgeKind::To(key) => key.resolve(routed),
            EdgeKind::ToAll(keys) => keys.resolve(routed),
            EdgeKind::Routed(edge) => edge.resolve(routed),
            EdgeKind::RoutedLater(edge) => edge.resolve(routed),
        }
    }
}

} // verus!
