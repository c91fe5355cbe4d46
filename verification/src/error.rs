//! What can go wrong when a graph is validated or run.

use vstd::prelude::*;
use vstd::string::StringExecFns;
use crate::node::NodeKey;

verus! {

/// A failure reported by `serde_json`; carried through unread.
#[verifier::external_type_specification]
#[verifier::external_body]
pub struct ExSerdeJsonError(serde_json::Error);

/// A failure reported by `tokio` when a spawned task could not be joined;
/// carried through unread.
#[verifier::external_type_specification]
#[verifier::external_body]
pub struct ExJoinError(tokio::task::JoinError);

/// A defect of the graph itself.
#[derive(Debug, PartialEq, Eq)]
pub enum GraphError {
    /// A reachable step other than `End` has no out-edge.
    MissingOutEdge(NodeKey),
    /// A destination has no registered step.
    UndefinedNode(NodeKey),
    /// A routing value is absent from its edge's table; holds the value's text.
    UndefinedRoute(String),
    /// An edge names `Start` among its destinations.
    PointToStart,
    /// An edge has no destination at all.
    EmptyEdge { from: NodeKey, description: String },
    /// No declared path leads from `Start` to `End`.
    UnreachableEndNode,
}

impl GraphError {
    /// The text that reports this defect.
    pub open spec fn message_text(&self) -> Seq<char> {
        match self {
            GraphError::MissingOutEdge(key) => "Node<S> "@ + key@.text() + " must have an out edge"@,
            GraphError::UndefinedNode(key) => "Undefined node: "@ + key@.text(),
            GraphError::UndefinedRoute(value) => "Undefined route: "@ + value@,
            GraphError::PointToStart => "Next node cannot be Start"@,
            GraphError::EmptyEdge { from, description } => "Empty edge ("@ + description@
                + ") from "@ + from@.text(),
            GraphError::UnreachableEndNode => "Graph cannot reach End node"@,
        }
    }

    /// The text that reports this defect.
    pub fn message(&self) -> (text: String)
        ensures
            text@ == self.message_text(),
    {
        match self {
            GraphError::MissingOutEdge(key) => {
                let mut text = String::from_str("Node<S> ");
                text.append(key.to_text().as_str());
                text.append(" must have an out edge");
                text
            },
            GraphError::UndefinedNode(key) => {
                let mut text = String::from_str("Undefined node: ");
                text.append(key.to_text().as_str());
                text
            },
            GraphError::UndefinedRoute(value) => {
                let mut text = String::from_str("Undefined route: ");
                text.append(value.as_str());
                text
            },
            GraphError::PointToStart => String::from_str("Next node cannot be Start"),
            GraphError::EmptyEdge { from, description } => {
                let mut text = String::from_str("Empty edge (");
                text.append(description.as_str());
                text.append(") from ");
                text.append(from.to_text().as_str());
                text
            },
            GraphError::UnreachableEndNode => String::from_str("Graph cannot reach End node"),
        }
    }
}

/// A failure of a run.
#[derive(Debug)]
pub enum RunError {
    /// The graph is defective.
    GraphError(GraphError),
    /// A task could not be joined.
    TokioJoinError(tokio::task::JoinError),
    /// The shared document could not be converted.
    SerdeError(serde_json::Error),
    /// The edges of step `node_key` could not be resolved.
    ResolveNextNodesError { error: Box<RunError>, node_key: NodeKey },
    /// Step `node_key` itself failed.
    StepFailed { error: Box<RunError>, node_key: NodeKey },
}

} // verus!
