//! Step identifiers.

use vstd::prelude::*;

pub mod function;
pub mod sequence;

pub use function::NodeFunction;
pub use sequence::NodeSequence;

verus! {

/// The mathematical value of a [`NodeKey`]: a caller-chosen name, or one of the
/// two reserved sentinels.
pub enum KeyView {
    Named(Seq<char>),
    Start,
    End,
}

impl KeyView {
    /// The text a key is shown as: its name, or `@start` and `@end` for the
    /// sentinels.
    pub open spec fn text(self) -> Seq<char> {
        match self {
            KeyView::Named(name) => name,
            KeyView::Start => "@start"@,
            KeyView::End => "@end"@,
        }
    }
}

/// Identifier of a workflow step.
///
/// `Start` is the virtual origin of every run and `End` the virtual terminal;
/// every other key is named by the caller.
#[derive(Debug, PartialEq, Eq, Hash)]
pub enum NodeKey {
    Named(String),
    Start,
    End,
}

impl View for NodeKey {
    type V = KeyView;

    open spec fn view(&self) -> KeyView {
        match self {
            NodeKey::Named(name) => KeyView::Named(name@),
            NodeKey::Start => KeyView::Start,
            NodeKey::End => KeyView::End,
        }
    }
}

impl Clone for NodeKey {
    fn clone(&self) -> (copy: Self)
        ensures
            copy@ == self@,
    {
        match self {
            NodeKey::Named(name) => NodeKey::Named(name.clone()),
            NodeKey::Start => NodeKey::Start,
            NodeKey::End => NodeKey::End,
        }
    }
}

impl std::ops::Deref for NodeKey {
    type Target = str;

    fn deref(&self) -> (text: &str)
        ensures
            text@ == self@.text(),
    {
        match self {
            NodeKey::Named(name) => name.as_str(),
            NodeKey::Start => "@start",
            NodeKey::End => "@end",
        }
    }
}

impl From<&'static str> for NodeKey {
    fn from(val: &'static str) -> (key: Self)
        ensures
            key@ == KeyView::Named(val@),
    {
        NodeKey::Named(val.to_owned())
    }
}

/// A key made from a text slice is known by its value only.
impl vstd::std_specs::convert::FromSpecImpl<&'static str> for NodeKey {
    open spec fn obeys_from_spec() -> bool {
        false
    }

    open spec fn from_spec(v: &'static str) -> Self {
        choose|key: NodeKey| key@ == KeyView::Named(v@)
    }
}

/// A key made from a string holds that string.
impl vstd::std_specs::convert::FromSpecImpl<String> for NodeKey {
    open spec fn obeys_from_spec() -> bool {
        true
    }

    open spec fn from_spec(v: String) -> Self {
        NodeKey::Named(v)
    }
}

impl From<String> for NodeKey {
    fn from(val: String) -> (key: Self)
        ensures
            key@ == KeyView::Named(val@),
    {
        NodeKey::Named(val)
    }
}

impl NodeKey {
    /// A named key.
    pub fn const_new(name: &'static str) -> (key: Self)
        ensures
            key@ == KeyView::Named(name@),
    {
        NodeKey::Named(name.to_owned())
    }

    /// The text this key is shown as.
    pub fn to_text(&self) -> (text: String)
        ensures
            text@ == self@.text(),
    {
        match self {
            NodeKey::Named(name) => name.clone(),
            NodeKey::Start => "@start".to_owned(),
            NodeKey::End => "@end".to_owned(),
        }
    }

    /// Whether this key is the `End` sentinel.
    pub fn is_end(&self) -> (end: bool)
        ensures
            end == (self@ == KeyView::End),
    {
        match self {
            NodeKey::End => true,
            _ => false,
        }
    }

    /// Whether this key is the `Start` sentinel.
    pub fn is_start(&self) -> (start: bool)
        ensures
            start == (self@ == KeyView::Start),
    {
        match self {
            NodeKey::Start => true,
            _ => false,
        }
    }

    /// Whether two keys identify the same step.
    pub fn same(&self, other: &NodeKey) -> (equal: bool)
        ensures
            equal == (self@ == other@),
    {
        match (self, other) {
            (NodeKey::Named(a), NodeKey::Named(b)) => *a == *b,
            (NodeKey::Start, NodeKey::Start) => true,
            (NodeKey::End, NodeKey::End) => true,
            _ => false,
        }
    }
}

} // verus!
