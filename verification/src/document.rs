//! Documents as nested values: the events that a document is written as, and
//! the tree that it stands for.

use vstd::prelude::*;
use crate::model::{attribute_key, merged, name_key, separator};
use crate::text::{joined, trimmed};
use crate::token::{EndKind, Event};
use crate::tree::Tree;

verus! {

/// One piece of an element's content.
pub ghost enum Node {
    /// An attribute of the element, with its name and value.
    Attribute { name: Seq<char>, value: Seq<char> },
    /// A run of text.
    Text { text: Seq<char> },
    /// A child element with its name, its content, and whether it ends in a
    /// closing tag or as an empty element.
    Element { name: Seq<char>, content: Seq<Node>, empty: bool },
    /// The `>` that ends the element's start tag.
    StartTagEnd,
    /// A comment, a processing instruction or another piece that the builder
    /// passes over.
    Other,
}

/// The events that `node` is written as.
pub open spec fn events(node: Node) -> Seq<Event>
    decreases node, 0nat,
{
    match node {
        Node::Attribute { name, value } => seq![Event::Attribute { local: name, value }],
        Node::Text { text } => seq![Event::Text { text }],
        Node::Element { name, content, empty } => seq![Event::ElementStart { local: name }]
            + events_of(content, content.len()) + seq![
            Event::ElementEnd { end: if empty { EndKind::Empty } else { EndKind::Close } },
        ],
        Node::StartTagEnd => seq![Event::ElementEnd { end: EndKind::Open }],
        Node::Other => seq![Event::Other],
    }
}

/// The events that the first `count` nodes of `nodes` are written as.
pub open spec fn events_of(nodes: Seq<Node>, count: nat) -> Seq<Event>
    decreases nodes, count,
{
    if count == 0 || count > nodes.len() {
        Seq::empty()
    } else {
        events_of(nodes, (count - 1) as nat) + events(nodes[count - 1])
    }
}

/// What the element `node` hands to its parent: nothing, a text, or an object.
/// A node that is no element hands nothing.
pub open spec fn contribution(node: Node) -> Option<Tree>
    decreases node, 0nat,
{
    match node {
        Node::Element { name, content, empty } => merged(
            joined(runs_of(content, content.len()), separator()),
            fields_of(content, content.len()),
        ),
        _ => None,
    }
}

/// The entries that the first `count` nodes of an element's content give it:
/// each attribute under its key with its trimmed value, each child element
/// under its name with what it hands up. A later entry replaces an earlier
/// one with the same key.
pub open spec fn fields_of(nodes: Seq<Node>, count: nat) -> Map<Seq<char>, Tree>
    decreases nodes, count,
{
    if count == 0 || count > nodes.len() {
        Map::empty()
    } else {
        let before = fields_of(nodes, (count - 1) as nat);
        match nodes[count - 1] {
            Node::Attribute { name, value } => before.insert(
                attribute_key(name),
                Tree::Value(trimmed(value)),
            ),
            Node::Element { name, content, empty } => match contribution(nodes[count - 1]) {
                Some(tree) => before.insert(name, tree),
                None => before,
            },
            _ => before,
        }
    }
}

/// The text runs among the first `count` nodes of an element's content, in
/// order: each trimmed, and left out where nothing but white space was in it.
pub open spec fn runs_of(nodes: Seq<Node>, count: nat) -> Seq<Seq<char>>
    decreases count,
{
    if count == 0 || count > nodes.len() {
        Seq::empty()
    } else {
        let before = runs_of(nodes, (count - 1) as nat);
        match nodes[count - 1] {
            Node::Text { text } => if trimmed(text).len() == 0 {
                before
            } else {
                before.push(trimmed(text))
            },
            _ => before,
        }
    }
}

/// No element among the first `count` nodes, at any depth, hands something
/// to its parent under the reserved name key.
pub open spec fn keeps_names(nodes: Seq<Node>, count: nat) -> bool
    decreases nodes, count,
{
    if count == 0 || count > nodes.len() {
        true
    } else {
        &&& keeps_names(nodes, (count - 1) as nat)
        &&& match nodes[count - 1] {
            Node::Element { name, content, empty } => {
                &&& keeps_names(content, content.len())
                &&& (name == name_key() ==> contribution(nodes[count - 1]) is None)
            },
            _ => true,
        }
    }
}

/// Whether `node` is a piece that may stand outside the root element: text,
/// or a piece that the builder passes over.
pub open spec fn is_filler(node: Node) -> bool {
    match node {
        Node::Text { text } => true,
        Node::Other => true,
        _ => false,
    }
}

} // verus!
