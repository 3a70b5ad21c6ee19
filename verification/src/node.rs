//! The document model: an ordered, recursive tree of scalars, sequences
//! and mappings, together with its specification-level mirror.

use vstd::prelude::*;

verus! {

/// How a scalar was written down in the source text; kept so that
/// re-serialization reproduces the original spelling.
#[derive(Clone, Copy, PartialEq, Eq, Structural, Debug)]
pub enum Style {
    /// written bare, without quotes
    Plain,
    /// written between single quotes
    Single,
    /// written between double quotes
    Double,
}

/// One node of the document tree.
pub enum Node {
    /// A leaf: the literal text (quotes stripped) and its quoting style.
    Scalar(String, Style),
    /// An ordered list of nodes.
    Sequence(Vec<Node>),
    /// An ordered map; keys are unique and their order is significant.
    Mapping(Vec<(String, Node)>),
}

/// Specification-level mirror of `Node`, over `Seq<char>`.
pub enum NodeV {
    Scalar(Seq<char>, Style),
    Sequence(Seq<NodeV>),
    Mapping(Seq<(Seq<char>, NodeV)>),
}

/// The mathematical value of an executable tree.
pub open spec fn node_v(n: Node) -> NodeV
    decreases n,
{
    match n {
        Node::Scalar(s, st) => NodeV::Scalar(s@, st),
        Node::Sequence(items) => NodeV::Sequence(nodes_v(items@)),
        Node::Mapping(entries) => NodeV::Mapping(entries_v(entries@)),
    }
}

/// The values of a list of trees, in order.
pub open spec fn nodes_v(items: Seq<Node>) -> Seq<NodeV>
    decreases items,
{
    if items.len() == 0 {
        Seq::empty()
    } else {
        seq![node_v(items[0])] + nodes_v(items.drop_first())
    }
}

/// The values of a list of mapping entries, in order.
pub open spec fn entries_v(entries: Seq<(String, Node)>) -> Seq<(Seq<char>, NodeV)>
    decreases entries,
{
    if entries.len() == 0 {
        Seq::empty()
    } else {
        seq![(entries[0].0@, node_v(entries[0].1))] + entries_v(entries.drop_first())
    }
}

/// `nodes_v` element by element.
pub proof fn lemma_nodes_v(items: Seq<Node>)
    ensures
        nodes_v(items).len() == items.len(),
        forall|i: int| 0 <= i < items.len() ==> nodes_v(items)[i] == node_v(items[i]),
    decreases items,
{
    if items.len() > 0 {
        lemma_nodes_v(items.drop_first());
    }
}

/// `entries_v` element by element.
pub proof fn lemma_entries_v(entries: Seq<(String, Node)>)
    ensures
        entries_v(entries).len() == entries.len(),
        forall|i: int|
            0 <= i < entries.len() ==> entries_v(entries)[i] == (
                entries[i].0@,
                node_v(entries[i].1),
            ),
    decreases entries,
{
    if entries.len() > 0 {
        lemma_entries_v(entries.drop_first());
    }
}

/// Keys of a specification-level mapping, in order.
pub open spec fn keys_of(entries: Seq<(Seq<char>, NodeV)>) -> Seq<Seq<char>> {
    entries.map_values(|e: (Seq<char>, NodeV)| e.0)
}

/// Every key occurs only once.
pub open spec fn unique_keys(entries: Seq<(Seq<char>, NodeV)>) -> bool {
    forall|i: int, j: int|
        0 <= i < j < entries.len() ==> entries[i].0 != entries[j].0
}

/// The value stored under `key`, if any (first match).
pub open spec fn map_get(entries: Seq<(Seq<char>, NodeV)>, key: Seq<char>) -> Option<NodeV>
    decreases entries.len(),
{
    if entries.len() == 0 {
        None
    } else if entries[0].0 == key {
        Some(entries[0].1)
    } else {
        map_get(entries.drop_first(), key)
    }
}

/// Whether some entry carries `key`.
pub open spec fn map_has(entries: Seq<(Seq<char>, NodeV)>, key: Seq<char>) -> bool {
    exists|i: int| 0 <= i < entries.len() && entries[i].0 == key
}

} // verus!
