//! The mathematical model of a configuration tree, and the total order on it.

use vstd::prelude::*;
use vstd::utf8::encode_utf8;

verus! {

/// What a configuration node is: a scalar, a sequence, a key/value map, or
/// the sentinel for a lookup that found nothing.
///
/// A map is held as its entries in ascending key order, so that two maps with
/// the same entries are the same value.
pub enum Node {
    /// A floating-point literal, kept as its text.
    Real(Seq<char>),
    Int(int),
    String(Seq<char>),
    Bool(bool),
    Array(Seq<Node>),
    Hash(Seq<(Node, Node)>),
    /// An explicit absence of a value.
    Null,
    /// The result of a lookup that failed.
    Invalid,
}

/// Lexicographic order on byte strings, looking from index `i` onwards.
pub open spec fn bytes_precede(a: Seq<u8>, b: Seq<u8>, i: int) -> bool
    decreases a.len() - i,
{
    if i < 0 || i >= b.len() {
        false
    } else if i >= a.len() {
        true
    } else if a[i] != b[i] {
        a[i] < b[i]
    } else {
        bytes_precede(a, b, i + 1)
    }
}

/// Order on texts: that of their UTF-8 encodings, byte by byte.
pub open spec fn text_precedes(a: Seq<char>, b: Seq<char>) -> bool {
    bytes_precede(encode_utf8(a), encode_utf8(b), 0)
}

/// Lexicographic order on sequences of nodes, looking from index `i` onwards.
pub open spec fn seq_precedes(a: Seq<Node>, b: Seq<Node>, i: int) -> bool
    decreases a, a.len() - i,
{
    if i < 0 || i >= b.len() {
        false
    } else if i >= a.len() {
        true
    } else if a[i].precedes(b[i]) {
        true
    } else if a[i] == b[i] {
        seq_precedes(a, b, i + 1)
    } else {
        false
    }
}

/// Lexicographic order on sequences of entries, looking from index `i`
/// onwards. An entry is ordered by its key, then by its value.
pub open spec fn entries_precede(a: Seq<(Node, Node)>, b: Seq<(Node, Node)>, i: int) -> bool
    decreases a, a.len() - i,
{
    if i < 0 || i >= b.len() {
        false
    } else if i >= a.len() {
        true
    } else if a[i].0.precedes(b[i].0) {
        true
    } else if a[i].0 != b[i].0 {
        false
    } else if a[i].1.precedes(b[i].1) {
        true
    } else if a[i].1 == b[i].1 {
        entries_precede(a, b, i + 1)
    } else {
        false
    }
}

/// The keys of `entries` ascend strictly.
pub open spec fn keys_ascend(entries: Seq<(Node, Node)>) -> bool {
    forall|i: int, j: int|
        0 <= i < j < entries.len() ==> (#[trigger] entries[i]).0.precedes((#[trigger] entries[j]).0)
}

impl Node {
    /// The place of a node's kind among the kinds.
    pub open spec fn rank(self) -> int {
        match self {
            Node::Real(_) => 0,
            Node::Int(_) => 1,
            Node::String(_) => 2,
            Node::Bool(_) => 3,
            Node::Array(_) => 4,
            Node::Hash(_) => 5,
            Node::Null => 6,
            Node::Invalid => 7,
        }
    }

    /// The strict total order on nodes: by kind first, then by content.
    pub open spec fn precedes(self, other: Node) -> bool
        decreases self, 0int,
    {
        if self.rank() != other.rank() {
            self.rank() < other.rank()
        } else {
            match (self, other) {
                (Node::Real(a), Node::Real(b)) => text_precedes(a, b),
                (Node::Int(a), Node::Int(b)) => a < b,
                (Node::String(a), Node::String(b)) => text_precedes(a, b),
                (Node::Bool(a), Node::Bool(b)) => !a && b,
                (Node::Array(a), Node::Array(b)) => seq_precedes(a, b, 0),
                (Node::Hash(a), Node::Hash(b)) => entries_precede(a, b, 0),
                _ => false,
            }
        }
    }

    /// Every map in the tree holds its entries in strictly ascending key
    /// order, so no key occurs twice.
    pub open spec fn wf(self) -> bool
        decreases self,
    {
        match self {
            Node::Array(a) => forall|i: int| 0 <= i < a.len() ==> (#[trigger] a[i]).wf(),
            Node::Hash(h) => keys_ascend(h) && forall|i: int|
                0 <= i < h.len() ==> (#[trigger] h[i]).0.wf() && h[i].1.wf(),
            _ => true,
        }
    }
}

} // verus!
