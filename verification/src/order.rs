//! The order on nodes is a strict total order.

use vstd::prelude::*;
use vstd::utf8::{decode_utf8, encode_utf8, encode_utf8_decode_utf8};
use crate::node::{bytes_precede, entries_precede, seq_precedes, text_precedes, Node};

verus! {

/// The outcome of comparing two values.
#[derive(Clone, Copy, Debug, PartialEq, Eq, Structural)]
pub enum Order {
    Less,
    Equal,
    Greater,
}

/// From index `i` on, the order on byte strings is a strict total order.
proof fn lemma_bytes_order(a: Seq<u8>, b: Seq<u8>, c: Seq<u8>, i: int)
    requires
        0 <= i,
    ensures
        !bytes_precede(a, a, i),
        (i <= a.len() && i <= b.len() && forall|j: int| 0 <= j < i ==> a[j] == b[j])
            ==> bytes_precede(a, b, i) || a == b || bytes_precede(b, a, i),
        bytes_precede(a, b, i) && bytes_precede(b, c, i) ==> bytes_precede(a, c, i),
    decreases a.len() - i,
{
    if i < a.len() {
        lemma_bytes_order(a, b, c, i + 1);
    } else if i == a.len() && i == b.len() && (forall|j: int| 0 <= j < i ==> a[j] == b[j]) {
        assert(a =~= b);
    }
}

/// The order on texts is a strict total order.
pub proof fn lemma_text_order(a: Seq<char>, b: Seq<char>, c: Seq<char>)
    ensures
        !text_precedes(a, a),
        text_precedes(a, b) || a == b || text_precedes(b, a),
        text_precedes(a, b) && text_precedes(b, c) ==> text_precedes(a, c),
{
    lemma_bytes_order(encode_utf8(a), encode_utf8(b), encode_utf8(c), 0);
    if encode_utf8(a) == encode_utf8(b) {
        encode_utf8_decode_utf8(a);
        encode_utf8_decode_utf8(b);
        assert(a == decode_utf8(encode_utf8(a)));
    }
}

/// The order on nodes is a strict total order: no node precedes itself, of
/// two different nodes one precedes the other, and the order is transitive.
pub proof fn lemma_order(a: Node, b: Node, c: Node)
    ensures
        !a.precedes(a),
        a.precedes(b) || a == b || b.precedes(a),
        a.precedes(b) && b.precedes(c) ==> a.precedes(c),
    decreases a, 0int,
{
    match a {
        Node::Real(x) => {
            let y = if b is Real { b->Real_0 } else { x };
            let z = if c is Real { c->Real_0 } else { x };
            lemma_text_order(x, y, z);
        },
        Node::String(x) => {
            let y = if b is String { b->String_0 } else { x };
            let z = if c is String { c->String_0 } else { x };
            lemma_text_order(x, y, z);
        },
        Node::Array(x) => {
            let y = if b is Array { b->Array_0 } else { x };
            let z = if c is Array { c->Array_0 } else { x };
            lemma_seq_order(x, y, z, 0);
        },
        Node::Hash(x) => {
            let y = if b is Hash { b->Hash_0 } else { x };
            let z = if c is Hash { c->Hash_0 } else { x };
            lemma_entries_order(x, y, z, 0);
        },
        _ => {},
    }
}

/// From index `i` on, the order on sequences is a strict total order.
proof fn lemma_seq_order(a: Seq<Node>, b: Seq<Node>, c: Seq<Node>, i: int)
    requires
        0 <= i,
    ensures
        !seq_precedes(a, a, i),
        (i <= a.len() && i <= b.len() && forall|j: int| 0 <= j < i ==> a[j] == b[j])
            ==> seq_precedes(a, b, i) || a == b || seq_precedes(b, a, i),
        seq_precedes(a, b, i) && seq_precedes(b, c, i) ==> seq_precedes(a, c, i),
    decreases a, a.len() - i,
{
    if i < a.len() {
        let y = if i < b.len() { b[i] } else { a[i] };
        let z = if i < c.len() { c[i] } else { a[i] };
        lemma_order(a[i], y, z);
        lemma_seq_order(a, b, c, i + 1);
    } else if i == a.len() && i == b.len() && (forall|j: int| 0 <= j < i ==> a[j] == b[j]) {
        assert(a =~= b);
    }
}

/// From index `i` on, the order on entries is a strict total order.
proof fn lemma_entries_order(
    a: Seq<(Node, Node)>,
    b: Seq<(Node, Node)>,
    c: Seq<(Node, Node)>,
    i: int,
)
    requires
        0 <= i,
    ensures
        !entries_precede(a, a, i),
        (i <= a.len() && i <= b.len() && forall|j: int| 0 <= j < i ==> a[j] == b[j])
            ==> entries_precede(a, b, i) || a == b || entries_precede(b, a, i),
        entries_precede(a, b, i) && entries_precede(b, c, i) ==> entries_precede(a, c, i),
    decreases a, a.len() - i,
{
    if i < a.len() {
        let y = if i < b.len() { b[i] } else { a[i] };
        let z = if i < c.len() { c[i] } else { a[i] };
        lemma_order(a[i].0, y.0, z.0);
        lemma_order(a[i].1, y.1, z.1);
        lemma_entries_order(a, b, c, i + 1);
    } else if i == a.len() && i == b.len() && (forall|j: int| 0 <= j < i ==> a[j] == b[j]) {
        assert(a =~= b);
    }
}

/// Of two nodes, at most one precedes the other.
pub proof fn lemma_asymmetric(a: Node, b: Node)
    ensures
        !(a.precedes(b) && b.precedes(a)),
        a.precedes(b) ==> a != b,
{
    lemma_order(a, b, a);
}

} // verus!
