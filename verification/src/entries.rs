//! Maps as ascending sequences of entries: lookup, insertion, removal and
//! merging, with the facts that relate them.

use vstd::prelude::*;
use crate::node::{keys_ascend, Node};
use crate::order::{lemma_asymmetric, lemma_order};

verus! {

/// Some entry of `entries` stands under `key`.
pub open spec fn has_key(entries: Seq<(Node, Node)>, key: Node) -> bool {
    exists|i: int| 0 <= i < entries.len() && (#[trigger] entries[i]).0 == key
}

/// Where the entry under `key` stands, if there is one.
pub open spec fn index_of(entries: Seq<(Node, Node)>, key: Node) -> int {
    choose|i: int| 0 <= i < entries.len() && (#[trigger] entries[i]).0 == key
}

/// The value under `key`, if there is one.
pub open spec fn value_of(entries: Seq<(Node, Node)>, key: Node) -> Node {
    entries[index_of(entries, key)].1
}

/// `p` is where an entry under `key` belongs: every key before `p` precedes
/// `key`, and no key from `p` on does.
pub open spec fn is_slot(entries: Seq<(Node, Node)>, key: Node, p: int) -> bool {
    &&& 0 <= p <= entries.len()
    &&& forall|i: int| 0 <= i < p ==> (#[trigger] entries[i]).0.precedes(key)
    &&& forall|i: int| p <= i < entries.len() ==> !(#[trigger] entries[i]).0.precedes(key)
}

/// Where an entry under `key` belongs.
pub open spec fn slot(entries: Seq<(Node, Node)>, key: Node) -> int {
    choose|p: int| is_slot(entries, key, p)
}

/// `entries` with `value` under `key`, in place of what stood there.
pub open spec fn insert_entry(entries: Seq<(Node, Node)>, key: Node, value: Node) -> Seq<
    (Node, Node),
> {
    if has_key(entries, key) {
        entries.update(index_of(entries, key), (key, value))
    } else {
        entries.insert(slot(entries, key), (key, value))
    }
}

/// `entries` without the entry under `key`.
pub open spec fn remove_entry(entries: Seq<(Node, Node)>, key: Node) -> Seq<(Node, Node)> {
    if has_key(entries, key) {
        entries.remove(index_of(entries, key))
    } else {
        entries
    }
}

/// The entries of both maps, ascending. Under a key of both stands the merge
/// of the two values; any other entry is kept as it is.
pub open spec fn merge_entries(base: Seq<(Node, Node)>, over: Seq<(Node, Node)>) -> Seq<
    (Node, Node),
>
    decreases base, over.len(),
{
    if base.len() == 0 {
        over
    } else if over.len() == 0 {
        base
    } else if over.last().0.precedes(base.last().0) {
        merge_entries(base.drop_last(), over).push(base.last())
    } else if base.last().0.precedes(over.last().0) {
        merge_entries(base, over.drop_last()).push(over.last())
    } else {
        merge_entries(base.drop_last(), over.drop_last()).push(
            (base.last().0, base.last().1.merge(over.last().1)),
        )
    }
}

/// What stands under `key` once `over` is merged onto `base`.
pub open spec fn merged_value(base: Seq<(Node, Node)>, over: Seq<(Node, Node)>, key: Node) -> Node {
    if has_key(base, key) && has_key(over, key) {
        value_of(base, key).merge(value_of(over, key))
    } else if has_key(over, key) {
        value_of(over, key)
    } else {
        value_of(base, key)
    }
}

impl Node {
    /// This node is a map with an entry under `key`.
    pub open spec fn has(self, key: Node) -> bool {
        self is Hash && has_key(self->Hash_0, key)
    }

    /// The value under `key`, or `Invalid` where this node is no map or has
    /// no such key.
    pub open spec fn get(self, key: Node) -> Node {
        if self.has(key) {
            value_of(self->Hash_0, key)
        } else {
            Node::Invalid
        }
    }

    /// The element at position `i`, or `Invalid` where this node is no
    /// sequence or `i` is out of bounds.
    pub open spec fn at(self, i: int) -> Node {
        match self {
            Node::Array(a) => if 0 <= i < a.len() {
                a[i]
            } else {
                Node::Invalid
            },
            _ => Node::Invalid,
        }
    }

    /// This node with `value` under `key`, in place of what stood there. A
    /// node that is no map is left as it is.
    pub open spec fn with(self, key: Node, value: Node) -> Node {
        match self {
            Node::Hash(h) => Node::Hash(insert_entry(h, key, value)),
            _ => self,
        }
    }

    /// This node without the entry under `key`. A node that is no map is
    /// left as it is.
    pub open spec fn without(self, key: Node) -> Node {
        match self {
            Node::Hash(h) => Node::Hash(remove_entry(h, key)),
            _ => self,
        }
    }

    /// What stands under `key` once the map `other` is laid over the map
    /// `self`: the merge of the two values where both have the key, else the
    /// value of the one that has it.
    pub open spec fn merged_at(self, other: Node, key: Node) -> Node {
        if self.has(key) && other.has(key) {
            self.get(key).merge(other.get(key))
        } else if other.has(key) {
            other.get(key)
        } else {
            self.get(key)
        }
    }

    /// `other` laid over `self`: two maps are merged key by key, anything
    /// else is replaced by `other`.
    pub open spec fn merge(self, other: Node) -> Node
        decreases self, 0int,
    {
        match (self, other) {
            (Node::Hash(a), Node::Hash(b)) => Node::Hash(merge_entries(a, b)),
            _ => other,
        }
    }
}

/// Each key precedes the next.
pub open spec fn neighbours_ascend(entries: Seq<(Node, Node)>) -> bool {
    forall|j: int| 0 < j < entries.len() ==> entries[j - 1].0.precedes((#[trigger] entries[j]).0)
}

/// Keys ascend where each one precedes the next.
pub proof fn lemma_neighbours_ascend(entries: Seq<(Node, Node)>)
    requires
        neighbours_ascend(entries),
    ensures
        keys_ascend(entries),
{
    assert forall|i: int, j: int| 0 <= i < j < entries.len() implies (
    #[trigger] entries[i]).0.precedes((#[trigger] entries[j]).0) by {
        lemma_reach(entries, i, j);
    }
}

/// Where each key precedes the next, an earlier key precedes a later one.
proof fn lemma_reach(entries: Seq<(Node, Node)>, i: int, j: int)
    requires
        neighbours_ascend(entries),
        0 <= i < j < entries.len(),
    ensures
        entries[i].0.precedes(entries[j].0),
    decreases j - i,
{
    if i + 1 < j {
        lemma_reach(entries, i, j - 1);
        lemma_order(entries[i].0, entries[j - 1].0, entries[j].0);
    }
}

/// In an ascending sequence an entry is found under its own key, where it
/// stands.
pub proof fn lemma_entry_found(entries: Seq<(Node, Node)>, i: int)
    requires
        keys_ascend(entries),
        0 <= i < entries.len(),
    ensures
        has_key(entries, entries[i].0),
        index_of(entries, entries[i].0) == i,
        value_of(entries, entries[i].0) == entries[i].1,
{
    let j = index_of(entries, entries[i].0);
    lemma_order(entries[i].0, entries[i].0, entries[i].0);
    if j != i {
        assert(entries[i].0.precedes(entries[j].0) || entries[j].0.precedes(entries[i].0));
    }
}

/// Walks down from `n` to the place where `key` belongs.
proof fn lemma_slot_below(entries: Seq<(Node, Node)>, key: Node, n: int) -> (p: int)
    requires
        keys_ascend(entries),
        0 <= n <= entries.len(),
        forall|i: int| n <= i < entries.len() ==> !(#[trigger] entries[i]).0.precedes(key),
    ensures
        is_slot(entries, key, p),
    decreases n,
{
    if n == 0 {
        0
    } else if entries[n - 1].0.precedes(key) {
        assert forall|i: int| 0 <= i < n implies (#[trigger] entries[i]).0.precedes(key) by {
            lemma_order(entries[i].0, entries[n - 1].0, key);
        }
        n
    } else {
        lemma_slot_below(entries, key, n - 1)
    }
}

/// In an ascending sequence every key has exactly one place.
pub proof fn lemma_slot(entries: Seq<(Node, Node)>, key: Node)
    requires
        keys_ascend(entries),
    ensures
        is_slot(entries, key, slot(entries, key)),
        forall|p: int| is_slot(entries, key, p) ==> p == slot(entries, key),
{
    lemma_slot_below(entries, key, entries.len() as int);
    let s = slot(entries, key);
    assert forall|p: int| is_slot(entries, key, p) implies p == s by {
        if p < s {
            assert(entries[p].0.precedes(key));
        } else if s < p {
            assert(entries[s].0.precedes(key));
        }
    }
}

/// In an ascending sequence a key is present exactly where it belongs.
pub proof fn lemma_slot_holds_key(entries: Seq<(Node, Node)>, key: Node)
    requires
        keys_ascend(entries),
    ensures
        has_key(entries, key) <==> slot(entries, key) < entries.len() && entries[slot(
            entries,
            key,
        )].0 == key,
        has_key(entries, key) ==> index_of(entries, key) == slot(entries, key),
        forall|i: int|
            slot(entries, key) <= i < entries.len() && (#[trigger] entries[i]).0 != key
                ==> key.precedes(entries[i].0),
{
    lemma_slot(entries, key);
    let p = slot(entries, key);
    assert forall|i: int|
        p <= i < entries.len() && (#[trigger] entries[i]).0 != key implies key.precedes(
        entries[i].0,
    ) by {
        lemma_order(key, entries[i].0, key);
    }
    if has_key(entries, key) {
        let j = index_of(entries, key);
        lemma_order(key, key, key);
        if j < p {
            assert(entries[j].0.precedes(key));
        } else if j > p {
            lemma_order(entries[p].0, key, key);
            assert(entries[p].0.precedes(entries[j].0));
        }
    }
}

/// Where `key` is absent, every key from its place on comes after it.
proof fn lemma_slot_splits(entries: Seq<(Node, Node)>, key: Node)
    requires
        keys_ascend(entries),
        !has_key(entries, key),
    ensures
        is_slot(entries, key, slot(entries, key)),
        forall|i: int|
            slot(entries, key) <= i < entries.len() ==> key.precedes((#[trigger] entries[i]).0),
{
    lemma_slot(entries, key);
    lemma_slot_holds_key(entries, key);
    assert forall|i: int| slot(entries, key) <= i < entries.len() implies key.precedes(
        (#[trigger] entries[i]).0,
    ) by {
        assert(entries[i].0 != key);
    }
}

/// Insertion keeps the keys ascending.
proof fn lemma_insert_ascends(entries: Seq<(Node, Node)>, key: Node, value: Node)
    requires
        keys_ascend(entries),
    ensures
        keys_ascend(insert_entry(entries, key, value)),
{
    let r = insert_entry(entries, key, value);
    if has_key(entries, key) {
        assert forall|i: int, j: int| 0 <= i < j < r.len() implies (#[trigger] r[i]).0.precedes(
            (#[trigger] r[j]).0,
        ) by {
            assert(r[i].0 == entries[i].0);
            assert(r[j].0 == entries[j].0);
        }
    } else {
        lemma_slot_splits(entries, key);
        let p = slot(entries, key);
        assert forall|i: int, j: int| 0 <= i < j < r.len() implies (#[trigger] r[i]).0.precedes(
            (#[trigger] r[j]).0,
        ) by {
            let i0 = if i < p { i } else { i - 1 };
            let j0 = if j < p { j } else { j - 1 };
            if i != p {
                assert(r[i] == entries[i0]);
            }
            if j != p {
                assert(r[j] == entries[j0]);
            }
        }
    }
}

/// What insertion does to one key.
proof fn lemma_insert_keys(entries: Seq<(Node, Node)>, key: Node, value: Node, k: Node)
    requires
        keys_ascend(entries),
    ensures
        has_key(insert_entry(entries, key, value), k) <==> k == key || has_key(entries, k),
        has_key(insert_entry(entries, key, value), k) ==> value_of(
            insert_entry(entries, key, value),
            k,
        ) == (if k == key {
            value
        } else {
            value_of(entries, k)
        }),
{
    let r = insert_entry(entries, key, value);
    lemma_insert_ascends(entries, key, value);
    if has_key(entries, key) {
        if has_key(r, k) {
            let i = index_of(r, k);
            assert(entries[i].0 == k);
            lemma_entry_found(r, i);
            lemma_entry_found(entries, i);
        }
        if has_key(entries, k) {
            let i = index_of(entries, k);
            assert(r[i].0 == k);
        }
    } else {
        lemma_slot(entries, key);
        let p = slot(entries, key);
        assert(r[p] == (key, value));
        if has_key(r, k) {
            let i = index_of(r, k);
            lemma_entry_found(r, i);
            if i < p {
                assert(r[i] == entries[i]);
                lemma_entry_found(entries, i);
            } else if i > p {
                assert(r[i] == entries[i - 1]);
                lemma_entry_found(entries, i - 1);
            }
        }
        if has_key(entries, k) {
            let i = index_of(entries, k);
            let i1 = if i < p { i } else { i + 1 };
            assert(r[i1] == entries[i]);
        }
    }
}

/// Insertion keeps the keys ascending, puts `value` under `key`, and leaves
/// every other key with what it had.
pub proof fn lemma_insert(entries: Seq<(Node, Node)>, key: Node, value: Node)
    requires
        keys_ascend(entries),
    ensures
        keys_ascend(insert_entry(entries, key, value)),
        forall|k: Node| #[trigger]
            has_key(insert_entry(entries, key, value), k) <==> k == key || has_key(entries, k),
        value_of(insert_entry(entries, key, value), key) == value,
        forall|k: Node|
            k != key && has_key(entries, k) ==> #[trigger] value_of(
                insert_entry(entries, key, value),
                k,
            ) == value_of(entries, k),
{
    lemma_insert_ascends(entries, key, value);
    lemma_insert_keys(entries, key, value, key);
    assert forall|k: Node| #[trigger]
        has_key(insert_entry(entries, key, value), k) <==> k == key || has_key(entries, k) by {
        lemma_insert_keys(entries, key, value, k);
    }
    assert forall|k: Node| k != key && has_key(entries, k) implies #[trigger] value_of(
        insert_entry(entries, key, value),
        k,
    ) == value_of(entries, k) by {
        lemma_insert_keys(entries, key, value, k);
    }
}

/// Removal keeps the keys ascending, takes `key` out, and leaves every other
/// key with what it had.
pub proof fn lemma_remove(entries: Seq<(Node, Node)>, key: Node)
    requires
        keys_ascend(entries),
    ensures
        keys_ascend(remove_entry(entries, key)),
        forall|k: Node| #[trigger]
            has_key(remove_entry(entries, key), k) <==> k != key && has_key(entries, k),
        forall|k: Node|
            k != key && has_key(entries, k) ==> #[trigger] value_of(remove_entry(entries, key), k)
                == value_of(entries, k),
{
    let r = remove_entry(entries, key);
    if has_key(entries, key) {
        let p = index_of(entries, key);
        lemma_entry_found(entries, p);
        assert forall|i: int, j: int| 0 <= i < j < r.len() implies (#[trigger] r[i]).0.precedes(
            (#[trigger] r[j]).0,
        ) by {
            let i0 = if i < p { i } else { i + 1 };
            let j0 = if j < p { j } else { j + 1 };
            assert(r[i] == entries[i0] && r[j] == entries[j0]);
        }
        assert forall|k: Node| #[trigger] has_key(r, k) <==> k != key && has_key(entries, k) by {
            if has_key(r, k) {
                let i = index_of(r, k);
                let i0 = if i < p { i } else { i + 1 };
                assert(entries[i0].0 == k);
                lemma_entry_found(entries, i0);
            }
            if k != key && has_key(entries, k) {
                let i = index_of(entries, k);
                let i1 = if i < p { i } else { i - 1 };
                assert(r[i1].0 == k);
            }
        }
        assert forall|k: Node| k != key && has_key(entries, k) implies #[trigger] value_of(r, k)
            == value_of(entries, k) by {
            let i = index_of(entries, k);
            let i1 = if i < p { i } else { i - 1 };
            lemma_entry_found(entries, i);
            assert(r[i1] == entries[i]);
            lemma_entry_found(r, i1);
        }
    }
}

/// Every key of `entries` precedes `key`.
pub open spec fn keys_below(entries: Seq<(Node, Node)>, key: Node) -> bool {
    forall|i: int| 0 <= i < entries.len() ==> (#[trigger] entries[i]).0.precedes(key)
}

/// An entry whose key comes after all the others goes to the end.
proof fn lemma_push(entries: Seq<(Node, Node)>, x: (Node, Node), k: Node)
    requires
        keys_ascend(entries),
        keys_below(entries, x.0),
    ensures
        keys_ascend(entries.push(x)),
        !has_key(entries, x.0),
        has_key(entries.push(x), k) <==> has_key(entries, k) || k == x.0,
        has_key(entries.push(x), k) ==> value_of(entries.push(x), k) == (if k == x.0 {
            x.1
        } else {
            value_of(entries, k)
        }),
{
    let r = entries.push(x);
    let n = entries.len() as int;
    assert forall|i: int, j: int| 0 <= i < j < r.len() implies (#[trigger] r[i]).0.precedes(
        (#[trigger] r[j]).0,
    ) by {
        assert(r[i] == entries[i]);
        if j < n {
            assert(r[j] == entries[j]);
        }
    }
    if has_key(entries, x.0) {
        let i = index_of(entries, x.0);
        lemma_asymmetric(entries[i].0, x.0);
    }
    assert(r[n] == x);
    if has_key(r, k) {
        let i = index_of(r, k);
        lemma_entry_found(r, i);
        if i < n {
            assert(r[i] == entries[i]);
            lemma_entry_found(entries, i);
        }
    }
    if has_key(entries, k) {
        let i = index_of(entries, k);
        assert(r[i] == entries[i]);
    }
}

/// The last entry of an ascending sequence comes after all the others.
pub proof fn lemma_last(entries: Seq<(Node, Node)>)
    requires
        keys_ascend(entries),
        entries.len() > 0,
    ensures
        keys_ascend(entries.drop_last()),
        keys_below(entries.drop_last(), entries.last().0),
        entries.drop_last().push(entries.last()) == entries,
{
    let d = entries.drop_last();
    assert forall|i: int, j: int| 0 <= i < j < d.len() implies (#[trigger] d[i]).0.precedes(
        (#[trigger] d[j]).0,
    ) by {
        assert(d[i] == entries[i] && d[j] == entries[j]);
    }
    assert forall|i: int| 0 <= i < d.len() implies (#[trigger] d[i]).0.precedes(
        entries.last().0,
    ) by {
        assert(d[i] == entries[i]);
        assert(entries[i].0.precedes(entries[entries.len() - 1].0));
    }
    assert(d.push(entries.last()) =~= entries);
}

/// What the last key precedes, every key precedes.
proof fn lemma_keys_below(entries: Seq<(Node, Node)>, above: Node)
    requires
        keys_ascend(entries),
        entries.len() > 0,
        entries.last().0.precedes(above),
    ensures
        keys_below(entries, above),
{
    let n = entries.len() - 1;
    assert forall|i: int| 0 <= i < entries.len() implies (#[trigger] entries[i]).0.precedes(
        above,
    ) by {
        if i < n {
            assert(entries[i].0.precedes(entries[n].0));
            lemma_order(entries[i].0, entries[n].0, above);
        }
    }
}

/// What merging does, key by key: the keys of the result ascend; a key is in
/// the result exactly if it is in one of the two; under a key of both stands
/// the merge of the two values, under any other key the value it had.
pub proof fn lemma_merge_entries(base: Seq<(Node, Node)>, over: Seq<(Node, Node)>, k: Node)
    requires
        keys_ascend(base),
        keys_ascend(over),
    ensures
        keys_ascend(merge_entries(base, over)),
        has_key(merge_entries(base, over), k) <==> has_key(base, k) || has_key(over, k),
        has_key(merge_entries(base, over), k) ==> value_of(merge_entries(base, over), k)
            == merged_value(base, over, k),
    decreases base, over.len(),
{
    if base.len() > 0 && over.len() > 0 {
        let b = base.last();
        let o = over.last();
        lemma_last(base);
        lemma_last(over);
        lemma_order(b.0, o.0, b.0);
        let (rb, ro, x) = if o.0.precedes(b.0) {
            (base.drop_last(), over, b)
        } else if b.0.precedes(o.0) {
            (base, over.drop_last(), o)
        } else {
            (base.drop_last(), over.drop_last(), (b.0, b.1.merge(o.1)))
        };
        let rest = merge_entries(rb, ro);
        assert(merge_entries(base, over) == rest.push(x));
        lemma_merge_entries(rb, ro, k);
        if o.0.precedes(b.0) {
            lemma_keys_below(over, b.0);
        } else if b.0.precedes(o.0) {
            lemma_keys_below(base, o.0);
        }
        assert(keys_below(rb, x.0) && keys_below(ro, x.0));
        assert forall|i: int| 0 <= i < rest.len() implies (#[trigger] rest[i]).0.precedes(
            x.0,
        ) by {
            let q = rest[i].0;
            lemma_merge_entries(rb, ro, q);
            if has_key(rb, q) {
                assert(rb[index_of(rb, q)].0.precedes(x.0));
            } else {
                assert(ro[index_of(ro, q)].0.precedes(x.0));
            }
        }
        lemma_push(rest, x, k);
        if rb.len() < base.len() {
            lemma_push(rb, b, k);
        }
        if ro.len() < over.len() {
            lemma_push(ro, o, k);
        }
        if has_key(rb, x.0) {
            lemma_asymmetric(rb[index_of(rb, x.0)].0, x.0);
        }
        if has_key(ro, x.0) {
            lemma_asymmetric(ro[index_of(ro, x.0)].0, x.0);
        }
        lemma_entry_found(base, base.len() - 1);
        lemma_entry_found(over, over.len() - 1);
    }
}

/// The keys ascend, and every key and value is well formed.
pub open spec fn entries_wf(entries: Seq<(Node, Node)>) -> bool {
    Node::Hash(entries).wf()
}

/// What is found in a well-formed node is well formed.
pub proof fn lemma_get_wf(node: Node, key: Node, i: int)
    requires
        node.wf(),
    ensures
        node.get(key).wf(),
        node.at(i).wf(),
{
    if node.has(key) {
        let j = index_of(node->Hash_0, key);
        assert(node->Hash_0[j].1.wf());
    }
}

/// Insertion into a well-formed map gives a well-formed map.
pub proof fn lemma_insert_wf(entries: Seq<(Node, Node)>, key: Node, value: Node)
    requires
        entries_wf(entries),
        key.wf(),
        value.wf(),
    ensures
        entries_wf(insert_entry(entries, key, value)),
{
    let r = insert_entry(entries, key, value);
    lemma_insert_ascends(entries, key, value);
    if has_key(entries, key) {
        let p = index_of(entries, key);
        assert forall|i: int| 0 <= i < r.len() implies (#[trigger] r[i]).0.wf() && r[i].1.wf() by {
            if i != p {
                assert(r[i] == entries[i]);
            }
        }
    } else {
        lemma_slot(entries, key);
        let p = slot(entries, key);
        assert forall|i: int| 0 <= i < r.len() implies (#[trigger] r[i]).0.wf() && r[i].1.wf() by {
            if i < p {
                assert(r[i] == entries[i]);
            } else if i > p {
                assert(r[i] == entries[i - 1]);
            }
        }
    }
}

/// Removal from a well-formed map gives a well-formed map.
pub proof fn lemma_remove_wf(entries: Seq<(Node, Node)>, key: Node)
    requires
        entries_wf(entries),
    ensures
        entries_wf(remove_entry(entries, key)),
{
    let r = remove_entry(entries, key);
    lemma_remove(entries, key);
    if has_key(entries, key) {
        let p = index_of(entries, key);
        assert forall|i: int| 0 <= i < r.len() implies (#[trigger] r[i]).0.wf() && r[i].1.wf() by {
            let i0 = if i < p { i } else { i + 1 };
            assert(r[i] == entries[i0]);
        }
    }
}

/// A well-formed map without its last entry is well formed.
pub proof fn lemma_drop_last_wf(entries: Seq<(Node, Node)>)
    requires
        entries_wf(entries),
        entries.len() > 0,
    ensures
        entries_wf(entries.drop_last()),
{
    lemma_last(entries);
    let d = entries.drop_last();
    assert forall|i: int| 0 <= i < d.len() implies (#[trigger] d[i]).0.wf() && d[i].1.wf() by {
        assert(d[i] == entries[i]);
    }
}

/// Merging two well-formed nodes gives a well-formed node.
pub proof fn lemma_merge_wf(base: Node, over: Node)
    requires
        base.wf(),
        over.wf(),
    ensures
        base.merge(over).wf(),
    decreases base, 0int,
{
    if base is Hash && over is Hash {
        lemma_merge_entries_wf(base->Hash_0, over->Hash_0);
    }
}

/// Merging two well-formed maps gives a well-formed map.
pub proof fn lemma_merge_entries_wf(base: Seq<(Node, Node)>, over: Seq<(Node, Node)>)
    requires
        entries_wf(base),
        entries_wf(over),
    ensures
        entries_wf(merge_entries(base, over)),
    decreases base, over.len(),
{
    let m = merge_entries(base, over);
    lemma_merge_entries(base, over, Node::Null);
    if base.len() > 0 && over.len() > 0 {
        let b = base.last();
        let o = over.last();
        lemma_last(base);
        lemma_last(over);
        let rb = base.drop_last();
        let ro = over.drop_last();
        assert forall|i: int| 0 <= i < rb.len() implies (#[trigger] rb[i]).0.wf()
            && rb[i].1.wf() by {
            assert(rb[i] == base[i]);
        }
        assert forall|i: int| 0 <= i < ro.len() implies (#[trigger] ro[i]).0.wf()
            && ro[i].1.wf() by {
            assert(ro[i] == over[i]);
        }
        assert(base[base.len() - 1].0.wf() && base[base.len() - 1].1.wf());
        assert(over[over.len() - 1].0.wf() && over[over.len() - 1].1.wf());
        let rest = if o.0.precedes(b.0) {
            lemma_merge_entries_wf(rb, over);
            merge_entries(rb, over)
        } else if b.0.precedes(o.0) {
            lemma_merge_entries_wf(base, ro);
            merge_entries(base, ro)
        } else {
            lemma_merge_entries_wf(rb, ro);
            lemma_merge_wf(b.1, o.1);
            merge_entries(rb, ro)
        };
        assert forall|i: int| 0 <= i < m.len() implies (#[trigger] m[i]).0.wf() && m[i].1.wf() by {
            if i < rest.len() {
                assert(m[i] == rest[i]);
            }
        }
    }
}

} // verus!
