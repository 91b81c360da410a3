//! What holds of maps and of merging, stated over the model.

use vstd::prelude::*;
use crate::entries::{
    has_key, index_of, lemma_entry_found, lemma_last, lemma_merge_entries, lemma_merge_wf,
    value_of,
};
use crate::node::{keys_ascend, Node};
use crate::order::lemma_order;

verus! {

/// Merging replaces, unless both sides are maps: whatever the base is, a
/// scalar, a sequence or nothing, the result is what was laid over it; and
/// laid over anything but a map, a map stays as it is.
pub proof fn lemma_merge_replaces(base: Node, over: Node)
    requires
        !(base is Hash) || !(over is Hash),
    ensures
        base.merge(over) == over,
{
}

/// Merging two maps is recursive and right-biased. The result is a
/// well-formed map; a key is in it exactly if it is in one of the two; under
/// a key of both stands the merge of their two values, under any other key
/// the value that it had.
pub proof fn lemma_merge_maps(base: Node, over: Node, key: Node)
    requires
        base.wf(),
        over.wf(),
        base is Hash,
        over is Hash,
    ensures
        base.merge(over) is Hash,
        base.merge(over).wf(),
        base.merge(over).has(key) <==> base.has(key) || over.has(key),
        base.merge(over).get(key) == base.merged_at(over, key),
{
    lemma_merge_wf(base, over);
    lemma_merge_entries(base->Hash_0, over->Hash_0, key);
}

/// What is laid over wins: a value of the overriding map that is no map
/// itself stands in the result as it is, whatever the base had under its
/// key.
pub proof fn lemma_merge_overrides(base: Node, over: Node, key: Node)
    requires
        base.wf(),
        over.wf(),
        base is Hash,
        over is Hash,
        over.has(key),
        !(over.get(key) is Hash),
    ensures
        base.merge(over).get(key) == over.get(key),
{
    lemma_merge_maps(base, over, key);
}

/// A well-formed map is what its lookups say: two maps with the same keys,
/// and the same value under each, are the same map.
pub proof fn lemma_maps_equal(a: Seq<(Node, Node)>, b: Seq<(Node, Node)>)
    requires
        keys_ascend(a),
        keys_ascend(b),
        forall|k: Node| has_key(a, k) <==> has_key(b, k),
        forall|k: Node| has_key(a, k) ==> value_of(a, k) == value_of(b, k),
    ensures
        a == b,
    decreases a.len(),
{
    if a.len() == 0 {
        if b.len() > 0 {
            assert(has_key(b, b[0].0));
        }
        assert(a =~= b);
    } else if b.len() == 0 {
        assert(has_key(a, a[0].0));
    } else {
        let x = a.last();
        let y = b.last();
        lemma_entry_found(a, a.len() - 1);
        lemma_entry_found(b, b.len() - 1);
        // The greatest key of each is a key of the other, so they are one key.
        let i = index_of(b, x.0);
        let j = index_of(a, y.0);
        lemma_entry_found(b, i);
        lemma_entry_found(a, j);
        lemma_order(x.0, y.0, x.0);
        if i < b.len() - 1 {
            assert(b[i].0.precedes(b[b.len() - 1].0));
        }
        if j < a.len() - 1 {
            assert(a[j].0.precedes(a[a.len() - 1].0));
        }
        assert(x.0 == y.0);
        assert(x == y);
        let ra = a.drop_last();
        let rb = b.drop_last();
        lemma_last(a);
        lemma_last(b);
        assert forall|k: Node| has_key(ra, k) <==> has_key(rb, k) by {
            lemma_rest_key(a, k);
            lemma_rest_key(b, k);
        }
        assert forall|k: Node| has_key(ra, k) implies value_of(ra, k) == value_of(rb, k) by {
            lemma_rest_key(a, k);
            lemma_rest_key(b, k);
        }
        lemma_maps_equal(ra, rb);
        assert(a =~= ra.push(x));
        assert(b =~= rb.push(y));
    }
}

/// What an ascending sequence holds without its last entry: every key but
/// the last, with its value.
proof fn lemma_rest_key(entries: Seq<(Node, Node)>, key: Node)
    requires
        keys_ascend(entries),
        entries.len() > 0,
    ensures
        has_key(entries.drop_last(), key) <==> has_key(entries, key) && key != entries.last().0,
        has_key(entries.drop_last(), key) ==> value_of(entries.drop_last(), key) == value_of(
            entries,
            key,
        ),
{
    let d = entries.drop_last();
    let n = entries.len() - 1;
    lemma_last(entries);
    lemma_entry_found(entries, n);
    if has_key(d, key) {
        let i = index_of(d, key);
        assert(d[i] == entries[i]);
        lemma_entry_found(d, i);
        lemma_entry_found(entries, i);
    }
    if has_key(entries, key) && key != entries.last().0 {
        let i = index_of(entries, key);
        assert(d[i] == entries[i]);
    }
}

} // verus!
