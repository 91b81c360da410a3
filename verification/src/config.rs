//! The configuration tree: its nodes, how they are told apart and compared,
//! and how a tree is addressed, changed and merged.

use vstd::prelude::*;
use vstd::string::StringSliceAdditionalSpecFns;
use crate::entries::{
    entries_wf, has_key, index_of, insert_entry, is_slot, lemma_drop_last_wf, lemma_get_wf,
    lemma_insert, lemma_insert_wf, lemma_merge_entries, lemma_merge_entries_wf,
    lemma_neighbours_ascend, lemma_remove, lemma_remove_wf, lemma_slot, lemma_slot_holds_key,
    merge_entries, slot,
};
use crate::node::{
    bytes_precede, entries_precede, keys_ascend, seq_precedes, text_precedes, Node,
};
use crate::order::{lemma_asymmetric, lemma_order, lemma_text_order, Order};

verus! {

/// A node of a configuration tree.
///
/// A `Hash` holds its entries in strictly ascending key order; see
/// [`Config::wf`].
#[derive(Debug, Eq, Ord, Hash)]
pub enum Config {
    /// A floating-point literal, kept as its text.
    Real(String),
    Int(i64),
    String(String),
    Bool(bool),
    Array(Vec<Config>),
    Hash(Vec<(Config, Config)>),
    /// An explicit absence of a value.
    Null,
    /// The result of a lookup that failed.
    Invalid,
}

/// The nodes that a sequence of configurations stands for.
pub open spec fn nodes_view(items: Seq<Config>) -> Seq<Node>
    decreases items,
{
    Seq::new(
        items.len(),
        |i: int|
            if 0 <= i < items.len() {
                items[i]@
            } else {
                Node::Invalid
            },
    )
}

/// The entries that a sequence of configuration pairs stands for.
pub open spec fn entries_view(entries: Seq<(Config, Config)>) -> Seq<(Node, Node)>
    decreases entries,
{
    Seq::new(
        entries.len(),
        |i: int|
            if 0 <= i < entries.len() {
                (entries[i].0@, entries[i].1@)
            } else {
                (Node::Invalid, Node::Invalid)
            },
    )
}

impl View for Config {
    type V = Node;

    open spec fn view(&self) -> Node
        decreases self,
    {
        match self {
            Config::Real(r) => Node::Real(r@),
            Config::Int(i) => Node::Int(*i as int),
            Config::String(s) => Node::String(s@),
            Config::Bool(b) => Node::Bool(*b),
            Config::Array(a) => Node::Array(nodes_view(a@)),
            Config::Hash(h) => Node::Hash(entries_view(h@)),
            Config::Null => Node::Null,
            Config::Invalid => Node::Invalid,
        }
    }
}

/// Compares two texts as their UTF-8 encodings, byte by byte.
pub(crate) fn compare_text(a: &str, b: &str) -> (r: Order)
    ensures
        r is Less <==> text_precedes(a@, b@),
        r is Equal <==> a@ == b@,
        r is Greater <==> text_precedes(b@, a@),
{
    let x = a.as_bytes();
    let y = b.as_bytes();
    proof {
        lemma_text_order(a@, b@, a@);
    }
    let mut i: usize = 0;
    while i < x.len() && i < y.len()
        invariant
            i <= x.len(),
            i <= y.len(),
            x@ == a.spec_bytes(),
            y@ == b.spec_bytes(),
            bytes_precede(x@, y@, i as int) == text_precedes(a@, b@),
            bytes_precede(y@, x@, i as int) == text_precedes(b@, a@),
            !text_precedes(a@, b@) && !text_precedes(b@, a@) ==> a@ == b@,
            !(text_precedes(a@, b@) && text_precedes(b@, a@)),
            text_precedes(a@, b@) || text_precedes(b@, a@) ==> a@ != b@,
        decreases x.len() - i,
    {
        if x[i] < y[i] {
            return Order::Less;
        } else if x[i] > y[i] {
            return Order::Greater;
        }
        i += 1;
    }
    if x.len() < y.len() {
        Order::Less
    } else if x.len() > y.len() {
        Order::Greater
    } else {
        Order::Equal
    }
}

/// Compares two sequences of nodes, element by element.
fn compare_seq(a: &Vec<Config>, b: &Vec<Config>) -> (r: Order)
    ensures
        r is Less <==> seq_precedes(nodes_view(a@), nodes_view(b@), 0),
        r is Equal <==> nodes_view(a@) == nodes_view(b@),
        r is Greater <==> seq_precedes(nodes_view(b@), nodes_view(a@), 0),
    decreases a,
{
    let ghost x = nodes_view(a@);
    let ghost y = nodes_view(b@);
    proof {
        lemma_order(Node::Array(x), Node::Array(y), Node::Array(x));
    }
    let mut i: usize = 0;
    while i < a.len() && i < b.len()
        invariant
            i <= a.len(),
            i <= b.len(),
            x == nodes_view(a@),
            y == nodes_view(b@),
            seq_precedes(x, y, i as int) == seq_precedes(x, y, 0),
            seq_precedes(y, x, i as int) == seq_precedes(y, x, 0),
            forall|j: int| 0 <= j < i ==> x[j] == y[j],
            !(seq_precedes(x, y, 0) && seq_precedes(y, x, 0)),
            seq_precedes(x, y, 0) || seq_precedes(y, x, 0) ==> x != y,
        decreases a.len() - i,
    {
        let c = a[i].compare(&b[i]);
        proof {
            lemma_order(x[i as int], y[i as int], x[i as int]);
        }
        match c {
            Order::Less => {
                return Order::Less;
            },
            Order::Greater => {
                return Order::Greater;
            },
            Order::Equal => {},
        }
        i += 1;
    }
    if a.len() < b.len() {
        Order::Less
    } else if a.len() > b.len() {
        Order::Greater
    } else {
        assert(x =~= y);
        Order::Equal
    }
}

/// Compares two sequences of entries, key by key and value by value.
fn compare_entries(a: &Vec<(Config, Config)>, b: &Vec<(Config, Config)>) -> (r: Order)
    ensures
        r is Less <==> entries_precede(entries_view(a@), entries_view(b@), 0),
        r is Equal <==> entries_view(a@) == entries_view(b@),
        r is Greater <==> entries_precede(entries_view(b@), entries_view(a@), 0),
    decreases a,
{
    let ghost x = entries_view(a@);
    let ghost y = entries_view(b@);
    proof {
        lemma_order(Node::Hash(x), Node::Hash(y), Node::Hash(x));
    }
    let mut i: usize = 0;
    while i < a.len() && i < b.len()
        invariant
            i <= a.len(),
            i <= b.len(),
            x == entries_view(a@),
            y == entries_view(b@),
            entries_precede(x, y, i as int) == entries_precede(x, y, 0),
            entries_precede(y, x, i as int) == entries_precede(y, x, 0),
            forall|j: int| 0 <= j < i ==> x[j] == y[j],
            !(entries_precede(x, y, 0) && entries_precede(y, x, 0)),
            entries_precede(x, y, 0) || entries_precede(y, x, 0) ==> x != y,
        decreases a.len() - i,
    {
        let k = a[i].0.compare(&b[i].0);
        proof {
            lemma_order(x[i as int].0, y[i as int].0, x[i as int].0);
            lemma_order(x[i as int].1, y[i as int].1, x[i as int].1);
        }
        match k {
            Order::Less => {
                return Order::Less;
            },
            Order::Greater => {
                return Order::Greater;
            },
            Order::Equal => {},
        }
        let v = a[i].1.compare(&b[i].1);
        match v {
            Order::Less => {
                return Order::Less;
            },
            Order::Greater => {
                return Order::Greater;
            },
            Order::Equal => {},
        }
        i += 1;
    }
    if a.len() < b.len() {
        Order::Less
    } else if a.len() > b.len() {
        Order::Greater
    } else {
        assert(x =~= y);
        Order::Equal
    }
}

/// Finds `key` among ascending entries by bisection. Returns the place
/// where `key` belongs, and whether it stands there.
fn find(entries: &Vec<(Config, Config)>, key: &Config) -> (r: (usize, bool))
    requires
        keys_ascend(entries_view(entries@)),
    ensures
        r.0 == slot(entries_view(entries@), key@),
        r.0 <= entries.len(),
        r.1 == has_key(entries_view(entries@), key@),
        r.1 ==> r.0 < entries.len() && r.0 == index_of(entries_view(entries@), key@),
{
    let ghost e = entries_view(entries@);
    let ghost k = key@;
    let mut lo: usize = 0;
    let mut hi: usize = entries.len();
    while lo < hi
        invariant
            lo <= hi <= entries.len(),
            e == entries_view(entries@),
            k == key@,
            keys_ascend(e),
            forall|i: int| 0 <= i < lo ==> (#[trigger] e[i]).0.precedes(k),
            forall|i: int| hi <= i < e.len() ==> k.precedes((#[trigger] e[i]).0),
        decreases hi - lo,
    {
        let mid = lo + (hi - lo) / 2;
        let c = entries[mid].0.compare(key);
        match c {
            Order::Less => {
                assert forall|i: int| 0 <= i < mid + 1 implies (#[trigger] e[i]).0.precedes(k) by {
                    if i < mid {
                        lemma_order(e[i].0, e[mid as int].0, k);
                    }
                }
                lo = mid + 1;
            },
            Order::Equal => {
                proof {
                    lemma_order(k, k, k);
                    assert forall|i: int| mid <= i < e.len() implies !(#[trigger] e[i]).0.precedes(
                        k,
                    ) by {
                        if i > mid {
                            lemma_asymmetric(e[mid as int].0, e[i].0);
                        }
                    }
                    assert(is_slot(e, k, mid as int));
                    lemma_slot(e, k);
                    lemma_slot_holds_key(e, k);
                }
                return (mid, true);
            },
            Order::Greater => {
                assert forall|i: int| mid <= i < e.len() implies k.precedes(
                    (#[trigger] e[i]).0,
                ) by {
                    if i > mid {
                        lemma_order(k, e[mid as int].0, e[i].0);
                    }
                }
                hi = mid;
            },
        }
    }
    proof {
        assert forall|i: int| lo <= i < e.len() implies !(#[trigger] e[i]).0.precedes(k) by {
            lemma_asymmetric(k, e[i].0);
        }
        assert(is_slot(e, k, lo as int));
        lemma_slot(e, k);
        lemma_slot_holds_key(e, k);
        if lo < e.len() {
            lemma_asymmetric(k, e[lo as int].0);
        }
    }
    (lo, false)
}

/// Puts `value` under `key`, in place of what stood there.
pub(crate) fn insert_into(entries: &mut Vec<(Config, Config)>, key: Config, value: Config)
    requires
        keys_ascend(entries_view(old(entries)@)),
    ensures
        entries_view(final(entries)@) == insert_entry(
            entries_view(old(entries)@),
            key@,
            value@,
        ),
{
    let (p, found) = find(entries, &key);
    if found {
        entries.set(p, (key, value));
    } else {
        entries.insert(p, (key, value));
    }
    assert(entries_view(entries@) =~= insert_entry(entries_view(old(entries)@), key@, value@));
}

/// `front`, then `stack` from its top down.
spec fn unwind(front: Seq<(Node, Node)>, stack: Seq<(Node, Node)>) -> Seq<(Node, Node)>
    decreases stack.len(),
{
    if stack.len() == 0 {
        front
    } else {
        unwind(front.push(stack.last()), stack.drop_last())
    }
}

/// Merges two ascending sequences of entries from their ends, where the
/// greatest keys stand.
fn merge_vecs(base: Vec<(Config, Config)>, over: Vec<(Config, Config)>) -> (r: Vec<
    (Config, Config),
>)
    requires
        entries_wf(entries_view(base@)),
        entries_wf(entries_view(over@)),
    ensures
        entries_view(r@) == merge_entries(entries_view(base@), entries_view(over@)),
        entries_wf(entries_view(r@)),
    decreases base,
{
    let ghost target = merge_entries(entries_view(base@), entries_view(over@));
    proof {
        lemma_merge_entries_wf(entries_view(base@), entries_view(over@));
    }
    let mut xs = base;
    let mut ys = over;
    // The entries with the greatest keys, the greatest first.
    let mut tail: Vec<(Config, Config)> = Vec::new();
    while xs.len() > 0 && ys.len() > 0
        invariant
            entries_wf(entries_view(xs@)),
            entries_wf(entries_view(ys@)),
            xs@.len() <= base@.len(),
            forall|i: int| 0 <= i < xs@.len() ==> xs@[i] == base@[i],
            target == unwind(
                merge_entries(entries_view(xs@), entries_view(ys@)),
                entries_view(tail@),
            ),
        decreases xs.len() + ys.len(),
    {
        let ghost ex = entries_view(xs@);
        let ghost ey = entries_view(ys@);
        let ghost et = entries_view(tail@);
        let c = xs[xs.len() - 1].0.compare(&ys[ys.len() - 1].0);
        proof {
            lemma_order(ex.last().0, ey.last().0, ex.last().0);
            assert(ex.last().0.wf() && ex.last().1.wf()) by {
                assert(ex[ex.len() - 1].0.wf());
            }
            assert(ey.last().0.wf() && ey.last().1.wf()) by {
                assert(ey[ey.len() - 1].0.wf());
            }
        }
        let top = match c {
            Order::Greater => xs.pop().unwrap(),
            Order::Less => ys.pop().unwrap(),
            Order::Equal => {
                let (k, v) = xs.pop().unwrap();
                let (_, w) = ys.pop().unwrap();
                (k, v.merge(w))
            },
        };
        tail.push(top);
        proof {
            let rest = merge_entries(entries_view(xs@), entries_view(ys@));
            if xs@.len() < ex.len() {
                assert(entries_view(xs@) =~= ex.drop_last());
            } else {
                assert(entries_view(xs@) =~= ex);
            }
            if ys@.len() < ey.len() {
                assert(entries_view(ys@) =~= ey.drop_last());
            } else {
                assert(entries_view(ys@) =~= ey);
            }
            assert(entries_view(tail@) =~= et.push((top.0@, top.1@)));
            assert(merge_entries(ex, ey) == rest.push((top.0@, top.1@)));
            assert(entries_view(tail@).drop_last() =~= et);
            lemma_drop_last_wf(ex);
            lemma_drop_last_wf(ey);
        }
    }
    let mut out = if xs.len() > 0 {
        xs
    } else {
        ys
    };
    while tail.len() > 0
        invariant
            target == unwind(entries_view(out@), entries_view(tail@)),
        decreases tail.len(),
    {
        let ghost eo = entries_view(out@);
        let ghost et = entries_view(tail@);
        let top = tail.pop().unwrap();
        out.push(top);
        proof {
            assert(entries_view(tail@) =~= et.drop_last());
            assert(entries_view(out@) =~= eo.push(et.last()));
        }
    }
    out
}

/// Whether every node of a sequence is well formed.
fn all_well_formed(items: &Vec<Config>) -> (b: bool)
    ensures
        b == Node::Array(nodes_view(items@)).wf(),
    decreases items,
{
    let ghost x = nodes_view(items@);
    let mut i: usize = 0;
    while i < items.len()
        invariant
            i <= items.len(),
            x == nodes_view(items@),
            forall|j: int| 0 <= j < i ==> (#[trigger] x[j]).wf(),
        decreases items.len() - i,
    {
        if !items[i].is_well_formed() {
            assert(!x[i as int].wf());
            assert(Node::Array(x)->Array_0[i as int] == x[i as int]);
            return false;
        }
        i += 1;
    }
    true
}

/// Whether the keys of a sequence of entries ascend, and every key and
/// value is well formed.
fn entries_well_formed(entries: &Vec<(Config, Config)>) -> (b: bool)
    ensures
        b == entries_wf(entries_view(entries@)),
    decreases entries,
{
    let ghost x = entries_view(entries@);
    let mut i: usize = 0;
    while i < entries.len()
        invariant
            i <= entries.len(),
            x == entries_view(entries@),
            forall|j: int| 0 <= j < i ==> (#[trigger] x[j]).0.wf() && x[j].1.wf(),
            forall|j: int| 0 < j < i ==> x[j - 1].0.precedes((#[trigger] x[j]).0),
        decreases entries.len() - i,
    {
        if !entries[i].0.is_well_formed() || !entries[i].1.is_well_formed() {
            assert(!(x[i as int].0.wf() && x[i as int].1.wf()));
            return false;
        }
        if i > 0 {
            match entries[i - 1].0.compare(&entries[i].0) {
                Order::Less => {},
                _ => {
                    proof {
                        lemma_asymmetric(x[i as int].0, x[i - 1].0);
                        assert(!x[i - 1].0.precedes(x[i as int].0));
                    }
                    return false;
                },
            }
        }
        i += 1;
    }
    proof {
        lemma_neighbours_ascend(x);
    }
    true
}

impl Config {
    /// Every map in the tree holds its entries in strictly ascending key
    /// order.
    pub open spec fn wf(&self) -> bool {
        self@.wf()
    }

    /// Creates an empty configuration.
    pub fn new() -> (c: Config)
        ensures
            c@ == Node::Null,
    {
        Config::Null
    }

    /// Whether this node is the sentinel of a failed lookup.
    pub fn is_invalid(&self) -> (b: bool)
        ensures
            b == (self@ is Invalid),
    {
        match *self {
            Config::Invalid => true,
            _ => false,
        }
    }

    /// Whether this node is an explicit absence of a value.
    pub fn is_null(&self) -> (b: bool)
        ensures
            b == (self@ is Null),
    {
        match *self {
            Config::Null => true,
            _ => false,
        }
    }

    /// Whether this node is a map.
    pub fn is_hash(&self) -> (b: bool)
        ensures
            b == (self@ is Hash),
    {
        match *self {
            Config::Hash(_) => true,
            _ => false,
        }
    }

    /// Whether this node is a sequence.
    pub fn is_array(&self) -> (b: bool)
        ensures
            b == (self@ is Array),
    {
        match *self {
            Config::Array(_) => true,
            _ => false,
        }
    }

    /// Whether this node is an integer.
    pub fn is_int(&self) -> (b: bool)
        ensures
            b == (self@ is Int),
    {
        match *self {
            Config::Int(_) => true,
            _ => false,
        }
    }

    /// Whether this node is a boolean.
    pub fn is_bool(&self) -> (b: bool)
        ensures
            b == (self@ is Bool),
    {
        match *self {
            Config::Bool(_) => true,
            _ => false,
        }
    }

    /// Whether this node is a string.
    pub fn is_string(&self) -> (b: bool)
        ensures
            b == (self@ is String),
    {
        match *self {
            Config::String(_) => true,
            _ => false,
        }
    }

    /// Whether this node is a real.
    pub fn is_real(&self) -> (b: bool)
        ensures
            b == (self@ is Real),
    {
        match *self {
            Config::Real(_) => true,
            _ => false,
        }
    }

    /// Whether this node is a number: a real or an integer.
    pub fn is_numeric(&self) -> (b: bool)
        ensures
            b == (self@ is Real || self@ is Int),
    {
        self.is_real() || self.is_int()
    }

    /// The place of this node's kind among the kinds.
    fn rank(&self) -> (r: u8)
        ensures
            r == self@.rank(),
    {
        match self {
            Config::Real(_) => 0,
            Config::Int(_) => 1,
            Config::String(_) => 2,
            Config::Bool(_) => 3,
            Config::Array(_) => 4,
            Config::Hash(_) => 5,
            Config::Null => 6,
            Config::Invalid => 7,
        }
    }

    /// Compares two nodes in the total order on nodes: by kind first (reals,
    /// integers, strings, booleans, sequences, maps, null, invalid), then by
    /// content.
    pub fn compare(&self, other: &Config) -> (r: Order)
        ensures
            r is Less <==> self@.precedes(other@),
            r is Equal <==> self@ == other@,
            r is Greater <==> other@.precedes(self@),
        decreases self,
    {
        proof {
            lemma_order(self@, other@, self@);
        }
        let p = self.rank();
        let q = other.rank();
        if p < q {
            Order::Less
        } else if p > q {
            Order::Greater
        } else {
            match (self, other) {
                (Config::Real(a), Config::Real(b)) => compare_text(a.as_str(), b.as_str()),
                (Config::Int(a), Config::Int(b)) => if *a < *b {
                    Order::Less
                } else if *a > *b {
                    Order::Greater
                } else {
                    Order::Equal
                },
                (Config::String(a), Config::String(b)) => compare_text(a.as_str(), b.as_str()),
                (Config::Bool(a), Config::Bool(b)) => if !*a && *b {
                    Order::Less
                } else if *a && !*b {
                    Order::Greater
                } else {
                    Order::Equal
                },
                (Config::Array(a), Config::Array(b)) => compare_seq(a, b),
                (Config::Hash(a), Config::Hash(b)) => compare_entries(a, b),
                _ => Order::Equal,
            }
        }
    }

    /// The value under `key`, or `Invalid` where this node is no map or has
    /// no such key.
    pub fn index_by_key(&self, key: &str) -> (r: &Config)
        requires
            self.wf(),
        ensures
            r@ == self@.get(Node::String(key@)),
            r.wf(),
    {
        proof {
            lemma_get_wf(self@, Node::String(key@), 0);
        }
        match self {
            Config::Hash(h) => {
                let k = Config::String(key.to_owned());
                let (p, found) = find(h, &k);
                if found {
                    &h[p].1
                } else {
                    &Config::Invalid
                }
            },
            _ => &Config::Invalid,
        }
    }

    /// The element at position `idx`, or `Invalid` where this node is no
    /// sequence or `idx` is out of bounds.
    pub fn index_by_position(&self, idx: usize) -> (r: &Config)
        ensures
            r@ == self@.at(idx as int),
            self.wf() ==> r.wf(),
    {
        proof {
            if self.wf() {
                lemma_get_wf(self@, Node::Null, idx as int);
            }
        }
        match self {
            Config::Array(v) => if idx < v.len() {
                &v[idx]
            } else {
                &Config::Invalid
            },
            _ => &Config::Invalid,
        }
    }

    /// Puts `value` under `key` where this node is a map, in place of what
    /// stood there. Any other node is left as it is.
    pub fn insert(&mut self, key: Config, value: Config)
        requires
            old(self).wf(),
            key.wf(),
            value.wf(),
        ensures
            final(self)@ == old(self)@.with(key@, value@),
            final(self).wf(),
            old(self)@ is Hash ==> final(self)@.get(key@) == value@,
            forall|k: Node| k != key@ ==> #[trigger] final(self)@.get(k) == old(self)@.get(k),
    {
        match self {
            Config::Hash(h) => {
                proof {
                    lemma_insert_wf(entries_view(h@), key@, value@);
                    lemma_insert(entries_view(h@), key@, value@);
                }
                insert_into(h, key, value);
            },
            _ => {},
        }
    }

    /// Takes the entry under `key` out of a map. Any other node is left as
    /// it is.
    pub fn remove_key(&mut self, key: &str)
        requires
            old(self).wf(),
        ensures
            final(self)@ == old(self)@.without(Node::String(key@)),
            final(self).wf(),
            !final(self)@.has(Node::String(key@)),
            forall|k: Node|
                k != Node::String(key@) ==> #[trigger] final(self)@.get(k) == old(self)@.get(k),
    {
        match self {
            Config::Hash(h) => {
                let k = Config::String(key.to_owned());
                let (p, found) = find(h, &k);
                proof {
                    lemma_remove_wf(entries_view(h@), k@);
                    lemma_remove(entries_view(h@), k@);
                }
                if found {
                    let ghost before = entries_view(h@);
                    h.remove(p);
                    assert(entries_view(h@) =~= before.remove(p as int));
                }
            },
            _ => {},
        }
    }

    /// Lays `other` over `self`. Two maps are merged key by key: under a key
    /// of both stands the merge of the two values, every other entry is
    /// kept. Anything else is replaced by `other`.
    pub fn merge(self, other: Config) -> (r: Config)
        requires
            self.wf(),
            other.wf(),
        ensures
            r@ == self@.merge(other@),
            r.wf(),
            !(self@ is Hash) || !(other@ is Hash) ==> r@ == other@,
            self@ is Hash && other@ is Hash ==> r@ is Hash && forall|key: Node|
                (#[trigger] r@.has(key) <==> self@.has(key) || other@.has(key)) && r@.get(key)
                    == self@.merged_at(other@, key),
        decreases self,
    {
        proof {
            if self@ is Hash && other@ is Hash {
                assert forall|key: Node|
                    (#[trigger] self@.merge(other@).has(key) <==> self@.has(key) || other@.has(
                        key,
                    )) && self@.merge(other@).get(key) == self@.merged_at(other@, key) by {
                    lemma_merge_entries(self@->Hash_0, other@->Hash_0, key);
                }
            }
        }
        match (self, other) {
            (Config::Hash(orig), Config::Hash(new)) => Config::Hash(merge_vecs(orig, new)),
            (_, new) => new,
        }
    }

    /// Whether every map in the tree holds its entries in strictly
    /// ascending key order.
    pub fn is_well_formed(&self) -> (b: bool)
        ensures
            b == self.wf(),
        decreases self,
    {
        match self {
            Config::Array(a) => all_well_formed(a),
            Config::Hash(h) => entries_well_formed(h),
            _ => true,
        }
    }
}

impl Clone for Config {
    /// A copy of the whole tree.
    fn clone(&self) -> (r: Config)
        ensures
            r@ == self@,
        decreases self,
    {
        match self {
            Config::Real(r) => Config::Real(r.clone()),
            Config::Int(i) => Config::Int(*i),
            Config::String(s) => Config::String(s.clone()),
            Config::Bool(b) => Config::Bool(*b),
            Config::Array(a) => Config::Array(clone_seq(a)),
            Config::Hash(h) => Config::Hash(clone_entries(h)),
            Config::Null => Config::Null,
            Config::Invalid => Config::Invalid,
        }
    }
}

/// A copy of a sequence of nodes.
fn clone_seq(items: &Vec<Config>) -> (r: Vec<Config>)
    ensures
        nodes_view(r@) == nodes_view(items@),
    decreases items,
{
    let mut out: Vec<Config> = Vec::new();
    let mut i: usize = 0;
    while i < items.len()
        invariant
            i <= items.len(),
            out@.len() == i,
            forall|j: int| 0 <= j < i ==> (#[trigger] out@[j])@ == items@[j]@,
        decreases items.len() - i,
    {
        out.push(items[i].clone());
        i += 1;
    }
    assert(nodes_view(out@) =~= nodes_view(items@));
    out
}

/// A copy of a sequence of entries.
fn clone_entries(entries: &Vec<(Config, Config)>) -> (r: Vec<(Config, Config)>)
    ensures
        entries_view(r@) == entries_view(entries@),
    decreases entries,
{
    let mut out: Vec<(Config, Config)> = Vec::new();
    let mut i: usize = 0;
    while i < entries.len()
        invariant
            i <= entries.len(),
            out@.len() == i,
            forall|j: int|
                0 <= j < i ==> (#[trigger] out@[j]).0@ == entries@[j].0@ && out@[j].1@
                    == entries@[j].1@,
        decreases entries.len() - i,
    {
        out.push((entries[i].0.clone(), entries[i].1.clone()));
        i += 1;
    }
    assert(entries_view(out@) =~= entries_view(entries@));
    out
}

/// `a == b` where the two nodes stand for the same model.
impl PartialEq for Config {
    fn eq(&self, other: &Config) -> (r: bool) {
        match self.compare(other) {
            Order::Equal => true,
            _ => false,
        }
    }
}

impl vstd::std_specs::cmp::PartialEqSpecImpl for Config {
    open spec fn obeys_eq_spec() -> bool {
        true
    }

    open spec fn eq_spec(&self, other: &Config) -> bool {
        self@ == other@
    }
}

/// `a < b` where `a` precedes `b` in the total order on nodes.
impl PartialOrd for Config {
    fn partial_cmp(&self, other: &Config) -> (r: Option<core::cmp::Ordering>) {
        match self.compare(other) {
            Order::Less => Some(core::cmp::Ordering::Less),
            Order::Equal => Some(core::cmp::Ordering::Equal),
            Order::Greater => Some(core::cmp::Ordering::Greater),
        }
    }
}

impl vstd::std_specs::cmp::PartialOrdSpecImpl for Config {
    open spec fn obeys_partial_cmp_spec() -> bool {
        true
    }

    open spec fn partial_cmp_spec(&self, other: &Config) -> Option<core::cmp::Ordering> {
        if self@.precedes(other@) {
            Some(core::cmp::Ordering::Less)
        } else if self@ == other@ {
            Some(core::cmp::Ordering::Equal)
        } else {
            Some(core::cmp::Ordering::Greater)
        }
    }
}

/// `config[i]` is the element at position `i`, or `Invalid`.
impl std::ops::Index<usize> for Config {
    type Output = Config;

    fn index(&self, idx: usize) -> (r: &Config)
        ensures
            r@ == self@.at(idx as int),
            self.wf() ==> r.wf(),
    {
        self.index_by_position(idx)
    }
}

impl vstd::std_specs::core::IndexSpecImpl<usize> for Config {
    open spec fn index_req(&self, index: &usize) -> bool {
        true
    }
}

/// `config["key"]` is the value under `key`, or `Invalid`.
impl<'a> std::ops::Index<&'a str> for Config {
    type Output = Config;

    fn index(&self, idx: &'a str) -> (r: &Config)
        ensures
            r@ == self@.get(Node::String(idx@)),
            r.wf(),
    {
        self.index_by_key(idx)
    }
}

impl<'a> vstd::std_specs::core::IndexSpecImpl<&'a str> for Config {
    open spec fn index_req(&self, index: &&'a str) -> bool {
        self.wf()
    }
}

} // verus!
