//! Paths into a configuration tree: chains of keys and positions.

use vstd::prelude::*;
use crate::config::Config;
use crate::entries::lemma_get_wf;
use crate::node::Node;

verus! {

/// One step of a path: into a map by key, or into a sequence by position.
#[derive(Debug, PartialEq, Eq)]
pub enum Segment {
    Key(String),
    Position(usize),
}

/// The model of a [`Segment`].
pub enum Step {
    Key(Seq<char>),
    Position(int),
}

impl View for Segment {
    type V = Step;

    open spec fn view(&self) -> Step {
        match self {
            Segment::Key(key) => Step::Key(key@),
            Segment::Position(i) => Step::Position(*i as int),
        }
    }
}

/// The steps that a sequence of segments stands for.
pub open spec fn steps(path: Seq<Segment>) -> Seq<Step> {
    Seq::new(path.len(), |i: int| path[i]@)
}

impl Node {
    /// Where one step leads from this node: to the value under the key, to
    /// the element at the position, or to `Invalid`.
    pub open spec fn step(self, step: Step) -> Node {
        match step {
            Step::Key(key) => self.get(Node::String(key)),
            Step::Position(i) => self.at(i),
        }
    }

    /// The step finds nothing at this node: the node is no map, or has no
    /// such key; it is no sequence, or the position is out of bounds.
    pub open spec fn misses(self, step: Step) -> bool {
        match step {
            Step::Key(key) => !self.has(Node::String(key)),
            Step::Position(i) => !(self matches Node::Array(a) && 0 <= i < a.len()),
        }
    }

    /// Where a path leads from this node, step by step.
    pub open spec fn follow(self, path: Seq<Step>) -> Node
        decreases path.len(),
    {
        if path.len() == 0 {
            self
        } else {
            self.step(path[0]).follow(path.drop_first())
        }
    }
}

/// A path can be followed in two parts.
pub proof fn lemma_follow_split(node: Node, path: Seq<Step>, n: int)
    requires
        0 <= n <= path.len(),
    ensures
        node.follow(path) == node.follow(path.take(n)).follow(path.skip(n)),
    decreases n,
{
    if n == 0 {
        assert(path.skip(0) =~= path);
    } else {
        assert(path.take(n)[0] == path[0]);
        assert(path.take(n).drop_first() =~= path.drop_first().take(n - 1));
        assert(path.skip(n) =~= path.drop_first().skip(n - 1));
        lemma_follow_split(node.step(path[0]), path.drop_first(), n - 1);
    }
}

/// From `Invalid` every path leads to `Invalid`.
pub proof fn lemma_follow_invalid(path: Seq<Step>)
    ensures
        Node::Invalid.follow(path) == Node::Invalid,
    decreases path.len(),
{
    if path.len() > 0 {
        lemma_follow_invalid(path.drop_first());
    }
}

/// A path that finds nothing at one of its steps leads to `Invalid`: be it a
/// key that the map does not have, a position out of bounds, or a step into
/// a node of the wrong shape.
pub proof fn lemma_follow_misses(node: Node, path: Seq<Step>, n: int)
    requires
        0 <= n < path.len(),
        node.follow(path.take(n)).misses(path[n]),
    ensures
        node.follow(path) == Node::Invalid,
{
    let reached = node.follow(path.take(n));
    lemma_follow_split(node, path, n);
    assert(path.skip(n)[0] == path[n]);
    assert(reached.step(path[n]) == Node::Invalid);
    lemma_follow_invalid(path.skip(n).drop_first());
}

/// From a well-formed node every path leads to a well-formed node.
pub proof fn lemma_follow_wf(node: Node, path: Seq<Step>)
    requires
        node.wf(),
    ensures
        node.follow(path).wf(),
    decreases path.len(),
{
    if path.len() > 0 {
        match path[0] {
            Step::Key(key) => lemma_get_wf(node, Node::String(key), 0),
            Step::Position(i) => lemma_get_wf(node, Node::Null, i),
        }
        lemma_follow_wf(node.step(path[0]), path.drop_first());
    }
}

impl Config {
    /// The node that `path` leads to, or `Invalid` where it leads nowhere.
    pub fn follow(&self, path: &[Segment]) -> (r: &Config)
        requires
            self.wf(),
        ensures
            r@ == self@.follow(steps(path@)),
            r.wf(),
    {
        let ghost all = steps(path@);
        let mut at: &Config = self;
        let mut i: usize = 0;
        assert(all.skip(0) =~= all);
        while i < path.len()
            invariant
                i <= path.len(),
                all == steps(path@),
                at.wf(),
                at@.follow(all.skip(i as int)) == self@.follow(all),
            decreases path.len() - i,
        {
            proof {
                assert(all.skip(i as int)[0] == path@[i as int]@);
                assert(all.skip(i as int).drop_first() =~= all.skip(i + 1));
            }
            at = match &path[i] {
                Segment::Key(key) => at.index_by_key(key.as_str()),
                Segment::Position(p) => at.index_by_position(*p),
            };
            i += 1;
        }
        at
    }
}

} // verus!
