//! Configurations from YAML: parsed documents become configuration trees.

use vstd::prelude::*;
use yaml_rust::{ScanError, Yaml, YamlLoader};
use crate::config::{entries_view, insert_into, nodes_view, Config};
use crate::entries::{
    entries_wf, has_key, insert_entry, lemma_insert, lemma_insert_wf, value_of,
};
use crate::error::{Failure, LoadError};
use crate::node::{keys_ascend, Node};

verus! {

/// `yaml_rust::Yaml`, a parsed YAML value. Proofs see nothing inside it;
/// what it holds is named by [`yaml_tree`].
#[verifier::external_type_specification]
#[verifier::external_body]
pub struct ExYaml(yaml_rust::Yaml);

/// `yaml_rust::ScanError`, the parser's report on a malformed text. Proofs
/// see nothing inside it; its message is named by [`scan_error_message`].
#[verifier::external_type_specification]
#[verifier::external_body]
pub struct ExScanError(yaml_rust::ScanError);

/// What a YAML value is: the model of a `yaml_rust::Yaml`.
///
/// A map is held as its entries in the order in which they were written.
pub enum YamlNode {
    Real(Seq<char>),
    Integer(int),
    String(Seq<char>),
    Boolean(bool),
    Array(Seq<YamlNode>),
    Hash(Seq<(YamlNode, YamlNode)>),
    Alias(int),
    Null,
    BadValue,
}

/// The tree that a YAML value holds.
pub uninterp spec fn yaml_tree(yaml: Yaml) -> YamlNode;

/// The documents that `text` parses to, or the error that the parser
/// reports on it.
pub uninterp spec fn yaml_documents(text: Seq<char>) -> Result<Seq<YamlNode>, ScanError>;

/// The message that a scan error carries.
pub uninterp spec fn scan_error_message(error: ScanError) -> Seq<char>;

/// The trees of a sequence of YAML values.
pub open spec fn yaml_trees(items: Seq<Yaml>) -> Seq<YamlNode> {
    Seq::new(items.len(), |i: int| yaml_tree(items[i]))
}

/// The first `n` entries of a YAML map, put into a configuration map one
/// after the other; of two entries whose keys convert alike, the later
/// one stays.
pub open spec fn hash_entries(entries: Seq<(YamlNode, YamlNode)>, n: int) -> Seq<(Node, Node)>
    decreases entries, n,
{
    if n <= 0 || n > entries.len() {
        Seq::empty()
    } else {
        insert_entry(
            hash_entries(entries, n - 1),
            entries[n - 1].0.node(),
            entries[n - 1].1.node(),
        )
    }
}

impl YamlNode {
    /// An alias stands somewhere in the tree.
    pub open spec fn has_alias(self) -> bool
        decreases self,
    {
        match self {
            YamlNode::Alias(_) => true,
            YamlNode::Array(a) => exists|i: int| 0 <= i < a.len() && (#[trigger] a[i]).has_alias(),
            YamlNode::Hash(h) => exists|i: int|
                0 <= i < h.len() && ((#[trigger] h[i]).0.has_alias() || h[i].1.has_alias()),
            _ => false,
        }
    }

    /// The configuration that the tree stands for: kind for kind, with a bad
    /// value as `Invalid`. Nothing is said of an alias.
    pub open spec fn node(self) -> Node
        decreases self, 0int,
    {
        match self {
            YamlNode::Real(r) => Node::Real(r),
            YamlNode::Integer(i) => Node::Int(i),
            YamlNode::String(s) => Node::String(s),
            YamlNode::Boolean(b) => Node::Bool(b),
            YamlNode::Array(a) => Node::Array(
                Seq::new(
                    a.len(),
                    |i: int|
                        if 0 <= i < a.len() {
                            a[i].node()
                        } else {
                            Node::Invalid
                        },
                ),
            ),
            YamlNode::Hash(h) => Node::Hash(hash_entries(h, h.len() as int)),
            YamlNode::Alias(_) => Node::Invalid,
            YamlNode::Null => Node::Null,
            YamlNode::BadValue => Node::Invalid,
        }
    }
}

/// One level of a YAML value: its kind, and what it holds.
enum YamlShape<'a> {
    Real(&'a str),
    Integer(i64),
    String(&'a str),
    Boolean(bool),
    Array(&'a Vec<Yaml>),
    Hash(Vec<(&'a Yaml, &'a Yaml)>),
    Alias(usize),
    Null,
    BadValue,
}

impl<'a> YamlShape<'a> {
    /// The tree of the value that was opened.
    spec fn tree(self) -> YamlNode {
        match self {
            YamlShape::Real(r) => YamlNode::Real(r@),
            YamlShape::Integer(i) => YamlNode::Integer(i as int),
            YamlShape::String(s) => YamlNode::String(s@),
            YamlShape::Boolean(b) => YamlNode::Boolean(b),
            YamlShape::Array(a) => YamlNode::Array(yaml_trees(a@)),
            YamlShape::Hash(h) => YamlNode::Hash(
                Seq::new(h@.len(), |i: int| (yaml_tree(*h@[i].0), yaml_tree(*h@[i].1))),
            ),
            YamlShape::Alias(n) => YamlNode::Alias(n as int),
            YamlShape::Null => YamlNode::Null,
            YamlShape::BadValue => YamlNode::BadValue,
        }
    }
}

/// Tells the variants of `yaml_rust::Yaml` apart. The contract claims that
/// what is handed out is the value's kind and content: scalars as they are,
/// the elements of a sequence in their order, the entries of a map in the
/// order in which the map walks them.
#[verifier::external_body]
fn open_yaml<'a>(yaml: &'a Yaml) -> (shape: YamlShape<'a>)
    ensures
        shape.tree() == yaml_tree(*yaml),
{
    match yaml {
        Yaml::Real(r) => YamlShape::Real(r.as_str()),
        Yaml::Integer(i) => YamlShape::Integer(*i),
        Yaml::String(s) => YamlShape::String(s.as_str()),
        Yaml::Boolean(b) => YamlShape::Boolean(*b),
        Yaml::Array(a) => YamlShape::Array(a),
        Yaml::Hash(h) => YamlShape::Hash(h.iter().collect()),
        Yaml::Alias(n) => YamlShape::Alias(*n),
        Yaml::Null => YamlShape::Null,
        Yaml::BadValue => YamlShape::BadValue,
    }
}

/// `YamlLoader::load_from_str` parses a text into its documents. The contract
/// claims that the outcome, documents or error, depends on the text alone.
pub assume_specification[ YamlLoader::load_from_str ](source: &str) -> (r: Result<
    Vec<Yaml>,
    ScanError,
>)
    ensures
        match r {
            Ok(docs) => yaml_documents(source@) == Ok::<Seq<YamlNode>, ScanError>(
                yaml_trees(docs@),
            ),
            Err(e) => yaml_documents(source@) == Err::<Seq<YamlNode>, ScanError>(e),
        },
;

/// `ScanError`'s `description` gives the message of a scan error, without
/// the place in the text.
#[verifier::external_body]
fn describe(error: &ScanError) -> (message: String)
    ensures
        message@ == scan_error_message(*error),
{
    #[allow(deprecated)]
    std::error::Error::description(error).to_owned()
}

/// The last of the first `n` entries whose key converts to `key`, or -1
/// where there is none.
pub open spec fn last_under(entries: Seq<(YamlNode, YamlNode)>, n: int, key: Node) -> int
    decreases n,
{
    if n <= 0 || n > entries.len() {
        -1
    } else if entries[n - 1].0.node() == key {
        n - 1
    } else {
        last_under(entries, n - 1, key)
    }
}

/// What a converted map holds: a key is in it exactly if the key of some
/// entry converts to it, and under it stands the value of the last such
/// entry.
pub proof fn lemma_hash_entries(entries: Seq<(YamlNode, YamlNode)>, n: int, key: Node)
    requires
        0 <= n <= entries.len(),
    ensures
        keys_ascend(hash_entries(entries, n)),
        -1 <= last_under(entries, n, key) < n,
        has_key(hash_entries(entries, n), key) <==> last_under(entries, n, key) >= 0,
        has_key(hash_entries(entries, n), key) ==> value_of(hash_entries(entries, n), key)
            == entries[last_under(entries, n, key)].1.node(),
    decreases n,
{
    if n > 0 {
        lemma_hash_entries(entries, n - 1, key);
        lemma_insert(
            hash_entries(entries, n - 1),
            entries[n - 1].0.node(),
            entries[n - 1].1.node(),
        );
    }
}

/// A converted tree is well formed.
pub proof fn lemma_node_wf(tree: YamlNode)
    ensures
        tree.node().wf(),
    decreases tree, 0int,
{
    match tree {
        YamlNode::Array(a) => {
            let items = tree.node()->Array_0;
            assert forall|i: int| 0 <= i < a.len() implies (#[trigger] items[i]).wf() by {
                lemma_node_wf(a[i]);
            }
        },
        YamlNode::Hash(h) => {
            lemma_hash_entries_wf(h, h.len() as int);
        },
        _ => {},
    }
}

/// The first `n` entries of a YAML map convert to a well-formed map.
proof fn lemma_hash_entries_wf(entries: Seq<(YamlNode, YamlNode)>, n: int)
    ensures
        entries_wf(hash_entries(entries, n)),
    decreases entries, n,
{
    if 0 < n <= entries.len() {
        lemma_hash_entries_wf(entries, n - 1);
        lemma_node_wf(entries[n - 1].0);
        lemma_node_wf(entries[n - 1].1);
        lemma_insert_wf(
            hash_entries(entries, n - 1),
            entries[n - 1].0.node(),
            entries[n - 1].1.node(),
        );
    }
}

impl Config {
    /// Converts a YAML value, kind for kind; a bad value becomes `Invalid`.
    /// The entries of a map are put in one after the other. Gives nothing
    /// where an alias stands in the value.
    pub fn try_from_yaml(yaml: &Yaml) -> (r: Option<Config>)
        ensures
            r is Some <==> !yaml_tree(*yaml).has_alias(),
            r matches Some(c) ==> c@ == yaml_tree(*yaml).node() && c.wf(),
        decreases yaml_tree(*yaml),
    {
        let ghost tree = yaml_tree(*yaml);
        proof {
            lemma_node_wf(tree);
        }
        match open_yaml(yaml) {
            YamlShape::Real(r) => Some(Config::Real(r.to_owned())),
            YamlShape::Integer(i) => Some(Config::Int(i)),
            YamlShape::String(s) => Some(Config::String(s.to_owned())),
            YamlShape::Boolean(b) => Some(Config::Bool(b)),
            YamlShape::Null => Some(Config::Null),
            YamlShape::BadValue => Some(Config::Invalid),
            YamlShape::Alias(_) => None,
            YamlShape::Array(orig) => {
                let ghost a = tree->Array_0;
                let mut res: Vec<Config> = Vec::new();
                let mut i: usize = 0;
                while i < orig.len()
                    invariant
                        i <= orig.len(),
                        tree == YamlNode::Array(a),
                        tree == yaml_tree(*yaml),
                        a == yaml_trees(orig@),
                        res@.len() == i,
                        forall|j: int| 0 <= j < i ==> !(#[trigger] a[j]).has_alias(),
                        forall|j: int| 0 <= j < i ==> (#[trigger] res@[j])@ == a[j].node(),
                    decreases orig.len() - i,
                {
                    assert(decreases_to!(tree => a[i as int]));
                    match Config::try_from_yaml(&orig[i]) {
                        Some(item) => res.push(item),
                        None => {
                            assert(a[i as int].has_alias());
                            return None;
                        },
                    }
                    i += 1;
                }
                assert(nodes_view(res@) =~= tree.node()->Array_0);
                Some(Config::Array(res))
            },
            YamlShape::Hash(orig) => {
                let ghost h = tree->Hash_0;
                let mut res: Vec<(Config, Config)> = Vec::new();
                let mut i: usize = 0;
                assert(entries_view(res@) =~= hash_entries(h, 0));
                while i < orig.len()
                    invariant
                        i <= orig.len(),
                        tree == YamlNode::Hash(h),
                        tree == yaml_tree(*yaml),
                        h.len() == orig@.len(),
                        forall|j: int|
                            0 <= j < h.len() ==> (#[trigger] h[j]) == (
                                yaml_tree(*orig@[j].0),
                                yaml_tree(*orig@[j].1),
                            ),
                        forall|j: int|
                            0 <= j < i ==> !(#[trigger] h[j]).0.has_alias() && !h[j].1.has_alias(),
                        entries_view(res@) == hash_entries(h, i as int),
                    decreases orig.len() - i,
                {
                    proof {
                        lemma_hash_entries_wf(h, i as int);
                        assert(decreases_to!(tree => h[i as int].0));
                        assert(decreases_to!(tree => h[i as int].1));
                    }
                    let key = match Config::try_from_yaml(orig[i].0) {
                        Some(key) => key,
                        None => {
                            assert(h[i as int].0.has_alias());
                            return None;
                        },
                    };
                    let value = match Config::try_from_yaml(orig[i].1) {
                        Some(value) => value,
                        None => {
                            assert(h[i as int].1.has_alias());
                            return None;
                        },
                    };
                    insert_into(&mut res, key, value);
                    i += 1;
                }
                Some(Config::Hash(res))
            },
        }
    }

    /// Reads the YAML contents into a configuration, consuming the YAML
    /// structure. Aliases are not supported.
    pub fn from_yaml(yaml: Yaml) -> (c: Config)
        requires
            !yaml_tree(yaml).has_alias(),
        ensures
            c@ == yaml_tree(yaml).node(),
            c.wf(),
    {
        Config::try_from_yaml(&yaml).unwrap()
    }

    /// The configuration of a parsed text: that of its last document, or the
    /// empty configuration where it has none.
    pub fn from_documents(docs: Vec<Yaml>) -> (r: Result<Config, LoadError>)
        ensures
            r.is_ok() ==> r.unwrap().wf(),
            config_view(r) == documents_config(yaml_trees(docs@)),
    {
        let mut docs = docs;
        match docs.pop() {
            Some(yaml) => match Config::try_from_yaml(&yaml) {
                Some(config) => Ok(config),
                None => Err(LoadError::Alias),
            },
            None => Ok(Config::new()),
        }
    }

    /// Parses `text` as YAML and converts its last document. An empty text
    /// gives the empty configuration.
    pub fn from_yaml_str(text: &str) -> (r: Result<Config, LoadError>)
        ensures
            r.is_ok() ==> r.unwrap().wf(),
            config_view(r) == parsed_config(yaml_documents(text@)),
    {
        match YamlLoader::load_from_str(text) {
            Ok(docs) => Config::from_documents(docs),
            Err(e) => Err(LoadError::Malformed(describe(&e))),
        }
    }
}

/// The model of a load's outcome.
pub open spec fn config_view(r: Result<Config, LoadError>) -> Result<Node, Failure> {
    match r {
        Ok(config) => Ok(config@),
        Err(error) => Err(error@),
    }
}

/// What the documents of a text give: the last one, converted; the empty
/// configuration where there is none; a failure where the last one holds an
/// alias.
pub open spec fn documents_config(docs: Seq<YamlNode>) -> Result<Node, Failure> {
    if docs.len() == 0 {
        Ok(Node::Null)
    } else if docs.last().has_alias() {
        Err(Failure::Alias)
    } else {
        Ok(docs.last().node())
    }
}

/// What a parsed text gives: the configuration of its documents, or the
/// parser's message where it is malformed.
pub open spec fn parsed_config(parsed: Result<Seq<YamlNode>, ScanError>) -> Result<Node, Failure> {
    match parsed {
        Ok(docs) => documents_config(docs),
        Err(error) => Err(Failure::Malformed(scan_error_message(error))),
    }
}

} // verus!
