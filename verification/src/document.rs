//! Structured documents: the tree of scalars, sequences and mappings that a
//! YAML text denotes, and the loader that reads such a text.

use vstd::prelude::*;
use yaml_rust::ScanError;
use yaml_rust::Yaml;
use yaml_rust::YamlLoader;

verus! {

/// A node of a loaded document.
#[derive(Debug, PartialEq, Eq)]
pub enum Node {
    /// A floating-point scalar, kept as it was written.
    Real(String),
    /// An integer scalar.
    Integer(i64),
    /// A string scalar.
    Text(String),
    /// A boolean scalar.
    Boolean(bool),
    /// A sequence of nodes.
    Sequence(Vec<Node>),
    /// A mapping: its entries as key and value, in the order of the text.
    /// The loader gives no two entries the same key; nothing here relies
    /// on that.
    Mapping(Vec<(Node, Node)>),
    /// A reference to an anchor that the loader did not resolve.
    Alias(usize),
    /// The null scalar.
    Null,
    /// A node that has no value: an empty document, or a scalar whose tag
    /// its text does not fit.
    BadValue,
}

/// The mathematical value of a [`Node`].
pub enum Tree {
    Real(Seq<char>),
    Integer(i64),
    Text(Seq<char>),
    Boolean(bool),
    Sequence(Seq<Tree>),
    Mapping(Seq<(Tree, Tree)>),
    Alias(usize),
    Null,
    BadValue,
}

/// The value of a node: its scalar, or the values of its children in order.
pub open spec fn tree_of(node: Node) -> Tree
    decreases node,
{
    match node {
        Node::Real(s) => Tree::Real(s@),
        Node::Integer(i) => Tree::Integer(i),
        Node::Text(s) => Tree::Text(s@),
        Node::Boolean(b) => Tree::Boolean(b),
        Node::Sequence(v) => Tree::Sequence(
            Seq::new(
                v.len() as nat,
                |i: int|
                    if 0 <= i < v.len() {
                        tree_of(v[i])
                    } else {
                        Tree::Null
                    },
            ),
        ),
        Node::Mapping(v) => Tree::Mapping(
            Seq::new(
                v.len() as nat,
                |i: int|
                    if 0 <= i < v.len() {
                        (tree_of(v[i].0), tree_of(v[i].1))
                    } else {
                        (Tree::Null, Tree::Null)
                    },
            ),
        ),
        Node::Alias(a) => Tree::Alias(a),
        Node::Null => Tree::Null,
        Node::BadValue => Tree::BadValue,
    }
}

impl View for Node {
    type V = Tree;

    open spec fn view(&self) -> Tree {
        tree_of(*self)
    }
}

/// The values of a sequence of nodes.
pub open spec fn trees(nodes: Seq<Node>) -> Seq<Tree> {
    Seq::new(nodes.len(), |i: int| nodes[i]@)
}

/// The values of a sequence of mapping entries.
pub open spec fn tree_pairs(pairs: Seq<(Node, Node)>) -> Seq<(Tree, Tree)> {
    Seq::new(pairs.len(), |i: int| (pairs[i].0@, pairs[i].1@))
}

/// The value of a sequence node is the sequence of its items' values, and
/// that of a mapping node the sequence of its entries' values.
pub proof fn lemma_view_of_children(node: Node)
    ensures
        node matches Node::Sequence(v) ==> node@ == Tree::Sequence(trees(v@)),
        node matches Node::Mapping(v) ==> node@ == Tree::Mapping(tree_pairs(v@)),
{
    reveal_with_fuel(tree_of, 2);
    match node {
        Node::Sequence(v) => {
            assert(node@->Sequence_0 =~= trees(v@));
        },
        Node::Mapping(v) => {
            assert(node@->Mapping_0 =~= tree_pairs(v@));
        },
        _ => {},
    }
}

impl Node {
    /// A copy of the node and of everything below it.
    #[verifier::loop_isolation(false)]
    pub fn duplicate(&self) -> (copy: Node)
        ensures
            copy@ == self@,
        decreases self,
    {
        match self {
            Node::Real(s) => Node::Real(s.clone()),
            Node::Integer(i) => Node::Integer(*i),
            Node::Text(s) => Node::Text(s.clone()),
            Node::Boolean(b) => Node::Boolean(*b),
            Node::Sequence(v) => {
                let mut items: Vec<Node> = Vec::new();
                let mut i: usize = 0;
                while i < v.len()
                    invariant
                        i <= v.len(),
                        items.len() == i,
                        forall|j: int| 0 <= j < i ==> items[j]@ == v[j]@,
                    decreases v.len() - i,
                {
                    items.push(v[i].duplicate());
                    i += 1;
                }
                let copy = Node::Sequence(items);
                proof {
                    lemma_view_of_children(copy);
                    lemma_view_of_children(*self);
                    assert(trees(items@) =~= trees(v@));
                }
                copy
            },
            Node::Mapping(v) => {
                let mut items: Vec<(Node, Node)> = Vec::new();
                let mut i: usize = 0;
                while i < v.len()
                    invariant
                        i <= v.len(),
                        items.len() == i,
                        forall|j: int|
                            0 <= j < i ==> items[j].0@ == v[j].0@ && items[j].1@ == v[j].1@,
                    decreases v.len() - i,
                {
                    items.push((v[i].0.duplicate(), v[i].1.duplicate()));
                    i += 1;
                }
                let copy = Node::Mapping(items);
                proof {
                    lemma_view_of_children(copy);
                    lemma_view_of_children(*self);
                    assert(tree_pairs(items@) =~= tree_pairs(v@));
                }
                copy
            },
            Node::Alias(a) => Node::Alias(*a),
            Node::Null => Node::Null,
            Node::BadValue => Node::BadValue,
        }
    }
}

/// The loader's own representation of a node.
#[verifier::external_type_specification]
#[verifier::external_body]
pub struct ExYaml(Yaml);

/// The loader's report of a text that is not well-formed YAML.
#[verifier::external_type_specification]
#[verifier::external_body]
pub struct ExScanError(ScanError);

/// One level of a node of the loader: its scalar, or its children as the
/// loader holds them.
enum Layer<'a> {
    Real(String),
    Integer(i64),
    Text(String),
    Boolean(bool),
    Sequence(Vec<&'a Yaml>),
    Mapping(Vec<(&'a Yaml, &'a Yaml)>),
    Alias(usize),
    Null,
    BadValue,
}

/// The documents that the loader reads from a text, or its report where it
/// rejects the text.
pub uninterp spec fn yaml_documents(text: Seq<char>) -> Result<Seq<Tree>, Seq<char>>;

/// The text in which a report of the loader says what is wrong, and where.
pub uninterp spec fn scan_report(error: ScanError) -> Seq<char>;

/// The value that a node of the loader holds.
pub uninterp spec fn yaml_tree(node: Yaml) -> Tree;

/// The values that a sequence of the loader's nodes holds.
pub open spec fn yaml_trees(nodes: Seq<Yaml>) -> Seq<Tree> {
    Seq::new(nodes.len(), |i: int| yaml_tree(nodes[i]))
}

/// The value that one level of a node stands for, given the values of the
/// children.
spec fn layer_tree(layer: Layer) -> Tree {
    match layer {
        Layer::Real(s) => Tree::Real(s@),
        Layer::Integer(i) => Tree::Integer(i),
        Layer::Text(s) => Tree::Text(s@),
        Layer::Boolean(b) => Tree::Boolean(b),
        Layer::Sequence(items) => Tree::Sequence(
            Seq::new(items.len() as nat, |i: int| yaml_tree(*items[i])),
        ),
        Layer::Mapping(pairs) => Tree::Mapping(
            Seq::new(pairs.len() as nat, |i: int| (yaml_tree(*pairs[i].0), yaml_tree(*pairs[i].1))),
        ),
        Layer::Alias(a) => Tree::Alias(a),
        Layer::Null => Tree::Null,
        Layer::BadValue => Tree::BadValue,
    }
}

/// `YamlLoader::load_from_str`: reads every document of `text`. What it
/// returns depends on the text alone, the documents as well as the report
/// of a text that it rejects; the contract gives that result its name and
/// claims nothing else of it.
#[verifier::external_body]
fn load_yaml(text: &str) -> (r: Result<Vec<Yaml>, ScanError>)
    ensures
        match r {
            Ok(docs) => yaml_documents(text@) == Ok::<Seq<Tree>, Seq<char>>(yaml_trees(docs@)),
            Err(e) => yaml_documents(text@) == Err::<Seq<Tree>, Seq<char>>(scan_report(e)),
        },
{
    YamlLoader::load_from_str(text)
}

/// The `Display` text of a `ScanError`: what is wrong with the text, and
/// where. It depends on the report alone; the contract gives it its name
/// and claims nothing else of it.
#[verifier::external_body]
fn report_of(e: &ScanError) -> (report: String)
    ensures
        report@ == scan_report(*e),
{
    format!("{}", e)
}

/// Takes one level off a node of the loader, variant for variant: a scalar
/// is copied, the items of a `Yaml::Array` are handed out in order, and so
/// are the entries of a `Yaml::Hash`, in the order of its `iter`, which is
/// the order of insertion. The contract claims that the node holds what
/// the level shows, with what its children hold.
#[verifier::external_body]
fn layer_of(y: &Yaml) -> (layer: Layer<'_>)
    ensures
        layer_tree(layer) == yaml_tree(*y),
{
    match y {
        Yaml::Real(s) => Layer::Real(s.clone()),
        Yaml::Integer(i) => Layer::Integer(*i),
        Yaml::String(s) => Layer::Text(s.clone()),
        Yaml::Boolean(b) => Layer::Boolean(*b),
        Yaml::Array(a) => Layer::Sequence(a.iter().collect()),
        Yaml::Hash(h) => Layer::Mapping(h.iter().collect()),
        Yaml::Alias(a) => Layer::Alias(*a),
        Yaml::Null => Layer::Null,
        Yaml::BadValue => Layer::BadValue,
    }
}

/// Turns a node of the loader into a [`Node`] that holds the same.
#[verifier::loop_isolation(false)]
fn node_of(y: &Yaml) -> (node: Node)
    ensures
        node@ == yaml_tree(*y),
    decreases yaml_tree(*y),
{
    match layer_of(y) {
        Layer::Real(s) => Node::Real(s),
        Layer::Integer(i) => Node::Integer(i),
        Layer::Text(s) => Node::Text(s),
        Layer::Boolean(b) => Node::Boolean(b),
        Layer::Sequence(items) => {
            let ghost below = yaml_tree(*y)->Sequence_0;
            let mut nodes: Vec<Node> = Vec::new();
            let mut i: usize = 0;
            while i < items.len()
                invariant
                    i <= items.len(),
                    nodes.len() == i,
                    forall|j: int| 0 <= j < i ==> nodes[j]@ == yaml_tree(*items[j]),
                decreases items.len() - i,
            {
                assert(below[i as int] == yaml_tree(*items[i as int]));
                nodes.push(node_of(items[i]));
                i += 1;
            }
            let node = Node::Sequence(nodes);
            proof {
                lemma_view_of_children(node);
                assert(trees(nodes@) =~= below);
            }
            node
        },
        Layer::Mapping(pairs) => {
            let ghost below = yaml_tree(*y)->Mapping_0;
            let mut nodes: Vec<(Node, Node)> = Vec::new();
            let mut i: usize = 0;
            while i < pairs.len()
                invariant
                    i <= pairs.len(),
                    nodes.len() == i,
                    forall|j: int|
                        0 <= j < i ==> nodes[j].0@ == yaml_tree(*pairs[j].0) && nodes[j].1@
                            == yaml_tree(*pairs[j].1),
                decreases pairs.len() - i,
            {
                assert(below[i as int] == (
                    yaml_tree(*pairs[i as int].0),
                    yaml_tree(*pairs[i as int].1),
                ));
                proof {
                    let pair = below[i as int];
                    assert(decreases_to!(yaml_tree(*y) => pair));
                    assert(decreases_to!(pair => pair.0));
                    assert(decreases_to!(pair => pair.1));
                }
                let key = node_of(pairs[i].0);
                let value = node_of(pairs[i].1);
                nodes.push((key, value));
                i += 1;
            }
            let node = Node::Mapping(nodes);
            proof {
                lemma_view_of_children(node);
                assert(tree_pairs(nodes@) =~= below);
            }
            node
        },
        Layer::Alias(a) => Node::Alias(a),
        Layer::Null => Node::Null,
        Layer::BadValue => Node::BadValue,
    }
}

/// Reads every document of a YAML text.
///
/// The result is `Ok` exactly where the loader accepts the text, and then
/// holds the documents that the loader read, in order. Where the loader
/// rejects the text, the result is its report.
pub fn load_documents(text: &str) -> (r: Result<Vec<Node>, String>)
    ensures
        match r {
            Ok(docs) => yaml_documents(text@) == Ok::<Seq<Tree>, Seq<char>>(trees(docs@)),
            Err(report) => yaml_documents(text@) == Err::<Seq<Tree>, Seq<char>>(report@),
        },
{
    match load_yaml(text) {
        Err(e) => Err(report_of(&e)),
        Ok(loaded) => {
            let mut docs: Vec<Node> = Vec::new();
            let mut i: usize = 0;
            while i < loaded.len()
                invariant
                    i <= loaded.len(),
                    docs.len() == i,
                    forall|j: int| 0 <= j < i ==> docs[j]@ == yaml_tree(loaded[j]),
                decreases loaded.len() - i,
            {
                docs.push(node_of(&loaded[i]));
                i += 1;
            }
            assert(trees(docs@) =~= yaml_trees(loaded@));
            Ok(docs)
        },
    }
}

} // verus!
