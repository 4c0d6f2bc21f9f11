//! Dependency manifests: the fixed shape that a manifest's document must
//! have, and the dependency entries that it lists.
//!
//! A manifest is a mapping whose key `repositories` holds a mapping from
//! dependency names to mappings with the string fields `type`, `url` and
//! `version`.

use crate::document::lemma_view_of_children;
use crate::document::{load_documents, tree_pairs, trees, yaml_documents, Node, Tree};
use crate::text::equal;
use vstd::prelude::*;

verus! {

/// One dependency listed by a manifest.
#[derive(Clone, Debug, PartialEq, Eq)]
pub struct DependencyEntry {
    /// The name under which the manifest lists the dependency.
    pub name: String,
    /// The manifest's `type` field, carried along uninterpreted.
    pub kind: String,
    /// The address of the dependency's repository.
    pub url: String,
    /// The version of the dependency that is wanted.
    pub version: String,
}

/// The mathematical value of a [`DependencyEntry`].
pub struct Entry {
    pub name: Seq<char>,
    pub kind: Seq<char>,
    pub url: Seq<char>,
    pub version: Seq<char>,
}

impl View for DependencyEntry {
    type V = Entry;

    open spec fn view(&self) -> Entry {
        Entry { name: self.name@, kind: self.kind@, url: self.url@, version: self.version@ }
    }
}

impl DependencyEntry {
    /// A copy of the entry.
    pub fn duplicate(&self) -> (copy: DependencyEntry)
        ensures
            copy@ == self@,
    {
        DependencyEntry {
            name: self.name.clone(),
            kind: self.kind.clone(),
            url: self.url.clone(),
            version: self.version.clone(),
        }
    }
}

/// Why a text is not a manifest.
#[derive(Debug, PartialEq, Eq)]
pub enum ParseError {
    /// The text is not well-formed YAML; the loader's report says why.
    Syntax(String),
    /// The text holds no document.
    Empty,
    /// The first document is not a mapping.
    NotAMapping,
    /// A required key is absent: `repositories` at the top, or `type`,
    /// `url` or `version` in an entry.
    MissingKey(String),
    /// An entry does not have the required shape. The offending key and
    /// value come along.
    InvalidEntry(Node, Node),
}

/// The mathematical value of a [`ParseError`].
pub enum Fault {
    Syntax(Seq<char>),
    Empty,
    NotAMapping,
    MissingKey(Seq<char>),
    InvalidEntry(Tree, Tree),
}

impl View for ParseError {
    type V = Fault;

    open spec fn view(&self) -> Fault {
        match self {
            ParseError::Syntax(report) => Fault::Syntax(report@),
            ParseError::Empty => Fault::Empty,
            ParseError::NotAMapping => Fault::NotAMapping,
            ParseError::MissingKey(key) => Fault::MissingKey(key@),
            ParseError::InvalidEntry(key, value) => Fault::InvalidEntry(key@, value@),
        }
    }
}

impl ParseError {
    /// A copy of the error.
    pub fn duplicate(&self) -> (copy: ParseError)
        ensures
            copy@ == self@,
    {
        match self {
            ParseError::Syntax(report) => ParseError::Syntax(report.clone()),
            ParseError::Empty => ParseError::Empty,
            ParseError::NotAMapping => ParseError::NotAMapping,
            ParseError::MissingKey(key) => ParseError::MissingKey(key.clone()),
            ParseError::InvalidEntry(key, value) => ParseError::InvalidEntry(
                key.duplicate(),
                value.duplicate(),
            ),
        }
    }
}

/// The values of a sequence of entries.
pub open spec fn entries_view(entries: Seq<DependencyEntry>) -> Seq<Entry> {
    Seq::new(entries.len(), |i: int| entries[i]@)
}

/// The mathematical value of what parsing returns.
pub open spec fn parse_view(r: Result<Vec<DependencyEntry>, ParseError>) -> Result<
    Seq<Entry>,
    Fault,
> {
    match r {
        Ok(entries) => Ok(entries_view(entries@)),
        Err(e) => Err(e@),
    }
}

/// The value that a mapping holds under the string key `key`: that of the
/// first entry with this key, if there is one.
pub open spec fn lookup(fields: Seq<(Tree, Tree)>, key: Seq<char>) -> Option<Tree>
    decreases fields.len(),
{
    if fields.len() == 0 {
        None
    } else if fields[0].0 == Tree::Text(key) {
        Some(fields[0].1)
    } else {
        lookup(fields.skip(1), key)
    }
}

/// The dependency that one entry of `repositories` describes.
///
/// The key must be a string and the value a mapping, else the entry is
/// invalid. The fields `type`, `url` and `version` must be present, and the
/// first one absent, in this order, is reported as missing. All three must
/// be strings, else the entry is invalid.
pub open spec fn entry_of(key: Tree, value: Tree) -> Result<Entry, Fault> {
    match (key, value) {
        (Tree::Text(name), Tree::Mapping(fields)) => {
            let kind = lookup(fields, "type"@);
            let url = lookup(fields, "url"@);
            let version = lookup(fields, "version"@);
            if kind is None {
                Err(Fault::MissingKey("type"@))
            } else if url is None {
                Err(Fault::MissingKey("url"@))
            } else if version is None {
                Err(Fault::MissingKey("version"@))
            } else {
                match (kind->0, url->0, version->0) {
                    (Tree::Text(k), Tree::Text(u), Tree::Text(v)) => Ok(
                        (Entry { name: name, kind: k, url: u, version: v }),
                    ),
                    _ => Err(Fault::InvalidEntry(key, value)),
                }
            }
        },
        _ => Err(Fault::InvalidEntry(key, value)),
    }
}

/// The dependencies that the entries of `repositories` describe, in order,
/// or the fault of the first entry that has one.
pub open spec fn entries_of(items: Seq<(Tree, Tree)>) -> Result<Seq<Entry>, Fault>
    decreases items.len(),
{
    if items.len() == 0 {
        Ok(Seq::empty())
    } else {
        match entries_of(items.drop_last()) {
            Err(fault) => Err(fault),
            Ok(entries) => match entry_of(items.last().0, items.last().1) {
                Err(fault) => Err(fault),
                Ok(entry) => Ok(entries.push(entry)),
            },
        }
    }
}

/// The dependencies that a manifest lists, read from the documents of its
/// text. Only the first document counts.
pub open spec fn manifest_of(docs: Seq<Tree>) -> Result<Seq<Entry>, Fault> {
    if docs.len() == 0 {
        Err(Fault::Empty)
    } else {
        match docs[0] {
            Tree::Mapping(top) => match lookup(top, "repositories"@) {
                None => Err(Fault::MissingKey("repositories"@)),
                Some(Tree::Mapping(items)) => entries_of(items),
                Some(other) => Err(Fault::InvalidEntry(Tree::Text("repositories"@), other)),
            },
            _ => Err(Fault::NotAMapping),
        }
    }
}

/// The dependencies that a manifest's text lists.
pub open spec fn parsed(text: Seq<char>) -> Result<Seq<Entry>, Fault> {
    match yaml_documents(text) {
        Err(report) => Err(Fault::Syntax(report)),
        Ok(docs) => manifest_of(docs),
    }
}

/// A copy of a list of entries.
pub fn duplicate_entries(entries: &Vec<DependencyEntry>) -> (copy: Vec<DependencyEntry>)
    ensures
        entries_view(copy@) == entries_view(entries@),
{
    let mut copy: Vec<DependencyEntry> = Vec::new();
    let mut i: usize = 0;
    while i < entries.len()
        invariant
            i <= entries.len(),
            copy.len() == i,
            forall|j: int| 0 <= j < i ==> copy[j]@ == entries[j]@,
        decreases entries.len() - i,
    {
        copy.push(entries[i].duplicate());
        i += 1;
    }
    assert(entries_view(copy@) =~= entries_view(entries@));
    copy
}

/// Finds the value that a mapping holds under a string key.
pub fn find<'a>(fields: &'a Vec<(Node, Node)>, key: &str) -> (found: Option<&'a Node>)
    ensures
        match found {
            Some(node) => lookup(tree_pairs(fields@), key@) == Some(node@),
            None => lookup(tree_pairs(fields@), key@) is None,
        },
{
    let ghost all = tree_pairs(fields@);
    let mut i: usize = 0;
    assert(all.skip(0) =~= all);
    while i < fields.len()
        invariant
            i <= fields.len(),
            all == tree_pairs(fields@),
            lookup(all, key@) == lookup(all.skip(i as int), key@),
        decreases fields.len() - i,
    {
        let ghost rest = all.skip(i as int);
        assert(rest[0] == all[i as int]);
        assert(rest.skip(1) =~= all.skip(i + 1));
        match &fields[i].0 {
            Node::Text(name) => {
                if equal(name.as_str(), key) {
                    return Some(&fields[i].1);
                }
            },
            _ => {},
        }
        i += 1;
    }
    None
}

/// Reads one entry of `repositories`.
pub fn read_entry(key: &Node, value: &Node) -> (r: Result<DependencyEntry, ParseError>)
    ensures
        match r {
            Ok(entry) => entry_of(key@, value@) == Ok::<Entry, Fault>(entry@),
            Err(e) => entry_of(key@, value@) == Err::<Entry, Fault>(e@),
        },
{
    proof {
        lemma_view_of_children(*value);
    }
    match (key, value) {
        (Node::Text(name), Node::Mapping(fields)) => {
            let kind = match find(fields, "type") {
                None => {
                    return Err(ParseError::MissingKey("type".to_owned()));
                },
                Some(node) => node,
            };
            let url = match find(fields, "url") {
                None => {
                    return Err(ParseError::MissingKey("url".to_owned()));
                },
                Some(node) => node,
            };
            let version = match find(fields, "version") {
                None => {
                    return Err(ParseError::MissingKey("version".to_owned()));
                },
                Some(node) => node,
            };
            match (kind, url, version) {
                (Node::Text(k), Node::Text(u), Node::Text(v)) => Ok(
                    DependencyEntry {
                        name: name.clone(),
                        kind: k.clone(),
                        url: u.clone(),
                        version: v.clone(),
                    },
                ),
                _ => Err(ParseError::InvalidEntry(key.duplicate(), value.duplicate())),
            }
        },
        _ => Err(ParseError::InvalidEntry(key.duplicate(), value.duplicate())),
    }
}

/// Reads the entries of `repositories`, in order, and stops at the first
/// one that has a fault.
pub fn read_entries(items: &Vec<(Node, Node)>) -> (r: Result<Vec<DependencyEntry>, ParseError>)
    ensures
        parse_view(r) == entries_of(tree_pairs(items@)),
{
    let ghost all = tree_pairs(items@);
    let mut entries: Vec<DependencyEntry> = Vec::new();
    let mut i: usize = 0;
    assert(all.take(0) =~= Seq::<(Tree, Tree)>::empty());
    assert(entries_view(entries@) =~= Seq::<Entry>::empty());
    while i < items.len()
        invariant
            i <= items.len(),
            all == tree_pairs(items@),
            entries_of(all.take(i as int)) == Ok::<Seq<Entry>, Fault>(entries_view(entries@)),
        decreases items.len() - i,
    {
        let ghost before = entries_view(entries@);
        assert(all.take(i + 1).drop_last() =~= all.take(i as int));
        assert(all.take(i + 1).last() == all[i as int]);
        match read_entry(&items[i].0, &items[i].1) {
            Err(e) => {
                proof {
                    lemma_fault_persists(all, i + 1);
                }
                return Err(e);
            },
            Ok(entry) => {
                entries.push(entry);
                assert(entries_view(entries@) =~= before.push(entry@));
            },
        }
        i += 1;
    }
    assert(all.take(i as int) =~= all);
    Ok(entries)
}

/// Reads the dependencies that a manifest lists from the documents of its
/// text.
pub fn parse_documents(docs: &Vec<Node>) -> (r: Result<Vec<DependencyEntry>, ParseError>)
    ensures
        parse_view(r) == manifest_of(trees(docs@)),
{
    if docs.len() == 0 {
        return Err(ParseError::Empty);
    }
    proof {
        lemma_view_of_children(docs[0]);
    }
    match &docs[0] {
        Node::Mapping(top) => match find(top, "repositories") {
            None => Err(ParseError::MissingKey("repositories".to_owned())),
            Some(listed) => {
                proof {
                    lemma_view_of_children(*listed);
                }
                match listed {
                    Node::Mapping(items) => read_entries(items),
                    _ => Err(
                        ParseError::InvalidEntry(
                            Node::Text("repositories".to_owned()),
                            listed.duplicate(),
                        ),
                    ),
                }
            },
        },
        _ => Err(ParseError::NotAMapping),
    }
}

/// Reads the dependencies that a manifest's text lists.
///
/// Any fault fails the whole manifest: there is no partial result.
pub fn parse(text: &str) -> (r: Result<Vec<DependencyEntry>, ParseError>)
    ensures
        parse_view(r) == parsed(text@),
{
    match load_documents(text) {
        Err(report) => Err(ParseError::Syntax(report)),
        Ok(docs) => parse_documents(&docs),
    }
}

/// A fault among the first `n` entries is the fault of the whole.
pub proof fn lemma_fault_persists(items: Seq<(Tree, Tree)>, n: int)
    requires
        0 <= n <= items.len(),
        entries_of(items.take(n)) is Err,
    ensures
        entries_of(items) == entries_of(items.take(n)),
    decreases items.len() - n,
{
    if n < items.len() {
        assert(items.take(n + 1).drop_last() =~= items.take(n));
        lemma_fault_persists(items, n + 1);
    } else {
        assert(items.take(n) =~= items);
    }
}

/// The index of the first of the items that is no valid entry, or the
/// number of items if all are valid.
pub open spec fn first_fault(items: Seq<(Tree, Tree)>) -> int
    decreases items.len(),
{
    if items.len() == 0 {
        0
    } else if first_fault(items.drop_last()) < items.len() - 1 {
        first_fault(items.drop_last())
    } else if entry_of(items.last().0, items.last().1) is Err {
        items.len() - 1
    } else {
        items.len() as int
    }
}

/// A list of entries is read entirely or not at all. It is read exactly
/// where every item is a valid entry, and then holds the entry of each
/// item, in order. Else the fault is that of the first item that is not
/// valid.
pub proof fn lemma_entries_all_or_nothing(items: Seq<(Tree, Tree)>)
    ensures
        0 <= first_fault(items) <= items.len(),
        forall|k: int|
            0 <= k < first_fault(items) ==> (#[trigger] entry_of(items[k].0, items[k].1)) is Ok,
        match entries_of(items) {
            Ok(entries) => {
                &&& first_fault(items) == items.len()
                &&& entries.len() == items.len()
                &&& forall|k: int|
                    0 <= k < items.len() ==> entry_of(items[k].0, items[k].1) == Ok::<Entry, Fault>(
                        #[trigger] entries[k],
                    )
            },
            Err(fault) => {
                &&& first_fault(items) < items.len()
                &&& entry_of(items[first_fault(items)].0, items[first_fault(items)].1) == Err::<
                    Entry,
                    Fault,
                >(fault)
            },
        },
    decreases items.len(),
{
    if items.len() > 0 {
        let front = items.drop_last();
        lemma_entries_all_or_nothing(front);
        assert forall|k: int| 0 <= k < first_fault(items) implies (#[trigger] entry_of(
            items[k].0,
            items[k].1,
        )) is Ok by {
            if k < front.len() {
                assert(items[k] == front[k]);
                assert(entry_of(front[k].0, front[k].1) is Ok);
            }
        }
        match entries_of(items) {
            Ok(entries) => {
                let read = entries_of(front)->Ok_0;
                assert forall|k: int| 0 <= k < items.len() implies entry_of(items[k].0, items[k].1)
                    == Ok::<Entry, Fault>(#[trigger] entries[k]) by {
                    if k < front.len() {
                        assert(items[k] == front[k]);
                        assert(entries[k] == read[k]);
                    }
                }
            },
            Err(fault) => {
                if first_fault(front) < front.len() {
                    assert(items[first_fault(front)] == front[first_fault(front)]);
                }
            },
        }
    }
}

/// One entry without `type`, `url` or `version` fails the whole manifest.
pub proof fn lemma_missing_field_fails(items: Seq<(Tree, Tree)>, k: int, fields: Seq<(Tree, Tree)>)
    requires
        0 <= k < items.len(),
        items[k].1 == Tree::Mapping(fields),
        lookup(fields, "type"@) is None || lookup(fields, "url"@) is None || lookup(
            fields,
            "version"@,
        ) is None,
    ensures
        entries_of(items) is Err,
{
    lemma_entries_all_or_nothing(items);
    assert(entry_of(items[k].0, items[k].1) is Err);
}

} // verus!
