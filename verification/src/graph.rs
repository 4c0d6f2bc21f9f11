//! The dependency graph: for each repository the repositories that it
//! depends on, in the order in which they were found, and the text that
//! draws it.

use crate::text::{lemma_lex_less_asymmetric, lemma_lex_less_transitive};
use crate::text::{lex_less, position, strip_prefix, views, without_prefix, Position};
use vstd::prelude::*;

verus! {

/// The edges of a graph: each source with the targets of its edges, in the
/// order in which the edges were added. A target may occur more than once.
pub type Edges = Map<Seq<char>, Seq<Seq<char>>>;

/// The keys stand in strictly ascending lexicographic order.
pub open spec fn ordered(keys: Seq<Seq<char>>) -> bool {
    forall|i: int, j: int|
        0 <= i < j < keys.len() ==> lex_less(#[trigger] keys[i], #[trigger] keys[j])
}

/// The sources of the edges, in ascending order.
pub open spec fn sorted_keys(edges: Edges) -> Seq<Seq<char>> {
    choose|keys: Seq<Seq<char>>| ordered(keys) && keys.to_set() == edges.dom()
}

/// The targets of the edges that leave `from`: none if `from` is no source.
pub open spec fn targets(edges: Edges, from: Seq<char>) -> Seq<Seq<char>> {
    if edges.contains_key(from) {
        edges[from]
    } else {
        Seq::empty()
    }
}

/// The edges with one more edge from `from` to `to`, after those that
/// already leave `from`.
pub open spec fn with_edge(edges: Edges, from: Seq<char>, to: Seq<char>) -> Edges {
    edges.insert(from, targets(edges, from).push(to))
}

/// How often `to` occurs among `tos`.
pub open spec fn occurrences(tos: Seq<Seq<char>>, to: Seq<char>) -> nat
    decreases tos.len(),
{
    if tos.len() == 0 {
        0
    } else if tos.last() == to {
        occurrences(tos.drop_last(), to) + 1
    } else {
        occurrences(tos.drop_last(), to)
    }
}

/// The number of edges from `from` to `to`.
pub open spec fn edges_between(edges: Edges, from: Seq<char>, to: Seq<char>) -> nat {
    occurrences(targets(edges, from), to)
}

/// A new edge comes after the edges that leave its source, also where an
/// equal edge is there already, and the edges of every other source stay.
pub proof fn lemma_with_edge(edges: Edges, from: Seq<char>, to: Seq<char>)
    ensures
        targets(with_edge(edges, from, to), from) == targets(edges, from).push(to),
        forall|key: Seq<char>|
            key != from ==> #[trigger] targets(with_edge(edges, from, to), key) == targets(
                edges,
                key,
            ),
        edges_between(with_edge(edges, from, to), from, to) == edges_between(edges, from, to) + 1,
        forall|a: Seq<char>, b: Seq<char>|
            a != from || b != to ==> #[trigger] edges_between(with_edge(edges, from, to), a, b)
                == edges_between(edges, a, b),
{
    let tos = targets(edges, from);
    assert(tos.push(to).drop_last() =~= tos);
    assert forall|a: Seq<char>, b: Seq<char>| a != from || b != to implies #[trigger] edges_between(
        with_edge(edges, from, to),
        a,
        b,
    ) == edges_between(edges, a, b) by {
        if a == from {
            assert(tos.push(to).drop_last() =~= tos);
        }
    }
}

/// The prefix that the drawing leaves out of an address.
pub open spec fn host_prefix() -> Seq<char> {
    "https://github.com/"@
}

/// An address as the drawing shows it: without the host prefix
/// `https://github.com/` where the address starts with it, and unchanged
/// where it does not.
pub open spec fn short_name(url: Seq<char>) -> Seq<char> {
    without_prefix(url, host_prefix())
}

/// The line that draws one edge.
pub open spec fn edge_line(from: Seq<char>, to: Seq<char>) -> Seq<char> {
    "    "@ + short_name(from) + "-->"@ + short_name(to) + ";\n"@
}

/// The lines that draw the edges from `from` to each of `tos`, in order.
pub open spec fn edge_lines(from: Seq<char>, tos: Seq<Seq<char>>) -> Seq<char>
    decreases tos.len(),
{
    if tos.len() == 0 {
        Seq::empty()
    } else {
        edge_lines(from, tos.drop_last()) + edge_line(from, tos.last())
    }
}

/// The lines that draw the edges leaving each of `keys`, in order.
pub open spec fn block_lines(edges: Edges, keys: Seq<Seq<char>>) -> Seq<char>
    decreases keys.len(),
{
    if keys.len() == 0 {
        Seq::empty()
    } else {
        block_lines(edges, keys.drop_last()) + edge_lines(keys.last(), targets(edges, keys.last()))
    }
}

/// The drawing of a graph: the header line, then one line for each edge,
/// the sources in ascending order and the edges of one source in the order
/// in which they were added.
pub open spec fn rendering(edges: Edges) -> Seq<char> {
    "graph LR;\n"@ + block_lines(edges, sorted_keys(edges))
}

/// Two ascending sequences with the same members are the same sequence.
pub proof fn lemma_ordered_unique(a: Seq<Seq<char>>, b: Seq<Seq<char>>)
    requires
        ordered(a),
        ordered(b),
        a.to_set() == b.to_set(),
    ensures
        a == b,
    decreases a.len(),
{
    if a.len() == 0 {
        if b.len() > 0 {
            assert(b.contains(b[0]));
            assert(b.to_set().contains(b[0]));
            assert(a.contains(b[0]));
        }
        assert(a =~= b);
    } else {
        assert(a.contains(a[0]));
        assert(a.to_set().contains(a[0]));
        assert(b.contains(a[0]));
        let j = choose|j: int| 0 <= j < b.len() && b[j] == a[0];
        assert(b.contains(b[0]));
        assert(b.to_set().contains(b[0]));
        assert(a.contains(b[0]));
        let k = choose|k: int| 0 <= k < a.len() && a[k] == b[0];
        lemma_lex_less_asymmetric(a[0], b[0]);
        assert(a[0] == b[0]);
        let ta = a.skip(1);
        let tb = b.skip(1);
        assert forall|x: Seq<char>| ta.contains(x) implies tb.contains(x) by {
            let i = choose|i: int| 0 <= i < ta.len() && ta[i] == x;
            assert(a[i + 1] == x);
            lemma_lex_less_asymmetric(a[0], x);
            assert(a.contains(x));
            assert(a.to_set().contains(x));
            assert(b.contains(x));
            let m = choose|m: int| 0 <= m < b.len() && b[m] == x;
            assert(tb[m - 1] == x);
        }
        assert forall|x: Seq<char>| tb.contains(x) implies ta.contains(x) by {
            let i = choose|i: int| 0 <= i < tb.len() && tb[i] == x;
            assert(b[i + 1] == x);
            lemma_lex_less_asymmetric(b[0], x);
            assert(b.contains(x));
            assert(b.to_set().contains(x));
            assert(a.contains(x));
            let m = choose|m: int| 0 <= m < a.len() && a[m] == x;
            assert(ta[m - 1] == x);
        }
        assert(ta.to_set() =~= tb.to_set());
        assert(ordered(ta)) by {
            assert forall|i: int, j: int| 0 <= i < j < ta.len() implies lex_less(
                #[trigger] ta[i],
                #[trigger] ta[j],
            ) by {
                assert(lex_less(a[i + 1], a[j + 1]));
            }
        }
        assert(ordered(tb)) by {
            assert forall|i: int, j: int| 0 <= i < j < tb.len() implies lex_less(
                #[trigger] tb[i],
                #[trigger] tb[j],
            ) by {
                assert(lex_less(b[i + 1], b[j + 1]));
            }
        }
        lemma_ordered_unique(ta, tb);
        assert(a =~= seq![a[0]] + ta);
        assert(b =~= seq![b[0]] + tb);
    }
}

/// The sources of an ascending sequence of keys are found again by
/// [`sorted_keys`].
pub proof fn lemma_sorted_keys(edges: Edges, keys: Seq<Seq<char>>)
    requires
        ordered(keys),
        keys.to_set() == edges.dom(),
    ensures
        sorted_keys(edges) == keys,
{
    lemma_ordered_unique(sorted_keys(edges), keys);
}

/// A dependency graph under construction. Edges are added and never
/// removed.
#[derive(Debug)]
pub struct Graph {
    nodes: Vec<(String, Vec<String>)>,
}

impl View for Graph {
    type V = Edges;

    closed spec fn view(&self) -> Edges {
        Map::new(
            |key: Seq<char>| self.keys().contains(key),
            |key: Seq<char>| views(self.nodes[self.keys().index_of(key)].1@),
        )
    }
}

impl Graph {
    /// The sources, in the order in which the graph keeps them.
    pub closed spec fn keys(&self) -> Seq<Seq<char>> {
        Seq::new(self.nodes.len() as nat, |i: int| self.nodes[i].0@)
    }

    /// The graph keeps its sources in ascending order, each with at least
    /// one edge.
    pub closed spec fn wf(&self) -> bool {
        &&& ordered(self.keys())
        &&& forall|i: int| 0 <= i < self.nodes.len() ==> (#[trigger] self.nodes[i]).1.len() > 0
    }

    /// In a well-formed graph each source is found at its own place.
    proof fn lemma_place(&self, i: int)
        requires
            ordered(self.keys()),
            0 <= i < self.nodes.len(),
        ensures
            self.keys().contains(self.nodes[i].0@),
            self.keys().index_of(self.nodes[i].0@) == i,
            self@.contains_key(self.nodes[i].0@),
            self@[self.nodes[i].0@] == views(self.nodes[i].1@),
    {
        let keys = self.keys();
        let key = self.nodes[i].0@;
        assert(keys[i] == key);
        let j = keys.index_of(key);
        assert(0 <= j < keys.len() && keys[j] == key);
        lemma_lex_less_asymmetric(key, key);
        if j < i {
            assert(lex_less(keys[j], keys[i]));
        } else if i < j {
            assert(lex_less(keys[i], keys[j]));
        }
    }

    /// What a well-formed graph holds: finitely many sources, in ascending
    /// order, each with at least one edge.
    pub proof fn lemma_wf(&self)
        requires
            self.wf(),
        ensures
            self@.dom().finite(),
            ordered(self.keys()),
            self.keys().to_set() == self@.dom(),
            sorted_keys(self@) == self.keys(),
            forall|key: Seq<char>| self@.contains_key(key) ==> (#[trigger] self@[key]).len() > 0,
    {
        let keys = self.keys();
        assert(keys.to_set() =~= self@.dom());
        vstd::seq_lib::seq_to_set_is_finite(keys);
        lemma_sorted_keys(self@, keys);
        assert forall|key: Seq<char>| self@.contains_key(key) implies (#[trigger] self@[key]).len()
            > 0 by {
            let i = keys.index_of(key);
            assert(0 <= i < keys.len() && keys[i] == key);
            assert(self.nodes[i].1.len() > 0);
        }
    }

    /// A graph without edges.
    pub fn new() -> (graph: Graph)
        ensures
            graph.wf(),
            graph@ == Map::<Seq<char>, Seq<Seq<char>>>::empty(),
    {
        let graph = Graph { nodes: Vec::new() };
        assert(graph@ =~= Map::<Seq<char>, Seq<Seq<char>>>::empty());
        graph
    }

    /// Adds an edge from `from` to `to`, after the edges that already leave
    /// `from`. An edge that is already there is added once more.
    pub fn add_edge(&mut self, from: &str, to: &str)
        requires
            old(self).wf(),
        ensures
            final(self).wf(),
            final(self)@ == with_edge(old(self)@, from@, to@),
    {
        let mut i: usize = 0;
        while i < self.nodes.len()
            invariant
                i <= self.nodes.len(),
                *self == *old(self),
                self.wf(),
                forall|j: int| 0 <= j < i ==> lex_less(#[trigger] self.keys()[j], from@),
            ensures
                i < self.nodes.len() ==> lex_less(from@, self.keys()[i as int]),
            decreases self.nodes.len() - i,
        {
            match position(from, self.nodes[i].0.as_str()) {
                Position::Same => {
                    self.nodes[i].1.push(to.to_owned());
                    proof {
                        assert(self.keys() =~= old(self).keys());
                        old(self).lemma_place(i as int);
                        self.lemma_place(i as int);
                        assert(views(self.nodes[i as int].1@) =~= views(
                            old(self).nodes[i as int].1@,
                        ).push(to@));
                        assert forall|key: Seq<char>| self@.contains_key(key) implies self@[key]
                            == with_edge(old(self)@, from@, to@)[key] by {
                            let j = self.keys().index_of(key);
                            assert(0 <= j < self.keys().len() && self.keys()[j] == key);
                            old(self).lemma_place(j);
                            self.lemma_place(j);
                        }
                        assert(self@ =~= with_edge(old(self)@, from@, to@));
                    }
                    return;
                },
                Position::Before => {
                    break;
                },
                Position::After => {
                    i += 1;
                },
            }
        }
        let mut tos: Vec<String> = Vec::new();
        tos.push(to.to_owned());
        self.nodes.insert(i, (from.to_owned(), tos));
        proof {
            let before = old(self).keys();
            let after = self.keys();
            assert(after =~= before.insert(i as int, from@));
            assert forall|a: int, b: int| 0 <= a < b < after.len() implies lex_less(
                #[trigger] after[a],
                #[trigger] after[b],
            ) by {
                if b == i {
                    assert(after[a] == before[a]);
                } else if a == i {
                    assert(after[b] == before[b - 1]);
                    if b - 1 > i {
                        assert(lex_less(before[i as int], before[b - 1]));
                        lemma_lex_less_transitive(from@, before[i as int], before[b - 1]);
                    }
                } else {
                    let a0 = if a < i { a } else { a - 1 };
                    let b0 = if b < i { b } else { b - 1 };
                    assert(after[a] == before[a0] && after[b] == before[b0]);
                }
            }
            lemma_lex_less_asymmetric(from@, from@);
            assert(!before.contains(from@)) by {
                if before.contains(from@) {
                    let j = choose|j: int| 0 <= j < before.len() && before[j] == from@;
                    if j < i {
                        assert(lex_less(before[j], from@));
                    } else if j == i {
                        assert(lex_less(from@, before[i as int]));
                    } else {
                        assert(lex_less(before[i as int], before[j]));
                        lemma_lex_less_transitive(from@, before[i as int], before[j]);
                    }
                }
            }
            assert(views(tos@) =~= Seq::<Seq<char>>::empty().push(to@));
            self.lemma_place(i as int);
            assert forall|key: Seq<char>| self@.contains_key(key) implies self@[key] == with_edge(
                old(self)@,
                from@,
                to@,
            )[key] by {
                let j = after.index_of(key);
                assert(0 <= j < after.len() && after[j] == key);
                self.lemma_place(j);
                if j != i {
                    let j0 = if j < i { j } else { j - 1 };
                    assert(before[j0] == key);
                    old(self).lemma_place(j0);
                }
            }
            assert forall|key: Seq<char>| old(self)@.contains_key(key) implies self@.contains_key(
                key,
            ) by {
                let j = before.index_of(key);
                assert(0 <= j < before.len() && before[j] == key);
                let j1 = if j < i { j } else { j + 1 };
                assert(after[j1] == key);
            }
            assert forall|key: Seq<char>| self@.contains_key(key) implies key == from@ || old(
                self,
            )@.contains_key(key) by {
                let j = after.index_of(key);
                assert(0 <= j < after.len() && after[j] == key);
                if j != i {
                    let j0 = if j < i { j } else { j - 1 };
                    assert(before[j0] == key);
                }
            }
            assert(self@ =~= with_edge(old(self)@, from@, to@));
        }
    }

    /// Draws the graph.
    pub fn render(&self) -> (text: String)
        requires
            self.wf(),
        ensures
            text@ == rendering(self@),
    {
        let ghost keys = self.keys();
        let mut out = "graph LR;\n".to_owned();
        let mut i: usize = 0;
        assert(keys.take(0) =~= Seq::<Seq<char>>::empty());
        while i < self.nodes.len()
            invariant
                i <= self.nodes.len(),
                self.wf(),
                keys == self.keys(),
                out@ == "graph LR;\n"@ + block_lines(self@, keys.take(i as int)),
            decreases self.nodes.len() - i,
        {
            let from = strip_prefix(self.nodes[i].0.as_str(), "https://github.com/");
            let tos = &self.nodes[i].1;
            let ghost key = self.nodes[i as int].0@;
            let ghost all = views(tos@);
            let ghost base = out@;
            let mut j: usize = 0;
            assert(all.take(0) =~= Seq::<Seq<char>>::empty());
            while j < tos.len()
                invariant
                    j <= tos.len(),
                    all == views(tos@),
                    from@ == short_name(key),
                    out@ == base + edge_lines(key, all.take(j as int)),
                decreases tos.len() - j,
            {
                let to = strip_prefix(tos[j].as_str(), "https://github.com/");
                assert(all.take(j + 1).drop_last() =~= all.take(j as int));
                assert(all.take(j + 1).last() == tos[j as int]@);
                let ghost line = edge_line(key, tos[j as int]@);
                let ghost so_far = out@;
                out.append("    ");
                out.append(from.as_str());
                out.append("-->");
                out.append(to.as_str());
                out.append(";\n");
                assert(out@ =~= so_far + line);
                assert(out@ =~= base + (edge_lines(key, all.take(j as int)) + line));
                j += 1;
            }
            proof {
                assert(all.take(j as int) =~= all);
                self.lemma_place(i as int);
                assert(keys.take(i + 1).drop_last() =~= keys.take(i as int));
                assert(keys.take(i + 1).last() == key);
                assert(out@ =~= "graph LR;\n"@ + (block_lines(self@, keys.take(i as int))
                    + edge_lines(key, all)));
            }
            i += 1;
        }
        proof {
            assert(keys.take(i as int) =~= keys);
            self.lemma_wf();
        }
        out
    }

    /// The targets of the edges that leave `from`, in the order in which
    /// the edges were added.
    pub fn edges_from(&self, from: &str) -> (tos: Vec<String>)
        requires
            self.wf(),
        ensures
            views(tos@) == targets(self@, from@),
    {
        let mut i: usize = 0;
        while i < self.nodes.len()
            invariant
                i <= self.nodes.len(),
                self.wf(),
                forall|j: int| 0 <= j < i ==> #[trigger] self.keys()[j] != from@,
            decreases self.nodes.len() - i,
        {
            if crate::text::equal(self.nodes[i].0.as_str(), from) {
                let found = &self.nodes[i].1;
                let mut tos: Vec<String> = Vec::new();
                let mut j: usize = 0;
                while j < found.len()
                    invariant
                        j <= found.len(),
                        tos.len() == j,
                        forall|k: int| 0 <= k < j ==> tos[k]@ == found[k]@,
                    decreases found.len() - j,
                {
                    tos.push(found[j].clone());
                    j += 1;
                }
                proof {
                    self.lemma_place(i as int);
                    assert(views(tos@) =~= views(found@));
                }
                return tos;
            }
            i += 1;
        }
        proof {
            if self.keys().contains(from@) {
                let j = choose|j: int| 0 <= j < self.keys().len() && self.keys()[j] == from@;
                assert(self.keys()[j] != from@);
            }
            assert(views(Seq::<String>::empty()) =~= Seq::<Seq<char>>::empty());
        }
        Vec::new()
    }

    /// The sources of the graph, in ascending order.
    pub fn sources(&self) -> (keys: Vec<String>)
        requires
            self.wf(),
        ensures
            views(keys@) == sorted_keys(self@),
    {
        let mut keys: Vec<String> = Vec::new();
        let mut i: usize = 0;
        while i < self.nodes.len()
            invariant
                i <= self.nodes.len(),
                keys.len() == i,
                forall|k: int| 0 <= k < i ==> keys[k]@ == self.nodes[k].0@,
            decreases self.nodes.len() - i,
        {
            keys.push(self.nodes[i].0.clone());
            i += 1;
        }
        proof {
            assert(views(keys@) =~= self.keys());
            self.lemma_wf();
        }
        keys
    }
}

} // verus!
