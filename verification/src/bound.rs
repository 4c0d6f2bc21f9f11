//! How many edges a traversal can find: no more than the manifests in the
//! table have entries, each manifest counted once.

use crate::crawler::{answered, in_bounds, lemma_push_in_bounds, resumed, started, work};
use crate::crawler::{Level, Reply, State};
use crate::graph::{lemma_sorted_keys, ordered, sorted_keys, targets, with_edge, Edges};
use crate::text::lex_less;
use crate::text::{lemma_lex_less_asymmetric, lemma_lex_less_total, lemma_lex_less_transitive};
use crate::url::raw_url_of;
use crate::walk::{lemma_answered_decreases, lemma_answered_wf, lemma_reply_listed};
use crate::walk::{lemma_resumed, lemma_run_ends, lemma_run_step};
use crate::walk::{listed, outcome, pending, reply_at, run, unvisited, Table};
use vstd::prelude::*;

verus! {

/// The number of edges that leave the sources `keys`.
pub open spec fn sum_targets(edges: Edges, keys: Seq<Seq<char>>) -> nat
    decreases keys.len(),
{
    if keys.len() == 0 {
        0
    } else {
        sum_targets(edges, keys.drop_last()) + targets(edges, keys.last()).len()
    }
}

/// The number of edges.
pub open spec fn edge_total(edges: Edges) -> nat {
    sum_targets(edges, sorted_keys(edges))
}

/// The sources can be put in ascending order, as those of every graph
/// that was built edge by edge can.
pub open spec fn keyed(edges: Edges) -> bool {
    exists|keys: Seq<Seq<char>>| ordered(keys) && keys.to_set() == edges.dom()
}

/// The place of `key` among ascending `keys`: behind the keys that come
/// before it.
pub open spec fn slot(keys: Seq<Seq<char>>, key: Seq<char>) -> int
    decreases keys.len(),
{
    if keys.len() == 0 {
        0
    } else if lex_less(keys.last(), key) {
        keys.len() as int
    } else {
        slot(keys.drop_last(), key)
    }
}

/// A key that is not among ascending keys can be put in at its place, and
/// the keys stay ascending.
proof fn lemma_slot(keys: Seq<Seq<char>>, key: Seq<char>)
    requires
        ordered(keys),
        !keys.contains(key),
    ensures
        0 <= slot(keys, key) <= keys.len(),
        forall|j: int| 0 <= j < slot(keys, key) ==> lex_less(#[trigger] keys[j], key),
        forall|j: int| slot(keys, key) <= j < keys.len() ==> lex_less(key, #[trigger] keys[j]),
        ordered(keys.insert(slot(keys, key), key)),
    decreases keys.len(),
{
    if keys.len() > 0 {
        let last = keys.last();
        let front = keys.drop_last();
        assert(keys.contains(last));
        if lex_less(last, key) {
            assert forall|j: int| 0 <= j < keys.len() implies lex_less(#[trigger] keys[j], key) by {
                if j < keys.len() - 1 {
                    assert(lex_less(keys[j], keys[keys.len() - 1]));
                    lemma_lex_less_transitive(keys[j], last, key);
                }
            }
        } else {
            assert(ordered(front)) by {
                assert forall|a: int, b: int| 0 <= a < b < front.len() implies lex_less(
                    #[trigger] front[a],
                    #[trigger] front[b],
                ) by {
                    assert(lex_less(keys[a], keys[b]));
                }
            }
            assert(!front.contains(key)) by {
                if front.contains(key) {
                    let i = choose|i: int| 0 <= i < front.len() && front[i] == key;
                    assert(keys[i] == key);
                }
            }
            lemma_slot(front, key);
            lemma_lex_less_total(key, last);
            assert forall|j: int| slot(keys, key) <= j < keys.len() implies lex_less(
                key,
                #[trigger] keys[j],
            ) by {
                if j < front.len() {
                    assert(lex_less(key, front[j]));
                }
            }
            assert forall|j: int| 0 <= j < slot(keys, key) implies lex_less(
                #[trigger] keys[j],
                key,
            ) by {
                assert(lex_less(front[j], key));
            }
        }
    }
    let at = slot(keys, key);
    let grown = keys.insert(at, key);
    assert forall|a: int, b: int| 0 <= a < b < grown.len() implies lex_less(
        #[trigger] grown[a],
        #[trigger] grown[b],
    ) by {
        if b == at {
            assert(grown[a] == keys[a]);
        } else if a == at {
            assert(grown[b] == keys[b - 1]);
        } else {
            let a0 = if a < at { a } else { a - 1 };
            let b0 = if b < at { b } else { b - 1 };
            assert(grown[a] == keys[a0] && grown[b] == keys[b0]);
            assert(lex_less(keys[a0], keys[b0]));
        }
    }
}

/// Where two graphs have the same edges from each of `keys`, those are as
/// many.
proof fn lemma_sum_same(one: Edges, other: Edges, keys: Seq<Seq<char>>)
    requires
        forall|i: int| 0 <= i < keys.len() ==> targets(one, #[trigger] keys[i]) == targets(
            other,
            keys[i],
        ),
    ensures
        sum_targets(one, keys) == sum_targets(other, keys),
    decreases keys.len(),
{
    if keys.len() > 0 {
        let front = keys.drop_last();
        assert forall|i: int| 0 <= i < front.len() implies targets(one, #[trigger] front[i])
            == targets(other, front[i]) by {
            assert(front[i] == keys[i]);
        }
        lemma_sum_same(one, other, front);
        assert(keys.last() == keys[keys.len() - 1]);
    }
}

/// One more source brings its edges to the sum.
proof fn lemma_sum_insert(edges: Edges, keys: Seq<Seq<char>>, at: int, key: Seq<char>)
    requires
        0 <= at <= keys.len(),
    ensures
        sum_targets(edges, keys.insert(at, key)) == sum_targets(edges, keys) + targets(
            edges,
            key,
        ).len(),
    decreases keys.len(),
{
    let grown = keys.insert(at, key);
    if at == keys.len() {
        assert(grown.drop_last() =~= keys);
        assert(grown.last() == key);
    } else {
        assert(grown.drop_last() =~= keys.drop_last().insert(at, key));
        assert(grown.last() == keys.last());
        lemma_sum_insert(edges, keys.drop_last(), at, key);
    }
}

/// Where one of the distinct sources `keys` has one edge more in `other`
/// than in `one`, and the rest have the same, the sum is one more.
proof fn lemma_sum_one_more(one: Edges, other: Edges, keys: Seq<Seq<char>>, from: Seq<char>)
    requires
        ordered(keys),
        keys.contains(from),
        targets(other, from).len() == targets(one, from).len() + 1,
        forall|key: Seq<char>| key != from ==> #[trigger] targets(other, key) == targets(one, key),
    ensures
        sum_targets(other, keys) == sum_targets(one, keys) + 1,
    decreases keys.len(),
{
    let front = keys.drop_last();
    let last = keys.last();
    assert(ordered(front)) by {
        assert forall|a: int, b: int| 0 <= a < b < front.len() implies lex_less(
            #[trigger] front[a],
            #[trigger] front[b],
        ) by {
            assert(lex_less(keys[a], keys[b]));
        }
    }
    let i = choose|i: int| 0 <= i < keys.len() && keys[i] == from;
    if last == from {
        assert forall|j: int| 0 <= j < front.len() implies targets(one, #[trigger] front[j])
            == targets(other, front[j]) by {
            assert(front[j] == keys[j]);
            assert(lex_less(keys[j], keys[keys.len() - 1]));
            lemma_lex_less_asymmetric(from, from);
        }
        lemma_sum_same(one, other, front);
    } else {
        assert(front[i] == from);
        lemma_sum_one_more(one, other, front, from);
    }
}

/// The graph without edges has its sources in order, and no edge.
pub proof fn lemma_edge_total_empty()
    ensures
        keyed(Map::<Seq<char>, Seq<Seq<char>>>::empty()),
        edge_total(Map::<Seq<char>, Seq<Seq<char>>>::empty()) == 0,
{
    let none = Seq::<Seq<char>>::empty();
    let edges = Map::<Seq<char>, Seq<Seq<char>>>::empty();
    assert(none.to_set() =~= edges.dom());
    assert(ordered(none));
    lemma_sorted_keys(edges, none);
}

/// Each edge that is added counts once, also where an equal edge is there
/// already.
pub proof fn lemma_edge_total_with_edge(edges: Edges, from: Seq<char>, to: Seq<char>)
    requires
        keyed(edges),
    ensures
        keyed(with_edge(edges, from, to)),
        edge_total(with_edge(edges, from, to)) == edge_total(edges) + 1,
{
    let grown = with_edge(edges, from, to);
    let keys = sorted_keys(edges);
    assert(ordered(keys) && keys.to_set() == edges.dom());
    if edges.contains_key(from) {
        assert(grown.dom() =~= edges.dom());
        lemma_sorted_keys(grown, keys);
        assert(keys.to_set().contains(from));
        assert(keys.contains(from));
        lemma_sum_one_more(edges, grown, keys, from);
    } else {
        assert(!keys.contains(from)) by {
            if keys.contains(from) {
                assert(keys.to_set().contains(from));
            }
        }
        lemma_slot(keys, from);
        let at = slot(keys, from);
        let more = keys.insert(at, from);
        assert(more.to_set() =~= grown.dom()) by {
            assert forall|key: Seq<char>| more.to_set().contains(key) <==> grown.dom().contains(
                key,
            ) by {
                if more.contains(key) {
                    let i = choose|i: int| 0 <= i < more.len() && more[i] == key;
                    if i < at {
                        assert(keys[i] == key);
                        assert(keys.contains(key));
                        assert(keys.to_set().contains(key));
                    } else if i > at {
                        assert(keys[i - 1] == key);
                        assert(keys.contains(key));
                        assert(keys.to_set().contains(key));
                    }
                }
                if grown.dom().contains(key) {
                    if key == from {
                        assert(more[at] == key);
                    } else {
                        assert(keys.to_set().contains(key));
                        assert(keys.contains(key));
                        let i = choose|i: int| 0 <= i < keys.len() && keys[i] == key;
                        if i < at {
                            assert(more[i] == key);
                        } else {
                            assert(more[i + 1] == key);
                        }
                    }
                }
            }
        }
        lemma_sorted_keys(grown, more);
        lemma_sum_insert(grown, keys, at, from);
        assert forall|i: int| 0 <= i < keys.len() implies targets(edges, #[trigger] keys[i])
            == targets(grown, keys[i]) by {
            assert(keys.contains(keys[i]));
        }
        lemma_sum_same(edges, grown, keys);
        assert(targets(grown, from) =~= seq![to]);
    }
}

/// The number of entries on the stack that are still to be taken.
pub open spec fn remaining_all(stack: Seq<Level>) -> nat
    decreases stack.len(),
{
    if stack.len() == 0 {
        0
    } else {
        remaining_all(stack.drop_last()) + stack.last().remaining()
    }
}

/// The number of entries that a reply brings.
pub open spec fn entries_in(reply: Reply) -> nat {
    match reply {
        Reply::Manifest(Ok(entries)) => entries.len(),
        _ => 0,
    }
}

/// Whether the table has a pair with the address `raw`.
pub open spec fn lists(table: Table, raw: Seq<char>) -> bool {
    exists|i: int| 0 <= i < table.len() && (#[trigger] table[i]).0 == raw
}

/// The number of entries in the manifests that the table holds at
/// addresses not yet visited. An address counts once: only the first pair
/// with it says what it yields.
pub open spec fn credit(table: Table, visited: Set<Seq<char>>) -> nat
    decreases table.len(),
{
    if table.len() == 0 {
        0
    } else {
        let front = table.drop_last();
        let raw = table.last().0;
        if visited.contains(raw) || lists(front, raw) {
            credit(front, visited)
        } else {
            credit(front, visited) + entries_in(table.last().1)
        }
    }
}

/// The table lists an address exactly where it has a pair with it.
proof fn lemma_lists(table: Table, raw: Seq<char>)
    ensures
        lists(table, raw) == listed(table).contains(raw),
{
    let urls = table.map_values(|pair: (Seq<char>, Reply)| pair.0);
    if lists(table, raw) {
        let i = choose|i: int| 0 <= i < table.len() && (#[trigger] table[i]).0 == raw;
        assert(urls[i] == raw);
        assert(urls.contains(raw));
    }
    if urls.contains(raw) {
        let i = choose|i: int| 0 <= i < urls.len() && urls[i] == raw;
        assert(table[i].0 == raw);
    }
}

/// What an address yields, read from the end of the table: the last pair
/// says it only where no earlier pair has the address.
proof fn lemma_reply_at_last(table: Table, raw: Seq<char>)
    requires
        table.len() > 0,
    ensures
        reply_at(table, raw) == if lists(table.drop_last(), raw) {
            reply_at(table.drop_last(), raw)
        } else if table.last().0 == raw {
            table.last().1
        } else {
            Reply::Absent
        },
    decreases table.len(),
{
    let front = table.drop_last();
    if table.len() == 1 {
        assert(table.skip(1).len() == 0);
        assert(table.last() == table[0]);
    } else {
        let tail = table.skip(1);
        assert(front[0] == table[0]);
        if table[0].0 == raw {
            assert(lists(front, raw));
        } else {
            lemma_reply_at_last(tail, raw);
            assert(tail.drop_last() =~= front.skip(1));
            assert(tail.last() == table.last());
            if lists(front, raw) {
                let i = choose|i: int| 0 <= i < front.len() && (#[trigger] front[i]).0 == raw;
                assert(front.skip(1)[i - 1].0 == raw);
            }
            if lists(front.skip(1), raw) {
                let i = choose|i: int|
                    0 <= i < front.skip(1).len() && (#[trigger] front.skip(1)[i]).0 == raw;
                assert(front[i + 1].0 == raw);
            }
        }
    }
}

/// A visit uses up what the table holds at the address.
proof fn lemma_credit_spent(table: Table, visited: Set<Seq<char>>, raw: Seq<char>)
    requires
        !visited.contains(raw),
    ensures
        credit(table, visited.insert(raw)) + entries_in(reply_at(table, raw)) == credit(
            table,
            visited,
        ),
    decreases table.len(),
{
    if table.len() > 0 {
        let front = table.drop_last();
        lemma_credit_spent(front, visited, raw);
        lemma_reply_at_last(table, raw);
        if !lists(front, raw) {
            lemma_lists(front, raw);
            if !(reply_at(front, raw) is Absent) {
                lemma_reply_listed(front, raw);
            }
        }
    }
}

/// Every entry that is taken becomes one edge: work without a fetch keeps
/// the number of edges and of entries still to be taken, taken together.
proof fn lemma_resumed_total(s: State)
    requires
        keyed(s.edges),
        in_bounds(s.stack),
    ensures
        keyed(resumed(s).edges),
        edge_total(resumed(s).edges) + remaining_all(resumed(s).stack) == edge_total(s.edges)
            + remaining_all(s.stack),
    decreases work(s.stack),
{
    if s.stack.len() > 0 {
        let top = s.stack.last();
        let below = s.stack.drop_last();
        if top.next >= top.entries.len() {
            lemma_resumed_total(State { stack: below, ..s });
        } else {
            let entry = top.entries[top.next as int];
            let moved = Level { next: top.next + 1, ..top };
            let taken = State {
                edges: with_edge(s.edges, top.display, entry.url),
                stack: below.push(moved),
                ..s
            };
            assert(taken.stack.drop_last() =~= below);
            assert(taken.stack.last() == moved);
            lemma_edge_total_with_edge(s.edges, top.display, entry.url);
            lemma_push_in_bounds(below, moved);
            if s.visited.contains(raw_url_of(entry.url, entry.version)) {
                lemma_resumed_total(taken);
            }
        }
    }
}

/// What a state holds and can still get: the edges drawn, the entries
/// still to be taken, and the entries of the manifests not yet visited.
pub open spec fn reach(s: State, table: Table) -> nat {
    edge_total(s.edges) + remaining_all(s.stack) + credit(table, s.visited)
}

/// No reply lets a state reach more than it could before.
proof fn lemma_answered_reach(s: State, table: Table)
    requires
        s.wf(),
        s.status is Waiting,
        keyed(s.edges),
    ensures
        keyed(answered(s, reply_at(table, s.status->raw)).edges),
        reach(answered(s, reply_at(table, s.status->raw)), table) <= reach(s, table),
{
    let raw = s.status->raw;
    let display = s.status->display;
    let reply = reply_at(table, raw);
    lemma_credit_spent(table, s.visited, raw);
    match reply {
        Reply::Absent => {
            lemma_resumed_total(s);
            lemma_resumed(s);
        },
        Reply::Manifest(Ok(entries)) => {
            let level = Level { display, entries, next: 0 };
            let pushed = State { visited: s.visited.insert(raw), stack: s.stack.push(level), ..s };
            assert(pushed.stack.drop_last() =~= s.stack);
            assert(pushed.stack.last() == level);
            lemma_push_in_bounds(s.stack, level);
            lemma_resumed_total(pushed);
            lemma_resumed(pushed);
        },
        _ => {},
    }
}

/// A run draws no more edges than its first state can reach.
proof fn lemma_run_reach(s: State, table: Table)
    requires
        s.wf(),
        keyed(s.edges),
    ensures
        keyed(run(s, table).edges),
        edge_total(run(s, table).edges) <= reach(s, table),
    decreases unvisited(table, s.visited), pending(s),
{
    if s.status is Waiting {
        let next = answered(s, reply_at(table, s.status->raw));
        lemma_answered_decreases(s, table);
        lemma_answered_wf(s, reply_at(table, s.status->raw));
        lemma_run_step(s, table);
        lemma_answered_reach(s, table);
        lemma_run_reach(next, table);
    }
}

/// A traversal finds no more edges than the manifests in the table have
/// entries, each address counted once, however the manifests refer to each
/// other.
pub proof fn lemma_edges_are_bounded(display: Seq<char>, raw: Seq<char>, table: Table)
    ensures
        outcome(display, raw, table) matches Ok(edges) ==> edge_total(edges) <= credit(
            table,
            Set::empty(),
        ),
{
    let start = started(display, raw);
    lemma_edge_total_empty();
    assert(remaining_all(start.stack) == 0);
    assert(start.wf());
    lemma_run_reach(start, table);
    lemma_run_ends(start, table);
}

} // verus!
