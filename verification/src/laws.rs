//! What holds of every traversal.

use crate::crawler::{answered, in_bounds, lemma_push_in_bounds, resumed};
use crate::crawler::{Failure, Level, Reply, State, Status};
use crate::graph::{edges_between, lemma_with_edge, occurrences};
use crate::graph::{rendering, targets, with_edge, Edges};
use crate::manifest::{Entry, Fault};
use crate::url::raw_url_of;
use crate::walk::{lemma_answered_wf, lemma_resumed, lemma_run_step, reply_at, run, Table};
use vstd::prelude::*;

verus! {

/// The state after the replies, taken one after the other.
pub open spec fn after(s: State, replies: Seq<Reply>) -> State
    decreases replies.len(),
{
    if replies.len() == 0 {
        s
    } else {
        answered(after(s, replies.drop_last()), replies.last())
    }
}

/// Each of the replies answers a pending request, and is what `world` gives
/// at the address asked for.
pub open spec fn follows(s: State, replies: Seq<Reply>, world: spec_fn(Seq<char>) -> Reply) -> bool {
    forall|i: int|
        0 <= i < replies.len() ==> {
            let at = #[trigger] after(s, replies.take(i));
            at.status is Waiting && replies[i] == world(at.status->raw)
        }
}

/// Replies keep a state well-formed, and no address leaves the visited
/// ones.
pub proof fn lemma_after_wf(s: State, replies: Seq<Reply>)
    requires
        s.wf(),
    ensures
        after(s, replies).wf(),
        s.visited.subset_of(after(s, replies).visited),
    decreases replies.len(),
{
    if replies.len() > 0 {
        let before = after(s, replies.drop_last());
        lemma_after_wf(s, replies.drop_last());
        lemma_answered_wf(before, replies.last());
        lemma_answered_visits(before, replies.last());
    }
}

/// A reply visits the address asked for if a text was found there, and
/// nothing else.
pub proof fn lemma_answered_visits(s: State, reply: Reply)
    requires
        s.wf(),
    ensures
        answered(s, reply).visited == if s.status is Waiting && reply is Manifest {
            s.visited.insert(s.status->raw)
        } else {
            s.visited
        },
{
    if let Status::Waiting { display, raw } = s.status {
        match reply {
            Reply::Absent => {
                lemma_resumed(s);
            },
            Reply::Manifest(Ok(entries)) => {
                let pushed = State {
                    visited: s.visited.insert(raw),
                    stack: s.stack.push(Level { display, entries, next: 0 }),
                    ..s
                };
                lemma_push_in_bounds(s.stack, pushed.stack.last());
                lemma_resumed(pushed);
            },
            _ => {},
        }
    }
}

/// The state after some replies and then some more.
pub proof fn lemma_after_split(s: State, replies: Seq<Reply>, n: int)
    requires
        0 <= n <= replies.len(),
    ensures
        after(s, replies) == after(after(s, replies.take(n)), replies.skip(n)),
    decreases replies.len() - n,
{
    let rest = replies.skip(n);
    if n == replies.len() {
        assert(replies.take(n) =~= replies);
    } else {
        assert(replies.drop_last().take(n) =~= replies.take(n));
        assert(replies.drop_last().skip(n) =~= rest.drop_last());
        assert(rest.last() == replies.last());
        lemma_after_split(s, replies.drop_last(), n);
    }
}

/// An address at which a manifest was found is never asked for again: of
/// two requests, the first answered with a text, the second is for another
/// address.
pub proof fn lemma_found_at_most_once(s: State, replies: Seq<Reply>, i: int, j: int)
    requires
        s.wf(),
        0 <= i < j <= replies.len(),
        after(s, replies.take(i)).status is Waiting,
        replies[i] is Manifest,
        after(s, replies.take(j)).status is Waiting,
    ensures
        after(s, replies.take(i)).status->raw != after(s, replies.take(j)).status->raw,
{
    let first = after(s, replies.take(i));
    let then = after(s, replies.take(i + 1));
    let second = after(s, replies.take(j));
    lemma_after_wf(s, replies.take(i));
    assert(replies.take(i + 1).drop_last() =~= replies.take(i));
    assert(replies.take(i + 1).last() == replies[i]);
    lemma_answered_visits(first, replies[i]);
    assert(then.visited.contains(first.status->raw));
    lemma_after_wf(s, replies.take(i + 1));
    lemma_after_split(s, replies.take(j), i + 1);
    assert(replies.take(j).take(i + 1) =~= replies.take(i + 1));
    lemma_after_wf(then, replies.take(j).skip(i + 1));
    assert(second.visited.contains(first.status->raw));
}

/// Two traversals of one world that have both ended took the same replies
/// and found the same graph, which is drawn as the same text.
pub proof fn lemma_deterministic(
    s: State,
    world: spec_fn(Seq<char>) -> Reply,
    one: Seq<Reply>,
    other: Seq<Reply>,
)
    requires
        follows(s, one, world),
        follows(s, other, world),
        !(after(s, one).status is Waiting),
        !(after(s, other).status is Waiting),
    ensures
        one == other,
        after(s, one) == after(s, other),
        rendering(after(s, one).edges) == rendering(after(s, other).edges),
{
    let n = if one.len() <= other.len() {
        one.len() as int
    } else {
        other.len() as int
    };
    lemma_same_replies(s, world, one, other, n);
    if one.len() < other.len() {
        assert(one.take(n) =~= one);
        assert(after(s, other.take(n)).status is Waiting);
    } else if other.len() < one.len() {
        assert(other.take(n) =~= other);
        assert(after(s, one.take(n)).status is Waiting);
    }
    assert(one.take(n) =~= one);
    assert(other.take(n) =~= other);
}

/// Two traversals of one world take the same replies as long as both go
/// on.
proof fn lemma_same_replies(
    s: State,
    world: spec_fn(Seq<char>) -> Reply,
    one: Seq<Reply>,
    other: Seq<Reply>,
    n: int,
)
    requires
        follows(s, one, world),
        follows(s, other, world),
        0 <= n <= one.len(),
        n <= other.len(),
    ensures
        one.take(n) == other.take(n),
    decreases n,
{
    if n == 0 {
        assert(one.take(0) =~= other.take(0));
    } else {
        lemma_same_replies(s, world, one, other, n - 1);
        let at = after(s, one.take(n - 1));
        assert(at == after(s, other.take(n - 1)));
        assert(one[n - 1] == world(at.status->raw));
        assert(other[n - 1] == world(at.status->raw));
        assert(one.take(n) =~= one.take(n - 1).push(one[n - 1]));
        assert(other.take(n) =~= other.take(n - 1).push(other[n - 1]));
    }
}

/// A traversal that is answered as a table says, and has ended, ended
/// where the run against the table ends.
pub proof fn lemma_run_is_the_end(s: State, table: Table, replies: Seq<Reply>)
    requires
        s.wf(),
        follows(s, replies, |raw: Seq<char>| reply_at(table, raw)),
        !(after(s, replies).status is Waiting),
    ensures
        after(s, replies) == run(s, table),
    decreases replies.len(),
{
    let world = |raw: Seq<char>| reply_at(table, raw);
    if replies.len() == 0 {
    } else {
        let first = replies[0];
        let rest = replies.skip(1);
        assert(replies.take(0) =~= Seq::<Reply>::empty());
        assert(after(s, replies.take(0)) == s);
        assert(first == reply_at(table, s.status->raw));
        let next = answered(s, first);
        lemma_answered_wf(s, first);
        lemma_run_step(s, table);
        assert(replies.take(1) =~= seq![first]);
        assert(seq![first].drop_last() =~= Seq::<Reply>::empty());
        assert(after(s, replies.take(1)) == next);
        assert forall|i: int| 0 <= i < rest.len() implies ({
            let at = #[trigger] after(next, rest.take(i));
            at.status is Waiting && rest[i] == world(at.status->raw)
        }) by {
            lemma_after_split(s, replies.take(i + 1), 1);
            assert(replies.take(i + 1).take(1) =~= replies.take(1));
            assert(replies.take(i + 1).skip(1) =~= rest.take(i));
            let at = after(s, replies.take(i + 1));
            assert(at.status is Waiting && replies[i + 1] == world(at.status->raw));
        }
        lemma_after_split(s, replies, 1);
        lemma_run_is_the_end(next, table, rest);
    }
}

/// No manifest on the stack is that of the repository `key`.
pub open spec fn off_stack(stack: Seq<Level>, key: Seq<char>) -> bool {
    forall|i: int| 0 <= i < stack.len() ==> (#[trigger] stack[i]).display != key
}

/// Work without a fetch gives edges only from repositories whose manifests
/// are on the stack.
pub proof fn lemma_resumed_keeps_other_sources(s: State, key: Seq<char>)
    requires
        off_stack(s.stack, key),
    ensures
        targets(resumed(s).edges, key) == targets(s.edges, key),
    decreases crate::crawler::work(s.stack),
{
    if s.stack.len() > 0 {
        let top = s.stack.last();
        let below = s.stack.drop_last();
        if top.next >= top.entries.len() {
            lemma_resumed_keeps_other_sources(State { stack: below, ..s }, key);
        } else {
            let entry = top.entries[top.next as int];
            let taken = State {
                edges: with_edge(s.edges, top.display, entry.url),
                stack: below.push(Level { next: top.next + 1, ..top }),
                ..s
            };
            assert(taken.stack.drop_last() =~= below);
            lemma_with_edge(s.edges, top.display, entry.url);
            assert(top.display != key);
            assert(off_stack(taken.stack, key)) by {
                assert forall|i: int| 0 <= i < taken.stack.len() implies (
                #[trigger] taken.stack[i]).display != key by {
                    if i < below.len() {
                        assert(taken.stack[i] == s.stack[i]);
                    }
                }
            }
            if s.visited.contains(raw_url_of(entry.url, entry.version)) {
                lemma_resumed_keeps_other_sources(taken, key);
            }
        }
    }
}

/// An absent manifest is no failure and leaves no trace: nothing is
/// visited, and a repository whose manifest is not being worked through,
/// such as the one whose manifest is absent, gets no edge.
pub proof fn lemma_absence_is_silent(s: State, key: Seq<char>)
    requires
        s.wf(),
        s.status is Waiting,
        off_stack(s.stack, key),
    ensures
        answered(s, Reply::Absent) == resumed(s),
        !(answered(s, Reply::Absent).status is Failed),
        answered(s, Reply::Absent).visited == s.visited,
        targets(answered(s, Reply::Absent).edges, key) == targets(s.edges, key),
{
    lemma_resumed(s);
    lemma_resumed_keeps_other_sources(s, key);
}

/// The targets that the entries name, in order.
pub open spec fn urls(entries: Seq<Entry>) -> Seq<Seq<char>> {
    entries.map_values(|entry: Entry| entry.url)
}

/// How many of the entries of `level` that are not yet taken will give an
/// edge from `from` to `to`.
pub open spec fn to_come(level: Level, from: Seq<char>, to: Seq<char>) -> nat {
    if level.display == from && level.next <= level.entries.len() {
        occurrences(urls(level.entries.skip(level.next as int)), to)
    } else {
        0
    }
}

/// How many of the entries on the stack that are not yet taken will give
/// an edge from `from` to `to`.
pub open spec fn to_come_all(stack: Seq<Level>, from: Seq<char>, to: Seq<char>) -> nat
    decreases stack.len(),
{
    if stack.len() == 0 {
        0
    } else {
        to_come_all(stack.drop_last(), from, to) + to_come(stack.last(), from, to)
    }
}

/// The occurrences in a sequence are those of its head and those of its
/// tail.
proof fn lemma_occurrences_head(tos: Seq<Seq<char>>, to: Seq<char>)
    requires
        tos.len() > 0,
    ensures
        occurrences(tos, to) == occurrences(tos.skip(1), to) + if tos[0] == to {
            1nat
        } else {
            0nat
        },
    decreases tos.len(),
{
    if tos.len() == 1 {
        assert(tos.skip(1) =~= tos.drop_last());
        assert(occurrences(tos.drop_last(), to) == 0);
    } else {
        lemma_occurrences_head(tos.drop_last(), to);
        assert(tos.drop_last().skip(1) =~= tos.skip(1).drop_last());
        assert(tos.skip(1).last() == tos.last());
    }
}

/// Every entry becomes exactly one edge: while the traversal works
/// without a fetch, the edges from `from` to `to` that are drawn and those
/// that are to come stay as many as they were.
pub proof fn lemma_resumed_turns_entries_into_edges(s: State, from: Seq<char>, to: Seq<char>)
    requires
        in_bounds(s.stack),
    ensures
        edges_between(resumed(s).edges, from, to) + to_come_all(resumed(s).stack, from, to)
            == edges_between(s.edges, from, to) + to_come_all(s.stack, from, to),
    decreases crate::crawler::work(s.stack),
{
    if s.stack.len() > 0 {
        let top = s.stack.last();
        let below = s.stack.drop_last();
        if top.next >= top.entries.len() {
            assert(top.entries.skip(top.next as int) =~= Seq::<Entry>::empty());
            assert(urls(Seq::<Entry>::empty()) =~= Seq::<Seq<char>>::empty());
            assert(to_come(top, from, to) == 0);
            assert(in_bounds(below));
            lemma_resumed_turns_entries_into_edges(State { stack: below, ..s }, from, to);
        } else {
            let entry = top.entries[top.next as int];
            let moved = Level { next: top.next + 1, ..top };
            let taken = State {
                edges: with_edge(s.edges, top.display, entry.url),
                stack: below.push(moved),
                ..s
            };
            assert(taken.stack.drop_last() =~= below);
            assert(taken.stack.last() == moved);
            lemma_with_edge(s.edges, top.display, entry.url);
            let rest = urls(top.entries.skip(top.next as int));
            assert(rest.skip(1) =~= urls(top.entries.skip(top.next as int + 1)));
            assert(rest[0] == entry.url);
            lemma_occurrences_head(rest, to);
            assert(edges_between(taken.edges, from, to) + to_come(moved, from, to)
                == edges_between(s.edges, from, to) + to_come(top, from, to));
            lemma_push_in_bounds(below, taken.stack.last());
            if s.visited.contains(raw_url_of(entry.url, entry.version)) {
                lemma_resumed_turns_entries_into_edges(taken, from, to);
            }
        }
    }
}

/// Every entry of a manifest becomes exactly one edge, so a target that
/// two entries name gets two edges: with a manifest of the repository
/// `display`, the edges from `display` to `to` that are drawn or to come
/// grow by the number of its entries that name `to`, and no others grow.
pub proof fn lemma_manifest_entries_become_edges(
    s: State,
    entries: Seq<Entry>,
    from: Seq<char>,
    to: Seq<char>,
)
    requires
        s.wf(),
        s.status is Waiting,
    ensures
        ({
            let next = answered(s, Reply::Manifest(Ok(entries)));
            edges_between(next.edges, from, to) + to_come_all(next.stack, from, to)
                == edges_between(s.edges, from, to) + to_come_all(s.stack, from, to) + if from
                == s.status->display {
                occurrences(urls(entries), to)
            } else {
                0
            }
        }),
{
    let level = Level { display: s.status->display, entries, next: 0 };
    let pushed = State {
        visited: s.visited.insert(s.status->raw),
        stack: s.stack.push(level),
        ..s
    };
    assert(pushed.stack.drop_last() =~= s.stack);
    assert(entries.skip(0) =~= entries);
    lemma_push_in_bounds(s.stack, pushed.stack.last());
    lemma_resumed_turns_entries_into_edges(pushed, from, to);
}

/// When a traversal is complete, every edge that was to come is drawn.
pub proof fn lemma_done_leaves_nothing_to_come(s: State, from: Seq<char>, to: Seq<char>)
    requires
        in_bounds(s.stack),
        resumed(s).status is Done,
    ensures
        to_come_all(resumed(s).stack, from, to) == 0,
{
    lemma_resumed(s);
}

/// A text that is no manifest fails the whole traversal: the run ends at
/// once with the fault, and there is no graph, not even a partial one.
pub proof fn lemma_bad_manifest_fails_the_run(s: State, table: Table, fault: Fault)
    requires
        s.wf(),
        s.status is Waiting,
        reply_at(table, s.status->raw) == Reply::Manifest(Err(fault)),
    ensures
        run(s, table).result() == Some(
            Err::<Edges, Failure>(Failure::Manifest { raw: s.status->raw, fault }),
        ),
{
    let next = answered(s, reply_at(table, s.status->raw));
    lemma_run_step(s, table);
    lemma_answered_wf(s, reply_at(table, s.status->raw));
    assert(run(next, table) == next);
}

/// A failed fetch fails the whole traversal in the same way.
pub proof fn lemma_failed_fetch_fails_the_run(s: State, table: Table, detail: Seq<char>)
    requires
        s.wf(),
        s.status is Waiting,
        reply_at(table, s.status->raw) == Reply::Broken(detail),
    ensures
        run(s, table).result() == Some(
            Err::<Edges, Failure>(Failure::Transport { raw: s.status->raw, detail }),
        ),
{
    let next = answered(s, reply_at(table, s.status->raw));
    lemma_run_step(s, table);
    lemma_answered_wf(s, reply_at(table, s.status->raw));
    assert(run(next, table) == next);
}

/// Work without a fetch removes no edge and reorders none: the edges that
/// leave a source stay, in their order, before those that are added.
pub proof fn lemma_resumed_keeps_edges(s: State, key: Seq<char>)
    ensures
        targets(s.edges, key).is_prefix_of(targets(resumed(s).edges, key)),
    decreases crate::crawler::work(s.stack),
{
    if s.stack.len() > 0 {
        let top = s.stack.last();
        let below = s.stack.drop_last();
        if top.next >= top.entries.len() {
            lemma_resumed_keeps_edges(State { stack: below, ..s }, key);
        } else {
            let entry = top.entries[top.next as int];
            let taken = State {
                edges: with_edge(s.edges, top.display, entry.url),
                stack: below.push(Level { next: top.next + 1, ..top }),
                ..s
            };
            assert(taken.stack.drop_last() =~= below);
            lemma_with_edge(s.edges, top.display, entry.url);
            assert(targets(s.edges, key).is_prefix_of(targets(taken.edges, key)));
            if s.visited.contains(raw_url_of(entry.url, entry.version)) {
                lemma_resumed_keeps_edges(taken, key);
                let a = targets(s.edges, key);
                let b = targets(taken.edges, key);
                let c = targets(resumed(taken).edges, key);
                assert(a =~= c.subrange(0, b.len() as int).subrange(0, a.len() as int));
            }
        }
    }
}

/// The graph only grows: no reply removes or reorders an edge.
pub proof fn lemma_answered_keeps_edges(s: State, reply: Reply, key: Seq<char>)
    ensures
        targets(s.edges, key).is_prefix_of(targets(answered(s, reply).edges, key)),
{
    if let Status::Waiting { display, raw } = s.status {
        match reply {
            Reply::Absent => {
                lemma_resumed_keeps_edges(s, key);
            },
            Reply::Manifest(Ok(entries)) => {
                lemma_resumed_keeps_edges(
                    State {
                        visited: s.visited.insert(raw),
                        stack: s.stack.push(Level { display, entries, next: 0 }),
                        ..s
                    },
                    key,
                );
            },
            _ => {},
        }
    }
}

} // verus!
