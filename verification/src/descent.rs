//! The traversal as a recursive descent, and the proof that the
//! [`Crawler`](crate::crawler::Crawler) performs it.
//!
//! To visit a repository is to read its manifest, unless a manifest was
//! found at that address before or none is there, and then to take the
//! manifest's entries in order: each gives an edge, and the entry's
//! repository is visited before the next entry is taken.

use crate::crawler::{answered, in_bounds, lemma_push_in_bounds, resumed, started, work};
use crate::crawler::{Failure, Level, Reply, State, Status};
use crate::graph::{with_edge, Edges};
use crate::manifest::Entry;
use crate::url::raw_url_of;
use crate::walk::{lemma_answered_wf, lemma_reply_listed, lemma_run_step};
use crate::walk::{listed, outcome, reply_at, run, unvisited, Table};
use vstd::prelude::*;

verus! {

/// What a traversal has found so far.
pub struct Found {
    /// The edges.
    pub edges: Edges,
    /// The addresses at which a manifest was found.
    pub visited: Set<Seq<char>>,
}

/// What is found after a visit to the repository `display`, whose manifest
/// is published at `raw`; or why the visit failed; or `None` where the
/// visit would go deeper than `depth` manifests.
pub open spec fn visit(
    table: Table,
    display: Seq<char>,
    raw: Seq<char>,
    found: Found,
    depth: nat,
) -> Option<Result<Found, Failure>>
    decreases depth, 0nat,
{
    if found.visited.contains(raw) {
        Some(Ok(found))
    } else {
        match reply_at(table, raw) {
            Reply::Absent => Some(Ok(found)),
            Reply::Broken(detail) => Some(Err(Failure::Transport { raw, detail })),
            Reply::Manifest(Err(fault)) => Some(Err(Failure::Manifest { raw, fault })),
            Reply::Manifest(Ok(entries)) => if depth == 0 {
                None
            } else {
                visit_all(
                    table,
                    display,
                    entries,
                    0,
                    Found { visited: found.visited.insert(raw), ..found },
                    (depth - 1) as nat,
                )
            },
        }
    }
}

/// What is found after the entries of the manifest of `display` have been
/// taken, from the entry `next` on: each entry gives an edge from `display`
/// to its repository, which is then visited. The first failure ends it.
pub open spec fn visit_all(
    table: Table,
    display: Seq<char>,
    entries: Seq<Entry>,
    next: nat,
    found: Found,
    depth: nat,
) -> Option<Result<Found, Failure>>
    decreases depth, 1 + entries.len() - next,
{
    if next >= entries.len() {
        Some(Ok(found))
    } else {
        let entry = entries[next as int];
        let drawn = Found { edges: with_edge(found.edges, display, entry.url), ..found };
        match visit(table, entry.url, raw_url_of(entry.url, entry.version), drawn, depth) {
            Some(Ok(then)) => visit_all(table, display, entries, next + 1, then, depth),
            other => other,
        }
    }
}

/// The result of the descent from the repository `display`, whose manifest
/// is published at `raw`: the edges found, or why it failed. No descent
/// goes deeper than the table has addresses.
pub open spec fn descended(display: Seq<char>, raw: Seq<char>, table: Table) -> Result<
    Edges,
    Failure,
> {
    let nothing = Found { edges: Map::empty(), visited: Set::empty() };
    match visit(table, display, raw, nothing, listed(table).len()) {
        Some(Ok(found)) => Ok(found.edges),
        Some(Err(failure)) => Err(failure),
        None => Ok(Map::empty()),
    }
}

/// The state of a crawler that has found `found` and works through
/// `stack`.
pub open spec fn working(found: Found, stack: Seq<Level>) -> State {
    State { edges: found.edges, visited: found.visited, stack, status: Status::Done }
}

/// The state of a crawler that has found `found`, works through `stack`
/// and waits for the manifest of `display`.
pub open spec fn waiting(
    found: Found,
    stack: Seq<Level>,
    display: Seq<char>,
    raw: Seq<char>,
) -> State {
    State {
        edges: found.edges,
        visited: found.visited,
        stack,
        status: Status::Waiting { display, raw },
    }
}

/// What the crawler does without a fetch does not depend on what it
/// waited for before.
pub proof fn lemma_resumed_ignores_status(s: State, status: Status)
    ensures
        resumed(State { status, ..s }) == resumed(s),
    decreases work(s.stack),
{
    if s.stack.len() > 0 {
        let top = s.stack.last();
        let below = s.stack.drop_last();
        if top.next >= top.entries.len() {
            lemma_resumed_ignores_status(State { stack: below, ..s }, status);
        } else {
            let entry = top.entries[top.next as int];
            let taken = State {
                edges: with_edge(s.edges, top.display, entry.url),
                stack: below.push(Level { next: top.next + 1, ..top }),
                ..s
            };
            assert(taken.stack.drop_last() =~= below);
            if s.visited.contains(raw_url_of(entry.url, entry.version)) {
                lemma_resumed_ignores_status(taken, status);
            }
        }
    }
}

/// The more is visited, the less is left to visit.
proof fn lemma_unvisited_shrinks(table: Table, fewer: Set<Seq<char>>, more: Set<Seq<char>>)
    requires
        fewer.subset_of(more),
    ensures
        unvisited(table, more) <= unvisited(table, fewer),
{
    vstd::seq_lib::seq_to_set_is_finite(table.map_values(|pair: (Seq<char>, Reply)| pair.0));
    vstd::set_lib::lemma_len_subset(
        listed(table).difference(more),
        listed(table).difference(fewer),
    );
}

/// A visit to a listed address that was not visited leaves one address
/// less to visit.
proof fn lemma_unvisited_drops(table: Table, visited: Set<Seq<char>>, raw: Seq<char>)
    requires
        listed(table).contains(raw),
        !visited.contains(raw),
    ensures
        unvisited(table, visited.insert(raw)) < unvisited(table, visited),
{
    vstd::seq_lib::seq_to_set_is_finite(table.map_values(|pair: (Seq<char>, Reply)| pair.0));
    let before = listed(table).difference(visited);
    let after = listed(table).difference(visited.insert(raw));
    assert(before.contains(raw));
    assert(after =~= before.remove(raw));
}

/// A visit that may go as deep as addresses are left to visit comes to an
/// end, and what was visited before stays visited.
pub proof fn lemma_visit_ends(
    table: Table,
    display: Seq<char>,
    raw: Seq<char>,
    found: Found,
    depth: nat,
)
    requires
        found.visited.finite(),
        unvisited(table, found.visited) <= depth,
    ensures
        visit(table, display, raw, found, depth) is Some,
        visit(table, display, raw, found, depth) matches Some(Ok(then)) ==> then.visited.finite()
            && found.visited.subset_of(then.visited),
    decreases depth, 0nat,
{
    if !found.visited.contains(raw) {
        if let Reply::Manifest(Ok(entries)) = reply_at(table, raw) {
            lemma_reply_listed(table, raw);
            lemma_unvisited_drops(table, found.visited, raw);
            let marked = Found { visited: found.visited.insert(raw), ..found };
            lemma_visit_all_ends(table, display, entries, 0, marked, (depth - 1) as nat);
        }
    }
}

/// The entries of a manifest are worked through to an end in the same way.
pub proof fn lemma_visit_all_ends(
    table: Table,
    display: Seq<char>,
    entries: Seq<Entry>,
    next: nat,
    found: Found,
    depth: nat,
)
    requires
        found.visited.finite(),
        unvisited(table, found.visited) <= depth,
    ensures
        visit_all(table, display, entries, next, found, depth) is Some,
        visit_all(table, display, entries, next, found, depth) matches Some(Ok(then))
            ==> then.visited.finite() && found.visited.subset_of(then.visited),
    decreases depth, 1 + entries.len() - next,
{
    if next < entries.len() {
        let entry = entries[next as int];
        let drawn = Found { edges: with_edge(found.edges, display, entry.url), ..found };
        let raw = raw_url_of(entry.url, entry.version);
        lemma_visit_ends(table, entry.url, raw, drawn, depth);
        if let Some(Ok(then)) = visit(table, entry.url, raw, drawn, depth) {
            lemma_unvisited_shrinks(table, found.visited, then.visited);
            lemma_visit_all_ends(table, display, entries, next + 1, then, depth);
        }
    }
}

/// A crawler that waits for a manifest does what the visit to its
/// repository does: once the visit is over, the crawler goes on below it
/// with what the visit found, and where the visit fails, the run fails in
/// the same way.
pub proof fn lemma_crawler_visits(
    table: Table,
    below: Seq<Level>,
    display: Seq<char>,
    raw: Seq<char>,
    found: Found,
    depth: nat,
)
    requires
        in_bounds(below),
        found.visited.finite(),
        !found.visited.contains(raw),
        visit(table, display, raw, found, depth) is Some,
    ensures
        match visit(table, display, raw, found, depth)->0 {
            Ok(then) => then.visited.finite() && run(waiting(found, below, display, raw), table)
                == run(resumed(working(then, below)), table),
            Err(failure) => run(waiting(found, below, display, raw), table).result() == Some(
                Err::<Edges, Failure>(failure),
            ),
        },
    decreases depth, 0nat,
{
    let s = waiting(found, below, display, raw);
    let reply = reply_at(table, raw);
    let next = answered(s, reply);
    assert(s.wf());
    lemma_run_step(s, table);
    lemma_answered_wf(s, reply);
    match reply {
        Reply::Absent => {
            lemma_resumed_ignores_status(working(found, below), s.status);
            assert(s == State { status: s.status, ..working(found, below) });
        },
        Reply::Broken(detail) => {
            assert(run(next, table) == next);
        },
        Reply::Manifest(Err(fault)) => {
            assert(run(next, table) == next);
        },
        Reply::Manifest(Ok(entries)) => {
            let marked = Found { visited: found.visited.insert(raw), ..found };
            let level = Level { display, entries, next: 0 };
            let pushed = State { visited: marked.visited, stack: below.push(level), ..s };
            assert(next == resumed(pushed));
            assert(pushed == State { status: s.status, ..working(marked, below.push(level)) });
            lemma_resumed_ignores_status(working(marked, below.push(level)), s.status);
            lemma_crawler_visits_all(table, below, display, entries, 0, marked, (depth - 1) as nat);
        },
    }
}

/// A crawler that works through a manifest does what the visits to its
/// entries do.
pub proof fn lemma_crawler_visits_all(
    table: Table,
    below: Seq<Level>,
    display: Seq<char>,
    entries: Seq<Entry>,
    next: nat,
    found: Found,
    depth: nat,
)
    requires
        in_bounds(below),
        next <= entries.len(),
        found.visited.finite(),
        visit_all(table, display, entries, next, found, depth) is Some,
    ensures
        match visit_all(table, display, entries, next, found, depth)->0 {
            Ok(then) => then.visited.finite() && run(
                resumed(working(found, below.push(Level { display, entries, next }))),
                table,
            ) == run(resumed(working(then, below)), table),
            Err(failure) => run(
                resumed(working(found, below.push(Level { display, entries, next }))),
                table,
            ).result() == Some(Err::<Edges, Failure>(failure)),
        },
    decreases depth, 1 + entries.len() - next,
{
    let level = Level { display, entries, next };
    let s = working(found, below.push(level));
    assert(s.stack.drop_last() =~= below);
    assert(s.stack.last() == level);
    if next >= entries.len() {
        assert(State { stack: below, ..s } == working(found, below));
    } else {
        let entry = entries[next as int];
        let raw = raw_url_of(entry.url, entry.version);
        let drawn = Found { edges: with_edge(found.edges, display, entry.url), ..found };
        let moved = Level { next: next + 1, ..level };
        let taken = State { edges: drawn.edges, stack: below.push(moved), ..s };
        assert(taken == working(drawn, below.push(moved)));
        lemma_push_in_bounds(below, moved);
        if found.visited.contains(raw) {
            assert(resumed(s) == resumed(taken));
            lemma_crawler_visits_all(table, below, display, entries, next + 1, drawn, depth);
        } else {
            assert(resumed(s) == waiting(drawn, below.push(moved), entry.url, raw));
            lemma_crawler_visits(table, below.push(moved), entry.url, raw, drawn, depth);
            if let Some(Ok(then)) = visit(table, entry.url, raw, drawn, depth) {
                assert(below.push(moved).drop_last() =~= below);
                lemma_crawler_visits_all(table, below, display, entries, next + 1, then, depth);
                let done = Level { next: next + 1, ..level };
                assert(working(then, below.push(moved)) == working(then, below.push(done)));
            }
        }
    }
}

/// The run of a crawler against a table is the recursive descent.
pub proof fn lemma_outcome_is_the_descent(display: Seq<char>, raw: Seq<char>, table: Table)
    ensures
        outcome(display, raw, table) == descended(display, raw, table),
{
    let nothing = Found { edges: Map::empty(), visited: Set::empty() };
    let depth = listed(table).len();
    assert(listed(table).difference(nothing.visited) =~= listed(table));
    lemma_visit_ends(table, display, raw, nothing, depth);
    lemma_crawler_visits(table, Seq::empty(), display, raw, nothing, depth);
    assert(waiting(nothing, Seq::empty(), display, raw) == started(display, raw));
    if let Some(Ok(then)) = visit(table, display, raw, nothing, depth) {
        let end = resumed(working(then, Seq::empty()));
        assert(end.status is Done);
        assert(end.wf());
        assert(run(end, table) == end);
    }
}

} // verus!
