//! A whole traversal, against a table that says what each address yields.
//!
//! The table is finite, so the traversal ends, whatever the manifests say
//! of each other: a manifest is worked through at most once for each
//! address in the table, and each has finitely many entries.

use crate::bound::{credit, edge_total, lemma_edges_are_bounded};
use crate::crawler::{answered, in_bounds, lemma_push_in_bounds, resumed};
use crate::crawler::{result_view, started, work};
use crate::crawler::{Action, Answer, CrawlError, Crawler, Failure, Level, Reply, State, Status};
use crate::descent::{descended, lemma_outcome_is_the_descent};
use crate::graph::{Edges, Graph};
use crate::text::equal;
use vstd::prelude::*;

verus! {

/// What each address yields: the first pair with the address says it.
pub type Table = Seq<(Seq<char>, Reply)>;

/// The value of a table of answers.
pub open spec fn table_view(answers: Seq<(String, Answer)>) -> Table {
    Seq::new(answers.len(), |i: int| (answers[i].0@, answers[i].1@))
}

/// What the address `raw` yields: the reply of the first pair with this
/// address, and absence if there is none.
pub open spec fn reply_at(table: Table, raw: Seq<char>) -> Reply
    decreases table.len(),
{
    if table.len() == 0 {
        Reply::Absent
    } else if table[0].0 == raw {
        table[0].1
    } else {
        reply_at(table.skip(1), raw)
    }
}

/// The addresses that the table lists.
pub open spec fn listed(table: Table) -> Set<Seq<char>> {
    table.map_values(|pair: (Seq<char>, Reply)| pair.0).to_set()
}

/// The number of listed addresses that are not visited.
pub open spec fn unvisited(table: Table, visited: Set<Seq<char>>) -> nat {
    listed(table).difference(visited).len()
}

/// A bound on the steps that a state still needs while nothing new is
/// visited.
pub open spec fn pending(s: State) -> nat {
    if s.status is Waiting {
        work(s.stack) + 1
    } else {
        work(s.stack)
    }
}

/// Every address that yields something is listed.
pub proof fn lemma_reply_listed(table: Table, raw: Seq<char>)
    requires
        !(reply_at(table, raw) is Absent),
    ensures
        listed(table).contains(raw),
    decreases table.len(),
{
    let urls = table.map_values(|pair: (Seq<char>, Reply)| pair.0);
    if table[0].0 == raw {
        assert(urls[0] == raw);
    } else {
        let rest = table.skip(1);
        lemma_reply_listed(rest, raw);
        let rest_urls = rest.map_values(|pair: (Seq<char>, Reply)| pair.0);
        assert(rest_urls.contains(raw));
        let i = choose|i: int| 0 <= i < rest_urls.len() && rest_urls[i] == raw;
        assert(urls[i + 1] == raw);
    }
}

/// Working on without a fetch visits nothing, fails nothing, and stops
/// either at a request for an address not visited, with less work left, or
/// with no manifest left.
pub proof fn lemma_resumed(s: State)
    requires
        in_bounds(s.stack),
    ensures
        resumed(s).visited == s.visited,
        in_bounds(resumed(s).stack),
        !(resumed(s).status is Failed),
        resumed(s).status matches Status::Waiting { raw, .. } ==> !s.visited.contains(raw) && work(
            resumed(s).stack,
        ) < work(s.stack),
        resumed(s).status is Done ==> resumed(s).stack.len() == 0,
    decreases work(s.stack),
{
    if s.stack.len() > 0 {
        let top = s.stack.last();
        let below = s.stack.drop_last();
        if top.next >= top.entries.len() {
            lemma_resumed(State { stack: below, ..s });
        } else {
            let entry = top.entries[top.next as int];
            let taken = State {
                edges: crate::graph::with_edge(s.edges, top.display, entry.url),
                stack: below.push(Level { next: top.next + 1, ..top }),
                ..s
            };
            assert(taken.stack.drop_last() =~= below);
            assert(work(taken.stack) < work(s.stack));
            lemma_push_in_bounds(below, taken.stack.last());
            if s.visited.contains(crate::url::raw_url_of(entry.url, entry.version)) {
                lemma_resumed(taken);
            }
        }
    }
}

/// A reply keeps a state well-formed.
pub proof fn lemma_answered_wf(s: State, reply: Reply)
    requires
        s.wf(),
    ensures
        answered(s, reply).wf(),
{
    if let Status::Waiting { display, raw } = s.status {
        match reply {
            Reply::Absent => {
                lemma_resumed(s);
            },
            Reply::Manifest(Ok(entries)) => {
                let pushed = State {
                    visited: s.visited.insert(raw),
                    stack: s.stack.push(Level { display, entries, next: 0 }),
                    ..s
                };
                lemma_push_in_bounds(s.stack, pushed.stack.last());
                lemma_resumed(pushed);
            },
            _ => {},
        }
    }
}

/// Each reply brings the traversal nearer to its end: either one more of
/// the listed addresses is visited, or none is and less work is left.
pub proof fn lemma_answered_decreases(s: State, table: Table)
    requires
        s.wf(),
        s.status is Waiting,
    ensures
        ({
            let next = answered(s, reply_at(table, s.status->raw));
            unvisited(table, next.visited) < unvisited(table, s.visited) || (unvisited(
                table,
                next.visited,
            ) == unvisited(table, s.visited) && pending(next) < pending(s))
        }),
{
    let raw = s.status->raw;
    let display = s.status->display;
    let reply = reply_at(table, raw);
    let next = answered(s, reply);
    match reply {
        Reply::Absent => {
            lemma_resumed(s);
        },
        Reply::Broken(detail) => {},
        Reply::Manifest(manifest) => {
            lemma_reply_listed(table, raw);
            vstd::seq_lib::seq_to_set_is_finite(
                table.map_values(|pair: (Seq<char>, Reply)| pair.0),
            );
            if let Ok(entries) = manifest {
                let pushed = State {
                    visited: s.visited.insert(raw),
                    stack: s.stack.push(Level { display, entries, next: 0 }),
                    ..s
                };
                lemma_push_in_bounds(s.stack, pushed.stack.last());
                lemma_resumed(pushed);
            }
            assert(next.visited == s.visited.insert(raw));
            let before = listed(table).difference(s.visited);
            let after = listed(table).difference(s.visited.insert(raw));
            assert(before.contains(raw));
            assert(after =~= before.remove(raw));
        },
    }
}

/// The state in which the traversal ends, when each request is answered
/// as the table says.
pub open spec fn run(s: State, table: Table) -> State
    decreases unvisited(table, s.visited), pending(s),
    when s.wf()
{
    if s.status is Waiting {
        proof {
            lemma_answered_decreases(s, table);
        }
        run(answered(s, reply_at(table, s.status->raw)), table)
    } else {
        s
    }
}

/// A run takes the reply that the table gives to the pending request and
/// goes on from there.
pub proof fn lemma_run_step(s: State, table: Table)
    requires
        s.wf(),
        s.status is Waiting,
    ensures
        run(s, table) == run(answered(s, reply_at(table, s.status->raw)), table),
{
    lemma_answered_wf(s, reply_at(table, s.status->raw));
}

/// A traversal that has ended has a result, and a run ends every
/// traversal.
pub proof fn lemma_run_ends(s: State, table: Table)
    requires
        s.wf(),
    ensures
        run(s, table).wf(),
        run(s, table).result() is Some,
    decreases unvisited(table, s.visited), pending(s),
{
    if s.status is Waiting {
        let next = answered(s, reply_at(table, s.status->raw));
        lemma_answered_decreases(s, table);
        lemma_answered_wf(s, reply_at(table, s.status->raw));
        lemma_run_ends(next, table);
    }
}

/// The result of the traversal that begins at the repository `display`,
/// whose manifest is published at `raw`, when each request is answered as
/// the table says: the edges found, or why the traversal failed.
pub open spec fn outcome(display: Seq<char>, raw: Seq<char>, table: Table) -> Result<
    Edges,
    Failure,
> {
    run(started(display, raw), table).result()->0
}

/// Looks up what the table says of the address `raw_url`.
pub fn answer_at(answers: &Vec<(String, Answer)>, raw_url: &str) -> (answer: Answer)
    ensures
        answer@ == reply_at(table_view(answers@), raw_url@),
{
    let ghost table = table_view(answers@);
    let mut i: usize = 0;
    assert(table.skip(0) =~= table);
    while i < answers.len()
        invariant
            i <= answers.len(),
            table == table_view(answers@),
            reply_at(table, raw_url@) == reply_at(table.skip(i as int), raw_url@),
        decreases answers.len() - i,
    {
        let ghost rest = table.skip(i as int);
        assert(rest[0] == table[i as int]);
        assert(rest.skip(1) =~= table.skip(i + 1));
        if equal(answers[i].0.as_str(), raw_url) {
            return answers[i].1.duplicate();
        }
        i += 1;
    }
    Answer::Absent
}

/// Runs the traversal that begins at the repository `display_url`, whose
/// manifest is published at `raw_url`, to its end. Each request is
/// answered from `answers`: by the first pair with the address, and with
/// absence where there is none.
///
/// The result is that of the recursive descent, and at the same time the
/// state in which a crawler ends that is answered from the table. The
/// traversal ends for every table, also where the manifests refer to each
/// other in a cycle, and the graph has no more edges than the manifests in
/// the table have entries.
pub fn crawl(display_url: &str, raw_url: &str, answers: &Vec<(String, Answer)>) -> (r: Result<
    Graph,
    CrawlError,
>)
    ensures
        result_view(r) == descended(display_url@, raw_url@, table_view(answers@)),
        result_view(r) == outcome(display_url@, raw_url@, table_view(answers@)),
        r matches Ok(graph) ==> graph.wf() && edge_total(graph@) <= credit(
            table_view(answers@),
            Set::empty(),
        ),
{
    let ghost table = table_view(answers@);
    let ghost start = started(display_url@, raw_url@);
    let mut crawler = Crawler::new(display_url.to_owned(), raw_url.to_owned());
    proof {
        lemma_run_ends(start, table);
        lemma_outcome_is_the_descent(display_url@, raw_url@, table);
        lemma_edges_are_bounded(display_url@, raw_url@, table);
    }
    loop
        invariant
            crawler.wf(),
            table == table_view(answers@),
            run(crawler@, table) == run(start, table),
        ensures
            crawler.wf(),
            crawler@ == run(start, table),
            !(crawler@.status is Waiting),
        decreases unvisited(table, crawler@.visited), pending(crawler@),
    {
        proof {
            crawler.lemma_wf();
        }
        let answer = match crawler.action() {
            Action::Fetch(wanted) => answer_at(answers, wanted),
            _ => {
                break ;
            },
        };
        proof {
            let s = crawler@;
            lemma_answered_decreases(s, table);
            lemma_run_step(s, table);
        }
        crawler.accept(answer);
    }
    match crawler.finish() {
        Some(r) => r,
        None => vstd::pervasive::unreached(),
    }
}

} // verus!
