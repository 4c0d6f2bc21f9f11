//! The traversal that discovers the dependency graph.
//!
//! The traversal is depth first: a manifest's entries are taken in order,
//! each entry gives an edge, and the manifest of the entry's repository is
//! read before the next entry is taken. A manifest that was read once is
//! not read again, which is what ends a traversal of a cyclic graph.
//!
//! Fetching is not done here. The [`Crawler`] asks for one address at a
//! time and takes what the fetch gave; between two requests it does all the
//! work that needs no fetch.

use crate::fetch::{FetchResult, Fetched};
use crate::graph::{with_edge, Edges, Graph};
use crate::manifest::{duplicate_entries, entries_view, parse, parse_view, parsed};
use crate::manifest::{DependencyEntry, Entry, Fault, ParseError};
use crate::url::{raw_url_of, to_raw_url};
use crate::visited::Visited;
use vstd::prelude::*;

verus! {

/// A manifest whose entries are being worked through.
pub struct Level {
    /// The repository whose manifest this is.
    pub display: Seq<char>,
    /// The entries of the manifest.
    pub entries: Seq<Entry>,
    /// How many of the entries have been taken.
    pub next: nat,
}

impl Level {
    /// The number of entries that are still to be taken.
    pub open spec fn remaining(self) -> nat {
        if self.next < self.entries.len() {
            (self.entries.len() - self.next) as nat
        } else {
            0
        }
    }
}

/// Why a traversal failed.
pub enum Failure {
    /// The fetch of `raw` failed.
    Transport { raw: Seq<char>, detail: Seq<char> },
    /// What was found at `raw` is not a manifest.
    Manifest { raw: Seq<char>, fault: Fault },
}

/// Where a traversal stands.
pub enum Status {
    /// It waits for the manifest of the repository `display`, to be fetched
    /// from `raw`.
    Waiting { display: Seq<char>, raw: Seq<char> },
    /// It is complete.
    Done,
    /// It has failed.
    Failed(Failure),
}

/// The state of a traversal.
pub struct State {
    /// The edges found so far.
    pub edges: Edges,
    /// The addresses at which a manifest was found.
    pub visited: Set<Seq<char>>,
    /// The manifests being worked through, the innermost last.
    pub stack: Seq<Level>,
    pub status: Status,
}

/// What came of a request, once a text that was found has been read as a
/// manifest.
pub enum Reply {
    /// A text was found: the entries it lists, or why it is no manifest.
    Manifest(Result<Seq<Entry>, Fault>),
    /// Nothing is published at the address.
    Absent,
    /// The fetch failed.
    Broken(Seq<char>),
}

/// The reply that a fetch's outcome stands for.
pub open spec fn reply_of(fetched: Fetched) -> Reply {
    match fetched {
        Fetched::Found(text) => Reply::Manifest(parsed(text)),
        Fetched::NotFound => Reply::Absent,
        Fetched::TransportFailure(detail) => Reply::Broken(detail),
    }
}

/// A bound on the steps that the manifests on the stack still need: one
/// for each entry to be taken and one for each manifest to be left.
pub open spec fn work(stack: Seq<Level>) -> nat
    decreases stack.len(),
{
    if stack.len() == 0 {
        0
    } else {
        work(stack.drop_last()) + stack.last().remaining() + 1
    }
}

/// The state in which a traversal begins: nothing found yet, and the root
/// manifest wanted.
pub open spec fn started(display: Seq<char>, raw: Seq<char>) -> State {
    State {
        edges: Map::empty(),
        visited: Set::empty(),
        stack: Seq::empty(),
        status: Status::Waiting { display, raw },
    }
}

/// The state after all the work that needs no fetch.
///
/// A manifest whose entries are all taken is left. Otherwise the next entry
/// is taken: it gives an edge from the manifest's repository to the
/// entry's, and its manifest is wanted unless one was found at that address
/// before. The work ends at the first manifest that is wanted, or when no
/// manifest is left.
pub open spec fn resumed(s: State) -> State
    decreases work(s.stack),
{
    if s.stack.len() == 0 {
        State { status: Status::Done, ..s }
    } else {
        let top = s.stack.last();
        let below = s.stack.drop_last();
        if top.next >= top.entries.len() {
            resumed(State { stack: below, ..s })
        } else {
            let entry = top.entries[top.next as int];
            let raw = raw_url_of(entry.url, entry.version);
            let taken = State {
                edges: with_edge(s.edges, top.display, entry.url),
                stack: below.push(Level { next: top.next + 1, ..top }),
                ..s
            };
            proof {
                assert(taken.stack.drop_last() =~= below);
            }
            if s.visited.contains(raw) {
                resumed(taken)
            } else {
                State { status: Status::Waiting { display: entry.url, raw }, ..taken }
            }
        }
    }
}

/// The state after a reply to the pending request.
///
/// A manifest is recorded as visited and its entries are worked through;
/// a text that is no manifest, or a failed fetch, fails the traversal; an
/// absent manifest changes nothing, and the traversal goes on. A reply to a
/// traversal that waits for none changes nothing.
pub open spec fn answered(s: State, reply: Reply) -> State {
    match s.status {
        Status::Waiting { display, raw } => match reply {
            Reply::Absent => resumed(s),
            Reply::Broken(detail) => State {
                status: Status::Failed(Failure::Transport { raw, detail }),
                ..s
            },
            Reply::Manifest(Err(fault)) => State {
                visited: s.visited.insert(raw),
                status: Status::Failed(Failure::Manifest { raw, fault }),
                ..s
            },
            Reply::Manifest(Ok(entries)) => resumed(
                State {
                    visited: s.visited.insert(raw),
                    stack: s.stack.push(Level { display, entries, next: 0 }),
                    ..s
                },
            ),
        },
        _ => s,
    }
}

/// No manifest on the stack has more entries taken than it has.
pub open spec fn in_bounds(stack: Seq<Level>) -> bool {
    forall|i: int| 0 <= i < stack.len() ==> (#[trigger] stack[i]).next <= stack[i].entries.len()
}

/// A stack stays in bounds when a manifest with `next` of its entries
/// taken is put on it.
pub proof fn lemma_push_in_bounds(below: Seq<Level>, level: Level)
    requires
        in_bounds(below),
        level.next <= level.entries.len(),
    ensures
        in_bounds(below.push(level)),
{
    let stack = below.push(level);
    assert forall|i: int| 0 <= i < stack.len() implies (#[trigger] stack[i]).next
        <= stack[i].entries.len() by {
        if i < below.len() {
            assert(stack[i] == below[i]);
        }
    }
}

impl State {
    /// What holds of every state of a traversal: no manifest on the stack
    /// has more entries taken than it has, finitely many addresses are
    /// visited, and the address that is wanted is not among them.
    pub open spec fn wf(self) -> bool {
        &&& self.visited.finite()
        &&& in_bounds(self.stack)
        &&& self.status matches Status::Waiting { raw, .. } ==> !self.visited.contains(raw)
    }

    /// The result of the traversal, once it has ended: the edges found, or
    /// why it failed.
    pub open spec fn result(self) -> Option<Result<Edges, Failure>> {
        match self.status {
            Status::Waiting { .. } => None,
            Status::Done => Some(Ok(self.edges)),
            Status::Failed(failure) => Some(Err(failure)),
        }
    }
}

/// The value of a traversal's result.
pub open spec fn result_view(r: Result<Graph, CrawlError>) -> Result<Edges, Failure> {
    match r {
        Ok(graph) => Ok(graph@),
        Err(error) => Err(error@),
    }
}

/// Why a traversal failed.
#[derive(Debug, PartialEq, Eq)]
pub enum CrawlError {
    /// The fetch of `raw_url` failed.
    Transport { raw_url: String, detail: String },
    /// What was found at `raw_url` is not a manifest.
    Manifest { raw_url: String, error: ParseError },
}

impl View for CrawlError {
    type V = Failure;

    open spec fn view(&self) -> Failure {
        match self {
            CrawlError::Transport { raw_url, detail } => Failure::Transport {
                raw: raw_url@,
                detail: detail@,
            },
            CrawlError::Manifest { raw_url, error } => Failure::Manifest {
                raw: raw_url@,
                fault: error@,
            },
        }
    }
}

/// What came of a request, once a text that was found has been read as a
/// manifest.
#[derive(Debug, PartialEq, Eq)]
pub enum Answer {
    /// A text was found: the entries it lists, or why it is no manifest.
    Manifest(Result<Vec<DependencyEntry>, ParseError>),
    /// Nothing is published at the address.
    Absent,
    /// The fetch failed; the detail says how.
    Broken(String),
}

impl View for Answer {
    type V = Reply;

    open spec fn view(&self) -> Reply {
        match self {
            Answer::Manifest(manifest) => Reply::Manifest(parse_view(*manifest)),
            Answer::Absent => Reply::Absent,
            Answer::Broken(detail) => Reply::Broken(detail@),
        }
    }
}

impl Answer {
    /// A copy of the answer.
    pub fn duplicate(&self) -> (copy: Answer)
        ensures
            copy@ == self@,
    {
        match self {
            Answer::Manifest(Ok(entries)) => Answer::Manifest(Ok(duplicate_entries(entries))),
            Answer::Manifest(Err(error)) => Answer::Manifest(Err(error.duplicate())),
            Answer::Absent => Answer::Absent,
            Answer::Broken(detail) => Answer::Broken(detail.clone()),
        }
    }
}

/// Reads what a fetch gave: a text that was found is parsed as a manifest.
pub fn interpret(result: FetchResult) -> (answer: Answer)
    ensures
        answer@ == reply_of(result@),
{
    match result {
        FetchResult::Found(text) => Answer::Manifest(parse(text.as_str())),
        FetchResult::NotFound => Answer::Absent,
        FetchResult::TransportFailure(detail) => Answer::Broken(detail),
    }
}

/// What a traversal asks of its driver.
#[derive(Debug)]
pub enum Action<'a> {
    /// Fetch this address and hand the result in.
    Fetch(&'a str),
    /// The traversal is complete; this is the graph.
    Finished(&'a Graph),
    /// The traversal has failed.
    Failed(&'a CrawlError),
}

#[derive(Debug)]
struct Frame {
    display_url: String,
    entries: Vec<DependencyEntry>,
    next: usize,
}

impl View for Frame {
    type V = Level;

    closed spec fn view(&self) -> Level {
        Level {
            display: self.display_url@,
            entries: entries_view(self.entries@),
            next: self.next as nat,
        }
    }
}

#[derive(Debug)]
enum Phase {
    Waiting { display_url: String, raw_url: String },
    Done,
    Failed(CrawlError),
}

impl View for Phase {
    type V = Status;

    closed spec fn view(&self) -> Status {
        match self {
            Phase::Waiting { display_url, raw_url } => Status::Waiting {
                display: display_url@,
                raw: raw_url@,
            },
            Phase::Done => Status::Done,
            Phase::Failed(error) => Status::Failed(error@),
        }
    }
}

/// A traversal in progress.
#[derive(Debug)]
pub struct Crawler {
    graph: Graph,
    visited: Visited,
    stack: Vec<Frame>,
    phase: Phase,
}

impl View for Crawler {
    type V = State;

    closed spec fn view(&self) -> State {
        State {
            edges: self.graph@,
            visited: self.visited@,
            stack: Seq::new(self.stack.len() as nat, |i: int| self.stack[i]@),
            status: self.phase@,
        }
    }
}

impl Crawler {
    /// The crawler's parts are well-formed, and so is its state.
    pub closed spec fn wf(&self) -> bool {
        &&& self.graph.wf()
        &&& self@.wf()
    }

    /// The state of a well-formed crawler is well-formed.
    pub proof fn lemma_wf(&self)
        requires
            self.wf(),
        ensures
            self@.wf(),
    {
    }

    /// A traversal that begins at the repository `display_url`, whose
    /// manifest is published at `raw_url`.
    pub fn new(display_url: String, raw_url: String) -> (crawler: Crawler)
        ensures
            crawler.wf(),
            crawler@ == started(display_url@, raw_url@),
    {
        let crawler = Crawler {
            graph: Graph::new(),
            visited: Visited::new(),
            stack: Vec::new(),
            phase: Phase::Waiting { display_url, raw_url },
        };
        assert(crawler@.stack =~= Seq::<Level>::empty());
        crawler
    }

    /// What the traversal asks for now.
    pub fn action(&self) -> (action: Action<'_>)
        requires
            self.wf(),
        ensures
            match action {
                Action::Fetch(raw_url) => self@.status matches Status::Waiting { raw, .. } && raw
                    == raw_url@,
                Action::Finished(graph) => self@.status is Done && graph.wf() && graph@
                    == self@.edges,
                Action::Failed(error) => self@.status == Status::Failed(error@),
            },
    {
        match &self.phase {
            Phase::Waiting { raw_url, .. } => Action::Fetch(raw_url.as_str()),
            Phase::Done => Action::Finished(&self.graph),
            Phase::Failed(error) => Action::Failed(error),
        }
    }

    /// Does all the work that needs no fetch.
    fn advance(&mut self)
        requires
            old(self).graph.wf(),
            old(self)@.visited.finite(),
            in_bounds(old(self)@.stack),
        ensures
            final(self).wf(),
            final(self)@ == resumed(old(self)@),
    {
        loop
            invariant
                self.graph.wf(),
                self@.visited.finite(),
                in_bounds(self@.stack),
                resumed(self@) == resumed(old(self)@),
            decreases work(self@.stack),
        {
            let ghost before = self@;
            match self.stack.pop() {
                None => {
                    self.phase = Phase::Done;
                    assert(self@.stack =~= before.stack);
                    return ;
                },
                Some(frame) => {
                    let ghost top = before.stack.last();
                    let ghost below = before.stack.drop_last();
                    assert(frame@ == top);
                    assert(self@.stack =~= below);
                    let mut frame = frame;
                    if frame.next < frame.entries.len() {
                        let entry = &frame.entries[frame.next];
                        let url = entry.url.clone();
                        let raw_url = to_raw_url(entry.url.as_str(), entry.version.as_str());
                        assert(entry@ == top.entries[top.next as int]);
                        self.graph.add_edge(frame.display_url.as_str(), url.as_str());
                        frame.next = frame.next + 1;
                        self.stack.push(frame);
                        let ghost taken = State {
                            edges: with_edge(before.edges, top.display, entry@.url),
                            stack: below.push(Level { next: top.next + 1, ..top }),
                            ..before
                        };
                        assert(self@.stack =~= taken.stack);
                        assert(taken.stack.drop_last() =~= below);
                        if !self.visited.contains(raw_url.as_str()) {
                            self.phase = Phase::Waiting { display_url: url, raw_url };
                            return ;
                        }
                        assert(self@ == taken);
                    }
                },
            }
        }
    }

    /// Takes the answer to the pending request and goes on to the next
    /// request, or to the end.
    ///
    /// A crawler that waits for no answer stays as it is.
    pub fn accept(&mut self, answer: Answer)
        requires
            old(self).wf(),
        ensures
            final(self).wf(),
            final(self)@ == answered(old(self)@, answer@),
    {
        let ghost before = self@;
        let mut phase = Phase::Done;
        core::mem::swap(&mut self.phase, &mut phase);
        match phase {
            Phase::Waiting { display_url, raw_url } => {
                match answer {
                    Answer::Absent => {
                        self.phase = Phase::Waiting { display_url, raw_url };
                        assert(self@.stack =~= before.stack);
                        assert(self@ == before);
                        self.advance();
                    },
                    Answer::Broken(detail) => {
                        self.phase = Phase::Failed(CrawlError::Transport { raw_url, detail });
                        assert(self@.stack =~= before.stack);
                    },
                    Answer::Manifest(Err(error)) => {
                        self.visited.insert(raw_url.clone());
                        self.phase = Phase::Failed(CrawlError::Manifest { raw_url, error });
                        assert(self@.stack =~= before.stack);
                    },
                    Answer::Manifest(Ok(entries)) => {
                        let ghost level = Level {
                            display: display_url@,
                            entries: entries_view(entries@),
                            next: 0,
                        };
                        self.visited.insert(raw_url.clone());
                        self.stack.push(Frame { display_url: display_url.clone(), entries, next: 0 });
                        self.phase = Phase::Waiting { display_url, raw_url };
                        assert(self@.stack =~= before.stack.push(level));
                        assert(self@ == State {
                            visited: before.visited.insert(raw_url@),
                            stack: before.stack.push(level),
                            ..before
                        });
                        self.advance();
                    },
                }
            },
            other => {
                self.phase = other;
                assert(self@.stack =~= before.stack);
            },
        }
    }

    /// Ends the traversal and hands out its result: the graph, or why the
    /// traversal failed. A traversal that still waits for an answer has
    /// none.
    pub fn finish(self) -> (r: Option<Result<Graph, CrawlError>>)
        requires
            self.wf(),
        ensures
            match r {
                None => self@.result() is None,
                Some(r) => self@.result() == Some(result_view(r)) && (r matches Ok(graph)
                    ==> graph.wf()),
            },
    {
        match self.phase {
            Phase::Waiting { .. } => None,
            Phase::Done => Some(Ok(self.graph)),
            Phase::Failed(error) => Some(Err(error)),
        }
    }

    /// Takes the result of the pending fetch: a text that was found is
    /// parsed as a manifest and the answer is accepted.
    pub fn deliver(&mut self, result: FetchResult)
        requires
            old(self).wf(),
        ensures
            final(self).wf(),
            final(self)@ == answered(old(self)@, reply_of(result@)),
    {
        self.accept(interpret(result));
    }
}

} // verus!
