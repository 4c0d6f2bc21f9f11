use depgraph::crawler::{interpret, Action, Answer, CrawlError, Crawler};
use depgraph::fetch::{classify, FetchResult, Transfer};
use depgraph::manifest::{DependencyEntry, ParseError};
use depgraph::url::to_raw_url;
use depgraph::walk::{answer_at, crawl};

const ROOT: &str = "https://github.com/org/repo";
const ROOT_RAW: &str = "https://raw.githubusercontent.com/org/repo/main/root.repos";

fn manifest(deps: &[(&str, &str, &str)]) -> String {
    if deps.is_empty() {
        return String::from("repositories: {}\n");
    }
    let mut text = String::from("repositories:\n");
    for (name, url, version) in deps {
        text.push_str(&format!(
            "  {name}:\n    type: git\n    url: \"{url}\"\n    version: \"{version}\"\n"
        ));
    }
    text
}

fn received(body: &str) -> Transfer {
    Transfer::Ended {
        succeeded: true,
        status: "exit status: 0".to_string(),
        body: body.as_bytes().to_vec(),
    }
}

fn found(text: &str) -> Answer {
    interpret(FetchResult::Found(text.to_string()))
}

/// Drives a crawler by hand and notes every address that it asks for.
fn drive(pages: &[(String, FetchResult)]) -> (Crawler, Vec<String>) {
    let mut crawler = Crawler::new(ROOT.to_string(), ROOT_RAW.to_string());
    let mut asked = Vec::new();
    loop {
        let wanted = match crawler.action() {
            Action::Fetch(raw_url) => raw_url.to_string(),
            _ => break,
        };
        asked.push(wanted.clone());
        let result = pages
            .iter()
            .find(|(url, _)| *url == wanted)
            .map(|(_, result)| result.clone())
            .unwrap_or(FetchResult::NotFound);
        crawler.deliver(result);
    }
    (crawler, asked)
}

#[test]
fn single_dependency_without_manifest() {
    let root = "repositories: {dep1: {type: git, url: \"https://github.com/org/dep1\", version: \"v1.0\"}}";
    let answers = vec![(ROOT_RAW.to_string(), found(root))];
    let graph = crawl(ROOT, ROOT_RAW, &answers).unwrap();
    assert_eq!(graph.render(), "graph LR;\n    org/repo-->org/dep1;\n");
}

#[test]
fn an_edge_names_its_target_as_the_manifest_does() {
    let root = "repositories: {dep1: {type: git, url: \"https://github.com/org/dep1.git\", version: \"v1.0\"}}";
    let answers = vec![(ROOT_RAW.to_string(), found(root))];
    let graph = crawl(ROOT, ROOT_RAW, &answers).unwrap();
    assert_eq!(graph.edges_from(ROOT), vec!["https://github.com/org/dep1.git".to_string()]);
    assert_eq!(graph.render(), "graph LR;\n    org/repo-->org/dep1.git;\n");
}

#[test]
fn single_dependency_answered_with_the_absent_body() {
    let root = "repositories: {dep1: {type: git, url: \"https://github.com/org/dep1\", version: \"v1.0\"}}";
    let dep1_raw = to_raw_url("https://github.com/org/dep1", "v1.0");
    let pages = vec![
        (ROOT_RAW.to_string(), classify(received(root))),
        (dep1_raw.clone(), classify(received("404: Not Found"))),
    ];
    let (crawler, asked) = drive(&pages);
    assert_eq!(asked, vec![ROOT_RAW.to_string(), dep1_raw]);
    match crawler.action() {
        Action::Finished(graph) => {
            assert_eq!(graph.render(), "graph LR;\n    org/repo-->org/dep1;\n")
        }
        other => panic!("unexpected {:?}", other),
    }
}

#[test]
fn traversal_is_depth_first_in_manifest_order() {
    let a = "https://github.com/org/a";
    let b = "https://github.com/org/b";
    let c = "https://github.com/org/c";
    let answers = vec![
        (ROOT_RAW.to_string(), found(&manifest(&[("a", a, "1"), ("b", b, "1")]))),
        (to_raw_url(a, "1"), found(&manifest(&[("c", c, "1")]))),
        (to_raw_url(b, "1"), found(&manifest(&[("c", c, "2")]))),
    ];
    let graph = crawl(ROOT, ROOT_RAW, &answers).unwrap();
    assert_eq!(
        graph.render(),
        "graph LR;\n    org/a-->org/c;\n    org/b-->org/c;\n    org/repo-->org/a;\n    org/repo-->org/b;\n"
    );
    let pages: Vec<(String, FetchResult)> = vec![
        (ROOT_RAW.to_string(), FetchResult::Found(manifest(&[("a", a, "1"), ("b", b, "1")]))),
        (to_raw_url(a, "1"), FetchResult::Found(manifest(&[("c", c, "1")]))),
        (to_raw_url(b, "1"), FetchResult::Found(manifest(&[("c", c, "2")]))),
    ];
    let (_, asked) = drive(&pages);
    assert_eq!(
        asked,
        vec![
            ROOT_RAW.to_string(),
            to_raw_url(a, "1"),
            to_raw_url(c, "1"),
            to_raw_url(b, "1"),
            to_raw_url(c, "2"),
        ]
    );
}

#[test]
fn a_manifest_that_was_found_is_fetched_once() {
    let a = "https://github.com/org/a";
    let shared = "https://github.com/org/shared";
    let pages: Vec<(String, FetchResult)> = vec![
        (
            ROOT_RAW.to_string(),
            FetchResult::Found(manifest(&[("a", a, "1"), ("shared", shared, "1"), ("again", shared, "1")])),
        ),
        (to_raw_url(a, "1"), FetchResult::Found(manifest(&[("shared", shared, "1")]))),
        (to_raw_url(shared, "1"), FetchResult::Found(manifest(&[]))),
    ];
    let (crawler, asked) = drive(&pages);
    let shared_raw = to_raw_url(shared, "1");
    assert_eq!(asked.iter().filter(|url| **url == shared_raw).count(), 1);
    assert_eq!(asked.len(), 3);
    match crawler.action() {
        Action::Finished(graph) => assert_eq!(
            graph.render(),
            "graph LR;\n    org/a-->org/shared;\n    org/repo-->org/a;\n    org/repo-->org/shared;\n    org/repo-->org/shared;\n"
        ),
        other => panic!("unexpected {:?}", other),
    }
}

#[test]
fn an_absent_manifest_is_asked_for_each_time_it_is_referenced() {
    let gone = "https://github.com/org/gone";
    let pages: Vec<(String, FetchResult)> = vec![(
        ROOT_RAW.to_string(),
        FetchResult::Found(manifest(&[("one", gone, "1"), ("two", gone, "1")])),
    )];
    let (_, asked) = drive(&pages);
    assert_eq!(asked, vec![ROOT_RAW.to_string(), to_raw_url(gone, "1"), to_raw_url(gone, "1")]);
}

#[test]
fn a_cycle_ends() {
    let a = "https://github.com/org/repo";
    let b = "https://github.com/org/b";
    let answers = vec![
        (ROOT_RAW.to_string(), found(&manifest(&[("b", b, "v2")]))),
        (to_raw_url(b, "v2"), found(&manifest(&[("a", a, "v1")]))),
        (to_raw_url(a, "v1"), found(&manifest(&[("b", b, "v2")]))),
    ];
    let graph = crawl(ROOT, ROOT_RAW, &answers).unwrap();
    assert_eq!(
        graph.render(),
        "graph LR;\n    org/b-->org/repo;\n    org/repo-->org/b;\n    org/repo-->org/b;\n"
    );
}

#[test]
fn a_manifest_that_refers_to_itself_ends() {
    let answers = vec![(
        ROOT_RAW.to_string(),
        found(&manifest(&[("me", "https://github.com/org/me", "1")])),
    ), (
        to_raw_url("https://github.com/org/me", "1"),
        found(&manifest(&[("me", "https://github.com/org/me", "1")])),
    )];
    let graph = crawl(ROOT, ROOT_RAW, &answers).unwrap();
    assert_eq!(graph.render(), "graph LR;\n    org/me-->org/me;\n    org/repo-->org/me;\n");
}

#[test]
fn an_absent_dependency_has_no_outgoing_edges() {
    let gone = "https://github.com/org/gone";
    let kept = "https://github.com/org/kept";
    let answers = vec![
        (ROOT_RAW.to_string(), found(&manifest(&[("gone", gone, "1"), ("kept", kept, "1")]))),
        (to_raw_url(gone, "1"), Answer::Absent),
        (to_raw_url(kept, "1"), found(&manifest(&[("x", "https://github.com/org/x", "1")]))),
    ];
    let graph = crawl(ROOT, ROOT_RAW, &answers).unwrap();
    assert_eq!(graph.edges_from(gone), Vec::<String>::new());
    assert_eq!(graph.edges_from(ROOT), vec![gone.to_string(), kept.to_string()]);
    assert_eq!(graph.edges_from(kept), vec!["https://github.com/org/x".to_string()]);
}

#[test]
fn an_absent_root_gives_an_empty_graph() {
    let graph = crawl(ROOT, ROOT_RAW, &vec![]).unwrap();
    assert_eq!(graph.render(), "graph LR;\n");
}

#[test]
fn a_missing_field_fails_the_whole_run() {
    let good = "https://github.com/org/good";
    for (field, text) in [
        ("type", "repositories:\n  good:\n    type: git\n    url: https://github.com/org/good\n    version: v1\n  bad:\n    url: u\n    version: v\n"),
        ("url", "repositories:\n  good:\n    type: git\n    url: https://github.com/org/good\n    version: v1\n  bad:\n    type: git\n    version: v\n"),
        ("version", "repositories:\n  good:\n    type: git\n    url: https://github.com/org/good\n    version: v1\n  bad:\n    type: git\n    url: u\n"),
    ] {
        let answers = vec![
            (ROOT_RAW.to_string(), found(text)),
            (to_raw_url(good, "v1"), found(&manifest(&[]))),
        ];
        match crawl(ROOT, ROOT_RAW, &answers) {
            Err(CrawlError::Manifest { raw_url, error }) => {
                assert_eq!(raw_url, ROOT_RAW);
                assert_eq!(error, ParseError::MissingKey(field.to_string()));
            }
            other => panic!("unexpected {:?}", other),
        }
    }
}

#[test]
fn a_bad_manifest_deep_in_the_graph_fails_the_whole_run() {
    let a = "https://github.com/org/a";
    let answers = vec![
        (ROOT_RAW.to_string(), found(&manifest(&[("a", a, "1")]))),
        (to_raw_url(a, "1"), found("")),
    ];
    assert_eq!(
        crawl(ROOT, ROOT_RAW, &answers).unwrap_err(),
        CrawlError::Manifest { raw_url: to_raw_url(a, "1"), error: ParseError::Empty }
    );
}

#[test]
fn a_failed_fetch_fails_the_whole_run() {
    let a = "https://github.com/org/a";
    let pages: Vec<(String, FetchResult)> = vec![
        (ROOT_RAW.to_string(), FetchResult::Found(manifest(&[("a", a, "1"), ("b", a, "2")]))),
        (
            to_raw_url(a, "1"),
            classify(Transfer::Ended {
                succeeded: false,
                status: "exit status 6".to_string(),
                body: Vec::new(),
            }),
        ),
    ];
    let (crawler, asked) = drive(&pages);
    assert_eq!(asked, vec![ROOT_RAW.to_string(), to_raw_url(a, "1")]);
    match crawler.action() {
        Action::Failed(error) => assert_eq!(
            *error,
            CrawlError::Transport { raw_url: to_raw_url(a, "1"), detail: "exit status 6".to_string() }
        ),
        other => panic!("unexpected {:?}", other),
    }
    assert!(matches!(crawler.finish(), Some(Err(CrawlError::Transport { .. }))));
}

#[test]
fn two_entries_with_one_target_give_two_edges() {
    let dep = "https://github.com/org/dep";
    let answers = vec![(
        ROOT_RAW.to_string(),
        found(&manifest(&[("first", dep, "1"), ("second", dep, "1")])),
    )];
    let graph = crawl(ROOT, ROOT_RAW, &answers).unwrap();
    assert_eq!(graph.edges_from(ROOT), vec![dep.to_string(), dep.to_string()]);
    assert_eq!(graph.render(), "graph LR;\n    org/repo-->org/dep;\n    org/repo-->org/dep;\n");
}

#[test]
fn two_runs_render_the_same_text() {
    let a = "https://github.com/org/a";
    let b = "https://github.com/org/b";
    let answers = vec![
        (ROOT_RAW.to_string(), found(&manifest(&[("b", b, "1"), ("a", a, "1")]))),
        (to_raw_url(a, "1"), found(&manifest(&[("b", b, "1")]))),
        (to_raw_url(b, "1"), found(&manifest(&[("a", a, "2")]))),
    ];
    let first = crawl(ROOT, ROOT_RAW, &answers).unwrap().render();
    let second = crawl(ROOT, ROOT_RAW, &answers).unwrap().render();
    assert_eq!(first, second);
    assert_eq!(
        first,
        "graph LR;\n    org/a-->org/b;\n    org/b-->org/a;\n    org/repo-->org/b;\n    org/repo-->org/a;\n"
    );
}

#[test]
fn a_crawler_that_waits_has_no_result() {
    let crawler = Crawler::new(ROOT.to_string(), ROOT_RAW.to_string());
    assert!(matches!(crawler.action(), Action::Fetch(ROOT_RAW)));
    assert!(crawler.finish().is_none());
}

#[test]
fn an_answer_to_a_finished_crawler_changes_nothing() {
    let mut crawler = Crawler::new(ROOT.to_string(), ROOT_RAW.to_string());
    crawler.accept(Answer::Absent);
    assert!(matches!(crawler.action(), Action::Finished(_)));
    crawler.accept(found(&manifest(&[("a", "https://github.com/org/a", "1")])));
    match crawler.finish() {
        Some(Ok(graph)) => assert_eq!(graph.render(), "graph LR;\n"),
        other => panic!("unexpected {:?}", other),
    }
}

#[test]
fn interpret_parses_what_was_found() {
    assert_eq!(interpret(FetchResult::NotFound), Answer::Absent);
    assert_eq!(
        interpret(FetchResult::TransportFailure("x".to_string())),
        Answer::Broken("x".to_string())
    );
    assert_eq!(
        interpret(FetchResult::Found(manifest(&[("n", "u", "v")]))),
        Answer::Manifest(Ok(vec![DependencyEntry {
            name: "n".to_string(),
            kind: "git".to_string(),
            url: "u".to_string(),
            version: "v".to_string(),
        }]))
    );
    assert_eq!(
        interpret(FetchResult::Found("3".to_string())),
        Answer::Manifest(Err(ParseError::NotAMapping))
    );
}

#[test]
fn answer_at_takes_the_first_pair_with_the_address() {
    let answers = vec![
        ("a".to_string(), Answer::Broken("first".to_string())),
        ("a".to_string(), Answer::Broken("second".to_string())),
    ];
    assert_eq!(answer_at(&answers, "a"), Answer::Broken("first".to_string()));
    assert_eq!(answer_at(&answers, "b"), Answer::Absent);
}

#[test]
fn duplicate_of_an_answer_is_equal() {
    let answer = found(&manifest(&[("n", "u", "v")]));
    assert_eq!(answer.duplicate(), answer);
    let bad = found("repositories:\n  d: plain\n");
    assert_eq!(bad.duplicate(), bad);
}

#[test]
fn a_crawler_driven_by_hand_ends_where_crawl_ends() {
    let a = "https://github.com/org/a";
    let b = "https://github.com/org/b";
    let texts = vec![
        (ROOT_RAW.to_string(), manifest(&[("a", a, "v1"), ("b", b, "v1"), ("a2", a, "v2")])),
        (to_raw_url(a, "v1"), manifest(&[("b", b, "v1"), ("root", ROOT, "main")])),
        (to_raw_url(b, "v1"), manifest(&[("a", a, "v1")])),
        (to_raw_url(ROOT, "main"), manifest(&[("b", b, "v2")])),
    ];
    let pages: Vec<(String, FetchResult)> = texts
        .iter()
        .map(|(url, text)| (url.clone(), FetchResult::Found(text.clone())))
        .collect();
    let answers: Vec<(String, Answer)> =
        texts.iter().map(|(url, text)| (url.clone(), found(text))).collect();
    let (crawler, asked) = drive(&pages);
    let by_hand = match crawler.finish() {
        Some(Ok(graph)) => graph.render(),
        other => panic!("unexpected {:?}", other),
    };
    assert_eq!(by_hand, crawl(ROOT, ROOT_RAW, &answers).unwrap().render());
    assert_eq!(
        by_hand,
        "graph LR;\n    org/a-->org/b;\n    org/a-->org/repo;\n    org/b-->org/a;\n    org/repo-->org/a;\n    org/repo-->org/b;\n    org/repo-->org/b;\n    org/repo-->org/a;\n"
    );
    assert_eq!(
        asked,
        vec![
            ROOT_RAW.to_string(),
            to_raw_url(a, "v1"),
            to_raw_url(b, "v1"),
            to_raw_url(ROOT, "main"),
            to_raw_url(b, "v2"),
            to_raw_url(a, "v2"),
        ]
    );
}

#[test]
fn a_cycle_gives_no_more_edges_than_the_manifests_have_entries() {
    let a = "https://github.com/org/a";
    let b = "https://github.com/org/b";
    let answers = vec![
        (ROOT_RAW.to_string(), found(&manifest(&[("a", a, "v1"), ("b", b, "v1")]))),
        (to_raw_url(a, "v1"), found(&manifest(&[("b", b, "v1"), ("root", ROOT, "main")]))),
        (to_raw_url(b, "v1"), found(&manifest(&[("a", a, "v1")]))),
        (to_raw_url(b, "v1"), found(&manifest(&[("a", a, "v1"), ("a", a, "v2"), ("a", a, "v3")]))),
        ("https://unreached.example/x".to_string(), found(&manifest(&[("a", a, "v1")]))),
    ];
    let graph = crawl(ROOT, ROOT_RAW, &answers).unwrap();
    let edges: usize = graph.sources().iter().map(|from| graph.edges_from(from).len()).sum();
    assert_eq!(edges, 5);
    assert!(edges <= 2 + 2 + 1 + 1);
}
