use depgraph::document::{load_documents, Node};
use depgraph::manifest::{find, parse, parse_documents, read_entry, DependencyEntry, ParseError};

fn text(s: &str) -> Node {
    Node::Text(s.to_string())
}

fn entry(name: &str, kind: &str, url: &str, version: &str) -> DependencyEntry {
    DependencyEntry {
        name: name.to_string(),
        kind: kind.to_string(),
        url: url.to_string(),
        version: version.to_string(),
    }
}

#[test]
fn load_documents_reads_scalars_and_collections() {
    let docs = load_documents("a: 1\nb: [x, 2.5, true, ~]\n").unwrap();
    assert_eq!(
        docs,
        vec![Node::Mapping(vec![
            (text("a"), Node::Integer(1)),
            (
                text("b"),
                Node::Sequence(vec![
                    text("x"),
                    Node::Real("2.5".to_string()),
                    Node::Boolean(true),
                    Node::Null,
                ])
            ),
        ])]
    );
}

#[test]
fn load_documents_keeps_the_order_of_a_mapping() {
    let docs = load_documents("z: 1\na: 2\nm: 3\n").unwrap();
    assert_eq!(
        docs,
        vec![Node::Mapping(vec![
            (text("z"), Node::Integer(1)),
            (text("a"), Node::Integer(2)),
            (text("m"), Node::Integer(3)),
        ])]
    );
}

#[test]
fn load_documents_rejects_malformed_text() {
    assert!(load_documents("a: [1, 2").is_err());
}

#[test]
fn load_documents_of_empty_text_is_empty() {
    assert_eq!(load_documents("").unwrap(), Vec::<Node>::new());
}

#[test]
fn parse_reads_entries_in_order() {
    let manifest = "repositories:\n  zeta:\n    type: git\n    url: https://github.com/org/zeta.git\n    version: main\n  alpha:\n    type: git\n    url: https://github.com/org/alpha.git\n    version: v2\n";
    assert_eq!(
        parse(manifest),
        Ok(vec![
            entry("zeta", "git", "https://github.com/org/zeta.git", "main"),
            entry("alpha", "git", "https://github.com/org/alpha.git", "v2"),
        ])
    );
}

#[test]
fn parse_reads_flow_style() {
    let manifest = "repositories: {dep1: {type: git, url: \"https://github.com/org/dep1.git\", version: \"v1.0\"}}";
    assert_eq!(
        parse(manifest),
        Ok(vec![entry("dep1", "git", "https://github.com/org/dep1.git", "v1.0")])
    );
}

#[test]
fn parse_of_empty_text_is_empty() {
    assert_eq!(parse(""), Err(ParseError::Empty));
}

#[test]
fn parse_of_malformed_text_is_a_syntax_error() {
    assert!(matches!(parse("repositories: [1, 2"), Err(ParseError::Syntax(_))));
}

#[test]
fn parse_of_a_scalar_is_not_a_mapping() {
    assert_eq!(parse("just a string"), Err(ParseError::NotAMapping));
    assert_eq!(parse("- a\n- b\n"), Err(ParseError::NotAMapping));
}

#[test]
fn parse_without_repositories_misses_the_key() {
    assert_eq!(
        parse("other: {}\n"),
        Err(ParseError::MissingKey("repositories".to_string()))
    );
}

#[test]
fn parse_of_repositories_that_is_no_mapping_is_invalid() {
    assert_eq!(
        parse("repositories: 3\n"),
        Err(ParseError::InvalidEntry(text("repositories"), Node::Integer(3)))
    );
}

#[test]
fn parse_of_repositories_without_value_is_invalid() {
    assert_eq!(
        parse("repositories:\n"),
        Err(ParseError::InvalidEntry(text("repositories"), Node::Null))
    );
}

#[test]
fn parse_of_malformed_text_carries_the_report_of_the_loader() {
    let bad = "repositories: [1, 2";
    let report = yaml_rust::YamlLoader::load_from_str(bad).unwrap_err().to_string();
    assert_eq!(parse(bad), Err(ParseError::Syntax(report)));
}

#[test]
fn parse_of_a_version_that_is_a_number_is_invalid() {
    assert!(matches!(
        parse("repositories:\n  d:\n    type: git\n    url: u\n    version: 1.2\n"),
        Err(ParseError::InvalidEntry(_, _))
    ));
}

#[test]
fn parse_of_no_entries_is_an_empty_list() {
    assert_eq!(parse("repositories: {}\n"), Ok(vec![]));
}

#[test]
fn parse_reports_each_missing_field() {
    assert_eq!(
        parse("repositories:\n  d:\n    url: u\n    version: v\n"),
        Err(ParseError::MissingKey("type".to_string()))
    );
    assert_eq!(
        parse("repositories:\n  d:\n    type: git\n    version: v\n"),
        Err(ParseError::MissingKey("url".to_string()))
    );
    assert_eq!(
        parse("repositories:\n  d:\n    type: git\n    url: u\n"),
        Err(ParseError::MissingKey("version".to_string()))
    );
}

#[test]
fn parse_reports_the_first_missing_field() {
    assert_eq!(
        parse("repositories:\n  d:\n    other: 1\n"),
        Err(ParseError::MissingKey("type".to_string()))
    );
    assert_eq!(
        parse("repositories:\n  d:\n    type: 3\n"),
        Err(ParseError::MissingKey("url".to_string()))
    );
}

#[test]
fn parse_rejects_a_field_that_is_no_string() {
    let fields = Node::Mapping(vec![
        (text("type"), text("git")),
        (text("url"), text("u")),
        (text("version"), Node::Integer(3)),
    ]);
    assert_eq!(
        parse("repositories:\n  d:\n    type: git\n    url: u\n    version: 3\n"),
        Err(ParseError::InvalidEntry(text("d"), fields))
    );
}

#[test]
fn parse_rejects_an_entry_that_is_no_mapping() {
    assert_eq!(
        parse("repositories:\n  d: plain\n"),
        Err(ParseError::InvalidEntry(text("d"), text("plain")))
    );
}

#[test]
fn parse_rejects_a_name_that_is_no_string() {
    let fields = Node::Mapping(vec![
        (text("type"), text("git")),
        (text("url"), text("u")),
        (text("version"), text("v")),
    ]);
    assert_eq!(
        parse("repositories:\n  7:\n    type: git\n    url: u\n    version: v\n"),
        Err(ParseError::InvalidEntry(Node::Integer(7), fields))
    );
}

#[test]
fn parse_fails_as_a_whole_on_one_bad_entry() {
    let manifest = "repositories:\n  good:\n    type: git\n    url: u\n    version: v\n  bad:\n    type: git\n    version: v\n";
    assert_eq!(parse(manifest), Err(ParseError::MissingKey("url".to_string())));
}

#[test]
fn parse_reports_the_fault_of_the_first_bad_entry() {
    let manifest = "repositories:\n  one: plain\n  two:\n    type: git\n";
    assert_eq!(
        parse(manifest),
        Err(ParseError::InvalidEntry(text("one"), text("plain")))
    );
}

#[test]
fn parse_reads_only_the_first_document() {
    let manifest = "repositories: {}\n---\nnot: a manifest\n";
    assert_eq!(parse(manifest), Ok(vec![]));
}

#[test]
fn parse_documents_works_on_nodes() {
    let fields = Node::Mapping(vec![
        (text("version"), text("v1")),
        (text("extra"), Node::Null),
        (text("url"), text("https://github.com/o/r")),
        (text("type"), text("git")),
    ]);
    let docs = vec![Node::Mapping(vec![(
        text("repositories"),
        Node::Mapping(vec![(text("r"), fields)]),
    )])];
    assert_eq!(
        parse_documents(&docs),
        Ok(vec![entry("r", "git", "https://github.com/o/r", "v1")])
    );
    assert_eq!(parse_documents(&vec![]), Err(ParseError::Empty));
    assert_eq!(parse_documents(&vec![Node::BadValue]), Err(ParseError::NotAMapping));
}

#[test]
fn find_returns_the_first_value_under_a_key() {
    let fields = vec![
        (Node::Integer(1), text("no")),
        (text("k"), text("first")),
        (text("k"), text("second")),
    ];
    assert_eq!(find(&fields, "k"), Some(&text("first")));
    assert_eq!(find(&fields, "absent"), None);
    assert_eq!(find(&fields, "1"), None);
}

#[test]
fn read_entry_reads_one_entry() {
    let fields = Node::Mapping(vec![
        (text("type"), text("git")),
        (text("url"), text("u")),
        (text("version"), text("v")),
    ]);
    assert_eq!(read_entry(&text("n"), &fields), Ok(entry("n", "git", "u", "v")));
    assert_eq!(
        read_entry(&Node::Null, &Node::Null),
        Err(ParseError::InvalidEntry(Node::Null, Node::Null))
    );
}

#[test]
fn duplicate_copies_the_whole_tree() {
    let node = Node::Mapping(vec![(
        text("k"),
        Node::Sequence(vec![Node::Integer(1), Node::Alias(2), Node::BadValue, Node::Boolean(false)]),
    )]);
    assert_eq!(node.duplicate(), node);
}
