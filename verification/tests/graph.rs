use depgraph::graph::Graph;

#[test]
fn empty_graph_renders_the_header_only() {
    assert_eq!(Graph::new().render(), "graph LR;\n");
}

#[test]
fn render_sorts_sources_and_keeps_the_order_of_edges() {
    let mut g = Graph::new();
    g.add_edge("https://github.com/org/b", "https://github.com/org/z");
    g.add_edge("https://github.com/org/a", "https://github.com/org/y");
    g.add_edge("https://github.com/org/b", "https://github.com/org/x");
    g.add_edge("https://github.com/org/a", "https://github.com/org/c.git");
    assert_eq!(
        g.render(),
        "graph LR;\n    org/a-->org/y;\n    org/a-->org/c.git;\n    org/b-->org/z;\n    org/b-->org/x;\n"
    );
}

#[test]
fn add_edge_keeps_duplicates() {
    let mut g = Graph::new();
    g.add_edge("a", "b");
    g.add_edge("a", "b");
    assert_eq!(g.edges_from("a"), vec!["b".to_string(), "b".to_string()]);
    assert_eq!(g.render(), "graph LR;\n    a-->b;\n    a-->b;\n");
}

#[test]
fn edges_from_an_unknown_source_are_none() {
    let mut g = Graph::new();
    g.add_edge("a", "b");
    assert_eq!(g.edges_from("b"), Vec::<String>::new());
}

#[test]
fn sources_are_ascending() {
    let mut g = Graph::new();
    for from in ["m", "z", "a", "mm", "Z", ""] {
        g.add_edge(from, "t");
    }
    assert_eq!(g.sources(), vec!["", "Z", "a", "m", "mm", "z"]);
}

#[test]
fn render_keeps_other_hosts() {
    let mut g = Graph::new();
    g.add_edge("https://gitlab.com/o/r", "https://github.com/o/s");
    assert_eq!(g.render(), "graph LR;\n    https://gitlab.com/o/r-->o/s;\n");
}

#[test]
fn render_strips_the_host_only_at_the_start() {
    let mut g = Graph::new();
    g.add_edge("https://github.com/o/a", "https://example.com/m?u=https://github.com/o/b");
    assert_eq!(
        g.render(),
        "graph LR;\n    o/a-->https://example.com/m?u=https://github.com/o/b;\n"
    );
}

#[test]
fn render_strips_the_host_once() {
    let mut g = Graph::new();
    g.add_edge("https://github.com/https://github.com/o/a", "https://github.com/");
    assert_eq!(g.render(), "graph LR;\n    https://github.com/o/a-->;\n");
}
