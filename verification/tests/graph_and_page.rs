use dep_analysis::dependencies::InternalDependency;
use dep_analysis::failure::Failure;
use dep_analysis::graph::{top_level_graph, top_level_module, TopLevelEdge, TopLevelGraph};
use dep_analysis::output::{
    json_document, temporary_html_path, write_or_open_top_level_html, HtmlOutput, OutputStep,
};
use dep_analysis::path::FilePath;
use dep_analysis::prefix::PathStyle;
use dep_analysis::render::{
    escape_html, escape_script_json, module_edge_counts, node_counts, render_top_level_html,
    ModuleEdgeCounts, NodeCounts,
};
use dep_analysis::script::graph_script;
use serde_json::Value;

fn path(text: &str) -> FilePath {
    FilePath::of_text(PathStyle::Unix, text)
}

/// The path as it was written.
fn shown(path: &FilePath) -> String {
    String::from_utf8(path.bytes().clone()).unwrap()
}

fn internal_dep(
    file: &str,
    line: usize,
    from_module: &str,
    to_module: &str,
) -> InternalDependency {
    InternalDependency {
        file: path(file),
        line,
        from_module: from_module.to_owned(),
        to_module: to_module.to_owned(),
    }
}

fn edge(from: &str, to: &str, count: usize) -> TopLevelEdge {
    TopLevelEdge {
        from: from.to_owned(),
        to: to.to_owned(),
        count,
    }
}

/// The data that the page's script draws.
fn graph_json(graph: &TopLevelGraph) -> String {
    let nodes = node_counts(graph)
        .into_iter()
        .map(|node| {
            let mut object = serde_json::Map::new();
            object.insert("id".to_owned(), Value::from(node.id));
            object.insert("incoming".to_owned(), Value::from(node.incoming));
            object.insert("outgoing".to_owned(), Value::from(node.outgoing));
            Value::Object(object)
        })
        .collect::<Vec<_>>();
    let mut data = serde_json::Map::new();
    data.insert("nodes".to_owned(), Value::Array(nodes));
    Value::Object(data).to_string()
}

#[test]
fn top_level_graph_collapses_submodule_edges() {
    let file = "/repo/src/a.rs";
    let graph = top_level_graph(&vec![
        internal_dep(file, 1, "crate::a", "crate::b"),
        internal_dep(file, 2, "crate::a::nested", "crate::b::deep"),
        internal_dep(file, 3, "crate::a", "crate::a::nested"),
        internal_dep(file, 4, "crate", "crate::b"),
    ]);

    assert_eq!(graph.modules, ["a", "b"]);
    assert_eq!(
        graph.edges,
        [TopLevelEdge {
            from: "a".to_owned(),
            to: "b".to_owned(),
            count: 2
        }]
    );

    let html = render_top_level_html(&graph, &graph_json(&graph));
    assert!(html.contains("<svg"));
    assert!(html.contains(">a<"));
    assert!(html.contains(">b<"));
    assert!(html.contains(r#""id":"a","incoming":0,"outgoing":2"#));
    assert!(html.contains(r#""id":"b","incoming":2,"outgoing":0"#));
    assert!(!html.contains("crate::a"));
    assert!(html.contains(r#""marker-end": "url(#arrow)""#));
    assert!(html.contains("markerWidth=\"10\""));
    assert!(html.contains("M 2 3.5 L 17 7 L 2 10.5 Z"));
    assert!(html.contains("installDrag(group, node);"));
    assert!(html.contains("requestAnimationFrame(tick);"));
    assert!(html.contains("node.fixed = true;"));
    assert!(html.contains("node.dragging = false;"));
    assert!(html.contains("function toggleSelection(node)"));
    assert!(html.contains("function spreadFocus(node)"));
    assert!(html.contains("function spreadAllVisible()"));
    assert!(html.contains("function releasePreviousPinnedNode(nextNode)"));
    assert!(html.contains("function pinNode(node)"));
    assert!(html.contains("let activeDragNode = null;"));
    assert!(html.contains("let localRelaxNode = null;"));
    assert!(html.contains("function taperLocalRelax()"));
    assert!(html.contains("function applyLocalDragForces(draggedNode)"));
    assert!(html.contains("function applyLocalCollisionForces()"));
    assert!(html.contains("function startLocalRelax(node)"));
    assert!(html.contains("localRelaxUntil = performance.now() + 1000;"));
    assert!(html.contains("function easeInOutCubic(progress)"));
    assert!(html.contains("if (localForceNode && !selectedNode)"));
    assert!(html.contains("function edgeLabelPoint(edge)"));
    assert!(html.contains("const offset = hasReverse ? 18 : 0;"));
    assert!(html.contains("function focusedNeighbors(node)"));
    assert!(html.contains("function placeFocusGroup(items"));
    assert!(html.contains("function animateFocusLayout(focusNodes, keepFixed)"));
    assert!(html.contains("function easeOutCubic(progress)"));
    assert!(html.contains("function relaxFocusTargets(focusNodes, anchor)"));
    assert!(html.contains("function nudgeFocusTarget(node, dx, dy)"));
    assert!(html.contains("function settleSimulation()"));
    assert!(html.contains("if (!clearingSelection) reheat();"));
    assert!(html.contains("if (!keepFixed) settleSimulation();"));
    assert!(html.contains("setFocusTarget(node, centerX, centerY);"));
    assert!(html.contains("requestAnimationFrame(frame);"));
    assert!(html.contains("group.classList.toggle(\"selected\""));
    assert!(html.contains("group.classList.toggle(\"hidden\""));
    assert!(html.contains("Outgoing from selected"));
    assert!(html.contains("arrow-outgoing"));
    assert!(html.contains("arrow-incoming"));
    assert!(html.contains("arrow-bidirectional"));
    assert!(html.contains("stroke-width: 8px;"));
    assert!(html.contains("function selectedEdgeKind(edge)"));
    assert!(html.contains("function selectedEdgeKindFor(edge, node)"));
    assert!(html.contains("return \"bidirectional\";"));
}

#[test]
fn top_level_modules() {
    assert_eq!(top_level_module("crate::a"), Some("a".to_owned()));
    assert_eq!(top_level_module("crate::a::b::c"), Some("a".to_owned()));
    assert_eq!(top_level_module("crate"), None);
    assert_eq!(top_level_module("other::a"), None);
    assert_eq!(top_level_module(""), None);
    assert_eq!(top_level_module("crate::"), Some(String::new()));
    assert_eq!(top_level_module("crate:::a"), Some(":a".to_owned()));
}

#[test]
fn edges_count_the_dependencies_between_modules() {
    let dependencies = vec![
        internal_dep("f", 1, "crate::c", "crate::a"),
        internal_dep("f", 2, "crate::a", "crate::c"),
        internal_dep("f", 3, "crate::a::x", "crate::c::y"),
        internal_dep("f", 4, "crate::a", "crate::b"),
        internal_dep("f", 5, "crate::a", "elsewhere"),
        internal_dep("f", 6, "crate::lonely::x", "crate::lonely::y"),
    ];
    let graph = top_level_graph(&dependencies);
    assert_eq!(graph.modules, ["a", "b", "c"]);
    assert_eq!(graph.edges, [edge("a", "b", 1), edge("a", "c", 2), edge("c", "a", 1)]);
    let counts = |id: &str, incoming: usize, outgoing: usize| NodeCounts {
        id: id.to_owned(),
        incoming,
        outgoing,
    };
    assert_eq!(
        node_counts(&graph),
        [counts("a", 1, 3), counts("b", 1, 0), counts("c", 2, 1)]
    );
    for edge in &graph.edges {
        assert!(edge.count > 0);
        assert!(graph.modules.contains(&edge.from) && graph.modules.contains(&edge.to));
        assert_ne!(edge.from, edge.to);
    }
    for module in &graph.modules {
        assert!(graph.edges.iter().any(|edge| edge.from == *module || edge.to == *module));
    }

    let mut reversed = dependencies;
    reversed.reverse();
    let again = top_level_graph(&reversed);
    assert_eq!(again.modules, graph.modules);
    assert_eq!(again.edges, graph.edges);
}

#[test]
fn counts_cover_modules_and_the_ends_of_edges() {
    let graph = TopLevelGraph {
        modules: vec!["idle".to_owned(), "a".to_owned()],
        edges: vec![edge("a", "b", 3), edge("b", "a", 4), edge("a", "a", 5)],
    };
    let table = module_edge_counts(&graph);
    let counts = |incoming: usize, outgoing: usize| ModuleEdgeCounts { incoming, outgoing };
    assert_eq!(table.get(&"idle".to_owned()), Some(&counts(0, 0)));
    assert_eq!(table.get(&"a".to_owned()), Some(&counts(9, 8)));
    assert_eq!(table.get(&"b".to_owned()), Some(&counts(3, 4)));
    assert_eq!(table.get(&"c".to_owned()), None);
}

#[test]
fn html_is_escaped() {
    assert_eq!(
        escape_html("<a href=\"x\">&'</a>"),
        "&lt;a href=&quot;x&quot;&gt;&amp;&#39;&lt;/a&gt;"
    );
    assert_eq!(escape_html("plain \u{fc}"), "plain \u{fc}");
    assert_eq!(escape_html("&lt;"), "&amp;lt;");
    assert_ne!(escape_html("<"), escape_html("&lt;"));
}

#[test]
fn escaped_html_can_be_read_back() {
    let entities = ["&amp;", "&lt;", "&gt;", "&quot;", "&#39;"];
    let samples = ["", "plain \u{fc}; #", "<a b=\"c\">&'</a>", "&lt;", "&amp;#39;", "&&;lt;"];
    for text in samples {
        let escaped = escape_html(text);
        let unescaped = escaped
            .replace("&lt;", "<")
            .replace("&gt;", ">")
            .replace("&quot;", "\"")
            .replace("&#39;", "'")
            .replace("&amp;", "&");
        assert_eq!(unescaped, text);
        for (at, _) in escaped.match_indices('&') {
            assert!(entities.iter().any(|entity| escaped[at..].starts_with(entity)));
        }
        for more in samples {
            assert_eq!(escape_html(&format!("{text}{more}")), escaped.clone() + &escape_html(more));
        }
    }
}

#[test]
fn script_data_is_escaped() {
    assert_eq!(
        escape_script_json("{\"a\":\"</script>&\"}"),
        "{\"a\":\"\\u003c/script\\u003e\\u0026\"}"
    );
}

#[test]
fn escaping_script_data_keeps_its_value() {
    for json in [
        "{\"a<b\":[\"x&y\",\"\\\\<\",\"\\\"&\\\"\"],\"n\":-1.5e3}",
        "[\"\\u0026\\n<\\u00e9\u{1f600}>\", null, true]",
        "\"plain\"",
    ] {
        let escaped = escape_script_json(json);
        assert_eq!(escape_script_json(&escaped), escaped);
        let before: Value = serde_json::from_str(json).unwrap();
        let after: Value = serde_json::from_str(&escaped).unwrap();
        assert_eq!(before, after);
    }
}

#[test]
fn the_page_holds_its_parts() {
    let graph = TopLevelGraph {
        modules: vec!["a".to_owned(), "b<".to_owned(), "c".to_owned()],
        edges: vec![edge("a", "b<", 12), edge("c", "a", 0)],
    };
    let html = render_top_level_html(&graph, "{\"x\":\"<\"}");
    assert!(html.starts_with("<!doctype html>\n<html lang=\"en\">\n"));
    assert!(html.contains("<p>3 modules, 2 dependency edges. Drag boxes"));
    assert!(html.contains("<svg viewBox=\"0 0 1400 900\" role=\"img\""));
    assert!(html.contains(
        "<tbody>\n<tr><td>a</td><td>b&lt;</td><td>12</td></tr>\n\
         <tr><td>c</td><td>a</td><td>0</td></tr>\n</tbody>\n"
    ));
    assert!(html.contains(
        "<script type=\"application/json\" id=\"graph-data\">{\"x\":\"\\u003c\"}</script>\n"
    ));
    assert!(html.contains(graph_script()));
    assert!(html.contains("body {\n    margin: 0;\n"));
    assert!(html.ends_with("</script>\n</body>\n</html>\n"));
}

#[test]
fn an_empty_graph_has_a_page() {
    let graph = top_level_graph(&vec![]);
    assert!(graph.modules.is_empty() && graph.edges.is_empty());
    let html = render_top_level_html(&graph, "{}");
    assert!(html.contains("<p>0 modules, 0 dependency edges."));
    assert!(html.contains("<tbody>\n</tbody>"));
}

#[test]
fn a_page_goes_where_it_was_asked_for() {
    let graph = top_level_graph(&vec![]);
    let asked = write_or_open_top_level_html(&graph, "{}", Some(path("out.html")), path("tmp"));
    assert_eq!(asked.path, path("out.html"));
    assert!(!asked.open);
    assert_eq!(asked.html, render_top_level_html(&graph, "{}"));
    assert!(matches!(asked.written(Ok(())), OutputStep::Done));

    let shown = write_or_open_top_level_html(&graph, "{}", None, path("tmp"));
    assert_eq!(shown.path, path("tmp"));
    assert!(shown.open);
    assert!(matches!(shown.written(Ok(())), OutputStep::Open));
    assert!(matches!(shown.opened(Ok(None)), OutputStep::Done));
}

/// What is said of a failure whose path is shown as it was written.
fn told(failure: &Failure) -> String {
    match failure.path() {
        Some(path) => failure.message(&shown(path)),
        None => failure.message("no path"),
    }
}

fn message_of(step: OutputStep) -> String {
    match step {
        OutputStep::Fail { failure } => told(&failure),
        _ => panic!("expected a failure"),
    }
}

#[test]
fn failures_are_told() {
    let path = || path("/t/x");
    let error = || "broken".to_owned();
    let output = HtmlOutput {
        path: path(),
        html: String::new(),
        open: true,
    };
    assert_eq!(message_of(output.written(Err(error()))), "failed to write /t/x: broken");
    assert_eq!(message_of(output.opened(Err(error()))), "failed to run open /t/x: broken");
    assert_eq!(
        message_of(output.opened(Ok(Some("exit status: 1".to_owned())))),
        "open /t/x exited with exit status: 1"
    );
    assert_eq!(
        told(&Failure::Read { path: path(), error: error() }),
        "failed to read /t/x: broken"
    );
    assert_eq!(
        told(&Failure::Parse { path: path(), error: error() }),
        "failed to parse /t/x: broken"
    );
    assert_eq!(
        told(&Failure::ParseJson { path: path(), error: error() }),
        "failed to parse /t/x as internal dependency json: broken"
    );
    assert_eq!(
        told(&Failure::SerializeJson { error: error() }),
        "failed to serialize internal dependency json: broken"
    );
    assert_eq!(
        told(&Failure::WriteStdout { error: error() }),
        "failed to write stdout: broken"
    );
}

#[test]
fn temporary_pages_are_named_after_process_and_time() {
    assert_eq!(
        shown(&temporary_html_path(&path("/tmp"), 42, 1700000000123)),
        "/tmp/dep-analysis-42-1700000000123.html"
    );
    assert_eq!(
        shown(&temporary_html_path(&path("/tmp/"), 0, 0)),
        "/tmp/dep-analysis-0-0.html"
    );
    let name = |process: u32, milliseconds: u128| {
        temporary_html_path(&path(""), process, milliseconds)
    };
    assert_ne!(name(1, 23), name(12, 3));
}

#[test]
fn json_documents_end_in_a_line_break() {
    assert_eq!(json_document("[]".to_owned()), "[]\n");
}
