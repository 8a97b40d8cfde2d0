use m1_visualiser::dot::{edge_style, node_style, quote, render};
use m1_visualiser::model::{
    EdgeKind, GraphEdge, GraphModel, GraphNode, NodeKind, NodeOverlay, Overlay, OverlayCell,
    OverlayKind,
};

fn sample() -> GraphModel {
    let mut g = GraphModel::new(Some("Demo".into()));
    let mut root = GraphNode::new("Root", NodeKind::Group);
    root.parent = None;
    g.nodes.push(root);
    let mut engine = GraphNode::new("Root.Engine", NodeKind::Group);
    engine.parent = Some("Root".into());
    g.nodes.push(engine);
    let mut ch = GraphNode::new("Root.Engine.Speed", NodeKind::Channel);
    ch.unit = Some("rpm".into());
    ch.parent = Some("Root.Engine".into());
    g.nodes.push(ch);
    g.edges.push(GraphEdge::new(
        "Root.Engine",
        "Root.Engine.Speed",
        EdgeKind::Hierarchy,
    ));
    g
}

fn value_overlay(node: &str, series: Vec<OverlayCell>, start_tick: Option<usize>) -> Overlay {
    let time = (0..series.len()).map(|i| format!("0.0{i}")).collect();
    Overlay {
        kind: OverlayKind::Value,
        time,
        nodes: vec![(
            node.to_string(),
            NodeOverlay {
                series,
                delta: None,
                max_abs_delta: None,
            },
        )],
        external: Vec::new(),
        changed: Vec::new(),
        eps: None,
        start_tick,
    }
}

#[test]
fn renders_digraph_with_nodes_and_edges() {
    let dot = render(&sample());
    assert!(dot.starts_with("digraph m1 {"));
    assert!(dot.contains("\"Root.Engine.Speed\""));
    assert!(dot.trim_end().ends_with('}'));
}

#[test]
fn quoting_escapes_quotes_and_backslashes() {
    assert_eq!(quote("a\"b\\c"), "\"a\\\"b\\\\c\"");
}

#[test]
fn emits_cluster_for_group_nodes() {
    let dot = render(&sample());
    assert!(
        dot.contains("subgraph \"cluster_Root.Engine\" {"),
        "expected a cluster for Root.Engine:\n{dot}"
    );
    assert!(
        dot.contains("subgraph \"cluster_Root\" {"),
        "expected a cluster for Root:\n{dot}"
    );
    assert!(
        dot.contains("label=\"Engine\""),
        "cluster should be labelled by group leaf:\n{dot}"
    );
    let decls: Vec<&str> = dot
        .lines()
        .filter(|l| l.contains("\"Root.Engine.Speed\" [label="))
        .collect();
    assert_eq!(
        decls.len(),
        1,
        "channel should be declared exactly once:\n{dot}"
    );
    assert!(
        decls[0].starts_with("      "),
        "channel decl should be nested inside its cluster (indented):\n{}",
        decls[0]
    );
}

#[test]
fn intra_cluster_hierarchy_edges_are_suppressed() {
    let dot = render(&sample());
    assert!(
        !dot.contains("\"Root.Engine\" -> \"Root.Engine.Speed\""),
        "intra-cluster hierarchy edge should be suppressed:\n{dot}"
    );
}

#[test]
fn dot_renders_without_overlay_unchanged() {
    let g = sample();
    assert!(g.overlay.is_none());
    let bare = render(&g);
    assert!(bare.starts_with("digraph m1 {"));
    assert!(bare.trim_end().ends_with('}'));

    let unmatched = value_overlay(
        "Root.Other.Thing",
        vec![OverlayCell::Num("99".into())],
        None,
    );
    let overlaid = render(&sample().with_overlay(unmatched));
    assert_eq!(
        bare, overlaid,
        "an overlay with no matching node must not change the DOT:\n{overlaid}"
    );
}

#[test]
fn dot_appends_at_time_value_to_node_label() {
    let overlay = value_overlay(
        "Root.Engine.Speed",
        vec![OverlayCell::Num("10".into()), OverlayCell::Num("50".into())],
        None,
    );
    let dot = render(&sample().with_overlay(overlay));
    let decl = dot
        .lines()
        .find(|l| l.contains("\"Root.Engine.Speed\" [label="))
        .expect("Speed node should be declared");
    assert!(
        decl.contains("Speed\\\\n[rpm]\\\\n50"),
        "expected the at-time value appended to the label:\n{decl}"
    );
}

#[test]
fn dot_at_time_value_honours_start_tick() {
    let overlay = value_overlay(
        "Root.Engine.Speed",
        vec![OverlayCell::Num("10".into()), OverlayCell::Num("50".into())],
        Some(0),
    );
    let dot = render(&sample().with_overlay(overlay));
    let decl = dot
        .lines()
        .find(|l| l.contains("\"Root.Engine.Speed\" [label="))
        .expect("Speed node should be declared");
    assert!(
        decl.contains("Speed\\\\n[rpm]\\\\n10"),
        "start_tick=0 should select the first cell (10):\n{decl}"
    );
}

#[test]
fn dot_does_not_append_non_numeric_cells() {
    let overlay = value_overlay("Root.Engine.Speed", vec![OverlayCell::Str("Idle".into())], None);
    let bare = render(&sample());
    let overlaid = render(&sample().with_overlay(overlay));
    assert_eq!(
        bare, overlaid,
        "a non-numeric at-time cell must not change the DOT:\n{overlaid}"
    );
}

#[test]
fn per_kind_edge_styles_are_distinct() {
    let kinds = [
        EdgeKind::DataFlow,
        EdgeKind::TableAxis,
        EdgeKind::Hierarchy,
        EdgeKind::Schedule,
    ];
    let mut seen = std::collections::HashSet::new();
    for k in kinds {
        let style = edge_style(k);
        assert!(
            seen.insert(style),
            "edge style {style:?} for {k:?} collides with another kind"
        );
    }
    assert_eq!(seen.len(), 4, "all four edge kinds must be distinct");
}

#[test]
fn dot_full_document_of_small_model() {
    let dot = render(&sample());
    let expected = "digraph m1 {\n  rankdir=LR;\n  node [fontname=\"Helvetica\"];\n  edge [fontname=\"Helvetica\"];\n  label=\"Demo\";\n  labelloc=t;\n  subgraph \"cluster_Root\" {\n    label=\"Root\";\n    color=orange;\n    subgraph \"cluster_Root.Engine\" {\n      label=\"Engine\";\n      color=orange;\n      \"Root.Engine.Speed\" [label=\"Speed\\\\n[rpm]\", shape=ellipse, color=black];\n    }\n  }\n}\n";
    assert_eq!(dot, expected);
}

#[test]
fn dot_draws_cross_cluster_and_other_edges() {
    let mut g = GraphModel::new(None);
    g.nodes.push(GraphNode::new("Clock@100Hz", NodeKind::Group));
    let mut f = GraphNode::new("Fn", NodeKind::Function);
    f.rate_hz = Some("100".into());
    g.nodes.push(f);
    g.nodes.push(GraphNode::new("Out", NodeKind::Channel));
    g.edges.push(GraphEdge::new("Clock@100Hz", "Fn", EdgeKind::Schedule));
    g.edges.push(GraphEdge::new("Fn", "Out", EdgeKind::DataFlow));
    let dot = render(&g);
    assert!(!dot.contains("labelloc"), "no title, no graph label:\n{dot}");
    assert!(dot.contains("  \"Fn\" [label=\"Fn\\\\n100 Hz\", shape=component, color=darkgreen];\n"));
    assert!(dot.contains("  \"Out\" [label=\"Out\", shape=ellipse, color=black];\n"));
    assert!(dot.contains("  \"Clock@100Hz\" -> \"Fn\" [style=dashed, color=red];\n"));
    assert!(dot.contains("  \"Fn\" -> \"Out\" [style=solid, color=black];\n"));
    assert!(dot.contains("  subgraph \"cluster_Clock@100Hz\" {\n"));
}

#[test]
fn dot_keeps_hierarchy_edge_between_clusters_not_nested() {
    // A hierarchy edge whose child is not drawn in the parent's cluster and
    // whose ends sit in different clusters is still drawn.
    let mut g = GraphModel::new(None);
    g.nodes.push(GraphNode::new("A", NodeKind::Group));
    let mut c = GraphNode::new("B.C", NodeKind::Channel);
    c.parent = Some("B".into());
    g.nodes.push(GraphNode::new("B", NodeKind::Group));
    g.nodes.push(c);
    g.edges.push(GraphEdge::new("A", "B.C", EdgeKind::Hierarchy));
    let dot = render(&g);
    assert!(dot.contains("  \"A\" -> \"B.C\" [style=dotted, color=orange];\n"), "{dot}");
}

#[test]
fn node_styles_follow_kind() {
    assert_eq!(node_style(NodeKind::Table), ("box3d", "purple"));
    assert_eq!(node_style(NodeKind::Parameter), ("box", "blue"));
    assert_eq!(node_style(NodeKind::Group), ("folder", "orange"));
}

#[test]
fn dot_escapes_title_and_ids() {
    let mut g = GraphModel::new(Some("say \"hi\"".into()));
    g.nodes.push(GraphNode::new("a\\b", NodeKind::Constant));
    let dot = render(&g);
    assert!(dot.contains("  label=\"say \\\"hi\\\"\";\n"), "{dot}");
    assert!(dot.contains("\"a\\\\b\" [label=\"a\\\\b\", shape=box, color=gray];"), "{dot}");
}

#[test]
fn numeric_value_on_a_group_leaves_the_document_unchanged() {
    let bare = render(&sample());
    let on_group = value_overlay("Root.Engine", vec![OverlayCell::Num("7".into())], None);
    assert_eq!(bare, render(&sample().with_overlay(on_group)));
}

#[test]
fn groups_nested_in_a_cycle_are_never_opened() {
    // A and B each name the other as parent: neither is reachable from the
    // root, so neither opens a block, and the channel inside A is not drawn.
    let mut g = GraphModel::new(None);
    let mut a = GraphNode::new("A", NodeKind::Group);
    a.parent = Some("B".into());
    let mut b = GraphNode::new("B", NodeKind::Group);
    b.parent = Some("A".into());
    let mut c = GraphNode::new("A.C", NodeKind::Channel);
    c.parent = Some("A".into());
    let top = GraphNode::new("Top", NodeKind::Channel);
    g.nodes = vec![a, b, c, top];
    let dot = render(&g);
    assert_eq!(
        dot,
        "digraph m1 {\n  rankdir=LR;\n  node [fontname=\"Helvetica\"];\n  edge [fontname=\"Helvetica\"];\n  \"Top\" [label=\"Top\", shape=ellipse, color=black];\n}\n"
    );
}
