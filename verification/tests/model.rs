use m1_visualiser::model::{
    EdgeKind, GraphEdge, GraphModel, GraphNode, NodeKind, NodeOverlay, Overlay, OverlayCell,
    OverlayKind,
};

#[test]
fn node_label_is_final_segment() {
    let n = GraphNode::new("Root.Engine.Speed", NodeKind::Channel);
    assert_eq!(n.label(), "Speed");
}

#[test]
fn node_label_without_dots_is_whole_path() {
    let n = GraphNode::new("Root", NodeKind::Group);
    assert_eq!(n.label(), "Root");
}

#[test]
fn node_label_keeps_spaces_within_a_segment() {
    let n = GraphNode::new("Root.Engine Bay.Oil Temp", NodeKind::Channel);
    assert_eq!(n.label(), "Oil Temp");
    let trailing = GraphNode::new("Root.", NodeKind::Group);
    assert_eq!(trailing.label(), "");
}

#[test]
fn kind_tags_are_stable() {
    assert_eq!(NodeKind::Channel.tag(), "channel");
    assert_eq!(NodeKind::Table.tag(), "table");
    assert_eq!(EdgeKind::DataFlow.tag(), "data_flow");
    assert_eq!(EdgeKind::Hierarchy.tag(), "hierarchy");
}

#[test]
fn every_kind_has_its_tag() {
    assert_eq!(NodeKind::Parameter.tag(), "parameter");
    assert_eq!(NodeKind::Constant.tag(), "constant");
    assert_eq!(NodeKind::Function.tag(), "function");
    assert_eq!(NodeKind::Group.tag(), "group");
    assert_eq!(EdgeKind::TableAxis.tag(), "table_axis");
    assert_eq!(EdgeKind::Schedule.tag(), "schedule");
}

#[test]
fn new_node_is_bare() {
    let n = GraphNode::new("Root.Engine.Speed", NodeKind::Channel);
    assert_eq!(n.id, "Root.Engine.Speed");
    assert_eq!(n.path, "Root.Engine.Speed");
    assert_eq!(n.kind, NodeKind::Channel);
    assert_eq!(n.rate_hz, None);
    assert_eq!(n.unit, None);
    assert_eq!(n.type_label, None);
    assert_eq!(n.table_dims, None);
    assert_eq!(n.parent, None);
}

#[test]
fn edge_count_filters_by_kind() {
    let mut g = GraphModel::new(Some("T".into()));
    g.edges.push(GraphEdge::new("a", "b", EdgeKind::Hierarchy));
    g.edges.push(GraphEdge::new("b", "c", EdgeKind::Hierarchy));
    g.edges.push(GraphEdge::new("c", "d", EdgeKind::Schedule));
    assert_eq!(g.edge_count(EdgeKind::Hierarchy), 2);
    assert_eq!(g.edge_count(EdgeKind::Schedule), 1);
    assert_eq!(g.edge_count(EdgeKind::DataFlow), 0);
}

fn sample_overlay(node_id: &str, value: &str) -> Overlay {
    Overlay {
        kind: OverlayKind::Value,
        time: vec!["0".to_string()],
        nodes: vec![(
            node_id.to_string(),
            NodeOverlay {
                series: vec![OverlayCell::Num(value.to_string())],
                delta: None,
                max_abs_delta: None,
            },
        )],
        external: Vec::new(),
        changed: Vec::new(),
        eps: None,
        start_tick: None,
    }
}

#[test]
fn attach_sets_overlay_and_preserves_structure() {
    let mut g = GraphModel::new(Some("Demo".into()));
    g.nodes.push(GraphNode::new("Root.Demo.Output", NodeKind::Channel));
    g.nodes.push(GraphNode::new("Root.Demo.Speed", NodeKind::Channel));
    g.edges.push(GraphEdge::new(
        "Root.Demo.Speed",
        "Root.Demo.Output",
        EdgeKind::DataFlow,
    ));
    let nodes_before = g.nodes.clone();
    let edges_before = g.edges.clone();
    let title_before = g.title.clone();

    let overlay = sample_overlay("Root.Demo.Output", "50");
    let g = g.with_overlay(overlay.clone());

    assert_eq!(g.overlay, Some(overlay));
    assert_eq!(g.nodes, nodes_before, "attach must not touch nodes");
    assert_eq!(g.edges, edges_before, "attach must not touch edges");
    assert_eq!(g.title, title_before, "attach must not touch the title");
}

#[test]
fn attach_is_idempotent_replacement() {
    let mut g = GraphModel::new(Some("Demo".into()));
    g.nodes.push(GraphNode::new("Root.Demo.Output", NodeKind::Channel));

    let first = sample_overlay("Root.Demo.Output", "10");
    let second = sample_overlay("Root.Demo.Output", "99");

    let g = g.with_overlay(first).with_overlay(second.clone());

    assert_eq!(
        g.overlay,
        Some(second),
        "the second attach must replace the first (last overlay wins)"
    );
}

#[test]
fn with_start_tick_records_the_hint() {
    let overlay = sample_overlay("Root.Demo.Output", "1").with_start_tick(2);
    assert_eq!(overlay.start_tick, Some(2));
    let again = overlay.with_start_tick(0);
    assert_eq!(again.start_tick, Some(0));
    let plain = sample_overlay("Root.Demo.Output", "1");
    assert_eq!(plain.start_tick, None);
}

#[test]
fn new_model_is_empty() {
    let g = GraphModel::new(None);
    assert_eq!(g.title, None);
    assert!(g.nodes.is_empty());
    assert!(g.edges.is_empty());
    assert!(g.overlay.is_none());
}
