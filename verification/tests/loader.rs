use m1_visualiser::dataflow::IoSets;
use m1_visualiser::loader::{
    build_model, build_model_with_scripts, format_rate, sort_scripts, node_kind, parent_path, type_label,
    value_type_label, Symbol, SymbolKind, ValueType,
};
use m1_visualiser::model::{EdgeKind, GraphEdge, GraphModel, NodeKind};

fn sym(path: &str, kind: SymbolKind) -> Symbol {
    Symbol {
        path: path.to_string(),
        kind,
        declared_type: None,
        value_type: ValueType::Unknown,
        display_unit: None,
        unit: None,
        call_rate_hz: None,
        log_rate_hz: None,
        table_axes: None,
    }
}

/// The symbols of a small project: a group with a channel, a parameter and a
/// constant.
fn project() -> Vec<Symbol> {
    let engine = sym("Root.Engine", SymbolKind::Group);
    let mut speed = sym("Root.Engine.Speed", SymbolKind::Channel);
    speed.declared_type = Some("f32".into());
    speed.value_type = ValueType::Float;
    speed.unit = Some("rpm".into());
    let mut gain = sym("Root.Engine.Gain.Value", SymbolKind::Parameter);
    gain.declared_type = Some("u16".into());
    gain.value_type = ValueType::Unsigned;
    let mut max = sym("Root.Engine.MaxRpm", SymbolKind::Constant);
    max.declared_type = Some("u16".into());
    max.value_type = ValueType::Unsigned;
    vec![engine, speed, gain, max]
}

fn has_edge(m: &GraphModel, from: &str, to: &str, kind: EdgeKind) -> bool {
    m.edges
        .iter()
        .any(|e| e.from == from && e.to == to && e.kind == kind)
}

#[test]
fn parent_path_strips_final_segment() {
    assert_eq!(parent_path("Root.Engine.Speed"), Some("Root.Engine"));
    assert_eq!(parent_path("Root"), None);
}

#[test]
fn builds_nodes_for_each_symbol_kind() {
    let model = build_model(&project(), Some("Demo".into()));
    assert!(
        model.nodes.iter().any(|n| n.id == "Root.Engine.Speed"
            && n.kind == NodeKind::Channel
            && n.unit.as_deref() == Some("rpm")),
        "channel node with unit; got {:?}",
        model.nodes
    );
    assert!(
        model.nodes.iter().any(|n| n.kind == NodeKind::Constant),
        "constant node; got {:?}",
        model.nodes
    );
    assert!(
        model
            .nodes
            .iter()
            .any(|n| n.id == "Root.Engine" && n.kind == NodeKind::Group),
        "engine group node; got {:?}",
        model.nodes
    );
}

#[test]
fn synthesizes_root_ancestor_group() {
    let model = build_model(&project(), None);
    assert!(
        model
            .nodes
            .iter()
            .any(|n| n.id == "Root" && n.kind == NodeKind::Group),
        "synthesized Root group; got {:?}",
        model.nodes
    );
}

#[test]
fn hierarchy_edges_connect_parent_to_child() {
    let model = build_model(&project(), None);
    assert!(
        model.edges.iter().any(|e| e.from == "Root.Engine"
            && e.to == "Root.Engine.Speed"
            && e.kind == EdgeKind::Hierarchy),
        "Root.Engine -> Root.Engine.Speed hierarchy edge; got {:?}",
        model.edges
    );
    assert!(
        model.edges.iter().any(|e| e.from == "Root"
            && e.to == "Root.Engine"
            && e.kind == EdgeKind::Hierarchy),
        "Root -> Root.Engine hierarchy edge; got {:?}",
        model.edges
    );
}

#[test]
fn nonempty_graph_has_nodes_and_edges() {
    let model = build_model(&project(), None);
    assert!(model.nodes.len() > 1, "expected several nodes");
    assert!(
        model.edge_count(EdgeKind::Hierarchy) > 0,
        "expected hierarchy edges"
    );
}

#[test]
fn whole_graph_of_small_project() {
    let model = build_model(&project(), Some("Demo".into()));
    let ids: Vec<&str> = model.nodes.iter().map(|n| n.id.as_str()).collect();
    assert_eq!(
        ids,
        vec![
            "Root",
            "Root.Engine",
            "Root.Engine.Gain",
            "Root.Engine.Gain.Value",
            "Root.Engine.MaxRpm",
            "Root.Engine.Speed",
        ]
    );
    let gain = &model.nodes[2];
    assert_eq!(gain.kind, NodeKind::Group);
    assert_eq!(gain.parent.as_deref(), Some("Root.Engine"));
    assert_eq!(gain.type_label, None);
    let speed = &model.nodes[5];
    assert_eq!(speed.type_label.as_deref(), Some("f32"));
    assert_eq!(speed.parent.as_deref(), Some("Root.Engine"));
    let edges: Vec<(&str, &str)> = model
        .edges
        .iter()
        .map(|e| (e.from.as_str(), e.to.as_str()))
        .collect();
    assert_eq!(
        edges,
        vec![
            ("Root", "Root.Engine"),
            ("Root.Engine", "Root.Engine.Gain"),
            ("Root.Engine", "Root.Engine.MaxRpm"),
            ("Root.Engine", "Root.Engine.Speed"),
            ("Root.Engine.Gain", "Root.Engine.Gain.Value"),
        ]
    );
    assert!(model.edges.iter().all(|e| e.kind == EdgeKind::Hierarchy));
    assert_eq!(model.title.as_deref(), Some("Demo"));
    assert!(model.overlay.is_none());
}

#[test]
fn function_rate_drives_schedule_edge() {
    let mut f = sym("Root.Demo.Update", SymbolKind::Function);
    f.call_rate_hz = Some("100".into());
    f.log_rate_hz = Some("10".into());
    let model = build_model(&vec![f], None);
    assert!(has_edge(&model, "Clock@100Hz", "Root.Demo.Update", EdgeKind::Schedule));
    let clocks: Vec<_> = model.nodes.iter().filter(|n| n.id == "Clock@100Hz").collect();
    assert_eq!(clocks.len(), 1);
    assert_eq!(clocks[0].kind, NodeKind::Group);
    assert_eq!(clocks[0].rate_hz.as_deref(), Some("100"));
    assert_eq!(clocks[0].parent, None);
    let func = model.nodes.iter().find(|n| n.id == "Root.Demo.Update").unwrap();
    assert_eq!(func.kind, NodeKind::Function);
    assert_eq!(func.rate_hz.as_deref(), Some("100"), "call rate wins over log rate");
}

#[test]
fn two_nodes_same_rate_share_one_clock() {
    let mut a = sym("Root.A", SymbolKind::Channel);
    a.log_rate_hz = Some("50".into());
    let mut b = sym("Root.B", SymbolKind::Method);
    b.call_rate_hz = Some("50".into());
    let mut c = sym("Root.C", SymbolKind::Channel);
    c.log_rate_hz = Some("2.5".into());
    let model = build_model(&vec![a, b, c], None);
    assert_eq!(model.nodes.iter().filter(|n| n.id == "Clock@50Hz").count(), 1);
    assert_eq!(model.nodes.iter().filter(|n| n.id == "Clock@2.5Hz").count(), 1);
    assert!(has_edge(&model, "Clock@50Hz", "Root.A", EdgeKind::Schedule));
    assert!(has_edge(&model, "Clock@50Hz", "Root.B", EdgeKind::Schedule));
    assert!(has_edge(&model, "Clock@2.5Hz", "Root.C", EdgeKind::Schedule));
    assert_eq!(model.edge_count(EdgeKind::Schedule), 3);
}

#[test]
fn unrated_nodes_have_no_schedule_edge() {
    let model = build_model(&project(), None);
    assert_eq!(model.edge_count(EdgeKind::Schedule), 0);
    assert!(!model.nodes.iter().any(|n| n.id.starts_with("Clock@")));
}

#[test]
fn table_members_get_table_axis_edges() {
    let mut map = sym("Root.Demo.Map", SymbolKind::Table);
    map.table_axes = Some(2);
    let syms = vec![
        sym("Root.Demo", SymbolKind::Group),
        map,
        sym("Root.Demo.Map.Value", SymbolKind::Channel),
        sym("Root.Demo.Map.X", SymbolKind::Channel),
        sym("Root.Demo.Mapping", SymbolKind::Channel),
    ];
    let model = build_model(&syms, None);
    assert!(has_edge(&model, "Root.Demo.Map", "Root.Demo.Map.Value", EdgeKind::TableAxis));
    assert!(has_edge(&model, "Root.Demo.Map", "Root.Demo.Map.X", EdgeKind::TableAxis));
    assert!(!has_edge(&model, "Root.Demo.Map", "Root.Demo.Mapping", EdgeKind::TableAxis));
    assert_eq!(model.edge_count(EdgeKind::TableAxis), 2);
    let table = model.nodes.iter().find(|n| n.id == "Root.Demo.Map").unwrap();
    assert_eq!(table.kind, NodeKind::Table);
    assert_eq!(table.table_dims, Some(2));
}

#[test]
fn data_flow_edges_orient_reads_in_writes_out() {
    let syms = vec![
        sym("Root.Engine", SymbolKind::Group),
        sym("Root.Engine.Speed", SymbolKind::Channel),
        sym("Root.Engine.MaxSpeed.Value", SymbolKind::Parameter),
        sym("Root.Engine.Limited", SymbolKind::Channel),
        sym("Root.Engine.Limiter", SymbolKind::Function),
    ];
    let flows = vec![(
        "Root.Engine.Limiter".to_string(),
        IoSets {
            writes: vec!["Root.Engine.Limited".to_string()],
            reads: vec![
                "Root.Engine.MaxSpeed.Value".to_string(),
                "Root.Engine.Speed".to_string(),
            ],
        },
    )];
    let model = build_model_with_scripts(&syms, &flows, None);
    assert!(has_edge(&model, "Root.Engine.Speed", "Root.Engine.Limiter", EdgeKind::DataFlow));
    assert!(has_edge(
        &model,
        "Root.Engine.MaxSpeed.Value",
        "Root.Engine.Limiter",
        EdgeKind::DataFlow
    ));
    assert!(has_edge(&model, "Root.Engine.Limiter", "Root.Engine.Limited", EdgeKind::DataFlow));
    assert_eq!(model.edge_count(EdgeKind::DataFlow), 3);
}

#[test]
fn data_flow_edges_skip_unknown_endpoints() {
    let syms = vec![
        sym("Root.Demo.Out", SymbolKind::Channel),
        sym("Root.Demo.Update", SymbolKind::Function),
    ];
    let flows = vec![(
        "Root.Demo.Update".to_string(),
        IoSets {
            writes: vec!["Root.Demo.Out".to_string()],
            reads: vec!["Calculate.PI".to_string()],
        },
    )];
    let model = build_model_with_scripts(&syms, &flows, None);
    assert_eq!(model.edge_count(EdgeKind::DataFlow), 1);
    assert!(has_edge(&model, "Root.Demo.Update", "Root.Demo.Out", EdgeKind::DataFlow));
}

#[test]
fn edges_are_sorted_and_deduplicated() {
    let syms = vec![
        sym("B", SymbolKind::Channel),
        sym("A", SymbolKind::Function),
    ];
    let flows = vec![
        (
            "A".to_string(),
            IoSets {
                writes: vec!["B".to_string()],
                reads: Vec::new(),
            },
        ),
        (
            "A".to_string(),
            IoSets {
                writes: vec!["B".to_string(), "B".to_string()],
                reads: vec!["B".to_string()],
            },
        ),
    ];
    let model = build_model_with_scripts(&syms, &flows, None);
    assert_eq!(
        model.edges,
        vec![
            GraphEdge::new("A", "B", EdgeKind::DataFlow),
            GraphEdge::new("B", "A", EdgeKind::DataFlow),
        ]
    );
}

#[test]
fn nodes_sharing_an_id_keep_their_order() {
    let mut first = sym("X", SymbolKind::Channel);
    first.unit = Some("first".into());
    let mut second = sym("X", SymbolKind::Channel);
    second.unit = Some("second".into());
    let model = build_model(&vec![sym("Y", SymbolKind::Channel), first, second], None);
    let units: Vec<_> = model.nodes.iter().map(|n| n.unit.clone()).collect();
    assert_eq!(
        units,
        vec![Some("first".to_string()), Some("second".to_string()), None]
    );
}

#[test]
fn hidden_symbol_kinds_are_not_nodes() {
    assert_eq!(node_kind(SymbolKind::Object), None);
    assert_eq!(node_kind(SymbolKind::Reference), None);
    assert_eq!(node_kind(SymbolKind::Other), None);
    assert_eq!(node_kind(SymbolKind::Method), Some(NodeKind::Function));
    let model = build_model(&vec![sym("Root.Ref", SymbolKind::Reference)], None);
    assert!(model.nodes.is_empty());
    assert!(model.edges.is_empty());
}

#[test]
fn type_labels_prefer_declared_type() {
    let mut s = sym("A", SymbolKind::Channel);
    s.value_type = ValueType::Enum;
    assert_eq!(type_label(&s), "enum");
    s.declared_type = Some("MyEnum".into());
    assert_eq!(type_label(&s), "MyEnum");
    assert_eq!(value_type_label(ValueType::Boolean), "bool");
    assert_eq!(value_type_label(ValueType::Integer), "integer");
    assert_eq!(value_type_label(ValueType::String), "string");
}

#[test]
fn format_rate_drops_trailing_zero_fraction() {
    assert_eq!(format_rate("100"), "100");
    assert_eq!(format_rate("2.5"), "2.5");
    assert_eq!(format_rate("-0"), "0");
    assert_eq!(format_rate("NaN"), "NaN");
    assert_eq!(format_rate("inf"), "inf");
    assert_eq!(format_rate("100000000000000000000"), "9223372036854775807");
    assert_eq!(format_rate("-100000000000000000000"), "-9223372036854775808");
    assert_eq!(format_rate("9223372036854775807"), "9223372036854775807");
    assert_eq!(format_rate("1000000000000000000"), "1000000000000000000");
    // Whole rates beyond 2^53 name the f64 their shortest text writes.
    assert_eq!(format_rate(&format!("{}", 2f64.powi(60))), "1152921504606846976");
    assert_eq!(format_rate("1152921504606847000"), "1152921504606846976");
    assert_eq!(format_rate("-1152921504606847000"), "-1152921504606846976");
    assert_eq!(format_rate("9007199254740993"), "9007199254740992");
    assert_eq!(format_rate("9223372036854775000"), "9223372036854774784");
    assert_eq!(format_rate("9223372036854775500"), "9223372036854775807");
    assert_eq!(format_rate("12.5"), "12.5");
    assert_eq!(format_rate("-"), "-");
}

#[test]
fn loaded_graph_renders_nested_clusters() {
    // Root.Engine is declared; Root is synthesized; both become clusters, the
    // engine's cluster nested in Root's.
    let m = build_model(&project(), Some("Demo".to_string()));
    let dot = m1_visualiser::dot::render(&m);
    let root = dot.find("subgraph \"cluster_Root\" {").expect("Root cluster");
    let engine = dot.find("    subgraph \"cluster_Root.Engine\" {").expect("nested Engine cluster");
    assert!(root < engine);
    assert!(dot.contains("      \"Root.Engine.Speed\" [label="));
    assert!(dot.ends_with("}\n"));
}

#[test]
fn scripts_sort_by_name_keeping_ties_in_order() {
    let p = |n: &str, src: &str| (n.to_string(), src.to_string());
    let sorted = sort_scripts(vec![
        p("b.m1scr", "1"),
        p("a.m1scr", "2"),
        p("b.m1scr", "3"),
        p("Z.m1scr", "4"),
        p("a.m1scr", "5"),
    ]);
    assert_eq!(
        sorted,
        vec![p("Z.m1scr", "4"), p("a.m1scr", "2"), p("a.m1scr", "5"), p("b.m1scr", "1"), p("b.m1scr", "3")]
    );
    assert!(sort_scripts(Vec::new()).is_empty());
}
