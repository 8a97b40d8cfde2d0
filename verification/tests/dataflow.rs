use m1_visualiser::dataflow::{rewrite_this, root_segment};

#[test]
fn root_segment_is_leading_dot_segment() {
    assert_eq!(root_segment("Calculate.Max"), "Calculate");
    assert_eq!(root_segment("Speed"), "Speed");
    assert_eq!(root_segment("Engine Bay.Oil"), "Engine Bay");
}

#[test]
fn this_anchor_rewrites_to_group_path() {
    assert_eq!(
        rewrite_this("This.Output", Some("Root.Demo")),
        Some("Root.Demo.Output".to_string())
    );
    assert_eq!(rewrite_this("This", Some("Root.Demo")), Some("Root.Demo".to_string()));
    assert_eq!(rewrite_this("Thisness", Some("Root.Demo")), None);
    assert_eq!(rewrite_this("Speed", Some("Root.Demo")), None);
    assert_eq!(rewrite_this("This.Output", None), None);
}

use m1_visualiser::dataflow::{io_sets_from, resolution_queries, CstKind, CstNode, IoSets, Query};

fn node(kind: CstKind, text: &str) -> CstNode {
    CstNode {
        kind,
        text: text.to_string(),
        children: Vec::new(),
        name: None,
        value: None,
        target: None,
        compound: false,
        arguments: None,
        object: None,
        property: None,
    }
}

fn ident(text: &str) -> CstNode {
    node(CstKind::Identifier, text)
}

fn member(object: CstNode, property: &str) -> CstNode {
    let text = format!("{}.{}", object.text, property);
    let mut m = node(CstKind::MemberExpression, &text);
    m.object = Some(Box::new(object));
    m.property = Some(Box::new(ident(property)));
    m
}

fn binary(a: CstNode, b: CstNode) -> CstNode {
    let text = format!("{} * {}", a.text, b.text);
    let mut n = node(CstKind::Other, &text);
    n.children = vec![a, b];
    n
}

fn assign(target: CstNode, value: CstNode, compound: bool) -> CstNode {
    let mut n = node(CstKind::AssignmentStatement, "");
    n.target = Some(Box::new(target));
    n.value = Some(Box::new(value));
    n.compound = compound;
    n
}

fn local(name: &str, init: CstNode) -> CstNode {
    let mut n = node(CstKind::LocalDeclaration, "");
    n.name = Some(Box::new(ident(name)));
    n.value = Some(Box::new(init));
    n
}

fn call(callee: CstNode, args: Vec<CstNode>) -> CstNode {
    let mut list = node(CstKind::Other, "");
    list.children = args;
    let mut n = node(CstKind::CallExpression, "");
    n.children = vec![callee];
    n.arguments = Some(Box::new(list));
    n
}

fn program(statements: Vec<CstNode>) -> CstNode {
    let mut n = node(CstKind::Other, "");
    n.children = statements;
    n
}

/// Name resolution against a small project: a `Root.Demo` group holding the
/// `Speed`, `Gain` and `Output` channels. Locals shadow project symbols, and
/// the `Calculate` library object is not a project symbol.
fn resolve_in_demo(q: &Query) -> Option<String> {
    if q.locals.iter().any(|l| *l == q.path) {
        return None;
    }
    let channels = ["Speed", "Gain", "Output"];
    if channels.contains(&q.path.as_str()) {
        return Some(format!("Root.Demo.{}", q.path));
    }
    match q.path.strip_prefix("Root.Demo.") {
        Some(rest) if channels.contains(&rest) => Some(q.path.clone()),
        _ => None,
    }
}

fn demo_io_sets(root: &CstNode) -> IoSets {
    let queries = resolution_queries(root, Some("Root.Demo"));
    let resolved: Vec<Option<String>> = queries.iter().map(resolve_in_demo).collect();
    io_sets_from(&queries, &resolved)
}

fn has(xs: &[String], x: &str) -> bool {
    xs.iter().any(|s| s == x)
}

#[test]
fn assignment_target_is_write_rhs_idents_are_reads() {
    // Output = Speed * Gain;
    let root = program(vec![assign(ident("Output"), binary(ident("Speed"), ident("Gain")), false)]);
    let sets = demo_io_sets(&root);
    assert!(has(&sets.writes, "Root.Demo.Output"), "{sets:?}");
    assert!(has(&sets.reads, "Root.Demo.Speed"), "{sets:?}");
    assert!(has(&sets.reads, "Root.Demo.Gain"), "{sets:?}");
    assert!(!has(&sets.reads, "Root.Demo.Output"), "{sets:?}");
}

#[test]
fn compound_assignment_target_is_both_read_and_write() {
    // Output += Speed;
    let root = program(vec![assign(ident("Output"), ident("Speed"), true)]);
    let sets = demo_io_sets(&root);
    assert!(has(&sets.writes, "Root.Demo.Output"), "{sets:?}");
    assert!(has(&sets.reads, "Root.Demo.Output"), "{sets:?}");
    assert!(has(&sets.reads, "Root.Demo.Speed"), "{sets:?}");
}

#[test]
fn locals_are_not_dependencies() {
    // local scaled = Speed * Gain; Output = scaled;
    let root = program(vec![
        local("scaled", binary(ident("Speed"), ident("Gain"))),
        assign(ident("Output"), ident("scaled"), false),
    ]);
    let sets = demo_io_sets(&root);
    assert!(has(&sets.writes, "Root.Demo.Output"), "{sets:?}");
    assert!(has(&sets.reads, "Root.Demo.Speed"), "{sets:?}");
    assert!(has(&sets.reads, "Root.Demo.Gain"), "{sets:?}");
    assert!(!sets.reads.iter().any(|r| r.contains("scaled")), "{sets:?}");
    assert!(!sets.writes.iter().any(|w| w.contains("scaled")), "{sets:?}");
}

#[test]
fn builtin_callee_is_not_a_read_but_args_are() {
    // Output = Calculate.Max(Speed, Gain);
    let callee = member(ident("Calculate"), "Max");
    let root = program(vec![assign(
        ident("Output"),
        call(callee, vec![ident("Speed"), ident("Gain")]),
        false,
    )]);
    let sets = demo_io_sets(&root);
    assert!(!sets.reads.iter().any(|r| r.starts_with("Calculate")), "{sets:?}");
    assert!(has(&sets.reads, "Root.Demo.Speed"), "{sets:?}");
    assert!(has(&sets.reads, "Root.Demo.Gain"), "{sets:?}");
    assert!(has(&sets.writes, "Root.Demo.Output"), "{sets:?}");
}

#[test]
fn this_anchor_rewrites_to_group() {
    // Output = This.Speed;
    let root = program(vec![assign(ident("Output"), member(ident("This"), "Speed"), false)]);
    let sets = demo_io_sets(&root);
    assert!(has(&sets.reads, "Root.Demo.Speed"), "{sets:?}");
    assert!(has(&sets.writes, "Root.Demo.Output"), "{sets:?}");
}

#[test]
fn queries_follow_walk_order_with_locals_in_scope() {
    // local scaled = Speed; Output += scaled;
    let root = program(vec![
        local("scaled", ident("Speed")),
        assign(ident("Output"), ident("scaled"), true),
    ]);
    let qs = resolution_queries(&root, Some("Root.Demo"));
    assert_eq!(qs.len(), 3);
    assert_eq!(qs[0].path, "Speed");
    assert_eq!(qs[0].locals, vec!["scaled".to_string()]);
    assert!(qs[0].read && !qs[0].write);
    assert_eq!(qs[1].path, "Output");
    assert!(qs[1].write && qs[1].read);
    assert_eq!(qs[2].path, "scaled");
    assert!(qs[2].read && !qs[2].write);
}

#[test]
fn call_callee_yields_no_query() {
    let value = call(member(ident("Calculate"), "Max"), vec![ident("Speed")]);
    let root = assign(ident("Output"), value, false);
    let qs = resolution_queries(&root, None);
    assert_eq!(qs.len(), 2);
    assert_eq!(qs[0].path, "Output");
    assert_eq!(qs[1].path, "Speed");
}

#[test]
fn expression_statements_are_not_walked_for_reads() {
    // A bare call statement reads nothing: only declarations and assignments
    // are walked for references.
    let root = program(vec![call(member(ident("Calculate"), "Max"), vec![ident("Speed")])]);
    assert!(resolution_queries(&root, None).is_empty());
}

#[test]
fn member_chain_is_one_dotted_query() {
    let chain = member(member(ident("Engine Bay"), "Oil"), "Temp");
    let qs = resolution_queries(&assign(ident("X"), chain, false), Some("Root"));
    assert_eq!(qs.len(), 2);
    assert_eq!(qs[1].path, "Engine Bay.Oil.Temp");
    let anchored = member(member(ident("This"), "Oil"), "Temp");
    let qs = resolution_queries(&assign(ident("X"), anchored, false), Some("Root.Demo"));
    assert_eq!(qs[1].path, "Root.Demo.Oil.Temp");
}

#[test]
fn io_sets_ascend_without_duplicates() {
    let q = |path: &str, write: bool, read: bool| Query {
        path: path.to_string(),
        locals: Vec::new(),
        write,
        read,
    };
    let queries = vec![q("b", true, false), q("a", false, true), q("b", true, true), q("c", false, true), q("a", false, true)];
    let resolved = vec![
        Some("Root.B".to_string()),
        Some("Root.A".to_string()),
        Some("Root.B".to_string()),
        None,
        Some("Root.A".to_string()),
    ];
    let sets = io_sets_from(&queries, &resolved);
    assert_eq!(sets.writes, vec!["Root.B".to_string()]);
    assert_eq!(sets.reads, vec!["Root.A".to_string(), "Root.B".to_string()]);
}
