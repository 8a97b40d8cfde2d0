use m1_visualiser::eval::{
    diff_overlay, value_overlay_from_trace, ChannelDiff, Counterfactual, Diff, ScenarioFormat, Trace,
};
use m1_visualiser::model::{GraphNode, NodeKind, OverlayCell, OverlayKind};

fn num(v: f64) -> OverlayCell {
    OverlayCell::Num(v.to_string())
}

fn trace_with(channels: &[(&str, Vec<OverlayCell>)], time: Vec<f64>) -> Trace {
    let mut channels: Vec<(String, Vec<OverlayCell>)> = channels
        .iter()
        .map(|(p, c)| (p.to_string(), c.clone()))
        .collect();
    channels.sort_by(|a, b| a.0.cmp(&b.0));
    Trace {
        time: time.iter().map(|t| t.to_string()).collect(),
        channels,
        external: Vec::new(),
    }
}

fn node(id: &str) -> GraphNode {
    GraphNode::new(id, NodeKind::Channel)
}

fn channel_diff(counterfactual: &[f64], logged: &[f64]) -> (ChannelDiff, f64) {
    let delta: Vec<f64> = counterfactual
        .iter()
        .zip(logged)
        .map(|(cf, lg)| cf - lg)
        .collect();
    let max_abs_delta = delta
        .iter()
        .copied()
        .map(f64::abs)
        .filter(|d| d.is_finite())
        .fold(0.0_f64, f64::max);
    (
        ChannelDiff {
            delta: delta.iter().map(|d| d.to_string()).collect(),
            max_abs_delta: max_abs_delta.to_string(),
        },
        max_abs_delta,
    )
}

fn counterfactual_with(cols: &[(&str, Vec<f64>, Vec<f64>)], time: Vec<f64>, eps: f64) -> Counterfactual {
    let trace = trace_with(
        &cols
            .iter()
            .map(|(path, cf, _)| (*path, cf.iter().map(|v| num(*v)).collect::<Vec<_>>()))
            .collect::<Vec<_>>(),
        time,
    );
    let mut channels = Vec::new();
    let mut changed = Vec::new();
    let mut sorted: Vec<_> = cols.to_vec();
    sorted.sort_by(|a, b| a.0.cmp(b.0));
    for (path, cf, logged) in sorted {
        let (cd, max) = channel_diff(&cf, &logged);
        if max > eps {
            changed.push(path.to_string());
        }
        channels.push((path.to_string(), cd));
    }
    Counterfactual {
        trace,
        diff: Diff {
            channels,
            changed,
            eps: eps.to_string(),
        },
    }
}

fn entry<'a>(o: &'a m1_visualiser::model::Overlay, id: &str) -> &'a m1_visualiser::model::NodeOverlay {
    &o.nodes.iter().find(|(k, _)| k == id).expect("entry present").1
}

#[test]
fn value_overlay_keys_by_node_id() {
    let trace = trace_with(&[("Root.Demo.Output", vec![num(50.0), num(50.0)])], vec![0.0, 0.01]);
    let nodes = vec![node("Root.Demo.Output")];

    let overlay = value_overlay_from_trace(&trace, &nodes);

    assert_eq!(overlay.kind, OverlayKind::Value);
    assert_eq!(overlay.time, vec!["0".to_string(), "0.01".to_string()]);
    assert_eq!(
        entry(&overlay, "Root.Demo.Output").series,
        vec![num(50.0), num(50.0)]
    );
    assert!(overlay.changed.is_empty());
    assert_eq!(overlay.eps, None);
}

#[test]
fn trace_channels_without_a_node_are_dropped() {
    let trace = trace_with(
        &[
            ("Root.Builtin.Hidden", vec![num(2.0)]),
            ("Root.Demo.Output", vec![num(1.0)]),
        ],
        vec![0.0],
    );
    let nodes = vec![node("Root.Demo.Output")];

    let overlay = value_overlay_from_trace(&trace, &nodes);

    assert!(overlay.nodes.iter().any(|(k, _)| k == "Root.Demo.Output"));
    assert!(!overlay.nodes.iter().any(|(k, _)| k == "Root.Builtin.Hidden"));
    assert_eq!(overlay.nodes.len(), 1);
}

#[test]
fn external_channels_are_flagged() {
    let mut trace = trace_with(
        &[
            ("Root.Demo.Output", vec![num(50.0)]),
            ("Root.Demo.Speed", vec![num(20.0)]),
        ],
        vec![0.0],
    );
    trace.external = vec!["Root.Demo.CanIn".to_string(), "Root.Demo.Speed".to_string()];
    let nodes = vec![node("Root.Demo.Speed"), node("Root.Demo.Output")];

    let overlay = value_overlay_from_trace(&trace, &nodes);

    assert!(overlay.external.contains(&"Root.Demo.Speed".to_string()));
    assert!(!overlay.external.contains(&"Root.Demo.CanIn".to_string()));
    assert_eq!(overlay.external.len(), 1);
}

#[test]
fn non_numeric_values_become_string_cells() {
    let trace = trace_with(
        &[
            ("Root.Demo.Armed", vec![OverlayCell::Bool(true)]),
            ("Root.Demo.Mode", vec![OverlayCell::Str("Idle".to_string())]),
            ("Root.Demo.Output", vec![num(50.0)]),
            ("Root.Demo.State", vec![OverlayCell::Str("Precharging".to_string())]),
        ],
        vec![0.0],
    );
    let nodes = vec![
        node("Root.Demo.Mode"),
        node("Root.Demo.State"),
        node("Root.Demo.Armed"),
        node("Root.Demo.Output"),
    ];

    let overlay = value_overlay_from_trace(&trace, &nodes);

    assert_eq!(
        entry(&overlay, "Root.Demo.Mode").series,
        vec![OverlayCell::Str("Idle".to_string())]
    );
    assert_eq!(
        entry(&overlay, "Root.Demo.State").series,
        vec![OverlayCell::Str("Precharging".to_string())]
    );
    assert_eq!(
        entry(&overlay, "Root.Demo.Armed").series,
        vec![OverlayCell::Bool(true)]
    );
    assert_eq!(entry(&overlay, "Root.Demo.Output").series, vec![num(50.0)]);
}

#[test]
fn diff_overlay_marks_changed_nodes() {
    let cf = counterfactual_with(
        &[
            ("Root.CF.Sensor", vec![10.0, 10.0], vec![10.0, 10.0]),
            ("Root.CF.Mid", vec![30.0, 30.0], vec![25.0, 25.0]),
        ],
        vec![0.0, 1.0],
        1e-9,
    );
    let nodes = vec![node("Root.CF.Sensor"), node("Root.CF.Mid")];

    let overlay = diff_overlay(&cf, &nodes);

    assert_eq!(overlay.kind, OverlayKind::Diff);
    assert_eq!(overlay.changed, vec!["Root.CF.Mid".to_string()]);
    assert_eq!(entry(&overlay, "Root.CF.Mid").max_abs_delta, Some(5.0f64.to_string()));
    assert_eq!(entry(&overlay, "Root.CF.Sensor").max_abs_delta, Some(0.0f64.to_string()));
    assert_eq!(overlay.eps, Some(1e-9f64.to_string()));
}

#[test]
fn diff_overlay_carries_per_tick_delta() {
    let cf = counterfactual_with(
        &[("Root.CF.Mid", vec![30.0, 31.0], vec![25.0, 25.0])],
        vec![0.0, 1.0],
        1e-9,
    );
    let nodes = vec![node("Root.CF.Mid")];

    let overlay = diff_overlay(&cf, &nodes);

    assert_eq!(overlay.time, cf.trace.time);
    assert_eq!(
        entry(&overlay, "Root.CF.Mid").delta,
        Some(cf.diff.channels[0].1.delta.clone())
    );
    assert_eq!(
        entry(&overlay, "Root.CF.Mid").delta,
        Some(vec![5.0f64.to_string(), 6.0f64.to_string()])
    );
}

#[test]
fn noop_diff_has_no_changed_nodes() {
    let cf = counterfactual_with(
        &[
            ("Root.CF.Sensor", vec![10.0, 10.0], vec![10.0, 10.0]),
            ("Root.CF.Mid", vec![25.0, 25.0], vec![25.0, 25.0]),
        ],
        vec![0.0, 1.0],
        1e-9,
    );
    let nodes = vec![node("Root.CF.Sensor"), node("Root.CF.Mid")];

    let overlay = diff_overlay(&cf, &nodes);

    assert!(
        overlay.changed.is_empty(),
        "no-op override must not flag changes: {:?}",
        overlay.changed
    );
    assert_eq!(overlay.kind, OverlayKind::Diff);
}

#[test]
fn diff_overlay_series_is_the_counterfactual_trace() {
    let cf = counterfactual_with(
        &[("Root.CF.Mid", vec![30.0, 31.0], vec![25.0, 25.0])],
        vec![0.0, 1.0],
        1e-9,
    );
    let nodes = vec![node("Root.CF.Mid")];

    let overlay = diff_overlay(&cf, &nodes);

    assert_eq!(
        entry(&overlay, "Root.CF.Mid").series,
        vec![num(30.0), num(31.0)]
    );
}

#[test]
fn diff_changed_channels_outside_the_graph_are_dropped() {
    let cf = counterfactual_with(
        &[
            ("Root.CF.Hidden", vec![1.0], vec![0.0]),
            ("Root.CF.Mid", vec![30.0], vec![25.0]),
        ],
        vec![0.0],
        1e-9,
    );
    let overlay = diff_overlay(&cf, &vec![node("Root.CF.Mid")]);
    assert_eq!(overlay.changed, vec!["Root.CF.Mid".to_string()]);
    assert_eq!(overlay.nodes.len(), 1);
}

#[test]
fn diff_without_comparison_leaves_node_neutral() {
    let mut cf = counterfactual_with(&[("Root.CF.Mid", vec![30.0], vec![25.0])], vec![0.0], 1e-9);
    cf.trace.channels.push(("Root.CF.Other".to_string(), vec![num(1.0)]));
    let overlay = diff_overlay(&cf, &vec![node("Root.CF.Mid"), node("Root.CF.Other")]);
    let other = entry(&overlay, "Root.CF.Other");
    assert_eq!(other.delta, None);
    assert_eq!(other.max_abs_delta, None);
}

#[test]
fn scenario_formats_are_distinct() {
    assert_ne!(ScenarioFormat::Toml, ScenarioFormat::Json);
}
