//! The overlay joins: fold an evaluator run (a trace of computed values, or a
//! counterfactual diff against a logged run) onto the graph, keyed by node id.
//!
//! The join is direct: a graph node's id is a symbol's canonical dotted path,
//! and the evaluator keys its channels by the same paths, so a channel lands on
//! the node whose id equals its path. A channel with no matching node is
//! dropped; a node with no channel stays neutral.
use vstd::prelude::*;

use crate::dataflow::strictly_ascending;
use crate::model::{GraphNode, NodeOverlay, Overlay, OverlayCell, OverlayKind};
use crate::text::text_lt;

verus! {

/// Which textual scenario format a scenario source string is in.
#[derive(Debug, Clone, Copy, PartialEq, Eq, Structural)]
pub enum ScenarioFormat {
    /// A TOML scenario document.
    Toml,
    /// A JSON scenario document (the same shape as the TOML).
    Json,
}

/// A run's computed values: one column of cells per channel, aligned to the
/// shared tick axis.
#[derive(Debug, Clone, PartialEq)]
pub struct Trace {
    /// The shared tick axis (seconds, as decimal text).
    pub time: Vec<String>,
    /// Per-channel columns, keyed by canonical path, in ascending key order.
    pub channels: Vec<(String, Vec<OverlayCell>)>,
    /// The externally driven channels, ascending.
    pub external: Vec<String>,
}

/// One channel's counterfactual-versus-logged comparison.
#[derive(Debug, Clone, PartialEq)]
pub struct ChannelDiff {
    /// Per-tick delta (counterfactual minus logged), as decimal text.
    pub delta: Vec<String>,
    /// `max |delta|`, as decimal text.
    pub max_abs_delta: String,
}

/// A counterfactual run compared against the logged run.
#[derive(Debug, Clone, PartialEq)]
pub struct Diff {
    /// Per-channel comparisons, keyed by canonical path, ascending.
    pub channels: Vec<(String, ChannelDiff)>,
    /// The channels the run moved beyond the threshold, ascending.
    pub changed: Vec<String>,
    /// The threshold, as decimal text.
    pub eps: String,
}

/// A counterfactual run: its trace and its diff against the logged run.
#[derive(Debug, Clone, PartialEq)]
pub struct Counterfactual {
    /// The recomputed trace.
    pub trace: Trace,
    /// The comparison against the log.
    pub diff: Diff,
}

/// Whether some node has id `id`.
pub open spec fn is_node_id(nodes: Seq<GraphNode>, id: Seq<char>) -> bool {
    exists|i: int| 0 <= i < nodes.len() && nodes[i].id@ == id
}

/// The trace columns whose channel is a node, in order.
pub open spec fn joined_columns(chs: Seq<(String, Vec<OverlayCell>)>, nodes: Seq<GraphNode>) -> Seq<
    (String, Vec<OverlayCell>),
> {
    chs.filter(|c: (String, Vec<OverlayCell>)| is_node_id(nodes, c.0@))
}

/// The external channels that are nodes, in order.
pub open spec fn joined_external(ext: Seq<String>, nodes: Seq<GraphNode>) -> Seq<String> {
    ext.filter(|x: String| is_node_id(nodes, x@))
}

/// Whether `entries` carries exactly the columns `cols`, as value payloads
/// (no delta, no summary).
pub open spec fn value_entries(entries: Seq<(String, NodeOverlay)>, cols: Seq<(String, Vec<OverlayCell>)>) -> bool {
    &&& entries.len() == cols.len()
    &&& forall|i: int|
        0 <= i < entries.len() ==> (#[trigger] entries[i]).0@ == cols[i].0@ && entries[i].1.series@
            == cols[i].1@ && entries[i].1.delta is None && entries[i].1.max_abs_delta is None
}

/// Whether `o` is the value overlay of trace `t` over `nodes`.
pub open spec fn is_value_overlay(o: Overlay, t: Trace, nodes: Seq<GraphNode>) -> bool {
    &&& o.kind == OverlayKind::Value
    &&& o.time@ == t.time@
    &&& value_entries(o.nodes@, joined_columns(t.channels@, nodes))
    &&& o.external@ == joined_external(t.external@, nodes)
    &&& o.changed@.len() == 0
    &&& o.eps is None
    &&& o.start_tick is None
}

/// A copy of a cell.
fn copy_cell(c: &OverlayCell) -> (r: OverlayCell)
    ensures
        r == *c,
{
    match c {
        OverlayCell::Num(v) => OverlayCell::Num(v.clone()),
        OverlayCell::Bool(b) => OverlayCell::Bool(*b),
        OverlayCell::Str(s) => OverlayCell::Str(s.clone()),
    }
}

/// A copy of a column of cells.
fn copy_cells(v: &Vec<OverlayCell>) -> (r: Vec<OverlayCell>)
    ensures
        r@ == v@,
{
    let mut r: Vec<OverlayCell> = Vec::new();
    let mut i: usize = 0;
    while i < v.len()
        invariant
            i <= v.len(),
            r@ == v@.take(i as int),
        decreases v.len() - i,
    {
        r.push(copy_cell(&v[i]));
        proof {
            assert(v@.take(i + 1) == v@.take(i as int).push(v@[i as int]));
        }
        i = i + 1;
    }
    proof {
        assert(v@.take(v@.len() as int) == v@);
    }
    r
}

/// A copy of a list of strings.
fn copy_texts(v: &Vec<String>) -> (r: Vec<String>)
    ensures
        r@ == v@,
{
    let mut r: Vec<String> = Vec::new();
    let mut i: usize = 0;
    while i < v.len()
        invariant
            i <= v.len(),
            r@ == v@.take(i as int),
        decreases v.len() - i,
    {
        r.push(v[i].clone());
        proof {
            assert(v@.take(i + 1) == v@.take(i as int).push(v@[i as int]));
        }
        i = i + 1;
    }
    proof {
        assert(v@.take(v@.len() as int) == v@);
    }
    r
}

/// Whether some node has id `id`.
fn node_has_id(nodes: &Vec<GraphNode>, id: &String) -> (r: bool)
    ensures
        r == is_node_id(nodes@, id@),
{
    let mut i: usize = 0;
    while i < nodes.len()
        invariant
            i <= nodes.len(),
            forall|k: int| 0 <= k < i ==> nodes@[k].id@ != id@,
        decreases nodes.len() - i,
    {
        if nodes[i].id == *id {
            return true;
        }
        i = i + 1;
    }
    false
}

/// Build a value overlay from a trace, keyed by graph-node id.
///
/// Every trace column whose channel is a node becomes that node's series;
/// columns with no matching node are dropped. External channels that are
/// nodes are carried over. The result has no changed set and no threshold.
pub fn value_overlay_from_trace(trace: &Trace, nodes: &Vec<GraphNode>) -> (o: Overlay)
    ensures
        is_value_overlay(o, *trace, nodes@),
        keys_ascending(trace.channels@) ==> keys_ascending(o.nodes@),
        strictly_ascending(trace.external@) ==> strictly_ascending(o.external@),
{
    let ghost colp = |c: (String, Vec<OverlayCell>)| is_node_id(nodes@, c.0@);
    let ghost extp = |x: String| is_node_id(nodes@, x@);
    let mut entries: Vec<(String, NodeOverlay)> = Vec::new();
    let mut i: usize = 0;
    while i < trace.channels.len()
        invariant
            i <= trace.channels.len(),
            colp == (|c: (String, Vec<OverlayCell>)| is_node_id(nodes@, c.0@)),
            value_entries(entries@, trace.channels@.take(i as int).filter(colp)),
        decreases trace.channels.len() - i,
    {
        let ghost before = trace.channels@.take(i as int).filter(colp);
        proof {
            assert(trace.channels@.take(i + 1) == trace.channels@.take(i as int).push(
                trace.channels@[i as int],
            ));
            trace.channels@.take(i as int).lemma_filter_push(trace.channels@[i as int], colp);
        }
        if node_has_id(nodes, &trace.channels[i].0) {
            let series = copy_cells(&trace.channels[i].1);
            let entry = (
                trace.channels[i].0.clone(),
                NodeOverlay { series, delta: None, max_abs_delta: None },
            );
            entries.push(entry);
            proof {
                assert(colp(trace.channels@[i as int]));
                let after = before.push(trace.channels@[i as int]);
                assert forall|k: int| 0 <= k < entries@.len() implies (#[trigger] entries@[k]).0@
                    == after[k].0@ && entries@[k].1.series@ == after[k].1@ && entries@[k].1.delta is None
                    && entries@[k].1.max_abs_delta is None by {
                    if k < before.len() {
                        assert(after[k] == before[k]);
                    }
                }
            }
        } else {
            proof {
                assert(!colp(trace.channels@[i as int]));
            }
        }
        i = i + 1;
    }
    proof {
        assert(trace.channels@.take(trace.channels@.len() as int) == trace.channels@);
    }
    let mut external: Vec<String> = Vec::new();
    let mut j: usize = 0;
    while j < trace.external.len()
        invariant
            j <= trace.external.len(),
            extp == (|x: String| is_node_id(nodes@, x@)),
            external@ == trace.external@.take(j as int).filter(extp),
        decreases trace.external.len() - j,
    {
        proof {
            assert(trace.external@.take(j + 1) == trace.external@.take(j as int).push(
                trace.external@[j as int],
            ));
            trace.external@.take(j as int).lemma_filter_push(trace.external@[j as int], extp);
        }
        if node_has_id(nodes, &trace.external[j]) {
            external.push(trace.external[j].clone());
        }
        j = j + 1;
    }
    proof {
        assert(trace.external@.take(trace.external@.len() as int) == trace.external@);
    }
    let o = Overlay {
        kind: OverlayKind::Value,
        time: copy_texts(&trace.time),
        nodes: entries,
        external,
        changed: Vec::new(),
        eps: None,
        start_tick: None,
    };
    proof {
        lemma_value_overlay_ascending(o, *trace, nodes@);
    }
    o
}


/// The comparison stored under key `k` (the last with that key).
pub open spec fn diff_for(chs: Seq<(String, ChannelDiff)>, k: Seq<char>) -> Option<ChannelDiff>
    decreases chs.len(),
{
    if chs.len() == 0 {
        None
    } else if chs.last().0@ == k {
        Some(chs.last().1)
    } else {
        diff_for(chs.drop_last(), k)
    }
}

/// Whether some column has key `k`.
pub open spec fn has_column(cols: Seq<(String, Vec<OverlayCell>)>, k: Seq<char>) -> bool {
    exists|i: int| 0 <= i < cols.len() && cols[i].0@ == k
}

/// Whether the keys of `s` ascend strictly, so that none occurs twice.
pub open spec fn keys_ascending<V>(s: Seq<(String, V)>) -> bool {
    forall|i: int, j: int| #![trigger s[i], s[j]] 0 <= i < j < s.len() ==> text_lt(s[i].0@, s[j].0@)
}

/// Keeping some of a list whose keys ascend strictly keeps them ascending.
proof fn lemma_filter_ascending<A>(s: Seq<A>, p: spec_fn(A) -> bool, key: spec_fn(A) -> Seq<char>)
    requires
        forall|i: int, j: int| #![trigger s[i], s[j]] 0 <= i < j < s.len() ==> text_lt(key(s[i]), key(s[j])),
    ensures
        forall|i: int, j: int|
            #![trigger s.filter(p)[i], s.filter(p)[j]]
            0 <= i < j < s.filter(p).len() ==> text_lt(key(s.filter(p)[i]), key(s.filter(p)[j])),
    decreases s.len(),
{
    reveal(Seq::filter);
    if s.len() > 0 {
        let d = s.drop_last();
        assert forall|i: int, j: int| #![trigger d[i], d[j]] 0 <= i < j < d.len() implies text_lt(key(d[i]), key(d[j])) by {
            assert(d[i] == s[i] && d[j] == s[j]);
        }
        lemma_filter_ascending(d, p, key);
        let fd = d.filter(p);
        if p(s.last()) {
            let f = s.filter(p);
            assert(f == fd.push(s.last()));
            assert forall|i: int, j: int| #![trigger f[i], f[j]] 0 <= i < j < f.len() implies text_lt(key(f[i]), key(f[j])) by {
                if j < f.len() - 1 {
                    assert(f[i] == fd[i] && f[j] == fd[j]);
                } else {
                    assert(f[i] == fd[i]);
                    assert(fd.contains(fd[i]));
                    d.lemma_filter_contains_rev(p, fd[i]);
                    let k = choose|k: int| 0 <= k < d.len() && d[k] == fd[i];
                    assert(s[k] == d[k]);
                    assert(f[j] == s[s.len() - 1]);
                }
            }
        } else {
            assert(s.filter(p) == fd);
        }
    }
}

/// A value overlay of a trace whose channels (and external channels) ascend
/// strictly has node keys (and external ids) that ascend strictly.
proof fn lemma_value_overlay_ascending(o: Overlay, t: Trace, nodes: Seq<GraphNode>)
    requires
        is_value_overlay(o, t, nodes),
    ensures
        keys_ascending(t.channels@) ==> keys_ascending(o.nodes@),
        strictly_ascending(t.external@) ==> strictly_ascending(o.external@),
{
    let colp = |c: (String, Vec<OverlayCell>)| is_node_id(nodes, c.0@);
    let ck = |c: (String, Vec<OverlayCell>)| c.0@;
    let extp = |x: String| is_node_id(nodes, x@);
    let xk = |x: String| x@;
    if keys_ascending(t.channels@) {
        let s = t.channels@;
        assert forall|i: int, j: int| #![trigger s[i], s[j]] 0 <= i < j < s.len() implies text_lt(ck(s[i]), ck(s[j])) by {}
        lemma_filter_ascending(s, colp, ck);
        let cols = s.filter(colp);
        assert forall|i: int, j: int| #![trigger o.nodes@[i], o.nodes@[j]] 0 <= i < j < o.nodes@.len() implies text_lt(
            o.nodes@[i].0@,
            o.nodes@[j].0@,
        ) by {
            assert(o.nodes@[i].0@ == cols[i].0@ && o.nodes@[j].0@ == cols[j].0@);
            assert(text_lt(ck(cols[i]), ck(cols[j])));
        }
    }
    if strictly_ascending(t.external@) {
        let s = t.external@;
        assert forall|i: int, j: int| #![trigger s[i], s[j]] 0 <= i < j < s.len() implies text_lt(xk(s[i]), xk(s[j])) by {
            assert(text_lt(s[i]@, s[j]@));
        }
        lemma_filter_ascending(s, extp, xk);
        let e = o.external@;
        assert(e == s.filter(extp));
        assert forall|i: int, j: int| 0 <= i < j < e.len() implies text_lt(#[trigger] e[i]@, #[trigger] e[j]@) by {
            assert(text_lt(xk(e[i]), xk(e[j])));
        }
    }
}

/// Whether `e` is the diff payload of column `col`: its series, with the
/// delta and summary of the comparison under its key when there is one.
pub open spec fn diff_entry(
    e: (String, NodeOverlay),
    col: (String, Vec<OverlayCell>),
    chs: Seq<(String, ChannelDiff)>,
) -> bool {
    &&& e.0@ == col.0@
    &&& e.1.series@ == col.1@
    &&& match diff_for(chs, col.0@) {
        Some(cd) => e.1.delta is Some && e.1.delta->0@ == cd.delta@ && e.1.max_abs_delta is Some
            && e.1.max_abs_delta->0@ == cd.max_abs_delta@,
        None => e.1.delta is None && e.1.max_abs_delta is None,
    }
}

/// Whether `o` is the diff overlay of counterfactual `cf` over `nodes`.
pub open spec fn is_diff_overlay(o: Overlay, cf: Counterfactual, nodes: Seq<GraphNode>) -> bool {
    let cols = joined_columns(cf.trace.channels@, nodes);
    &&& o.kind == OverlayKind::Diff
    &&& o.time@ == cf.trace.time@
    &&& o.nodes@.len() == cols.len()
    &&& forall|i: int| 0 <= i < cols.len() ==> diff_entry(#[trigger] o.nodes@[i], cols[i], cf.diff.channels@)
    &&& o.external@ == joined_external(cf.trace.external@, nodes)
    &&& o.changed@ == cf.diff.changed@.filter(|c: String| has_column(cols, c@))
    &&& crate::model::opt_chars(o.eps) == Some(cf.diff.eps@)
    &&& o.start_tick is None
}

/// The comparison stored under key `k`.
fn find_diff<'a>(chs: &'a Vec<(String, ChannelDiff)>, k: &String) -> (r: Option<&'a ChannelDiff>)
    ensures
        match r {
            Some(cd) => diff_for(chs@, k@) == Some(*cd),
            None => diff_for(chs@, k@) is None,
        },
{
    let mut i: usize = chs.len();
    proof {
        assert(chs@.take(chs@.len() as int) == chs@);
    }
    while i > 0
        invariant
            i <= chs.len(),
            diff_for(chs@, k@) == diff_for(chs@.take(i as int), k@),
        decreases i,
    {
        proof {
            assert(chs@.take(i as int).drop_last() == chs@.take(i - 1));
            assert(chs@.take(i as int).last() == chs@[i - 1]);
        }
        if chs[i - 1].0 == *k {
            return Some(&chs[i - 1].1);
        }
        i = i - 1;
    }
    None
}

/// Whether some overlay entry has key `k`.
fn entry_has_key(entries: &Vec<(String, NodeOverlay)>, k: &String) -> (r: bool)
    ensures
        r == exists|i: int| 0 <= i < entries@.len() && entries@[i].0@ == k@,
{
    let mut i: usize = 0;
    while i < entries.len()
        invariant
            i <= entries.len(),
            forall|m: int| 0 <= m < i ==> entries@[m].0@ != k@,
        decreases entries.len() - i,
    {
        if entries[i].0 == *k {
            return true;
        }
        i = i + 1;
    }
    false
}

/// Build a diff overlay from a counterfactual run, keyed by graph-node id.
///
/// Starts from the value overlay of the counterfactual trace (so each node's
/// series is the recomputed column), switches the kind to diff, and gives each
/// node with a comparison its per-tick delta and `max |delta|`. The changed set
/// is the run's changed channels restricted to the overlay's nodes, and the
/// threshold is the diff's. A diff with no changed channels (a no-op override)
/// yields an empty changed set.
pub fn diff_overlay(cf: &Counterfactual, nodes: &Vec<GraphNode>) -> (o: Overlay)
    ensures
        is_diff_overlay(o, *cf, nodes@),
        cf.diff.changed@.len() == 0 ==> o.changed@.len() == 0,
        keys_ascending(cf.trace.channels@) ==> keys_ascending(o.nodes@),
        strictly_ascending(cf.trace.external@) ==> strictly_ascending(o.external@),
        strictly_ascending(cf.diff.changed@) ==> strictly_ascending(o.changed@),
{
    let base = value_overlay_from_trace(&cf.trace, nodes);
    let ghost cols = joined_columns(cf.trace.channels@, nodes@);
    let mut entries: Vec<(String, NodeOverlay)> = Vec::new();
    let mut i: usize = 0;
    while i < base.nodes.len()
        invariant
            i <= base.nodes.len(),
            is_value_overlay(base, cf.trace, nodes@),
            cols == joined_columns(cf.trace.channels@, nodes@),
            entries@.len() == i,
            forall|k: int| 0 <= k < i ==> diff_entry(#[trigger] entries@[k], cols[k], cf.diff.channels@),
        decreases base.nodes.len() - i,
    {
        let key = &base.nodes[i].0;
        let series = copy_cells(&base.nodes[i].1.series);
        let payload = match find_diff(&cf.diff.channels, key) {
            Some(cd) => NodeOverlay {
                series,
                delta: Some(copy_texts(&cd.delta)),
                max_abs_delta: Some(cd.max_abs_delta.clone()),
            },
            None => NodeOverlay { series, delta: None, max_abs_delta: None },
        };
        entries.push((key.clone(), payload));
        proof {
            assert(base.nodes@[i as int].0@ == cols[i as int].0@);
            assert(diff_entry(entries@[i as int], cols[i as int], cf.diff.channels@));
        }
        i = i + 1;
    }
    let ghost cp = |c: String| has_column(cols, c@);
    let mut changed: Vec<String> = Vec::new();
    let mut j: usize = 0;
    while j < cf.diff.changed.len()
        invariant
            j <= cf.diff.changed.len(),
            cp == (|c: String| has_column(cols, c@)),
            entries@.len() == cols.len(),
            forall|k: int| 0 <= k < cols.len() ==> diff_entry(#[trigger] entries@[k], cols[k], cf.diff.channels@),
            changed@ == cf.diff.changed@.take(j as int).filter(cp),
        decreases cf.diff.changed.len() - j,
    {
        proof {
            assert(cf.diff.changed@.take(j + 1) == cf.diff.changed@.take(j as int).push(
                cf.diff.changed@[j as int],
            ));
            cf.diff.changed@.take(j as int).lemma_filter_push(cf.diff.changed@[j as int], cp);
        }
        let present = entry_has_key(&entries, &cf.diff.changed[j]);
        proof {
            let c = cf.diff.changed@[j as int];
            if present {
                let m = choose|m: int| 0 <= m < entries@.len() && entries@[m].0@ == c@;
                assert(diff_entry(entries@[m], cols[m], cf.diff.channels@));
                assert(cols[m].0@ == c@);
            }
            if has_column(cols, c@) {
                let m = choose|m: int| 0 <= m < cols.len() && cols[m].0@ == c@;
                assert(diff_entry(entries@[m], cols[m], cf.diff.channels@));
                assert(entries@[m].0@ == c@);
            }
        }
        if present {
            changed.push(cf.diff.changed[j].clone());
        }
        j = j + 1;
    }
    proof {
        assert(cf.diff.changed@.take(cf.diff.changed@.len() as int) == cf.diff.changed@);
        if cf.diff.changed@.len() == 0 {
            cf.diff.changed@.lemma_filter_len(cp);
        }
    }
    let o = Overlay {
        kind: OverlayKind::Diff,
        time: base.time,
        nodes: entries,
        external: base.external,
        changed,
        eps: Some(cf.diff.eps.clone()),
        start_tick: None,
    };
    proof {
        if keys_ascending(cf.trace.channels@) {
            assert forall|i: int, j: int| #![trigger o.nodes@[i], o.nodes@[j]] 0 <= i < j < o.nodes@.len() implies text_lt(
                o.nodes@[i].0@,
                o.nodes@[j].0@,
            ) by {
                assert(diff_entry(o.nodes@[i], cols[i], cf.diff.channels@));
                assert(diff_entry(o.nodes@[j], cols[j], cf.diff.channels@));
                assert(base.nodes@[i].0@ == cols[i].0@ && base.nodes@[j].0@ == cols[j].0@);
            }
        }
        if strictly_ascending(cf.diff.changed@) {
            let s = cf.diff.changed@;
            let xk = |x: String| x@;
            assert forall|i: int, j: int| #![trigger s[i], s[j]] 0 <= i < j < s.len() implies text_lt(xk(s[i]), xk(s[j])) by {
                assert(text_lt(s[i]@, s[j]@));
            }
            lemma_filter_ascending(s, cp, xk);
            let e = o.changed@;
            assert forall|i: int, j: int| 0 <= i < j < e.len() implies text_lt(#[trigger] e[i]@, #[trigger] e[j]@) by {
                assert(text_lt(xk(e[i]), xk(e[j])));
            }
        }
    }
    o
}

} // verus!
