//! The in-memory graph model: the single source of truth that the renderers
//! (DOT / JSON / HTML) read. The loader builds it from a project's symbol table,
//! and the overlay joins fold computed values onto it.
//!
//! Floating-point quantities (rates, tick times, computed values, deltas) are
//! carried as their shortest round-trip decimal text, the form Rust's `Display`
//! gives an `f64` (`"100"`, `"0.01"`, `"NaN"`). That text is exact: parsing it
//! back yields the same `f64`, so the JSON boundary converts losslessly.
use vstd::prelude::*;

use crate::text::{chars_of, last_index_of, lemma_last_index_of, rfind_char};

verus! {

/// The kind of structural entity a [`GraphNode`] represents.
#[derive(Debug, Clone, Copy, PartialEq, Eq, Structural)]
pub enum NodeKind {
    /// A runtime signal.
    Channel,
    /// A tunable.
    Parameter,
    /// A fixed value.
    Constant,
    /// A lookup table.
    Table,
    /// A user function or method.
    Function,
    /// A subsystem / container: a declared group or a synthesized ancestor
    /// implied by a dotted path.
    Group,
}

/// The stable lowercase tag of a node kind.
pub open spec fn node_tag(kind: NodeKind) -> Seq<char> {
    match kind {
        NodeKind::Channel => "channel"@,
        NodeKind::Parameter => "parameter"@,
        NodeKind::Constant => "constant"@,
        NodeKind::Table => "table"@,
        NodeKind::Function => "function"@,
        NodeKind::Group => "group"@,
    }
}

impl NodeKind {
    /// A short, stable lowercase tag used in DOT/HTML styling and JSON.
    pub fn tag(self) -> (t: &'static str)
        ensures
            t@ == node_tag(self),
    {
        match self {
            NodeKind::Channel => "channel",
            NodeKind::Parameter => "parameter",
            NodeKind::Constant => "constant",
            NodeKind::Table => "table",
            NodeKind::Function => "function",
            NodeKind::Group => "group",
        }
    }
}

/// The kind of relationship a [`GraphEdge`] represents.
#[derive(Debug, Clone, Copy, PartialEq, Eq, Structural)]
pub enum EdgeKind {
    /// A script reads one symbol and writes another. Reads point into the
    /// backing function; writes point out of it.
    DataFlow,
    /// Links a table's members (axis channels, output `.Value`) to the table.
    TableAxis,
    /// Group containment, derived from dotted-path nesting (parent to child).
    Hierarchy,
    /// Execution-rate relationship: a clock to the node that runs at its rate.
    Schedule,
}

/// The stable lowercase tag of an edge kind.
pub open spec fn edge_tag(kind: EdgeKind) -> Seq<char> {
    match kind {
        EdgeKind::DataFlow => "data_flow"@,
        EdgeKind::TableAxis => "table_axis"@,
        EdgeKind::Hierarchy => "hierarchy"@,
        EdgeKind::Schedule => "schedule"@,
    }
}

impl EdgeKind {
    /// A short, stable lowercase tag used in DOT/HTML styling and JSON.
    pub fn tag(self) -> (t: &'static str)
        ensures
            t@ == edge_tag(self),
    {
        match self {
            EdgeKind::DataFlow => "data_flow",
            EdgeKind::TableAxis => "table_axis",
            EdgeKind::Hierarchy => "hierarchy",
            EdgeKind::Schedule => "schedule",
        }
    }
}

/// The final `.`-separated segment of a dotted path (the whole path when it has
/// no dot). Identifiers may contain spaces: only `.` separates segments.
pub open spec fn last_segment(path: Seq<char>) -> Seq<char> {
    path.skip(last_index_of(path, '.') + 1)
}

/// One node in the graph. `id` is a stable identifier (the dotted path) used to
/// wire up edges.
#[derive(Debug, Clone, PartialEq)]
pub struct GraphNode {
    /// Stable node identifier: the symbol's dotted path.
    pub id: String,
    /// The dotted path (same as `id`).
    pub path: String,
    /// What this node represents.
    pub kind: NodeKind,
    /// Execution / logging rate in Hz, as decimal text, when known.
    pub rate_hz: Option<String>,
    /// Engineering unit for display, when known.
    pub unit: Option<String>,
    /// Declared storage / value type label, when known.
    pub type_label: Option<String>,
    /// For tables: number of input axes, when known.
    pub table_dims: Option<usize>,
    /// The id of the containing group, when this node is nested.
    pub parent: Option<String>,
}

/// The plain-value model of a [`GraphNode`].
pub ghost struct NodeView {
    pub id: Seq<char>,
    pub path: Seq<char>,
    pub kind: NodeKind,
    pub rate_hz: Option<Seq<char>>,
    pub unit: Option<Seq<char>>,
    pub type_label: Option<Seq<char>>,
    pub table_dims: Option<usize>,
    pub parent: Option<Seq<char>>,
}

/// The characters of an optional string.
pub open spec fn opt_chars(o: Option<String>) -> Option<Seq<char>> {
    match o {
        Some(s) => Some(s@),
        None => None,
    }
}

impl View for GraphNode {
    type V = NodeView;

    open spec fn view(&self) -> NodeView {
        NodeView {
            id: self.id@,
            path: self.path@,
            kind: self.kind,
            rate_hz: opt_chars(self.rate_hz),
            unit: opt_chars(self.unit),
            type_label: opt_chars(self.type_label),
            table_dims: self.table_dims,
            parent: opt_chars(self.parent),
        }
    }
}

/// The plain-value model of a [`GraphEdge`].
pub ghost struct EdgeView {
    pub from: Seq<char>,
    pub to: Seq<char>,
    pub kind: EdgeKind,
}

/// A bare node of `kind` at `path`, with no optional metadata.
pub open spec fn bare_node(node: GraphNode, path: Seq<char>, kind: NodeKind) -> bool {
    &&& node.id@ == path
    &&& node.path@ == path
    &&& node.kind == kind
    &&& node.rate_hz is None
    &&& node.unit is None
    &&& node.type_label is None
    &&& node.table_dims is None
    &&& node.parent is None
}

impl GraphNode {
    /// Construct a bare node of the given `kind` at `path`.
    pub fn new(path: &str, kind: NodeKind) -> (node: GraphNode)
        ensures
            bare_node(node, path@, kind),
    {
        GraphNode {
            id: crate::text::owned(path),
            path: crate::text::owned(path),
            kind,
            rate_hz: None,
            unit: None,
            type_label: None,
            table_dims: None,
            parent: None,
        }
    }

    /// The label shown in renderers: the final dotted segment of the path, or the
    /// whole path when it has no dots.
    pub fn label(&self) -> (l: &str)
        ensures
            l@ == last_segment(self.path@),
    {
        let cs = chars_of(self.path.as_str());
        proof {
            lemma_last_index_of(cs@, '.');
        }
        let from = match rfind_char(&cs, '.') {
            Some(i) => i + 1,
            None => 0,
        };
        self.path.as_str().substring_char(from, cs.len())
    }

    /// A copy of this node.
    pub fn duplicate(&self) -> (r: GraphNode)
        ensures
            r == *self,
    {
        GraphNode {
            id: self.id.clone(),
            path: self.path.clone(),
            kind: self.kind,
            rate_hz: copy_text(&self.rate_hz),
            unit: copy_text(&self.unit),
            type_label: copy_text(&self.type_label),
            table_dims: self.table_dims,
            parent: copy_text(&self.parent),
        }
    }
}

/// A copy of an optional string.
pub fn copy_text(t: &Option<String>) -> (r: Option<String>)
    ensures
        r == *t,
{
    match t {
        Some(s) => Some(s.clone()),
        None => None,
    }
}

/// One directed edge between two nodes, of a given [`EdgeKind`].
#[derive(Debug, Clone, PartialEq)]
pub struct GraphEdge {
    /// Source node id.
    pub from: String,
    /// Target node id.
    pub to: String,
    /// The relationship kind.
    pub kind: EdgeKind,
}

impl GraphEdge {
    /// Construct an edge of `kind` from `from` to `to`.
    pub fn new(from: &str, to: &str, kind: EdgeKind) -> (e: GraphEdge)
        ensures
            e.from@ == from@,
            e.to@ == to@,
            e.kind == kind,
    {
        GraphEdge { from: crate::text::owned(from), to: crate::text::owned(to), kind }
    }

    /// A copy of this edge.
    pub fn duplicate(&self) -> (r: GraphEdge)
        ensures
            r == *self,
    {
        GraphEdge { from: self.from.clone(), to: self.to.clone(), kind: self.kind }
    }
}

impl View for GraphEdge {
    type V = EdgeView;

    open spec fn view(&self) -> EdgeView {
        EdgeView { from: self.from@, to: self.to@, kind: self.kind }
    }
}

/// The models of a sequence of nodes.
pub open spec fn node_views(ns: Seq<GraphNode>) -> Seq<NodeView> {
    ns.map_values(|n: GraphNode| n@)
}

/// The models of a sequence of edges.
pub open spec fn edge_views(es: Seq<GraphEdge>) -> Seq<EdgeView> {
    es.map_values(|e: GraphEdge| e@)
}

/// Which overlay workflow produced an [`Overlay`].
#[derive(Debug, Clone, Copy, PartialEq, Eq, Structural)]
pub enum OverlayKind {
    /// Computed values at each tick.
    Value,
    /// Counterfactual deltas (a logged run versus an override).
    Diff,
}

/// One cell of a node's per-tick series.
#[derive(Debug, Clone, PartialEq)]
pub enum OverlayCell {
    /// A numeric value, as decimal text: colour-by-magnitude applies.
    Num(String),
    /// A boolean value: label-only.
    Bool(bool),
    /// A non-numeric display value (enum member, string): label-only.
    Str(String),
}

/// The per-node overlay payload: a value series aligned to [`Overlay::time`],
/// plus optional diff data.
#[derive(Debug, Clone, PartialEq)]
pub struct NodeOverlay {
    /// One cell per tick, aligned to [`Overlay::time`].
    pub series: Vec<OverlayCell>,
    /// Per-tick delta (counterfactual minus logged) as decimal text, in diff mode.
    pub delta: Option<Vec<String>>,
    /// The diff summary (`max |delta|`) as decimal text, in diff mode.
    pub max_abs_delta: Option<String>,
}

/// A value/diff overlay keyed by graph-node id.
#[derive(Debug, Clone, PartialEq)]
pub struct Overlay {
    /// Which workflow produced this overlay.
    pub kind: OverlayKind,
    /// The shared tick axis (seconds, as decimal text).
    pub time: Vec<String>,
    /// Per-node overlay payloads, keyed by node id, in ascending key order.
    pub nodes: Vec<(String, NodeOverlay)>,
    /// Externally-driven node ids, ascending.
    pub external: Vec<String>,
    /// Changed node ids (the override's downstream cone) in diff mode.
    pub changed: Vec<String>,
    /// The diff threshold as decimal text, in diff mode.
    pub eps: Option<String>,
    /// The scrubber's initial tick: an index into [`Overlay::time`].
    pub start_tick: Option<usize>,
}

/// `o` with its scrubber start hint set to `tick`.
pub open spec fn started_at(o: Overlay, tick: usize) -> Overlay {
    Overlay { start_tick: Some(tick), ..o }
}

impl Overlay {
    /// Record `tick` as the scrubber's initial tick and return the overlay.
    pub fn with_start_tick(self, tick: usize) -> (r: Overlay)
        ensures
            r == started_at(self, tick),
    {
        let mut o = self;
        o.start_tick = Some(tick);
        o
    }
}

/// The whole project's structural graph.
#[derive(Debug, Clone, Default, PartialEq)]
pub struct GraphModel {
    /// Optional human title.
    pub title: Option<String>,
    /// The nodes, in deterministic order.
    pub nodes: Vec<GraphNode>,
    /// The edges, in deterministic order.
    pub edges: Vec<GraphEdge>,
    /// An optional value/diff overlay.
    pub overlay: Option<Overlay>,
}

/// `m` with `o` attached as its overlay, structure untouched.
pub open spec fn attached(m: GraphModel, o: Overlay) -> GraphModel {
    GraphModel { overlay: Some(o), ..m }
}

/// The edges of `edges` whose kind is `kind`, in order.
pub open spec fn edges_of_kind(edges: Seq<GraphEdge>, kind: EdgeKind) -> Seq<GraphEdge> {
    edges.filter(|e: GraphEdge| e.kind == kind)
}

impl GraphModel {
    /// An empty graph with an optional title.
    pub fn new(title: Option<String>) -> (m: GraphModel)
        ensures
            m.title == title,
            m.nodes@.len() == 0,
            m.edges@.len() == 0,
            m.overlay is None,
    {
        GraphModel { title, nodes: Vec::new(), edges: Vec::new(), overlay: None }
    }

    /// Count of edges of a given kind.
    pub fn edge_count(&self, kind: EdgeKind) -> (n: usize)
        ensures
            n == edges_of_kind(self.edges@, kind).len(),
    {
        let mut n: usize = 0;
        let mut i: usize = 0;
        while i < self.edges.len()
            invariant
                i <= self.edges.len(),
                n == edges_of_kind(self.edges@.take(i as int), kind).len(),
                n <= i,
            decreases self.edges.len() - i,
        {
            proof {
                let f = |e: GraphEdge| e.kind == kind;
                assert(self.edges@.take(i + 1) == self.edges@.take(i as int).push(
                    self.edges@[i as int],
                ));
                self.edges@.take(i as int).lemma_filter_push(self.edges@[i as int], f);
                self.edges@.take(i as int).lemma_filter_len(f);
            }
            if self.edges[i].kind == kind {
                n = n + 1;
            }
            i = i + 1;
        }
        proof {
            assert(self.edges@.take(self.edges@.len() as int) == self.edges@);
        }
        n
    }

    /// Fold an [`Overlay`] onto this model and return it, leaving title, nodes
    /// and edges untouched.
    pub fn with_overlay(self, overlay: Overlay) -> (m: GraphModel)
        ensures
            m == attached(self, overlay),
    {
        let mut m = self;
        m.overlay = Some(overlay);
        m
    }
}

/// Attaching an overlay never touches the structure: the title, nodes and edges
/// of the result are those of the model it was attached to.
pub proof fn lemma_attach_preserves_structure(m: GraphModel, o: Overlay)
    ensures
        attached(m, o).title == m.title,
        attached(m, o).nodes == m.nodes,
        attached(m, o).edges == m.edges,
        attached(m, o).overlay == Some(o),
{
}

/// Attaching is an idempotent replacement: attaching `a` and then `b` gives the
/// same model as attaching `b` alone (the last overlay wins).
pub proof fn lemma_attach_last_wins(m: GraphModel, a: Overlay, b: Overlay)
    ensures
        attached(attached(m, a), b) == attached(m, b),
{
}

/// Setting the start hint twice keeps only the second tick.
pub proof fn lemma_start_tick_last_wins(o: Overlay, a: usize, b: usize)
    ensures
        started_at(started_at(o, a), b) == started_at(o, b),
{
}

} // verus!
