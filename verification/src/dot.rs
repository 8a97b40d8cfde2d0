//! Graphviz DOT export of a [`GraphModel`].
//!
//! Produces a `digraph` with one declaration per non-group node and one line per
//! drawn edge. Every [`NodeKind::Group`] becomes a nested `subgraph cluster_<id>`
//! block labelled by its leaf segment, and every non-group node is declared
//! inside its nearest enclosing group cluster. Hierarchy edges that the cluster
//! nesting already conveys are not drawn.
//!
//! When the model carries an [`Overlay`], each node's at-time numeric cell (the
//! overlay's start tick when it is in range, else the last tick) is appended to
//! its label. Non-numeric cells and nodes the overlay never touched leave the
//! label unchanged.
use vstd::prelude::*;

use crate::loader::parent_path;
use crate::model::{
    last_segment, EdgeKind, GraphEdge, GraphModel, GraphNode, NodeKind, NodeOverlay, Overlay,
    OverlayCell,
};
use crate::text::{chars_of, last_index_of, lemma_last_index_of, parent_of};

verus! {

// ---------------------------------------------------------------------------
// Quoting
// ---------------------------------------------------------------------------

/// The DOT escape of one character: a backslash or a double quote gets a
/// backslash in front of it.
pub open spec fn escape_char(c: char) -> Seq<char> {
    if c == '\\' {
        seq!['\\', '\\']
    } else if c == '"' {
        seq!['\\', '"']
    } else {
        seq![c]
    }
}

/// The DOT escape of a string, character by character.
pub open spec fn escaped(s: Seq<char>) -> Seq<char>
    decreases s.len(),
{
    if s.len() == 0 {
        Seq::empty()
    } else {
        escaped(s.drop_last()) + escape_char(s.last())
    }
}

/// `s` as a DOT double-quoted string.
pub open spec fn quoted(s: Seq<char>) -> Seq<char> {
    seq!['"'] + escaped(s) + seq!['"']
}

/// Appends the DOT escape of `s` to `out`.
fn push_escaped(out: &mut String, s: &str)
    ensures
        final(out)@ == old(out)@ + escaped(s@),
{
    let cs = chars_of(s);
    let mut i: usize = 0;
    while i < cs.len()
        invariant
            i <= cs.len(),
            cs@ == s@,
            out@ == old(out)@ + escaped(cs@.take(i as int)),
        decreases cs.len() - i,
    {
        let c = cs[i];
        proof {
            assert(cs@.take(i + 1).drop_last() == cs@.take(i as int));
        }
        if c == '\\' {
            out.push('\\');
            out.push('\\');
        } else if c == '"' {
            out.push('\\');
            out.push('"');
        } else {
            out.push(c);
        }
        i = i + 1;
    }
    proof {
        assert(cs@.take(cs@.len() as int) == cs@);
    }
}

/// Appends `s` as a DOT double-quoted string to `out`.
fn push_quoted(out: &mut String, s: &str)
    ensures
        final(out)@ == old(out)@ + quoted(s@),
{
    out.push('"');
    push_escaped(out, s);
    out.push('"');
}

/// Quote and escape a string as a DOT-safe double-quoted identifier/label.
pub fn quote(s: &str) -> (r: String)
    ensures
        r@ == quoted(s@),
{
    let mut r = String::new();
    push_quoted(&mut r, s);
    r
}

// ---------------------------------------------------------------------------
// Styles
// ---------------------------------------------------------------------------

/// DOT shape of a node kind.
pub open spec fn node_shape(kind: NodeKind) -> Seq<char> {
    match kind {
        NodeKind::Channel => "ellipse"@,
        NodeKind::Parameter => "box"@,
        NodeKind::Constant => "box"@,
        NodeKind::Table => "box3d"@,
        NodeKind::Function => "component"@,
        NodeKind::Group => "folder"@,
    }
}

/// DOT colour of a node kind.
pub open spec fn node_color(kind: NodeKind) -> Seq<char> {
    match kind {
        NodeKind::Channel => "black"@,
        NodeKind::Parameter => "blue"@,
        NodeKind::Constant => "gray"@,
        NodeKind::Table => "purple"@,
        NodeKind::Function => "darkgreen"@,
        NodeKind::Group => "orange"@,
    }
}

/// DOT `(shape, color)` for a node kind.
pub fn node_style(kind: NodeKind) -> (r: (&'static str, &'static str))
    ensures
        r.0@ == node_shape(kind),
        r.1@ == node_color(kind),
{
    match kind {
        NodeKind::Channel => ("ellipse", "black"),
        NodeKind::Parameter => ("box", "blue"),
        NodeKind::Constant => ("box", "gray"),
        NodeKind::Table => ("box3d", "purple"),
        NodeKind::Function => ("component", "darkgreen"),
        NodeKind::Group => ("folder", "orange"),
    }
}

/// DOT line style of an edge kind.
pub open spec fn edge_line(kind: EdgeKind) -> Seq<char> {
    match kind {
        EdgeKind::DataFlow => "solid"@,
        EdgeKind::TableAxis => "dashed"@,
        EdgeKind::Hierarchy => "dotted"@,
        EdgeKind::Schedule => "dashed"@,
    }
}

/// DOT colour of an edge kind.
pub open spec fn edge_color(kind: EdgeKind) -> Seq<char> {
    match kind {
        EdgeKind::DataFlow => "black"@,
        EdgeKind::TableAxis => "purple"@,
        EdgeKind::Hierarchy => "orange"@,
        EdgeKind::Schedule => "red"@,
    }
}

/// DOT `(style, color)` for an edge kind.
pub fn edge_style(kind: EdgeKind) -> (r: (&'static str, &'static str))
    ensures
        r.0@ == edge_line(kind),
        r.1@ == edge_color(kind),
{
    match kind {
        EdgeKind::DataFlow => ("solid", "black"),
        EdgeKind::TableAxis => ("dashed", "purple"),
        EdgeKind::Hierarchy => ("dotted", "orange"),
        EdgeKind::Schedule => ("dashed", "red"),
    }
}

// ---------------------------------------------------------------------------
// Cluster structure
// ---------------------------------------------------------------------------

/// The index of the last node whose id is `id`, or -1: the node an id-keyed
/// index of the model resolves `id` to.
pub open spec fn last_with_id(nodes: Seq<GraphNode>, id: Seq<char>) -> int
    decreases nodes.len(),
{
    if nodes.len() == 0 {
        -1
    } else if nodes.last().id@ == id {
        nodes.len() - 1
    } else {
        last_with_id(nodes.drop_last(), id)
    }
}

/// Whether `id` resolves to a group node.
pub open spec fn is_group_id(nodes: Seq<GraphNode>, id: Seq<char>) -> bool {
    last_with_id(nodes, id) >= 0 && nodes[last_with_id(nodes, id)].kind == NodeKind::Group
}

/// The first of `path` and its dotted ancestors (nearest first) that resolves
/// to a group node.
pub open spec fn group_at_or_above(nodes: Seq<GraphNode>, path: Seq<char>) -> Option<Seq<char>>
    decreases path.len(),
{
    if is_group_id(nodes, path) {
        Some(path)
    } else if last_index_of(path, '.') < 0 {
        None
    } else {
        proof {
            lemma_last_index_of(path, '.');
        }
        group_at_or_above(nodes, path.take(last_index_of(path, '.')))
    }
}

/// The nearest group ancestor of a node, starting from its recorded parent.
/// `None` places the node at the digraph root.
pub open spec fn nearest_group(nodes: Seq<GraphNode>, node: GraphNode) -> Option<Seq<char>> {
    match node.parent {
        Some(p) => group_at_or_above(nodes, p@),
        None => None,
    }
}

/// The cluster an id is drawn in: the nearest group of the node `id` resolves
/// to, or `None` (the digraph root) when it is no node's id.
pub open spec fn cluster_of(nodes: Seq<GraphNode>, id: Seq<char>) -> Option<Seq<char>> {
    if last_with_id(nodes, id) >= 0 {
        nearest_group(nodes, nodes[last_with_id(nodes, id)])
    } else {
        None
    }
}

/// The non-group nodes drawn directly in cluster `b`, in model order.
pub open spec fn members(nodes: Seq<GraphNode>, b: Option<Seq<char>>) -> Seq<GraphNode> {
    nodes.filter(|n: GraphNode| n.kind != NodeKind::Group && cluster_of(nodes, n.id@) == b)
}

/// Whether `n` is a group node whose own cluster is `b`.
pub open spec fn is_child_group(nodes: Seq<GraphNode>, b: Option<Seq<char>>, n: GraphNode) -> bool {
    n.kind == NodeKind::Group && cluster_of(nodes, n.id@) == b
}

/// The ids of the group nodes nested directly in cluster `b`, in model order.
pub open spec fn child_groups(nodes: Seq<GraphNode>, b: Option<Seq<char>>) -> Seq<Seq<char>> {
    nodes.filter(|n: GraphNode| is_child_group(nodes, b, n)).map_values(|n: GraphNode| n.id@)
}

/// The label of a cluster: the leaf segment of the node its id resolves to.
pub open spec fn cluster_label(nodes: Seq<GraphNode>, g: Seq<char>) -> Seq<char> {
    if last_with_id(nodes, g) >= 0 {
        last_segment(nodes[last_with_id(nodes, g)].path@)
    } else {
        g
    }
}

// ---------------------------------------------------------------------------
// Overlay values
// ---------------------------------------------------------------------------

/// The payload stored under key `id` (the first entry with that key).
pub open spec fn entry_for(entries: Seq<(String, NodeOverlay)>, id: Seq<char>) -> Option<
    NodeOverlay,
>
    decreases entries.len(),
{
    if entries.len() == 0 {
        None
    } else if entries[0].0@ == id {
        Some(entries[0].1)
    } else {
        entry_for(entries.drop_first(), id)
    }
}

/// The tick a node's series is read at: the overlay's start tick when it lies
/// within the series, else the series' last tick.
pub open spec fn at_tick(start: Option<usize>, len: nat) -> int {
    match start {
        Some(i) => if i < len {
            i as int
        } else {
            len - 1
        },
        None => len - 1,
    }
}

/// The node's at-time numeric value (as decimal text), or `None` when the
/// overlay has no entry for it, its series is empty, or the cell at the at-time
/// tick is not numeric.
pub open spec fn at_time_value(o: Overlay, id: Seq<char>) -> Option<Seq<char>> {
    match entry_for(o.nodes@, id) {
        None => None,
        Some(e) => if e.series@.len() == 0 {
            None
        } else {
            match e.series@[at_tick(o.start_tick, e.series@.len())] {
                OverlayCell::Num(v) => Some(v@),
                _ => None,
            }
        },
    }
}

// ---------------------------------------------------------------------------
// The document
// ---------------------------------------------------------------------------

/// `depth` levels of two-space indentation.
pub open spec fn indent(depth: nat) -> Seq<char>
    decreases depth,
{
    if depth == 0 {
        Seq::empty()
    } else {
        indent((depth - 1) as nat) + "  "@
    }
}

/// The label text of a non-group node: its leaf segment, then its rate (or,
/// without a rate, its unit), then its at-time overlay value when there is one.
pub open spec fn node_label(node: GraphNode, overlay: Option<Overlay>) -> Seq<char> {
    let meta = match node.rate_hz {
        Some(r) => "\\n"@ + r@ + " Hz"@,
        None => match node.unit {
            Some(u) => "\\n["@ + u@ + "]"@,
            None => Seq::empty(),
        },
    };
    let value = match overlay {
        Some(o) => match at_time_value(o, node.id@) {
            Some(v) => "\\n"@ + v,
            None => Seq::empty(),
        },
        None => Seq::empty(),
    };
    last_segment(node.path@) + meta + value
}

/// The declaration line of one non-group node.
pub open spec fn node_decl(node: GraphNode, depth: nat, overlay: Option<Overlay>) -> Seq<char> {
    indent(depth) + quoted(node.id@) + " [label="@ + quoted(node_label(node, overlay))
        + ", shape="@ + node_shape(node.kind) + ", color="@ + node_color(node.kind) + "];\n"@
}

/// The declaration lines of `ms`, in order.
pub open spec fn decls(ms: Seq<GraphNode>, depth: nat, overlay: Option<Overlay>) -> Seq<char>
    decreases ms.len(),
{
    if ms.len() == 0 {
        Seq::empty()
    } else {
        decls(ms.drop_last(), depth, overlay) + node_decl(ms.last(), depth, overlay)
    }
}

/// The opening lines of the cluster block of group `g`.
pub open spec fn cluster_head(nodes: Seq<GraphNode>, g: Seq<char>, depth: nat) -> Seq<char> {
    indent(depth) + "subgraph "@ + quoted("cluster_"@ + g) + " {\n"@ + indent(depth) + "  label="@
        + quoted(cluster_label(nodes, g)) + ";\n"@ + indent(depth) + "  color=orange;\n"@
}

/// The ids of the nodes, as a set.
pub open spec fn id_set(nodes: Seq<GraphNode>) -> Set<Seq<char>> {
    nodes.map_values(|n: GraphNode| n.id@).to_set()
}

/// Adding a node id that is not yet on the path of enclosing groups leaves
/// fewer ids off the path.
pub proof fn lemma_fewer_ids_off_path(nodes: Seq<GraphNode>, path: Set<Seq<char>>, g: Seq<char>)
    requires
        id_set(nodes).contains(g),
        !path.contains(g),
    ensures
        id_set(nodes).difference(path.insert(g)).len() < id_set(nodes).difference(path).len(),
{
    broadcast use vstd::set::group_set_axioms;
    let ids = id_set(nodes);
    vstd::seq_lib::seq_to_set_is_finite(nodes.map_values(|n: GraphNode| n.id@));
    let d = ids.difference(path);
    assert(ids.difference(path.insert(g)) =~= d.remove(g));
    vstd::set_lib::lemma_set_subset_finite(ids, d);
    vstd::set::axiom_set_remove_len(d, g);
}

/// Whether the cluster nesting below group `g`, entered with the groups of
/// `path` already open around it, is a finite tree: `g` is a node id that is
/// not already open, and the same holds of each group nested directly in it.
pub open spec fn group_nesting_finite(nodes: Seq<GraphNode>, g: Seq<char>, path: Set<Seq<char>>) -> bool
    decreases id_set(nodes).difference(path).len(), 0nat,
{
    if path.contains(g) || !id_set(nodes).contains(g) {
        false
    } else {
        proof {
            lemma_fewer_ids_off_path(nodes, path, g);
        }
        groups_nesting_finite(nodes, child_groups(nodes, Some(g)), path.insert(g))
    }
}

/// Whether the nesting below each group of `gs` is a finite tree.
pub open spec fn groups_nesting_finite(nodes: Seq<GraphNode>, gs: Seq<Seq<char>>, path: Set<Seq<char>>) -> bool
    decreases id_set(nodes).difference(path).len(), gs.len(),
{
    if gs.len() == 0 {
        true
    } else {
        groups_nesting_finite(nodes, gs.drop_last(), path) && group_nesting_finite(
            nodes,
            gs.last(),
            path,
        )
    }
}

/// Whether the group nesting of a model, walked down from the digraph root,
/// is a finite tree: no group is nested, directly or indirectly, in itself.
pub open spec fn nesting_finite(nodes: Seq<GraphNode>) -> bool {
    groups_nesting_finite(nodes, child_groups(nodes, None), Set::empty())
}

/// The `subgraph cluster_<g>` block of group `g` at `depth`, with its members
/// and, recursively, its nested groups; `path` holds the groups whose blocks
/// are open around it. (A group already open, or no node's id, gives nothing;
/// by `lemma_nesting_always_finite` the walk from the root reaches neither.)
pub open spec fn cluster(
    nodes: Seq<GraphNode>,
    overlay: Option<Overlay>,
    g: Seq<char>,
    depth: nat,
    path: Set<Seq<char>>,
) -> Seq<char>
    decreases id_set(nodes).difference(path).len(), 0nat,
{
    if path.contains(g) || !id_set(nodes).contains(g) {
        Seq::empty()
    } else {
        proof {
            lemma_fewer_ids_off_path(nodes, path, g);
        }
        cluster_head(nodes, g, depth) + decls(members(nodes, Some(g)), depth + 1, overlay)
            + clusters(nodes, overlay, child_groups(nodes, Some(g)), depth + 1, path.insert(g))
            + indent(depth) + "}\n"@
    }
}

/// The cluster blocks of the groups `gs`, in order.
pub open spec fn clusters(
    nodes: Seq<GraphNode>,
    overlay: Option<Overlay>,
    gs: Seq<Seq<char>>,
    depth: nat,
    path: Set<Seq<char>>,
) -> Seq<char>
    decreases id_set(nodes).difference(path).len(), gs.len(),
{
    if gs.len() == 0 {
        Seq::empty()
    } else {
        clusters(nodes, overlay, gs.drop_last(), depth, path) + cluster(
            nodes,
            overlay,
            gs.last(),
            depth,
            path,
        )
    }
}

/// Whether a hierarchy edge is left out because the clusters already show it:
/// the child is drawn directly in the parent's cluster, or both ends are drawn
/// in the same cluster.
pub open spec fn conveyed_by_clusters(nodes: Seq<GraphNode>, e: GraphEdge) -> bool {
    e.kind == EdgeKind::Hierarchy && (cluster_of(nodes, e.to@) == Some(e.from@) || cluster_of(
        nodes,
        e.from@,
    ) == cluster_of(nodes, e.to@))
}

/// The line drawn for one edge (empty when the clusters convey it).
pub open spec fn edge_line_text(nodes: Seq<GraphNode>, e: GraphEdge) -> Seq<char> {
    if conveyed_by_clusters(nodes, e) {
        Seq::empty()
    } else {
        "  "@ + quoted(e.from@) + " -> "@ + quoted(e.to@) + " [style="@ + edge_line(e.kind)
            + ", color="@ + edge_color(e.kind) + "];\n"@
    }
}

/// The lines drawn for `es`, in order.
pub open spec fn edge_lines(nodes: Seq<GraphNode>, es: Seq<GraphEdge>) -> Seq<char>
    decreases es.len(),
{
    if es.len() == 0 {
        Seq::empty()
    } else {
        edge_lines(nodes, es.drop_last()) + edge_line_text(nodes, es.last())
    }
}

/// The document header, with the title as the graph label when present.
pub open spec fn header(title: Option<String>) -> Seq<char> {
    "digraph m1 {\n"@ + "  rankdir=LR;\n"@ + "  node [fontname=\"Helvetica\"];\n"@
        + "  edge [fontname=\"Helvetica\"];\n"@ + match title {
        Some(t) => "  label="@ + quoted(t@) + ";\n"@ + "  labelloc=t;\n"@,
        None => Seq::empty(),
    }
}

/// The DOT document of a model.
pub open spec fn dot_document(m: GraphModel) -> Seq<char> {
    let nodes = m.nodes@;
    header(m.title) + decls(members(nodes, None), 1, m.overlay) + clusters(
        nodes,
        m.overlay,
        child_groups(nodes, None),
        1,
        Set::empty(),
    ) + edge_lines(nodes, m.edges@) + "}\n"@
}


// ---------------------------------------------------------------------------
// Rendering
// ---------------------------------------------------------------------------

/// The characters of an optional string.
pub open spec fn opt_text(o: Option<String>) -> Option<Seq<char>> {
    match o {
        Some(s) => Some(s@),
        None => None,
    }
}

proof fn lemma_last_with_id(nodes: Seq<GraphNode>, id: Seq<char>)
    ensures
        -1 <= last_with_id(nodes, id) < nodes.len(),
        last_with_id(nodes, id) >= 0 ==> nodes[last_with_id(nodes, id)].id@ == id,
        forall|k: int| last_with_id(nodes, id) < k < nodes.len() ==> nodes[k].id@ != id,
    decreases nodes.len(),
{
    if nodes.len() > 0 && nodes.last().id@ != id {
        lemma_last_with_id(nodes.drop_last(), id);
        assert forall|k: int| 0 <= k < nodes.len() - 1 implies nodes[k] == nodes.drop_last()[k] by {}
    }
}

/// The index of the last node whose id is `id`.
fn find_last_id(nodes: &Vec<GraphNode>, id: &String) -> (r: Option<usize>)
    ensures
        match r {
            Some(j) => j == last_with_id(nodes@, id@) && j < nodes@.len() && nodes@[j as int].id@
                == id@,
            None => last_with_id(nodes@, id@) == -1,
        },
{
    proof {
        lemma_last_with_id(nodes@, id@);
    }
    let mut i: usize = nodes.len();
    while i > 0
        invariant
            i <= nodes.len(),
            forall|k: int| i <= k < nodes.len() ==> nodes@[k].id@ != id@,
            -1 <= last_with_id(nodes@, id@) < nodes.len(),
            last_with_id(nodes@, id@) >= 0 ==> nodes@[last_with_id(nodes@, id@)].id@ == id@,
            forall|k: int| last_with_id(nodes@, id@) < k < nodes.len() ==> nodes@[k].id@ != id@,
        decreases i,
    {
        if nodes[i - 1].id == *id {
            return Some(i - 1);
        }
        i = i - 1;
    }
    None
}

/// Whether `id` resolves to a group node.
fn is_group(nodes: &Vec<GraphNode>, id: &String) -> (r: bool)
    ensures
        r == is_group_id(nodes@, id@),
{
    match find_last_id(nodes, id) {
        Some(j) => nodes[j].kind == NodeKind::Group,
        None => false,
    }
}

/// The first of `path` and its ancestors that resolves to a group node.
fn find_group_at_or_above(nodes: &Vec<GraphNode>, path: &String) -> (r: Option<String>)
    ensures
        opt_text(r) == group_at_or_above(nodes@, path@),
{
    let mut cur = path.clone();
    loop
        invariant
            group_at_or_above(nodes@, cur@) == group_at_or_above(nodes@, path@),
        decreases cur@.len(),
    {
        if is_group(nodes, &cur) {
            return Some(cur);
        }
        proof {
            lemma_last_index_of(cur@, '.');
        }
        match parent_path(cur.as_str()) {
            Some(p) => {
                let next = crate::text::owned(p);
                cur = next;
            },
            None => {
                return None;
            },
        }
    }
}

/// The cluster an id is drawn in.
fn find_cluster(nodes: &Vec<GraphNode>, id: &String) -> (r: Option<String>)
    ensures
        opt_text(r) == cluster_of(nodes@, id@),
{
    match find_last_id(nodes, id) {
        Some(j) => match &nodes[j].parent {
            Some(p) => find_group_at_or_above(nodes, p),
            None => None,
        },
        None => None,
    }
}

/// The cluster of every node, aligned with the nodes.
fn cluster_table(nodes: &Vec<GraphNode>) -> (t: Vec<Option<String>>)
    ensures
        t@.len() == nodes@.len(),
        forall|i: int| 0 <= i < t@.len() ==> opt_text(#[trigger] t@[i]) == cluster_of(nodes@, nodes@[i].id@),
{
    let mut t: Vec<Option<String>> = Vec::new();
    let mut i: usize = 0;
    while i < nodes.len()
        invariant
            i <= nodes.len(),
            t@.len() == i,
            forall|k: int| 0 <= k < i ==> opt_text(#[trigger] t@[k]) == cluster_of(nodes@, nodes@[k].id@),
        decreases nodes.len() - i,
    {
        let c = find_cluster(nodes, &nodes[i].id);
        t.push(c);
        i = i + 1;
    }
    t
}

/// Whether two optional strings hold the same characters.
fn same_opt(a: &Option<String>, b: &Option<String>) -> (r: bool)
    ensures
        r == (opt_text(*a) == opt_text(*b)),
{
    match (a, b) {
        (Some(x), Some(y)) => *x == *y,
        (None, None) => true,
        _ => false,
    }
}

/// Appends `depth` levels of indentation.
fn push_indent(out: &mut String, depth: usize)
    ensures
        final(out)@ == old(out)@ + indent(depth as nat),
{
    let mut d: usize = 0;
    while d < depth
        invariant
            d <= depth,
            out@ == old(out)@ + indent(d as nat),
        decreases depth - d,
    {
        out.append("  ");
        proof {
            assert(indent((d + 1) as nat) == indent(d as nat) + "  "@);
        }
        d = d + 1;
    }
}

/// The at-time numeric value of node `id` in overlay `o`.
fn find_at_time_value(o: &Overlay, id: &String) -> (r: Option<String>)
    ensures
        opt_text(r) == at_time_value(*o, id@),
{
    let mut k: usize = 0;
    proof {
        assert(o.nodes@.skip(0) == o.nodes@);
    }
    while k < o.nodes.len()
        invariant
            k <= o.nodes.len(),
            entry_for(o.nodes@, id@) == entry_for(o.nodes@.skip(k as int), id@),
        decreases o.nodes.len() - k,
    {
        proof {
            assert(o.nodes@.skip(k as int)[0] == o.nodes@[k as int]);
            assert(o.nodes@.skip(k as int).drop_first() == o.nodes@.skip(k + 1));
        }
        if o.nodes[k].0 == *id {
            let series = &o.nodes[k].1.series;
            let len = series.len();
            if len == 0 {
                return None;
            }
            let tick = match o.start_tick {
                Some(i) => if i < len {
                    i
                } else {
                    len - 1
                },
                None => len - 1,
            };
            return match &series[tick] {
                OverlayCell::Num(v) => Some(v.clone()),
                _ => None,
            };
        }
        k = k + 1;
    }
    proof {
        assert(o.nodes@.skip(k as int).len() == 0);
    }
    None
}

/// Appends the declaration line of a non-group node.
fn push_node_decl(out: &mut String, node: &GraphNode, depth: usize, overlay: &Option<Overlay>)
    ensures
        final(out)@ == old(out)@ + node_decl(*node, depth as nat, *overlay),
{
    let (shape, color) = node_style(node.kind);
    let mut label = String::new();
    label.append(node.label());
    match &node.rate_hz {
        Some(r) => {
            label.append("\\n");
            label.append(r.as_str());
            label.append(" Hz");
        },
        None => match &node.unit {
            Some(u) => {
                label.append("\\n[");
                label.append(u.as_str());
                label.append("]");
            },
            None => {},
        },
    }
    match overlay {
        Some(o) => match find_at_time_value(o, &node.id) {
            Some(v) => {
                label.append("\\n");
                label.append(v.as_str());
            },
            None => {},
        },
        None => {},
    }
    proof {
        assert(label@ =~= node_label(*node, *overlay));
    }
    push_indent(out, depth);
    push_quoted(out, node.id.as_str());
    out.append(" [label=");
    push_quoted(out, label.as_str());
    out.append(", shape=");
    out.append(shape);
    out.append(", color=");
    out.append(color);
    out.append("];\n");
}

/// Appends the declarations of the non-group nodes drawn directly in cluster `b`.
fn push_members(
    out: &mut String,
    nodes: &Vec<GraphNode>,
    table: &Vec<Option<String>>,
    b: &Option<String>,
    depth: usize,
    overlay: &Option<Overlay>,
)
    requires
        table@.len() == nodes@.len(),
        forall|i: int| 0 <= i < table@.len() ==> opt_text(#[trigger] table@[i]) == cluster_of(nodes@, nodes@[i].id@),
    ensures
        final(out)@ == old(out)@ + decls(members(nodes@, opt_text(*b)), depth as nat, *overlay),
{
    let ghost pred = |n: GraphNode| n.kind != NodeKind::Group && cluster_of(nodes@, n.id@) == opt_text(*b);
    let mut i: usize = 0;
    while i < nodes.len()
        invariant
            i <= nodes.len(),
            table@.len() == nodes@.len(),
            forall|k: int| 0 <= k < table@.len() ==> opt_text(#[trigger] table@[k]) == cluster_of(nodes@, nodes@[k].id@),
            pred == (|n: GraphNode| n.kind != NodeKind::Group && cluster_of(nodes@, n.id@) == opt_text(*b)),
            out@ == old(out)@ + decls(nodes@.take(i as int).filter(pred), depth as nat, *overlay),
        decreases nodes.len() - i,
    {
        proof {
            assert(nodes@.take(i + 1) == nodes@.take(i as int).push(nodes@[i as int]));
            nodes@.take(i as int).lemma_filter_push(nodes@[i as int], pred);
        }
        let ghost before = nodes@.take(i as int).filter(pred);
        proof {
            assert(opt_text(table@[i as int]) == cluster_of(nodes@, nodes@[i as int].id@));
        }
        if nodes[i].kind != NodeKind::Group && same_opt(&table[i], b) {
            push_node_decl(out, &nodes[i], depth, overlay);
            proof {
                assert(pred(nodes@[i as int]));
                let after = before.push(nodes@[i as int]);
                assert(after.drop_last() == before);
                assert(after.last() == nodes@[i as int]);
                assert(decls(after, depth as nat, *overlay) == decls(before, depth as nat, *overlay)
                    + node_decl(nodes@[i as int], depth as nat, *overlay));
            }
        } else {
            proof {
                assert(!pred(nodes@[i as int]));
            }
        }
        i = i + 1;
    }
    proof {
        assert(nodes@.take(nodes@.len() as int) == nodes@);
    }
}

/// Appends the opening lines of the cluster block of group `g`.
fn push_cluster_head(out: &mut String, nodes: &Vec<GraphNode>, g: &String, depth: usize)
    ensures
        final(out)@ == old(out)@ + cluster_head(nodes@, g@, depth as nat),
{
    let mut cname = String::new();
    cname.append("cluster_");
    cname.append(g.as_str());
    let label: String = match find_last_id(nodes, g) {
        Some(j) => crate::text::owned(nodes[j].label()),
        None => g.clone(),
    };
    proof {
        assert(cname@ =~= "cluster_"@ + g@);
        assert(label@ == cluster_label(nodes@, g@));
    }
    push_indent(out, depth);
    out.append("subgraph ");
    push_quoted(out, cname.as_str());
    out.append(" {\n");
    push_indent(out, depth);
    out.append("  label=");
    push_quoted(out, label.as_str());
    out.append(";\n");
    push_indent(out, depth);
    out.append("  color=orange;\n");
    proof {
        assert(out@ =~= old(out)@ + cluster_head(nodes@, g@, depth as nat));
    }
}

/// The nesting below each listed group is finite exactly when it is below
/// every one of them.
proof fn lemma_groups_nesting_each(nodes: Seq<GraphNode>, gs: Seq<Seq<char>>, path: Set<Seq<char>>)
    ensures
        groups_nesting_finite(nodes, gs, path) <==> forall|k: int|
            0 <= k < gs.len() ==> group_nesting_finite(nodes, #[trigger] gs[k], path),
    decreases gs.len(),
{
    if gs.len() > 0 {
        lemma_groups_nesting_each(nodes, gs.drop_last(), path);
        assert forall|k: int| 0 <= k < gs.len() - 1 implies gs.drop_last()[k] == gs[k] by {}
    }
}

/// A group node nested directly in cluster `b` is listed among its child
/// groups, and every listed child group is such a node's id.
proof fn lemma_child_groups_listed(nodes: Seq<GraphNode>, b: Option<Seq<char>>)
    ensures
        forall|i: int|
            0 <= i < nodes.len() && is_child_group(nodes, b, #[trigger] nodes[i]) ==> child_groups(
                nodes,
                b,
            ).contains(nodes[i].id@),
        forall|k: int|
            0 <= k < child_groups(nodes, b).len() ==> id_set(nodes).contains(
                #[trigger] child_groups(nodes, b)[k],
            ) && cluster_of(nodes, child_groups(nodes, b)[k]) == b,
{
    let pred = |n: GraphNode| is_child_group(nodes, b, n);
    let idf = |n: GraphNode| n.id@;
    let f = nodes.filter(pred);
    f.filter_lemma(pred);
    nodes.filter_lemma(pred);
    assert forall|i: int| 0 <= i < nodes.len() && is_child_group(nodes, b, #[trigger] nodes[i]) implies child_groups(
        nodes,
        b,
    ).contains(nodes[i].id@) by {
        assert(pred(nodes[i]));
        assert(f.contains(nodes[i]));
        let k = choose|k: int| 0 <= k < f.len() && f[k] == nodes[i];
        assert(f.map_values(idf)[k] == nodes[i].id@);
    }
    assert forall|k: int| 0 <= k < child_groups(nodes, b).len() implies id_set(nodes).contains(
        #[trigger] child_groups(nodes, b)[k],
    ) && cluster_of(nodes, child_groups(nodes, b)[k]) == b by {
        assert(pred(f[k]));
        assert(child_groups(nodes, b)[k] == f[k].id@);
        assert(f.contains(f[k]));
        nodes.lemma_filter_contains_rev(pred, f[k]);
        let i = choose|i: int| 0 <= i < nodes.len() && nodes[i] == f[k];
        assert(nodes.map_values(idf)[i] == f[k].id@);
        assert(nodes.map_values(idf).contains(f[k].id@));
    }
}

/// The groups open around a cluster, with the cluster's own group, are node
/// ids; so the nesting depth stays within the node count.
proof fn lemma_path_within_nodes(nodes: Seq<GraphNode>, path: Set<Seq<char>>, g: Seq<char>)
    requires
        path.finite(),
        path.subset_of(id_set(nodes)),
        id_set(nodes).contains(g),
        !path.contains(g),
    ensures
        path.len() + 1 <= nodes.len(),
        path.insert(g).finite(),
        path.insert(g).len() == path.len() + 1,
        path.insert(g).subset_of(id_set(nodes)),
{
    broadcast use vstd::set::group_set_axioms;
    let ids = nodes.map_values(|n: GraphNode| n.id@);
    vstd::seq_lib::seq_to_set_is_finite(ids);
    ids.lemma_cardinality_of_set();
    vstd::set_lib::lemma_len_subset(path.insert(g), id_set(nodes));
}

/// Appends the cluster block of group `g`, entered with the groups of `path`
/// open around it.
fn push_cluster(
    out: &mut String,
    nodes: &Vec<GraphNode>,
    table: &Vec<Option<String>>,
    overlay: &Option<Overlay>,
    g: &String,
    depth: usize,
    Ghost(path): Ghost<Set<Seq<char>>>,
)
    requires
        table@.len() == nodes@.len(),
        forall|i: int| 0 <= i < table@.len() ==> opt_text(#[trigger] table@[i]) == cluster_of(nodes@, nodes@[i].id@),
        nodes@.len() < usize::MAX - 1,
        group_nesting_finite(nodes@, g@, path),
        path.finite(),
        path.subset_of(id_set(nodes@)),
        depth == path.len() + 1,
    ensures
        final(out)@ == old(out)@ + cluster(nodes@, *overlay, g@, depth as nat, path),
    decreases id_set(nodes@).difference(path).len(), 0nat,
{
    proof {
        lemma_fewer_ids_off_path(nodes@, path, g@);
        lemma_path_within_nodes(nodes@, path, g@);
    }
    push_cluster_head(out, nodes, g, depth);
    let inner = Some(g.clone());
    push_members(out, nodes, table, &inner, depth + 1, overlay);
    push_child_clusters(out, nodes, table, overlay, &inner, depth + 1, Ghost(path.insert(g@)));
    push_indent(out, depth);
    out.append("}\n");
    proof {
        let d = depth as nat;
        let ms = decls(members(nodes@, Some(g@)), d + 1, *overlay);
        let cs = clusters(nodes@, *overlay, child_groups(nodes@, Some(g@)), d + 1, path.insert(g@));
        assert(out@ =~= old(out)@ + (cluster_head(nodes@, g@, d) + ms + cs + indent(d) + "}\n"@));
    }
}

/// Appends the cluster blocks of the groups nested directly in cluster `b`,
/// entered with the groups of `path` open around them.
fn push_child_clusters(
    out: &mut String,
    nodes: &Vec<GraphNode>,
    table: &Vec<Option<String>>,
    overlay: &Option<Overlay>,
    b: &Option<String>,
    depth: usize,
    Ghost(path): Ghost<Set<Seq<char>>>,
)
    requires
        table@.len() == nodes@.len(),
        forall|i: int| 0 <= i < table@.len() ==> opt_text(#[trigger] table@[i]) == cluster_of(nodes@, nodes@[i].id@),
        nodes@.len() < usize::MAX - 1,
        groups_nesting_finite(nodes@, child_groups(nodes@, opt_text(*b)), path),
        path.finite(),
        path.subset_of(id_set(nodes@)),
        depth == path.len() + 1,
    ensures
        final(out)@ == old(out)@ + clusters(nodes@, *overlay, child_groups(nodes@, opt_text(*b)), depth as nat, path),
    decreases id_set(nodes@).difference(path).len(), 1nat,
{
    let ghost pred = |n: GraphNode| is_child_group(nodes@, opt_text(*b), n);
    let ghost idf = |n: GraphNode| n.id@;
    proof {
        lemma_groups_nesting_each(nodes@, child_groups(nodes@, opt_text(*b)), path);
        lemma_child_groups_listed(nodes@, opt_text(*b));
        assert forall|k: int| 0 <= k < nodes@.len() && is_child_group(nodes@, opt_text(*b), #[trigger] nodes@[k]) implies group_nesting_finite(
            nodes@,
            nodes@[k].id@,
            path,
        ) by {
            let cg = child_groups(nodes@, opt_text(*b));
            assert(cg.contains(nodes@[k].id@));
            let j = choose|j: int| 0 <= j < cg.len() && cg[j] == nodes@[k].id@;
            assert(group_nesting_finite(nodes@, cg[j], path));
        }
    }
    let mut i: usize = 0;
    while i < nodes.len()
        invariant
            i <= nodes.len(),
            table@.len() == nodes@.len(),
            forall|k: int| 0 <= k < table@.len() ==> opt_text(#[trigger] table@[k]) == cluster_of(nodes@, nodes@[k].id@),
            nodes@.len() < usize::MAX - 1,
            forall|k: int| 0 <= k < nodes@.len() && is_child_group(nodes@, opt_text(*b), #[trigger] nodes@[k]) ==> group_nesting_finite(
                nodes@,
                nodes@[k].id@,
                path,
            ),
            path.finite(),
            path.subset_of(id_set(nodes@)),
            depth == path.len() + 1,
            pred == (|n: GraphNode| is_child_group(nodes@, opt_text(*b), n)),
            idf == (|n: GraphNode| n.id@),
            out@ == old(out)@ + clusters(nodes@, *overlay, nodes@.take(i as int).filter(pred).map_values(idf), depth as nat, path),
        decreases nodes.len() - i,
    {
        proof {
            assert(nodes@.take(i + 1) == nodes@.take(i as int).push(nodes@[i as int]));
            nodes@.take(i as int).lemma_filter_push(nodes@[i as int], pred);
        }
        let ghost before = nodes@.take(i as int).filter(pred);
        proof {
            assert(opt_text(table@[i as int]) == cluster_of(nodes@, nodes@[i as int].id@));
        }
        if nodes[i].kind == NodeKind::Group && same_opt(&table[i], b) {
            proof {
                assert(pred(nodes@[i as int]));
                assert(is_child_group(nodes@, opt_text(*b), nodes@[i as int]));
            }
            push_cluster(out, nodes, table, overlay, &nodes[i].id, depth, Ghost(path));
            proof {
                before.lemma_push_map_commute(idf, nodes@[i as int]);
                let gs = before.map_values(idf);
                let after = gs.push(nodes@[i as int].id@);
                assert(before.push(nodes@[i as int]).map_values(idf) == after);
                assert(after.drop_last() == gs);
                assert(after.last() == nodes@[i as int].id@);
            }
        } else {
            proof {
                assert(!pred(nodes@[i as int]));
            }
        }
        i = i + 1;
    }
    proof {
        assert(nodes@.take(nodes@.len() as int) == nodes@);
    }
}

/// Appends the line of one edge, unless the clusters already convey it.
fn push_edge(out: &mut String, nodes: &Vec<GraphNode>, e: &GraphEdge)
    ensures
        final(out)@ == old(out)@ + edge_line_text(nodes@, *e),
{
    if e.kind == EdgeKind::Hierarchy {
        let from_cluster = find_cluster(nodes, &e.from);
        let to_cluster = find_cluster(nodes, &e.to);
        let nested = match &to_cluster {
            Some(t) => *t == e.from,
            None => false,
        };
        if nested || same_opt(&from_cluster, &to_cluster) {
            proof {
                assert(old(out)@ + Seq::<char>::empty() == old(out)@);
            }
            return;
        }
    }
    let ghost start = out@;
    let (style, color) = edge_style(e.kind);
    out.append("  ");
    push_quoted(out, e.from.as_str());
    out.append(" -> ");
    push_quoted(out, e.to.as_str());
    out.append(" [style=");
    out.append(style);
    out.append(", color=");
    out.append(color);
    out.append("];\n");
    proof {
        assert(out@ =~= start + edge_line_text(nodes@, *e));
    }
}

/// Render the model as a Graphviz DOT document.
///
/// Subsystem nesting is emitted as nested `subgraph cluster_<id>` blocks: every
/// group becomes a cluster labelled by its leaf segment, and every non-group
/// node is declared inside its nearest enclosing group cluster. Top-level groups
/// and nodes with no group ancestor are declared at the digraph root.
pub fn render(model: &GraphModel) -> (out: String)
    requires
        model.nodes@.len() < usize::MAX - 1,
    ensures
        out@ == dot_document(*model),
{
    proof {
        lemma_nesting_always_finite(model.nodes@);
    }
    let nodes = &model.nodes;
    let overlay = &model.overlay;
    let mut out = String::new();
    out.append("digraph m1 {\n");
    out.append("  rankdir=LR;\n");
    out.append("  node [fontname=\"Helvetica\"];\n");
    out.append("  edge [fontname=\"Helvetica\"];\n");
    match &model.title {
        Some(t) => {
            out.append("  label=");
            push_quoted(&mut out, t.as_str());
            out.append(";\n");
            out.append("  labelloc=t;\n");
        },
        None => {},
    }
    proof {
        assert(out@ =~= header(model.title));
    }
    let table = cluster_table(nodes);
    let root: Option<String> = None;
    let ghost h = out@;
    push_members(&mut out, nodes, &table, &root, 1, overlay);
    let ghost a = out@;
    proof {
        assert(Set::<Seq<char>>::empty().len() == 0);
        assert(Set::<Seq<char>>::empty().subset_of(id_set(nodes@)));
    }
    push_child_clusters(&mut out, nodes, &table, overlay, &root, 1, Ghost(Set::empty()));
    let ghost b = out@;
    let mut i: usize = 0;
    while i < model.edges.len()
        invariant
            i <= model.edges.len(),
            out@ == b + edge_lines(nodes@, model.edges@.take(i as int)),
        decreases model.edges.len() - i,
    {
        proof {
            assert(model.edges@.take(i + 1).drop_last() == model.edges@.take(i as int));
        }
        push_edge(&mut out, nodes, &model.edges[i]);
        i = i + 1;
    }
    let ghost c = out@;
    out.append("}\n");
    proof {
        assert(model.edges@.take(model.edges@.len() as int) == model.edges@);
        assert(out@ =~= dot_document(*model));
    }
    out
}


// ---------------------------------------------------------------------------
// Laws
// ---------------------------------------------------------------------------

/// Whether every non-group node of `nodes` gets the same label under both
/// overlays.
pub open spec fn labels_agree(nodes: Seq<GraphNode>, o1: Option<Overlay>, o2: Option<Overlay>) -> bool {
    forall|i: int|
        0 <= i < nodes.len() && nodes[i].kind != NodeKind::Group ==> node_label(#[trigger] nodes[i], o1)
            == node_label(nodes[i], o2)
}

proof fn lemma_decls_filter_same(
    s: Seq<GraphNode>,
    p: spec_fn(GraphNode) -> bool,
    depth: nat,
    o1: Option<Overlay>,
    o2: Option<Overlay>,
)
    requires
        labels_agree(s, o1, o2),
        forall|n: GraphNode| #[trigger] p(n) ==> n.kind != NodeKind::Group,
    ensures
        decls(s.filter(p), depth, o1) == decls(s.filter(p), depth, o2),
    decreases s.len(),
{
    reveal(Seq::filter);
    if s.len() > 0 {
        let d = s.drop_last();
        assert forall|i: int| 0 <= i < d.len() && d[i].kind != NodeKind::Group implies node_label(
            #[trigger] d[i],
            o1,
        ) == node_label(d[i], o2) by {
            assert(d[i] == s[i]);
        }
        lemma_decls_filter_same(d, p, depth, o1, o2);
        if p(s.last()) {
            let f = d.filter(p).push(s.last());
            assert(f.drop_last() == d.filter(p));
            assert(node_label(s[s.len() - 1], o1) == node_label(s[s.len() - 1], o2));
        }
    }
}

proof fn lemma_cluster_same(
    nodes: Seq<GraphNode>,
    o1: Option<Overlay>,
    o2: Option<Overlay>,
    g: Seq<char>,
    depth: nat,
    path: Set<Seq<char>>,
)
    requires
        labels_agree(nodes, o1, o2),
    ensures
        cluster(nodes, o1, g, depth, path) == cluster(nodes, o2, g, depth, path),
    decreases id_set(nodes).difference(path).len(), 0nat,
{
    if !path.contains(g) && id_set(nodes).contains(g) {
        lemma_fewer_ids_off_path(nodes, path, g);
        lemma_decls_filter_same(
            nodes,
            |n: GraphNode| n.kind != NodeKind::Group && cluster_of(nodes, n.id@) == Some(g),
            depth + 1,
            o1,
            o2,
        );
        lemma_clusters_same(nodes, o1, o2, child_groups(nodes, Some(g)), depth + 1, path.insert(g));
    }
}

proof fn lemma_clusters_same(
    nodes: Seq<GraphNode>,
    o1: Option<Overlay>,
    o2: Option<Overlay>,
    gs: Seq<Seq<char>>,
    depth: nat,
    path: Set<Seq<char>>,
)
    requires
        labels_agree(nodes, o1, o2),
    ensures
        clusters(nodes, o1, gs, depth, path) == clusters(nodes, o2, gs, depth, path),
    decreases id_set(nodes).difference(path).len(), gs.len(),
{
    if gs.len() > 0 {
        lemma_clusters_same(nodes, o1, o2, gs.drop_last(), depth, path);
        lemma_cluster_same(nodes, o1, o2, gs.last(), depth, path);
    }
}

/// An overlay that gives no non-group node of the graph a numeric at-time
/// value (its entries match no such node, or hold an empty series or a
/// label-only cell at the at-time tick) leaves the DOT document exactly as the
/// un-overlaid one.
pub proof fn lemma_unmatched_overlay_leaves_document(m: GraphModel, o: Overlay)
    requires
        m.overlay is None,
        forall|i: int|
            0 <= i < m.nodes@.len() && m.nodes@[i].kind != NodeKind::Group ==> at_time_value(
                o,
                (#[trigger] m.nodes@[i]).id@,
            ) is None,
    ensures
        dot_document(crate::model::attached(m, o)) == dot_document(m),
{
    let a = crate::model::attached(m, o);
    let nodes = m.nodes@;
    assert(labels_agree(nodes, Some(o), None)) by {
        assert forall|i: int| 0 <= i < nodes.len() && nodes[i].kind != NodeKind::Group implies node_label(
            #[trigger] nodes[i],
            Some(o),
        ) == node_label(nodes[i], None) by {
            assert(at_time_value(o, nodes[i].id@) is None);
            assert(node_label(nodes[i], Some(o)) =~= node_label(nodes[i], None));
        }
    }
    lemma_decls_filter_same(
        nodes,
        |n: GraphNode| n.kind != NodeKind::Group && cluster_of(nodes, n.id@) == None::<Seq<char>>,
        1,
        Some(o),
        None,
    );
    lemma_clusters_same(nodes, Some(o), None, child_groups(nodes, None), 1, Set::empty());
}

/// Whether the cluster of every group of `path` is the digraph root or
/// another group of `path`.
pub open spec fn clusters_within(nodes: Seq<GraphNode>, path: Set<Seq<char>>) -> bool {
    forall|x: Seq<char>|
        #[trigger] path.contains(x) ==> cluster_of(nodes, x) is None || path.contains(
            cluster_of(nodes, x)->0,
        )
}

proof fn lemma_group_nesting_always(nodes: Seq<GraphNode>, g: Seq<char>, path: Set<Seq<char>>)
    requires
        id_set(nodes).contains(g),
        !path.contains(g),
        path.finite(),
        clusters_within(nodes, path),
        cluster_of(nodes, g) is None || path.contains(cluster_of(nodes, g)->0),
    ensures
        group_nesting_finite(nodes, g, path),
    decreases id_set(nodes).difference(path).len(), 0nat,
{
    lemma_fewer_ids_off_path(nodes, path, g);
    let gs = child_groups(nodes, Some(g));
    let inner = path.insert(g);
    lemma_child_groups_listed(nodes, Some(g));
    assert forall|k: int| 0 <= k < gs.len() implies id_set(nodes).contains(#[trigger] gs[k]) && !inner.contains(
        gs[k],
    ) && (cluster_of(nodes, gs[k]) is None || inner.contains(cluster_of(nodes, gs[k])->0)) by {
        assert(cluster_of(nodes, gs[k]) == Some(g));
        if gs[k] == g {
            assert(path.contains(g));
        }
        if path.contains(gs[k]) {
            assert(path.contains(g));
        }
    }
    assert forall|x: Seq<char>| #[trigger] inner.contains(x) implies cluster_of(nodes, x) is None || inner.contains(
        cluster_of(nodes, x)->0,
    ) by {
        if x != g {
            assert(path.contains(x));
        }
    }
    lemma_groups_nesting_always(nodes, gs, inner);
}

proof fn lemma_groups_nesting_always(nodes: Seq<GraphNode>, gs: Seq<Seq<char>>, path: Set<Seq<char>>)
    requires
        forall|k: int|
            0 <= k < gs.len() ==> id_set(nodes).contains(#[trigger] gs[k]) && !path.contains(gs[k]) && (
            cluster_of(nodes, gs[k]) is None || path.contains(cluster_of(nodes, gs[k])->0)),
        path.finite(),
        clusters_within(nodes, path),
    ensures
        groups_nesting_finite(nodes, gs, path),
    decreases id_set(nodes).difference(path).len(), gs.len(),
{
    if gs.len() > 0 {
        assert forall|k: int| 0 <= k < gs.len() - 1 implies id_set(nodes).contains(#[trigger] gs.drop_last()[k])
            && !path.contains(gs.drop_last()[k]) && (cluster_of(nodes, gs.drop_last()[k]) is None
            || path.contains(cluster_of(nodes, gs.drop_last()[k])->0)) by {
            assert(gs.drop_last()[k] == gs[k]);
        }
        lemma_groups_nesting_always(nodes, gs.drop_last(), path);
        assert(gs.last() == gs[gs.len() - 1]);
        lemma_group_nesting_always(nodes, gs.last(), path);
    }
}

/// The group nesting of every model is a finite tree: each id has a single
/// cluster, so a walk down from the digraph root never reopens a group it is
/// already inside (groups nested in a cycle are never reached from the root).
/// The DOT rendering of every model therefore terminates.
pub proof fn lemma_nesting_always_finite(nodes: Seq<GraphNode>)
    ensures
        nesting_finite(nodes),
{
    let gs = child_groups(nodes, None);
    lemma_child_groups_listed(nodes, None);
    lemma_groups_nesting_always(nodes, gs, Set::empty());
}

// ---------------------------------------------------------------------------
// Which blocks the document opens
// ---------------------------------------------------------------------------

/// The groups whose cluster blocks `cluster(nodes, _, g, _, path)` opens, in
/// document order: `g` itself, then those nested in it (the same walk as
/// `cluster` and `clusters`).
pub open spec fn opened_by(nodes: Seq<GraphNode>, g: Seq<char>, path: Set<Seq<char>>) -> Seq<Seq<char>>
    decreases id_set(nodes).difference(path).len(), 0nat,
{
    if path.contains(g) || !id_set(nodes).contains(g) {
        Seq::empty()
    } else {
        proof {
            lemma_fewer_ids_off_path(nodes, path, g);
        }
        seq![g] + opened_by_all(nodes, child_groups(nodes, Some(g)), path.insert(g))
    }
}

/// The groups whose cluster blocks `clusters(nodes, _, gs, _, path)` opens.
pub open spec fn opened_by_all(nodes: Seq<GraphNode>, gs: Seq<Seq<char>>, path: Set<Seq<char>>) -> Seq<
    Seq<char>,
>
    decreases id_set(nodes).difference(path).len(), gs.len(),
{
    if gs.len() == 0 {
        Seq::empty()
    } else {
        opened_by_all(nodes, gs.drop_last(), path) + opened_by(nodes, gs.last(), path)
    }
}

/// The groups whose cluster blocks the DOT document opens, in order.
pub open spec fn opened_groups(nodes: Seq<GraphNode>) -> Seq<Seq<char>> {
    opened_by_all(nodes, child_groups(nodes, None), Set::empty())
}

/// Whether no two nodes share an id.
pub open spec fn distinct_ids(nodes: Seq<GraphNode>) -> bool {
    forall|i: int, j: int| 0 <= i < j < nodes.len() ==> nodes[i].id@ != nodes[j].id@
}

/// Whether every id is drawn in a cluster whose group id is shorter than it.
pub open spec fn clusters_shorter(nodes: Seq<GraphNode>) -> bool {
    forall|x: Seq<char>|
        #[trigger] cluster_of(nodes, x) is Some ==> cluster_of(nodes, x)->0.len() < x.len()
}

/// Whether `x` is `g` or drawn, through a chain of clusters, inside `g`.
pub open spec fn below(nodes: Seq<GraphNode>, x: Seq<char>, g: Seq<char>) -> bool
    decreases x.len(),
{
    if x == g {
        true
    } else {
        match cluster_of(nodes, x) {
            Some(y) => if y.len() < x.len() {
                below(nodes, y, g)
            } else {
                false
            },
            None => false,
        }
    }
}

proof fn lemma_group_at_or_above_is_group(nodes: Seq<GraphNode>, path: Seq<char>)
    ensures
        group_at_or_above(nodes, path) matches Some(g) ==> is_group_id(nodes, g) && g.len() <= path.len(),
    decreases path.len(),
{
    if !is_group_id(nodes, path) && last_index_of(path, '.') >= 0 {
        lemma_last_index_of(path, '.');
        lemma_group_at_or_above_is_group(nodes, path.take(last_index_of(path, '.')));
    }
}

proof fn lemma_cluster_is_group(nodes: Seq<GraphNode>, x: Seq<char>)
    ensures
        cluster_of(nodes, x) is Some ==> is_group_id(nodes, cluster_of(nodes, x)->0),
{
    if last_with_id(nodes, x) >= 0 {
        match nodes[last_with_id(nodes, x)].parent {
            Some(p) => lemma_group_at_or_above_is_group(nodes, p@),
            None => {},
        }
    }
}

proof fn lemma_below_len(nodes: Seq<GraphNode>, x: Seq<char>, g: Seq<char>)
    requires
        below(nodes, x, g),
    ensures
        g.len() <= x.len(),
        x != g ==> g.len() < x.len(),
    decreases x.len(),
{
    if x != g {
        let y = cluster_of(nodes, x)->0;
        lemma_below_len(nodes, y, g);
    }
}

proof fn lemma_below_trans(nodes: Seq<GraphNode>, x: Seq<char>, y: Seq<char>, z: Seq<char>)
    requires
        below(nodes, x, y),
        below(nodes, y, z),
    ensures
        below(nodes, x, z),
    decreases x.len(),
{
    if x != y {
        lemma_below_trans(nodes, cluster_of(nodes, x)->0, y, z);
    }
}

proof fn lemma_below_linear(nodes: Seq<GraphNode>, x: Seq<char>, a: Seq<char>, b: Seq<char>)
    requires
        below(nodes, x, a),
        below(nodes, x, b),
    ensures
        below(nodes, a, b) || below(nodes, b, a),
    decreases x.len(),
{
    if x != a && x != b {
        lemma_below_linear(nodes, cluster_of(nodes, x)->0, a, b);
    }
}

/// A group strictly inside `g` is inside some group drawn directly in `g`.
proof fn lemma_below_child(nodes: Seq<GraphNode>, x: Seq<char>, g: Seq<char>) -> (c: Seq<char>)
    requires
        below(nodes, x, g),
        x != g,
        is_group_id(nodes, x),
    ensures
        cluster_of(nodes, c) == Some(g),
        below(nodes, x, c),
        is_group_id(nodes, c),
    decreases x.len(),
{
    let y = cluster_of(nodes, x)->0;
    if y == g {
        x
    } else {
        lemma_cluster_is_group(nodes, x);
        let c = lemma_below_child(nodes, y, g);
        assert(below(nodes, y, y));
        assert(below(nodes, x, y));
        lemma_below_trans(nodes, x, y, c);
        c
    }
}

/// Every group is inside some top-level group (one drawn at the digraph root).
proof fn lemma_below_top(nodes: Seq<GraphNode>, x: Seq<char>) -> (t: Seq<char>)
    requires
        clusters_shorter(nodes),
        is_group_id(nodes, x),
    ensures
        cluster_of(nodes, t) is None,
        below(nodes, x, t),
        is_group_id(nodes, t),
    decreases x.len(),
{
    if cluster_of(nodes, x) is None {
        x
    } else {
        let y = cluster_of(nodes, x)->0;
        assert(y.len() < x.len());
        lemma_cluster_is_group(nodes, x);
        let t = lemma_below_top(nodes, y);
        assert(below(nodes, y, y));
        assert(below(nodes, x, y));
        lemma_below_trans(nodes, x, y, t);
        t
    }
}

proof fn lemma_concat_no_dups(a: Seq<Seq<char>>, b: Seq<Seq<char>>)
    requires
        a.no_duplicates(),
        b.no_duplicates(),
        forall|x: Seq<char>| a.contains(x) ==> !b.contains(x),
    ensures
        (a + b).no_duplicates(),
{
    let c = a + b;
    assert forall|i: int, j: int| 0 <= i < c.len() && 0 <= j < c.len() && i != j implies c[i] != c[j] by {
        if i < a.len() && j >= a.len() {
            assert(a.contains(c[i]) && b.contains(c[j]) && c[j] == b[j - a.len()]);
        } else if j < a.len() && i >= a.len() {
            assert(a.contains(c[j]) && b.contains(c[i]) && c[i] == b[i - a.len()]);
        } else if i >= a.len() {
            assert(c[i] == b[i - a.len()] && c[j] == b[j - a.len()]);
        }
    }
}

proof fn lemma_filter_no_dups<A>(s: Seq<A>, p: spec_fn(A) -> bool)
    requires
        s.no_duplicates(),
    ensures
        s.filter(p).no_duplicates(),
    decreases s.len(),
{
    reveal(Seq::filter);
    if s.len() > 0 {
        let d = s.drop_last();
        assert(d.no_duplicates());
        lemma_filter_no_dups(d, p);
        if p(s.last()) {
            let fd = d.filter(p);
            let f = fd.push(s.last());
            assert(s.filter(p) == f);
            assert forall|i: int, j: int| 0 <= i < f.len() && 0 <= j < f.len() && i != j implies f[i] != f[j] by {
                if i < fd.len() && j < fd.len() {
                } else {
                    let k = if i < fd.len() { i } else { j };
                    if k < fd.len() {
                        assert(fd.contains(fd[k]));
                        d.lemma_filter_contains_rev(p, fd[k]);
                        let m = choose|m: int| 0 <= m < d.len() && d[m] == fd[k];
                        assert(s[m] == d[m] && s[s.len() - 1] == s.last());
                    }
                }
            }
        }
    }
}

/// With distinct ids, the groups drawn directly in a cluster are listed once
/// each, and every group whose cluster is `b` is listed.
proof fn lemma_child_groups_exact(nodes: Seq<GraphNode>, b: Option<Seq<char>>)
    requires
        distinct_ids(nodes),
    ensures
        child_groups(nodes, b).no_duplicates(),
        forall|k: int| 0 <= k < child_groups(nodes, b).len() ==> is_group_id(nodes, #[trigger] child_groups(nodes, b)[k]),
        forall|c: Seq<char>| is_group_id(nodes, c) && cluster_of(nodes, c) == b ==> child_groups(nodes, b).contains(c),
{
    broadcast use vstd::seq_lib::group_filter_ensures;

    let pred = |n: GraphNode| is_child_group(nodes, b, n);
    let idf = |n: GraphNode| n.id@;
    let f = nodes.filter(pred);
    let cg = child_groups(nodes, b);
    lemma_child_groups_listed(nodes, b);
    assert forall|k: int| 0 <= k < cg.len() implies is_group_id(nodes, #[trigger] cg[k]) && exists|i: int|
        0 <= i < nodes.len() && nodes[i] == f[k] by {
        assert(f.contains(f[k]));
        nodes.lemma_filter_contains_rev(pred, f[k]);
        let i = choose|i: int| 0 <= i < nodes.len() && nodes[i] == f[k];
        lemma_last_with_id(nodes, f[k].id@);
        let j = last_with_id(nodes, f[k].id@);
        if j != i {
            if i < j {
                assert(nodes[i].id@ != nodes[j].id@);
            } else {
                assert(nodes[j].id@ != nodes[i].id@);
            }
        }
        assert(pred(f[k]));
    }
    // Distinct ids make the filtered nodes distinct, hence their ids.
    assert forall|k: int, l: int| 0 <= k < cg.len() && 0 <= l < cg.len() && k != l implies cg[k] != cg[l] by {
        assert(f.contains(f[k]) && f.contains(f[l]));
        nodes.lemma_filter_contains_rev(pred, f[k]);
        nodes.lemma_filter_contains_rev(pred, f[l]);
        let j = last_with_id(nodes, f[k].id@);
        lemma_last_with_id(nodes, f[k].id@);
        lemma_last_with_id(nodes, f[l].id@);
        if cg[k] == cg[l] {
            // both filtered nodes are the unique node with this id
            let ik = choose|i: int| 0 <= i < nodes.len() && nodes[i] == f[k];
            let il = choose|i: int| 0 <= i < nodes.len() && nodes[i] == f[l];
            if ik != il {
                if ik < il {
                    assert(nodes[ik].id@ != nodes[il].id@);
                } else {
                    assert(nodes[il].id@ != nodes[ik].id@);
                }
            }
            assert(f[k] == f[l]);
            assert(nodes.no_duplicates()) by {
                assert forall|i: int, j: int| 0 <= i < nodes.len() && 0 <= j < nodes.len() && i != j implies nodes[i] != nodes[j] by {
                    if i < j {
                        assert(nodes[i].id@ != nodes[j].id@);
                    } else {
                        assert(nodes[j].id@ != nodes[i].id@);
                    }
                }
            }
            lemma_filter_no_dups(nodes, pred);
        }
    }
    assert forall|c: Seq<char>| is_group_id(nodes, c) && cluster_of(nodes, c) == b implies cg.contains(c) by {
        lemma_last_with_id(nodes, c);
        let j = last_with_id(nodes, c);
        assert(is_child_group(nodes, b, nodes[j]));
    }
}

proof fn lemma_opened_by(nodes: Seq<GraphNode>, g: Seq<char>, path: Set<Seq<char>>)
    requires
        distinct_ids(nodes),
        clusters_shorter(nodes),
        id_set(nodes).contains(g),
        is_group_id(nodes, g),
        !path.contains(g),
        path.finite(),
        clusters_within(nodes, path),
        cluster_of(nodes, g) is None || path.contains(cluster_of(nodes, g)->0),
    ensures
        opened_by(nodes, g, path).no_duplicates(),
        forall|x: Seq<char>|
            #[trigger] opened_by(nodes, g, path).contains(x) <==> is_group_id(nodes, x) && below(nodes, x, g),
    decreases id_set(nodes).difference(path).len(), 0nat,
{
    lemma_fewer_ids_off_path(nodes, path, g);
    let gs = child_groups(nodes, Some(g));
    let inner = path.insert(g);
    lemma_child_groups_listed(nodes, Some(g));
    lemma_child_groups_exact(nodes, Some(g));
    assert forall|k: int| 0 <= k < gs.len() implies id_set(nodes).contains(#[trigger] gs[k]) && !inner.contains(
        gs[k],
    ) && (cluster_of(nodes, gs[k]) is None || inner.contains(cluster_of(nodes, gs[k])->0)) && is_group_id(
        nodes,
        gs[k],
    ) by {
        assert(cluster_of(nodes, gs[k]) == Some(g));
        if gs[k] == g {
            assert(path.contains(g));
        }
        if path.contains(gs[k]) {
            assert(path.contains(g));
        }
    }
    assert forall|x: Seq<char>| #[trigger] inner.contains(x) implies cluster_of(nodes, x) is None || inner.contains(
        cluster_of(nodes, x)->0,
    ) by {
        if x != g {
            assert(path.contains(x));
        }
    }
    assert forall|k: int, l: int| 0 <= k < gs.len() && 0 <= l < gs.len() && k != l implies !below(
        nodes,
        #[trigger] gs[k],
        #[trigger] gs[l],
    ) by {
        assert(cluster_of(nodes, gs[k]) == Some(g) && cluster_of(nodes, gs[l]) == Some(g));
        if below(nodes, gs[k], gs[l]) {
            assert(gs[k] != gs[l]);
            assert(below(nodes, g, gs[l]));
            lemma_below_len(nodes, g, gs[l]);
        }
    }
    lemma_opened_by_all(nodes, gs, inner);
    let rest = opened_by_all(nodes, gs, inner);
    assert(opened_by(nodes, g, path) == seq![g] + rest);
    assert forall|x: Seq<char>| seq![g].contains(x) implies !rest.contains(x) by {
        if rest.contains(g) {
            let k = choose|k: int| 0 <= k < gs.len() && below(nodes, g, #[trigger] gs[k]);
            lemma_below_len(nodes, g, gs[k]);
        }
    }
    lemma_concat_no_dups(seq![g], rest);
    assert forall|x: Seq<char>| #[trigger] opened_by(nodes, g, path).contains(x) <==> is_group_id(nodes, x) && below(
        nodes,
        x,
        g,
    ) by {
        let o = opened_by(nodes, g, path);
        if o.contains(x) && x != g {
            let i = choose|i: int| 0 <= i < o.len() && o[i] == x;
            assert(rest.contains(o[i])) by {
                assert(o[i] == rest[i - 1]);
            }
            let k = choose|k: int| 0 <= k < gs.len() && below(nodes, x, #[trigger] gs[k]);
            assert(cluster_of(nodes, gs[k]) == Some(g));
            assert(cluster_of(nodes, gs[k]) is Some);
            assert(g.len() < gs[k].len());
            assert(below(nodes, g, g));
            assert(below(nodes, gs[k], g));
            lemma_below_trans(nodes, x, gs[k], g);
        }
        if is_group_id(nodes, x) && below(nodes, x, g) {
            if x == g {
                assert(o[0] == g);
            } else {
                let c = lemma_below_child(nodes, x, g);
                assert(gs.contains(c));
                let k = choose|k: int| 0 <= k < gs.len() && gs[k] == c;
                assert(rest.contains(x));
                let i = choose|i: int| 0 <= i < rest.len() && rest[i] == x;
                assert(o[i + 1] == x);
            }
        }
    }
}

proof fn lemma_opened_by_all(nodes: Seq<GraphNode>, gs: Seq<Seq<char>>, path: Set<Seq<char>>)
    requires
        distinct_ids(nodes),
        clusters_shorter(nodes),
        path.finite(),
        clusters_within(nodes, path),
        forall|k: int|
            0 <= k < gs.len() ==> id_set(nodes).contains(#[trigger] gs[k]) && !path.contains(gs[k]) && (
            cluster_of(nodes, gs[k]) is None || path.contains(cluster_of(nodes, gs[k])->0)) && is_group_id(
                nodes,
                gs[k],
            ),
        forall|k: int, l: int|
            0 <= k < gs.len() && 0 <= l < gs.len() && k != l ==> !below(nodes, #[trigger] gs[k], #[trigger] gs[l]),
    ensures
        opened_by_all(nodes, gs, path).no_duplicates(),
        forall|x: Seq<char>|
            #[trigger] opened_by_all(nodes, gs, path).contains(x) <==> is_group_id(nodes, x) && exists|k: int|
                0 <= k < gs.len() && below(nodes, x, #[trigger] gs[k]),
    decreases id_set(nodes).difference(path).len(), gs.len(),
{
    if gs.len() == 0 {
        assert(opened_by_all(nodes, gs, path) =~= Seq::<Seq<char>>::empty());
    } else {
        let d = gs.drop_last();
        let last = gs.last();
        assert(last == gs[gs.len() - 1]);
        assert forall|k: int| 0 <= k < d.len() implies id_set(nodes).contains(#[trigger] d[k]) && !path.contains(d[k]) && (
        cluster_of(nodes, d[k]) is None || path.contains(cluster_of(nodes, d[k])->0)) && is_group_id(nodes, d[k]) by {
            assert(d[k] == gs[k]);
        }
        assert forall|k: int, l: int| 0 <= k < d.len() && 0 <= l < d.len() && k != l implies !below(
            nodes,
            #[trigger] d[k],
            #[trigger] d[l],
        ) by {
            assert(d[k] == gs[k] && d[l] == gs[l]);
        }
        lemma_opened_by_all(nodes, d, path);
        lemma_opened_by(nodes, last, path);
        let a = opened_by_all(nodes, d, path);
        let b = opened_by(nodes, last, path);
        assert forall|x: Seq<char>| a.contains(x) implies !b.contains(x) by {
            if b.contains(x) {
                let k = choose|k: int| 0 <= k < d.len() && below(nodes, x, #[trigger] d[k]);
                assert(d[k] == gs[k]);
                lemma_below_linear(nodes, x, gs[k], last);
                assert(!below(nodes, gs[k], gs[gs.len() - 1]));
                assert(!below(nodes, gs[gs.len() - 1], gs[k]));
            }
        }
        lemma_concat_no_dups(a, b);
        assert(opened_by_all(nodes, gs, path) == a + b);
        assert forall|x: Seq<char>| #[trigger] opened_by_all(nodes, gs, path).contains(x) <==> is_group_id(nodes, x)
            && exists|k: int| 0 <= k < gs.len() && below(nodes, x, #[trigger] gs[k]) by {
            let o = a + b;
            if o.contains(x) {
                let i = choose|i: int| 0 <= i < o.len() && o[i] == x;
                if i < a.len() {
                    assert(a.contains(x) && a[i] == x);
                    let k = choose|k: int| 0 <= k < d.len() && below(nodes, x, #[trigger] d[k]);
                    assert(d[k] == gs[k]);
                } else {
                    assert(b.contains(x) && b[i - a.len()] == x);
                    assert(below(nodes, x, gs[gs.len() - 1]));
                }
            }
            if is_group_id(nodes, x) && exists|k: int| 0 <= k < gs.len() && below(nodes, x, #[trigger] gs[k]) {
                let k = choose|k: int| 0 <= k < gs.len() && below(nodes, x, #[trigger] gs[k]);
                if k < gs.len() - 1 {
                    assert(d[k] == gs[k]);
                    assert(a.contains(x));
                    let i = choose|i: int| 0 <= i < a.len() && a[i] == x;
                    assert(o[i] == x);
                } else {
                    assert(b.contains(x));
                    let i = choose|i: int| 0 <= i < b.len() && b[i] == x;
                    assert(o[i + a.len()] == x);
                }
            }
        }
    }
}

proof fn lemma_dotted_clusters_shorter(nodes: Seq<GraphNode>)
    requires
        crate::loader::dotted_parents(crate::model::node_views(nodes)),
    ensures
        clusters_shorter(nodes),
{
    let nv = crate::model::node_views(nodes);
    assert forall|x: Seq<char>| #[trigger] cluster_of(nodes, x) is Some implies cluster_of(nodes, x)->0.len() < x.len() by {
        lemma_last_with_id(nodes, x);
        let j = last_with_id(nodes, x);
        let n = nodes[j];
        assert(nv[j] == n@);
        match n.parent {
            Some(p) => {
                assert(parent_of(x) == Some(p@));
                lemma_last_index_of(x, '.');
                lemma_group_at_or_above_is_group(nodes, p@);
            },
            None => {},
        }
    }
}

/// Each group of a model opens exactly one cluster block in its DOT document:
/// when ids are distinct and every node records either no parent or its id's
/// dotted parent (as the loader builds them), the groups whose blocks the
/// document opens are the model's groups, each once.
pub proof fn lemma_each_group_opens_one_block(nodes: Seq<GraphNode>)
    requires
        distinct_ids(nodes),
        crate::loader::dotted_parents(crate::model::node_views(nodes)),
    ensures
        opened_groups(nodes).no_duplicates(),
        forall|x: Seq<char>| #[trigger] opened_groups(nodes).contains(x) <==> is_group_id(nodes, x),
{
    lemma_dotted_clusters_shorter(nodes);
    let gs = child_groups(nodes, None);
    lemma_child_groups_listed(nodes, None);
    lemma_child_groups_exact(nodes, None);
    assert forall|k: int| 0 <= k < gs.len() implies id_set(nodes).contains(#[trigger] gs[k]) && !Set::<Seq<char>>::empty().contains(
        gs[k],
    ) && (cluster_of(nodes, gs[k]) is None || Set::<Seq<char>>::empty().contains(cluster_of(nodes, gs[k])->0))
        && is_group_id(nodes, gs[k]) by {}
    assert forall|k: int, l: int| 0 <= k < gs.len() && 0 <= l < gs.len() && k != l implies !below(
        nodes,
        #[trigger] gs[k],
        #[trigger] gs[l],
    ) by {
        assert(cluster_of(nodes, gs[k]) is None);
    }
    lemma_opened_by_all(nodes, gs, Set::empty());
    assert forall|x: Seq<char>| #[trigger] opened_groups(nodes).contains(x) <==> is_group_id(nodes, x) by {
        if is_group_id(nodes, x) {
            let t = lemma_below_top(nodes, x);
            assert(gs.contains(t));
            let k = choose|k: int| 0 <= k < gs.len() && gs[k] == t;
            assert(below(nodes, x, gs[k]));
        }
    }
}

/// Each non-group node is declared exactly once in the DOT document, in the
/// block of its nearest enclosing group (the digraph root when it has none):
/// with distinct ids and dotted parents, its cluster is the root or a group
/// whose block the document opens, the declarations of that block list it
/// once, and no other block's declarations list it.
pub proof fn lemma_each_node_declared_once(nodes: Seq<GraphNode>, i: int)
    requires
        distinct_ids(nodes),
        crate::loader::dotted_parents(crate::model::node_views(nodes)),
        0 <= i < nodes.len(),
        nodes[i].kind != NodeKind::Group,
    ensures
        cluster_of(nodes, nodes[i].id@) is None || opened_groups(nodes).contains(
            cluster_of(nodes, nodes[i].id@)->0,
        ),
        members(nodes, cluster_of(nodes, nodes[i].id@)).contains(nodes[i]),
        members(nodes, cluster_of(nodes, nodes[i].id@)).no_duplicates(),
        forall|b: Option<Seq<char>>| #[trigger] members(nodes, b).contains(nodes[i]) ==> b == cluster_of(
            nodes,
            nodes[i].id@,
        ),
{
    broadcast use vstd::seq_lib::group_filter_ensures;

    let b0 = cluster_of(nodes, nodes[i].id@);
    lemma_cluster_is_group(nodes, nodes[i].id@);
    lemma_each_group_opens_one_block(nodes);
    assert(nodes.no_duplicates()) by {
        assert forall|k: int, l: int| 0 <= k < nodes.len() && 0 <= l < nodes.len() && k != l implies nodes[k] != nodes[l] by {
            if k < l {
                assert(nodes[k].id@ != nodes[l].id@);
            } else {
                assert(nodes[l].id@ != nodes[k].id@);
            }
        }
    }
    let p0 = |n: GraphNode| n.kind != NodeKind::Group && cluster_of(nodes, n.id@) == b0;
    assert(p0(nodes[i]));
    lemma_filter_no_dups(nodes, p0);
    assert forall|b: Option<Seq<char>>| #[trigger] members(nodes, b).contains(nodes[i]) implies b == b0 by {
        let p = |n: GraphNode| n.kind != NodeKind::Group && cluster_of(nodes, n.id@) == b;
        nodes.lemma_filter_pred(p, choose|k: int| 0 <= k < members(nodes, b).len() && members(nodes, b)[k] == nodes[i]);
    }
}

/// A hierarchy edge whose child is drawn directly in the parent's cluster, or
/// whose two ends are drawn in the same cluster, gets no edge line; every
/// other edge gets its line, quoted ends and per-kind style.
pub proof fn lemma_edge_line_suppression(nodes: Seq<GraphNode>, e: GraphEdge)
    ensures
        e.kind == EdgeKind::Hierarchy && (cluster_of(nodes, e.to@) == Some(e.from@) || cluster_of(
            nodes,
            e.from@,
        ) == cluster_of(nodes, e.to@)) ==> edge_line_text(nodes, e) == Seq::<char>::empty(),
        !(e.kind == EdgeKind::Hierarchy && (cluster_of(nodes, e.to@) == Some(e.from@) || cluster_of(
            nodes,
            e.from@,
        ) == cluster_of(nodes, e.to@))) ==> edge_line_text(nodes, e) == "  "@ + quoted(e.from@) + " -> "@
            + quoted(e.to@) + " [style="@ + edge_line(e.kind) + ", color="@ + edge_color(e.kind)
            + "];\n"@,
{
}

proof fn lemma_edge_lines_remove(nodes: Seq<GraphNode>, es: Seq<GraphEdge>, k: int)
    requires
        0 <= k < es.len(),
        edge_line_text(nodes, es[k]) == Seq::<char>::empty(),
    ensures
        edge_lines(nodes, es) == edge_lines(nodes, es.remove(k)),
    decreases es.len(),
{
    let r = es.remove(k);
    if k == es.len() - 1 {
        assert(r == es.drop_last());
        assert(edge_lines(nodes, es) == edge_lines(nodes, es.drop_last()) + Seq::<char>::empty());
    } else {
        lemma_edge_lines_remove(nodes, es.drop_last(), k);
        assert(r.drop_last() == es.drop_last().remove(k));
        assert(r.last() == es.last());
    }
}

/// Removing from a model a hierarchy edge whose two ends are drawn in the same
/// cluster (or whose child is drawn directly in its parent's cluster) leaves
/// the DOT document unchanged: such an edge is never drawn.
pub proof fn lemma_intra_cluster_hierarchy_edge_not_drawn(m1: GraphModel, m2: GraphModel, k: int)
    requires
        0 <= k < m1.edges@.len(),
        m1.edges@[k].kind == EdgeKind::Hierarchy,
        cluster_of(m1.nodes@, m1.edges@[k].from@) == cluster_of(m1.nodes@, m1.edges@[k].to@)
            || cluster_of(m1.nodes@, m1.edges@[k].to@) == Some(m1.edges@[k].from@),
        m2.title == m1.title,
        m2.nodes@ == m1.nodes@,
        m2.overlay == m1.overlay,
        m2.edges@ == m1.edges@.remove(k),
    ensures
        dot_document(m2) == dot_document(m1),
{
    lemma_edge_line_suppression(m1.nodes@, m1.edges@[k]);
    lemma_edge_lines_remove(m1.nodes@, m1.edges@, k);
}

/// The group found at or above a path is the nearest group among the path and
/// its dotted ancestors: `Some(g)` when `g` is the path or one of its
/// ancestors, `g` is a group, and no path between them (the path itself or an
/// ancestor longer than `g`) is a group; `None` exactly when neither the path
/// nor any ancestor of it is a group.
pub proof fn lemma_group_at_or_above_is_nearest(nodes: Seq<GraphNode>, path: Seq<char>)
    ensures
        match group_at_or_above(nodes, path) {
            Some(g) => {
                &&& is_group_id(nodes, g)
                &&& (g == path || crate::loader::is_ancestor(g, path))
                &&& (g != path ==> !is_group_id(nodes, path))
                &&& forall|a: Seq<char>|
                    crate::loader::is_ancestor(a, path) && a.len() > g.len() ==> !is_group_id(nodes, a)
            },
            None => {
                &&& !is_group_id(nodes, path)
                &&& forall|a: Seq<char>| crate::loader::is_ancestor(a, path) ==> !is_group_id(nodes, a)
            },
        },
    decreases path.len(),
{
    if is_group_id(nodes, path) {
        assert forall|a: Seq<char>| crate::loader::is_ancestor(a, path) && a.len() > path.len() implies !is_group_id(
            nodes,
            a,
        ) by {
            crate::loader::lemma_is_ancestor_shorter(a, path);
        }
    } else if last_index_of(path, '.') < 0 {
        assert forall|a: Seq<char>| crate::loader::is_ancestor(a, path) implies !is_group_id(nodes, a) by {}
    } else {
        lemma_last_index_of(path, '.');
        let q = path.take(last_index_of(path, '.'));
        lemma_group_at_or_above_is_nearest(nodes, q);
        assert forall|a: Seq<char>| #[trigger] crate::loader::is_ancestor(a, path) <==> (a == q
            || crate::loader::is_ancestor(a, q)) by {
            crate::loader::lemma_is_ancestor_step(a, path);
        }
        match group_at_or_above(nodes, q) {
            Some(g) => {
                if g != q {
                    crate::loader::lemma_is_ancestor_shorter(g, q);
                }
                assert forall|a: Seq<char>| crate::loader::is_ancestor(a, path) && a.len() > g.len() implies !is_group_id(
                    nodes,
                    a,
                ) by {
                    if a == q {
                        if g != q {
                        } else {
                        }
                    }
                }
            },
            None => {},
        }
    }
}

/// A node is drawn in the cluster of the nearest group among its recorded
/// parent and that parent's dotted ancestors; when the parent is not a group
/// but one of its ancestors is, the node is drawn in that ancestor's cluster,
/// never at the digraph root.
pub proof fn lemma_cluster_is_nearest_group_above_parent(nodes: Seq<GraphNode>, id: Seq<char>)
    requires
        last_with_id(nodes, id) >= 0,
        nodes[last_with_id(nodes, id)].parent is Some,
    ensures
        ({
            let p = nodes[last_with_id(nodes, id)].parent->0@;
            &&& is_group_id(nodes, p) ==> cluster_of(nodes, id) == Some(p)
            &&& (exists|a: Seq<char>| crate::loader::is_ancestor(a, p) && is_group_id(nodes, a))
                ==> cluster_of(nodes, id) is Some
            &&& cluster_of(nodes, id) matches Some(g) ==> is_group_id(nodes, g) && (g == p
                || crate::loader::is_ancestor(g, p))
        }),
{
    let p = nodes[last_with_id(nodes, id)].parent->0@;
    lemma_group_at_or_above_is_nearest(nodes, p);
}

/// The four edge kinds are drawn with four distinct (style, colour) pairs, so
/// the relationship types read apart.
pub proof fn lemma_edge_styles_distinct(a: EdgeKind, b: EdgeKind)
    requires
        a != b,
    ensures
        (edge_line(a), edge_color(a)) != (edge_line(b), edge_color(b)),
{
    reveal_strlit("black");
    reveal_strlit("purple");
    reveal_strlit("orange");
    reveal_strlit("red");
    assert(edge_color(a)[0] != edge_color(b)[0] || edge_color(a).len() != edge_color(b).len());
}

} // verus!
