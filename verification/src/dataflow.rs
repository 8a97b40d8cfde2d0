//! The read/write sets of a function's script, and the path helpers the
//! data-flow extraction canonicalises names with.
use vstd::prelude::*;

use crate::loader::{holds, holds_text};
use crate::model::opt_chars;
use crate::text::{
    chars_of, find_char, first_index_of, lemma_first_index_of, lemma_text_lt_total,
    lemma_text_lt_transitive, text_less, text_lt,
};

verus! {

/// The canonical read/write sets of one function's body.
#[derive(Debug, Clone, Default, PartialEq)]
pub struct IoSets {
    /// Canonical paths of project symbols this function assigns to, ascending.
    pub writes: Vec<String>,
    /// Canonical paths of project symbols this function reads, ascending.
    pub reads: Vec<String>,
}


/// The leading `.`-separated segment of a path.
pub open spec fn leading_segment(path: Seq<char>) -> Seq<char> {
    if first_index_of(path, '.') < 0 {
        path
    } else {
        path.take(first_index_of(path, '.'))
    }
}

/// The leading dot-segment of a path (`Calculate` of `Calculate.Max`). Never
/// splits on whitespace, only on `.`.
pub fn root_segment(path: &str) -> (r: &str)
    ensures
        r@ == leading_segment(path@),
{
    let cs = chars_of(path);
    proof {
        lemma_first_index_of(cs@, '.');
    }
    match find_char(&cs, '.') {
        Some(i) => path.substring_char(0, i),
        None => path,
    }
}

/// The characters of an optional string slice.
pub open spec fn opt_str(o: Option<&str>) -> Option<Seq<char>> {
    match o {
        Some(s) => Some(s@),
        None => None,
    }
}

/// A path with a leading `This` anchor expanded to the enclosing group: `This`
/// itself becomes the group, `This.<rest>` becomes `<group>.<rest>`. `None`
/// when there is no group or the path does not start with the anchor.
pub open spec fn this_expanded(path: Seq<char>, group: Option<Seq<char>>) -> Option<Seq<char>> {
    match group {
        None => None,
        Some(g) => if path == "This"@ {
            Some(g)
        } else if path.len() >= 5 && path.take(5) == "This."@ {
            Some(g + "."@ + path.skip(5))
        } else {
            None
        },
    }
}

/// Rewrite a leading `This` anchor to the enclosing group's canonical path
/// (`This.Output` from group `Root.Demo` gives `Root.Demo.Output`; bare `This`
/// gives `Root.Demo`). Only `.` splits segments, never whitespace. Paths without
/// the anchor, or with no group, give `None`.
pub fn rewrite_this(path: &str, group: Option<&str>) -> (r: Option<String>)
    ensures
        match r {
            Some(x) => this_expanded(path@, opt_str(group)) == Some(x@),
            None => this_expanded(path@, opt_str(group)) is None,
        },
{
    proof {
        reveal_strlit("This");
        reveal_strlit("This.");
        reveal_strlit(".");
    }
    let g = match group {
        Some(g) => g,
        None => return None,
    };
    let cs = chars_of(path);
    if cs.len() == 4 && cs[0] == 'T' && cs[1] == 'h' && cs[2] == 'i' && cs[3] == 's' {
        proof {
            assert(path@ =~= "This"@);
        }
        return Some(crate::text::owned(g));
    }
    proof {
        if path@ == "This"@ {
            assert(cs@[0] == 'T' && cs@[1] == 'h' && cs@[2] == 'i' && cs@[3] == 's');
        }
    }
    if cs.len() >= 5 && cs[0] == 'T' && cs[1] == 'h' && cs[2] == 'i' && cs[3] == 's' && cs[4] == '.' {
        let mut r = crate::text::owned(g);
        r.push('.');
        crate::text::push_chars(&mut r, &cs, 5, cs.len());
        proof {
            assert(path@.take(5) =~= "This."@);
            assert(cs@.subrange(5, cs@.len() as int) == path@.skip(5));
            assert(r@ =~= g@ + "."@ + path@.skip(5));
        }
        return Some(r);
    }
    proof {
        if path@.len() >= 5 && path@.take(5) == "This."@ {
            assert(path@.take(5)[0] == 'T');
            assert(path@.take(5)[1] == 'h');
            assert(path@.take(5)[2] == 'i');
            assert(path@.take(5)[3] == 's');
            assert(path@.take(5)[4] == '.');
            assert(false);
        }
        assert(path@ != "This"@);
        assert(group == Some(g));
        assert(this_expanded(path@, opt_str(group)) is None);
    }
    None
}


// ---------------------------------------------------------------------------
// The script's syntax tree
// ---------------------------------------------------------------------------

/// The kinds of syntax node the extraction distinguishes.
#[derive(Debug, Clone, Copy, PartialEq, Eq, Structural)]
pub enum CstKind {
    /// A `local` / `static local` declaration.
    LocalDeclaration,
    /// An assignment statement (plain or compound).
    AssignmentStatement,
    /// A bare identifier.
    Identifier,
    /// A member chain such as `A.B.C`.
    MemberExpression,
    /// A call such as `Calculate.Max(a, b)`.
    CallExpression,
    /// Any other node.
    Other,
}

/// One node of a script's concrete syntax tree, with the fields the
/// extraction reads.
#[derive(Debug)]
pub struct CstNode {
    /// What the node is.
    pub kind: CstKind,
    /// The node's source text.
    pub text: String,
    /// The named children, in source order.
    pub children: Vec<CstNode>,
    /// The `name` field (of a local declaration).
    pub name: Option<Box<CstNode>>,
    /// The `value` field (an initialiser or an assigned value).
    pub value: Option<Box<CstNode>>,
    /// The `target` field (of an assignment).
    pub target: Option<Box<CstNode>>,
    /// Whether the `operator` field is a compound assignment operator (`+=`, ...).
    pub compound: bool,
    /// The `arguments` field (of a call).
    pub arguments: Option<Box<CstNode>>,
    /// The `object` field (of a member expression).
    pub object: Option<Box<CstNode>>,
    /// The `property` field (of a member expression).
    pub property: Option<Box<CstNode>>,
}

/// A name to resolve against the project, as the walk reaches it: the dotted
/// path (with a `This` anchor already expanded), the function locals in scope
/// then, and whether it is written, read, or both.
#[derive(Debug, Clone, PartialEq)]
pub struct Query {
    /// The path handed to name resolution.
    pub path: String,
    /// The function locals declared so far, in declaration order.
    pub locals: Vec<String>,
    /// Whether the reference is an assignment target.
    pub write: bool,
    /// Whether the reference is read.
    pub read: bool,
}

/// The plain-value model of a [`Query`].
pub ghost struct QueryView {
    pub path: Seq<char>,
    pub locals: Seq<Seq<char>>,
    pub write: bool,
    pub read: bool,
}

/// The characters of each string.
pub open spec fn texts(v: Seq<String>) -> Seq<Seq<char>> {
    v.map_values(|s: String| s@)
}

impl View for Query {
    type V = QueryView;

    open spec fn view(&self) -> QueryView {
        QueryView { path: self.path@, locals: texts(self.locals@), write: self.write, read: self.read }
    }
}

/// The models of a sequence of queries.
pub open spec fn query_views(qs: Seq<Query>) -> Seq<QueryView> {
    qs.map_values(|q: Query| q@)
}

/// The dotted source path of a member chain: its object's path (recursively
/// for a nested chain, else the object's text) and its property's text, joined
/// by `.`. `None` when a field is missing.
pub open spec fn member_path(node: CstNode) -> Option<Seq<char>>
    decreases node,
{
    match (node.object, node.property) {
        (Some(object), Some(property)) => {
            let head = if object.kind == CstKind::MemberExpression {
                member_path(*object)
            } else {
                Some(object.text@)
            };
            match head {
                Some(h) => Some(h + "."@ + property.text@),
                None => None,
            }
        },
        _ => None,
    }
}

/// The path handed to resolution for a reference node: an identifier's text or
/// a member chain's path, with a leading `This` expanded to the group. `None`
/// for any other node, or a malformed member chain.
pub open spec fn reference_path(node: CstNode, group: Option<Seq<char>>) -> Option<Seq<char>> {
    let raw = if node.kind == CstKind::Identifier {
        Some(node.text@)
    } else if node.kind == CstKind::MemberExpression {
        member_path(node)
    } else {
        None
    };
    match raw {
        Some(r) => match this_expanded(r, group) {
            Some(x) => Some(x),
            None => Some(r),
        },
        None => None,
    }
}

/// A single read query for `node`, if it is a reference.
pub open spec fn read_query(node: CstNode, group: Option<Seq<char>>, locals: Seq<Seq<char>>) -> Seq<QueryView> {
    match reference_path(node, group) {
        Some(p) => seq![QueryView { path: p, locals, write: false, read: true }],
        None => Seq::empty(),
    }
}

/// The queries of an expression position: every identifier or member chain is
/// a read; a call's callee is not, but its arguments are walked; anything else
/// is walked child by child.
pub open spec fn reads_of(node: CstNode, group: Option<Seq<char>>, locals: Seq<Seq<char>>) -> Seq<QueryView>
    decreases node, node.children@.len() + 1,
{
    if node.kind == CstKind::Identifier || node.kind == CstKind::MemberExpression {
        read_query(node, group, locals)
    } else if node.kind == CstKind::CallExpression {
        match node.arguments {
            Some(a) => reads_of(*a, group, locals),
            None => Seq::empty(),
        }
    } else {
        reads_of_children(node, group, locals, node.children@.len())
    }
}

/// The read queries of the first `n` children of `node`, in order.
pub open spec fn reads_of_children(
    node: CstNode,
    group: Option<Seq<char>>,
    locals: Seq<Seq<char>>,
    n: nat,
) -> Seq<QueryView>
    decreases node, n,
{
    if n == 0 || n > node.children@.len() {
        Seq::empty()
    } else {
        reads_of_children(node, group, locals, (n - 1) as nat) + reads_of(
            node.children@[n - 1],
            group,
            locals,
        )
    }
}

/// The write query of an assignment's target, if it is a reference; a
/// compound assignment also reads it.
pub open spec fn write_query(
    target: Option<Box<CstNode>>,
    compound: bool,
    group: Option<Seq<char>>,
    locals: Seq<Seq<char>>,
) -> Seq<QueryView> {
    match target {
        Some(t) => match reference_path(*t, group) {
            Some(p) => seq![QueryView { path: p, locals, write: true, read: compound }],
            None => Seq::empty(),
        },
        None => Seq::empty(),
    }
}

/// `locals` with `name` added, unless already declared.
pub open spec fn declare(locals: Seq<Seq<char>>, name: Seq<char>) -> Seq<Seq<char>> {
    if locals.contains(name) {
        locals
    } else {
        locals.push(name)
    }
}

/// The queries of a statement position, and the locals in scope after it: a
/// local declaration declares its name and reads its initialiser; an
/// assignment writes its target (and reads it too when compound) and reads its
/// value; anything else is walked child by child.
pub open spec fn walk_of(node: CstNode, group: Option<Seq<char>>, locals: Seq<Seq<char>>) -> (
    Seq<QueryView>,
    Seq<Seq<char>>,
)
    decreases node, node.children@.len() + 1,
{
    if node.kind == CstKind::LocalDeclaration {
        let after = match node.name {
            Some(nm) => declare(locals, nm.text@),
            None => locals,
        };
        let qs = match node.value {
            Some(v) => reads_of(*v, group, after),
            None => Seq::empty(),
        };
        (qs, after)
    } else if node.kind == CstKind::AssignmentStatement {
        let w = write_query(node.target, node.compound, group, locals);
        let r = match node.value {
            Some(v) => reads_of(*v, group, locals),
            None => Seq::empty(),
        };
        (w + r, locals)
    } else {
        walk_of_children(node, group, locals, node.children@.len())
    }
}

/// The queries of the first `n` children of `node` walked as statements, in
/// order, and the locals in scope after them.
pub open spec fn walk_of_children(
    node: CstNode,
    group: Option<Seq<char>>,
    locals: Seq<Seq<char>>,
    n: nat,
) -> (Seq<QueryView>, Seq<Seq<char>>)
    decreases node, n,
{
    if n == 0 || n > node.children@.len() {
        (Seq::empty(), locals)
    } else {
        let (q1, l1) = walk_of_children(node, group, locals, (n - 1) as nat);
        let (q2, l2) = walk_of(node.children@[n - 1], group, l1);
        (q1 + q2, l2)
    }
}


// ---------------------------------------------------------------------------
// Walking the tree
// ---------------------------------------------------------------------------

/// Flatten a member chain to its dotted source path. The object may itself be
/// a member chain (`A.B.C`); each segment is taken verbatim (it may contain
/// spaces), joined only by `.`. A malformed chain gives `None`.
pub fn flatten_member(node: &CstNode) -> (r: Option<String>)
    ensures
        opt_chars(r) == member_path(*node),
    decreases node,
{
    let object = match &node.object {
        Some(o) => o,
        None => return None,
    };
    let property = match &node.property {
        Some(p) => p,
        None => return None,
    };
    let head = if object.kind == CstKind::MemberExpression {
        match flatten_member(object) {
            Some(h) => h,
            None => return None,
        }
    } else {
        object.text.clone()
    };
    let mut r = head;
    r.append(".");
    r.append(property.text.as_str());
    Some(r)
}

/// The path handed to resolution for a reference node.
fn reference(node: &CstNode, group: Option<&str>) -> (r: Option<String>)
    ensures
        opt_chars(r) == reference_path(*node, opt_str(group)),
{
    let raw = if node.kind == CstKind::Identifier {
        Some(node.text.clone())
    } else if node.kind == CstKind::MemberExpression {
        flatten_member(node)
    } else {
        None
    };
    match raw {
        Some(r) => match rewrite_this(r.as_str(), group) {
            Some(x) => Some(x),
            None => Some(r),
        },
        None => None,
    }
}

/// A copy of a list of strings.
fn copy_names(v: &Vec<String>) -> (r: Vec<String>)
    ensures
        r@ == v@,
{
    let mut r: Vec<String> = Vec::new();
    let mut i: usize = 0;
    while i < v.len()
        invariant
            i <= v.len(),
            r@ == v@.take(i as int),
        decreases v.len() - i,
    {
        r.push(v[i].clone());
        proof {
            assert(v@.take(i + 1) == v@.take(i as int).push(v@[i as int]));
        }
        i = i + 1;
    }
    proof {
        assert(v@.take(v@.len() as int) == v@);
    }
    r
}

/// Append the read queries of an expression position.
fn push_reads(node: &CstNode, group: Option<&str>, locals: &Vec<String>, out: &mut Vec<Query>)
    ensures
        query_views(final(out)@) == query_views(old(out)@) + reads_of(
            *node,
            opt_str(group),
            texts(locals@),
        ),
    decreases node,
{
    let ghost g = opt_str(group);
    let ghost l = texts(locals@);
    if node.kind == CstKind::Identifier || node.kind == CstKind::MemberExpression {
        match reference(node, group) {
            Some(p) => {
                let q = Query { path: p, locals: copy_names(locals), write: false, read: true };
                let ghost before = query_views(out@);
                out.push(q);
                proof {
                    assert(query_views(out@) =~= before + read_query(*node, g, l));
                }
            },
            None => {
                proof {
                    assert(query_views(out@) =~= query_views(out@) + read_query(*node, g, l));
                }
            },
        }
    } else if node.kind == CstKind::CallExpression {
        match &node.arguments {
            Some(a) => {
                push_reads(a, group, locals, out);
            },
            None => {
                proof {
                    assert(query_views(out@) =~= query_views(out@) + Seq::<QueryView>::empty());
                }
            },
        }
    } else {
        let ghost start = query_views(out@);
        let mut i: usize = 0;
        proof {
            assert(start =~= start + reads_of_children(*node, g, l, 0));
        }
        while i < node.children.len()
            invariant
                i <= node.children@.len(),
                g == opt_str(group),
                l == texts(locals@),
                query_views(out@) == start + reads_of_children(*node, g, l, i as nat),
            decreases node.children@.len() - i,
        {
            proof {
                assert(decreases_to!(*node => node.children));
                assert(decreases_to!(node.children => node.children@));
                assert(decreases_to!(node.children@ => node.children@[i as int]));
            }
            push_reads(&node.children[i], group, locals, out);
            proof {
                assert(reads_of_children(*node, g, l, (i + 1) as nat) == reads_of_children(
                    *node,
                    g,
                    l,
                    i as nat,
                ) + reads_of(node.children@[i as int], g, l));
                assert(query_views(out@) =~= start + reads_of_children(*node, g, l, (i + 1) as nat));
            }
            i = i + 1;
        }
    }
}

/// Append the queries of a statement position, declaring its locals.
fn push_walk(node: &CstNode, group: Option<&str>, locals: &mut Vec<String>, out: &mut Vec<Query>)
    ensures
        query_views(final(out)@) == query_views(old(out)@) + walk_of(
            *node,
            opt_str(group),
            texts(old(locals)@),
        ).0,
        texts(final(locals)@) == walk_of(*node, opt_str(group), texts(old(locals)@)).1,
    decreases node,
{
    let ghost g = opt_str(group);
    if node.kind == CstKind::LocalDeclaration {
        match &node.name {
            Some(nm) => {
                let known = holds_text(locals, &nm.text);
                proof {
                    if texts(locals@).contains(nm.text@) {
                        let k = choose|k: int| 0 <= k < texts(locals@).len() && texts(locals@)[k] == nm.text@;
                        assert(locals@[k]@ == nm.text@);
                    }
                    if holds(locals@, nm.text@) {
                        let k = choose|k: int| 0 <= k < locals@.len() && locals@[k]@ == nm.text@;
                        assert(texts(locals@)[k] == nm.text@);
                    }
                }
                if !known {
                    let ghost before = texts(locals@);
                    locals.push(nm.text.clone());
                    proof {
                        assert(texts(locals@) =~= before.push(nm.text@));
                    }
                }
            },
            None => {},
        }
        match &node.value {
            Some(v) => {
                push_reads(v, group, locals, out);
            },
            None => {
                proof {
                    assert(query_views(out@) =~= query_views(out@) + Seq::<QueryView>::empty());
                }
            },
        }
    } else if node.kind == CstKind::AssignmentStatement {
        let ghost start = query_views(out@);
        let ghost l = texts(locals@);
        match &node.target {
            Some(t) => match reference(t, group) {
                Some(p) => {
                    let q = Query { path: p, locals: copy_names(locals), write: true, read: node.compound };
                    out.push(q);
                },
                None => {},
            },
            None => {},
        }
        let ghost mid = query_views(out@);
        match &node.value {
            Some(v) => {
                push_reads(v, group, locals, out);
            },
            None => {},
        }
        proof {
            assert(mid =~= start + write_query(node.target, node.compound, g, l));
            assert(query_views(out@) =~= start + walk_of(*node, g, l).0);
        }
    } else {
        let ghost start = query_views(out@);
        let ghost l0 = texts(locals@);
        let mut i: usize = 0;
        proof {
            assert(start =~= start + walk_of_children(*node, g, l0, 0).0);
        }
        while i < node.children.len()
            invariant
                i <= node.children@.len(),
                g == opt_str(group),
                query_views(out@) == start + walk_of_children(*node, g, l0, i as nat).0,
                texts(locals@) == walk_of_children(*node, g, l0, i as nat).1,
            decreases node.children@.len() - i,
        {
            proof {
                assert(decreases_to!(*node => node.children));
                assert(decreases_to!(node.children => node.children@));
                assert(decreases_to!(node.children@ => node.children@[i as int]));
            }
            let ghost before = query_views(out@);
            push_walk(&node.children[i], group, locals, out);
            proof {
                assert(query_views(out@) =~= start + walk_of_children(*node, g, l0, (i + 1) as nat).0);
            }
            i = i + 1;
        }
    }
}

/// The names an extraction resolves against the project, in walk order, for a
/// script body whose enclosing group is `group`. Resolving each query's path
/// with its locals in scope, and folding the results with
/// [`io_sets_from`], gives the script's read/write sets.
pub fn resolution_queries(root: &CstNode, group: Option<&str>) -> (qs: Vec<Query>)
    ensures
        query_views(qs@) == walk_of(*root, opt_str(group), Seq::empty()).0,
{
    let mut qs: Vec<Query> = Vec::new();
    let mut locals: Vec<String> = Vec::new();
    proof {
        assert(texts(locals@) =~= Seq::<Seq<char>>::empty());
    }
    push_walk(root, group, &mut locals, &mut qs);
    proof {
        assert(query_views(Seq::<Query>::empty()) =~= Seq::<QueryView>::empty());
        assert(query_views(qs@) =~= walk_of(*root, opt_str(group), Seq::empty()).0);
    }
    qs
}

// ---------------------------------------------------------------------------
// Folding resolved names into read/write sets
// ---------------------------------------------------------------------------

/// Whether the strings ascend strictly, so that none occurs twice.
pub open spec fn strictly_ascending(v: Seq<String>) -> bool {
    forall|i: int, j: int| 0 <= i < j < v.len() ==> text_lt(#[trigger] v[i]@, #[trigger] v[j]@)
}

/// Whether some query that writes (`write`) or reads (`!write`) resolved to the
/// project symbol `p`.
pub open spec fn resolved_to(qs: Seq<QueryView>, resolved: Seq<Option<String>>, p: Seq<char>, write: bool) -> bool {
    exists|i: int|
        0 <= i < qs.len() && i < resolved.len() && (if write {
            qs[i].write
        } else {
            qs[i].read
        }) && #[trigger] opt_chars(resolved[i]) == Some(p)
}

/// Add `x` to an ascending list of strings, keeping it ascending and without
/// duplicates.
pub(crate) fn insert_text(v: &mut Vec<String>, x: String)
    requires
        strictly_ascending(old(v)@),
    ensures
        strictly_ascending(final(v)@),
        forall|y: Seq<char>| holds(final(v)@, y) <==> (holds(old(v)@, y) || y == x@),
{
    let mut i: usize = 0;
    while i < v.len() && text_less(v[i].as_str(), x.as_str())
        invariant
            i <= v.len(),
            v@ == old(v)@,
            strictly_ascending(v@),
            forall|k: int| 0 <= k < i ==> text_lt(#[trigger] v@[k]@, x@),
        decreases v.len() - i,
    {
        i = i + 1;
    }
    if i < v.len() && v[i] == x {
        proof {
            assert(v@[i as int]@ == x@);
        }
        return;
    }
    let ghost before = v@;
    proof {
        if i < v.len() {
            lemma_text_lt_total(v@[i as int]@, x@);
        }
    }
    v.insert(i, x);
    proof {
        assert(v@ == before.insert(i as int, x));
        assert forall|a: int, b: int| 0 <= a < b < v@.len() implies text_lt(#[trigger] v@[a]@, #[trigger] v@[b]@) by {
            if b < i {
            } else if a < i && b == i {
            } else if a < i {
                assert(text_lt(before[a]@, before[b - 1]@));
            } else if a == i {
                assert(text_lt(x@, before[i as int]@));
                if b - 1 > i {
                    lemma_text_lt_transitive(x@, before[i as int]@, before[b - 1]@);
                }
            } else {
                assert(text_lt(before[a - 1]@, before[b - 1]@));
            }
        }
        assert forall|y: Seq<char>| holds(v@, y) <==> (holds(before, y) || y == x@) by {
            if holds(v@, y) {
                let k = choose|k: int| 0 <= k < v@.len() && v@[k]@ == y;
                if k < i {
                    assert(before[k]@ == y);
                } else if k > i {
                    assert(before[k - 1]@ == y);
                }
            }
            if holds(before, y) {
                let k = choose|k: int| 0 <= k < before.len() && before[k]@ == y;
                if k < i {
                    assert(v@[k]@ == y);
                } else {
                    assert(v@[k + 1]@ == y);
                }
            }
            if y == x@ {
                assert(v@[i as int]@ == y);
            }
        }
        assert(before == old(v)@);
        assert(forall|y: Seq<char>| holds(v@, y) <==> (holds(old(v)@, y) || y == x@));
    }
}

/// Fold the resolution of each query into the read/write sets: the query at
/// index `i` resolved to `resolved[i]`, `Some` of a canonical project-symbol
/// path, or `None` for a local, a builtin or an unresolved name (none of which
/// is a dependency). Each set ascends, holds each path once, and holds exactly
/// the paths that a writing (or reading) query resolved to.
pub fn io_sets_from(queries: &Vec<Query>, resolved: &Vec<Option<String>>) -> (sets: IoSets)
    ensures
        strictly_ascending(sets.writes@),
        strictly_ascending(sets.reads@),
        forall|p: Seq<char>| holds(sets.writes@, p) <==> resolved_to(query_views(queries@), resolved@, p, true),
        forall|p: Seq<char>| holds(sets.reads@, p) <==> resolved_to(query_views(queries@), resolved@, p, false),
{
    let ghost qv = query_views(queries@);
    let mut writes: Vec<String> = Vec::new();
    let mut reads: Vec<String> = Vec::new();
    let mut i: usize = 0;
    while i < queries.len() && i < resolved.len()
        invariant
            i <= queries.len(),
            qv == query_views(queries@),
            strictly_ascending(writes@),
            strictly_ascending(reads@),
            forall|p: Seq<char>| holds(writes@, p) <==> resolved_to(qv.take(i as int), resolved@, p, true),
            forall|p: Seq<char>| holds(reads@, p) <==> resolved_to(qv.take(i as int), resolved@, p, false),
        decreases queries.len() - i,
    {
        let ghost w0 = writes@;
        let ghost r0 = reads@;
        let q = &queries[i];
        match &resolved[i] {
            Some(p) => {
                if q.write {
                    insert_text(&mut writes, p.clone());
                }
                if q.read {
                    insert_text(&mut reads, p.clone());
                }
            },
            None => {},
        }
        proof {
            assert(qv[i as int] == queries@[i as int]@);
            assert forall|p: Seq<char>| holds(writes@, p) <==> resolved_to(qv.take(i + 1), resolved@, p, true) by {
                if resolved_to(qv.take(i + 1), resolved@, p, true) {
                    let k = choose|k: int| 0 <= k < qv.take(i + 1).len() && k < resolved@.len()
                        && qv.take(i + 1)[k].write && #[trigger] opt_chars(resolved@[k]) == Some(p);
                    if k < i {
                        assert(qv.take(i as int)[k] == qv.take(i + 1)[k]);
                        assert(resolved_to(qv.take(i as int), resolved@, p, true));
                    }
                }
                if resolved_to(qv.take(i as int), resolved@, p, true) {
                    let k = choose|k: int| 0 <= k < qv.take(i as int).len() && k < resolved@.len()
                        && qv.take(i as int)[k].write && #[trigger] opt_chars(resolved@[k]) == Some(p);
                    assert(qv.take(i + 1)[k] == qv.take(i as int)[k]);
                }
                if opt_chars(resolved@[i as int]) == Some(p) && qv[i as int].write {
                    assert(qv.take(i + 1)[i as int] == qv[i as int]);
                }
            }
            assert forall|p: Seq<char>| holds(reads@, p) <==> resolved_to(qv.take(i + 1), resolved@, p, false) by {
                if resolved_to(qv.take(i + 1), resolved@, p, false) {
                    let k = choose|k: int| 0 <= k < qv.take(i + 1).len() && k < resolved@.len()
                        && qv.take(i + 1)[k].read && #[trigger] opt_chars(resolved@[k]) == Some(p);
                    if k < i {
                        assert(qv.take(i as int)[k] == qv.take(i + 1)[k]);
                        assert(resolved_to(qv.take(i as int), resolved@, p, false));
                    }
                }
                if resolved_to(qv.take(i as int), resolved@, p, false) {
                    let k = choose|k: int| 0 <= k < qv.take(i as int).len() && k < resolved@.len()
                        && qv.take(i as int)[k].read && #[trigger] opt_chars(resolved@[k]) == Some(p);
                    assert(qv.take(i + 1)[k] == qv.take(i as int)[k]);
                }
                if opt_chars(resolved@[i as int]) == Some(p) && qv[i as int].read {
                    assert(qv.take(i + 1)[i as int] == qv[i as int]);
                }
            }
        }
        i = i + 1;
    }
    proof {
        assert forall|p: Seq<char>| resolved_to(qv.take(i as int), resolved@, p, true) == resolved_to(qv, resolved@, p, true)
            && resolved_to(qv.take(i as int), resolved@, p, false) == resolved_to(qv, resolved@, p, false) by {
            if resolved_to(qv, resolved@, p, true) {
                let k = choose|k: int| 0 <= k < qv.len() && k < resolved@.len()
                    && qv[k].write && #[trigger] opt_chars(resolved@[k]) == Some(p);
                assert(qv.take(i as int)[k] == qv[k]);
            }
            if resolved_to(qv, resolved@, p, false) {
                let k = choose|k: int| 0 <= k < qv.len() && k < resolved@.len()
                    && qv[k].read && #[trigger] opt_chars(resolved@[k]) == Some(p);
                assert(qv.take(i as int)[k] == qv[k]);
            }
            if resolved_to(qv.take(i as int), resolved@, p, true) {
                let k = choose|k: int| 0 <= k < qv.take(i as int).len() && k < resolved@.len()
                    && qv.take(i as int)[k].write && #[trigger] opt_chars(resolved@[k]) == Some(p);
                assert(qv.take(i as int)[k] == qv[k]);
            }
            if resolved_to(qv.take(i as int), resolved@, p, false) {
                let k = choose|k: int| 0 <= k < qv.take(i as int).len() && k < resolved@.len()
                    && qv.take(i as int)[k].read && #[trigger] opt_chars(resolved@[k]) == Some(p);
                assert(qv.take(i as int)[k] == qv[k]);
            }
        }
    }
    IoSets { writes, reads }
}

// ---------------------------------------------------------------------------
// Where written names come from
// ---------------------------------------------------------------------------

/// Whether `a` is `root` or a node below it, reached through child lists.
pub open spec fn in_tree(a: CstNode, root: CstNode) -> bool
    decreases root, root.children@.len() + 1,
{
    a == root || in_children(a, root, root.children@.len())
}

/// Whether `a` is in the tree of one of the first `n` children of `root`.
pub open spec fn in_children(a: CstNode, root: CstNode, n: nat) -> bool
    decreases root, n,
{
    if n == 0 || n > root.children@.len() {
        false
    } else {
        in_children(a, root, (n - 1) as nat) || in_tree(a, root.children@[n - 1])
    }
}

/// Whether `a` is an assignment statement whose target resolves as the path `p`.
pub open spec fn assigns_to(a: CstNode, group: Option<Seq<char>>, p: Seq<char>) -> bool {
    a.kind == CstKind::AssignmentStatement && match a.target {
        Some(t) => reference_path(*t, group) == Some(p),
        None => false,
    }
}

proof fn lemma_reads_never_write(node: CstNode, group: Option<Seq<char>>, locals: Seq<Seq<char>>)
    ensures
        forall|k: int| 0 <= k < reads_of(node, group, locals).len() ==> !(#[trigger] reads_of(node, group, locals)[k]).write,
    decreases node, node.children@.len() + 1,
{
    let qs = reads_of(node, group, locals);
    if node.kind == CstKind::Identifier || node.kind == CstKind::MemberExpression {
        assert(qs == read_query(node, group, locals));
    } else if node.kind == CstKind::CallExpression {
        match node.arguments {
            Some(a) => {
                lemma_reads_never_write(*a, group, locals);
                assert(qs == reads_of(*a, group, locals));
            },
            None => {
                assert(qs.len() == 0);
            },
        }
    } else {
        lemma_reads_children_never_write(node, group, locals, node.children@.len());
        assert(qs == reads_of_children(node, group, locals, node.children@.len()));
    }
}

proof fn lemma_reads_children_never_write(node: CstNode, group: Option<Seq<char>>, locals: Seq<Seq<char>>, n: nat)
    ensures
        forall|k: int|
            0 <= k < reads_of_children(node, group, locals, n).len() ==> !(#[trigger] reads_of_children(
                node,
                group,
                locals,
                n,
            )[k]).write,
    decreases node, n,
{
    if n > 0 && n <= node.children@.len() {
        lemma_reads_children_never_write(node, group, locals, (n - 1) as nat);
        assert(decreases_to!(node => node.children));
        assert(decreases_to!(node.children => node.children@));
        assert(decreases_to!(node.children@ => node.children@[n - 1]));
        lemma_reads_never_write(node.children@[n - 1], group, locals);
        let q1 = reads_of_children(node, group, locals, (n - 1) as nat);
        let q2 = reads_of(node.children@[n - 1], group, locals);
        let qs = reads_of_children(node, group, locals, n);
        assert(qs == q1 + q2);
        assert forall|k: int| 0 <= k < qs.len() implies !(#[trigger] qs[k]).write by {
            if k < q1.len() {
                assert(qs[k] == q1[k]);
            } else {
                assert(qs[k] == q2[k - q1.len()]);
            }
        }
    }
}

proof fn lemma_walk_writes(node: CstNode, group: Option<Seq<char>>, locals: Seq<Seq<char>>)
    ensures
        forall|k: int|
            0 <= k < walk_of(node, group, locals).0.len() && (#[trigger] walk_of(node, group, locals).0[k]).write
                ==> exists|a: CstNode| in_tree(a, node) && assigns_to(a, group, walk_of(node, group, locals).0[k].path),
    decreases node, node.children@.len() + 1,
{
    let qs = walk_of(node, group, locals).0;
    if node.kind == CstKind::LocalDeclaration {
        let after = match node.name {
            Some(nm) => declare(locals, nm.text@),
            None => locals,
        };
        match node.value {
            Some(v) => {
                lemma_reads_never_write(*v, group, after);
                assert(qs == reads_of(*v, group, after));
            },
            None => {
                assert(qs.len() == 0);
            },
        }
    } else if node.kind == CstKind::AssignmentStatement {
        let w = write_query(node.target, node.compound, group, locals);
        let r = match node.value {
            Some(v) => reads_of(*v, group, locals),
            None => Seq::empty(),
        };
        match node.value {
            Some(v) => lemma_reads_never_write(*v, group, locals),
            None => {},
        }
        assert(qs == w + r);
        assert forall|k: int| 0 <= k < qs.len() && (#[trigger] qs[k]).write implies exists|a: CstNode|
            in_tree(a, node) && assigns_to(a, group, qs[k].path) by {
            if k < w.len() {
                assert(in_tree(node, node));
                assert(assigns_to(node, group, qs[k].path));
            } else {
                assert(qs[k] == r[k - w.len()]);
            }
        }
    } else {
        lemma_walk_children_writes(node, group, locals, node.children@.len());
        assert(qs == walk_of_children(node, group, locals, node.children@.len()).0);
        assert forall|k: int| 0 <= k < qs.len() && (#[trigger] qs[k]).write implies exists|a: CstNode|
            in_tree(a, node) && assigns_to(a, group, qs[k].path) by {
            let a = choose|a: CstNode| in_children(a, node, node.children@.len()) && assigns_to(a, group, qs[k].path);
            assert(in_tree(a, node));
        }
    }
}

proof fn lemma_walk_children_writes(node: CstNode, group: Option<Seq<char>>, locals: Seq<Seq<char>>, n: nat)
    requires
        n <= node.children@.len(),
    ensures
        forall|k: int|
            0 <= k < walk_of_children(node, group, locals, n).0.len() && (#[trigger] walk_of_children(
                node,
                group,
                locals,
                n,
            ).0[k]).write ==> exists|a: CstNode|
                in_children(a, node, n) && assigns_to(a, group, walk_of_children(node, group, locals, n).0[k].path),
    decreases node, n,
{
    if n > 0 {
        let (q1, l1) = walk_of_children(node, group, locals, (n - 1) as nat);
        let c = node.children@[n - 1];
        let (q2, l2) = walk_of(c, group, l1);
        lemma_walk_children_writes(node, group, locals, (n - 1) as nat);
        assert(decreases_to!(node => node.children));
        assert(decreases_to!(node.children => node.children@));
        assert(decreases_to!(node.children@ => node.children@[n - 1]));
        lemma_walk_writes(c, group, l1);
        let qs = walk_of_children(node, group, locals, n).0;
        assert(qs == q1 + q2);
        assert forall|k: int| 0 <= k < qs.len() && (#[trigger] qs[k]).write implies exists|a: CstNode|
            in_children(a, node, n) && assigns_to(a, group, qs[k].path) by {
            if k < q1.len() {
                assert(qs[k] == q1[k]);
                let a = choose|a: CstNode| in_children(a, node, (n - 1) as nat) && assigns_to(a, group, q1[k].path);
                assert(in_children(a, node, n));
            } else {
                assert(qs[k] == q2[k - q1.len()]);
                let a = choose|a: CstNode| in_tree(a, c) && assigns_to(a, group, q2[k - q1.len()].path);
                assert(in_children(a, node, n));
            }
        }
    }
}

/// Every path in a script's write set is what the target of some assignment
/// statement of the script resolved to: given the queries the walk lists for
/// the script (`resolution_queries`) and their resolutions, a path that some
/// writing query resolved to (exactly the write set, by `io_sets_from`) is the
/// resolution of an assignment target's path.
pub proof fn lemma_written_paths_are_assignment_targets(
    root: CstNode,
    group: Option<Seq<char>>,
    resolved: Seq<Option<String>>,
    p: Seq<char>,
)
    requires
        resolved_to(walk_of(root, group, Seq::empty()).0, resolved, p, true),
    ensures
        exists|i: int, a: CstNode|
            0 <= i < walk_of(root, group, Seq::empty()).0.len() && i < resolved.len() && opt_chars(resolved[i])
                == Some(p) && in_tree(a, root) && assigns_to(a, group, walk_of(root, group, Seq::empty()).0[i].path),
{
    let qs = walk_of(root, group, Seq::empty()).0;
    let i = choose|i: int| 0 <= i < qs.len() && i < resolved.len() && qs[i].write && #[trigger] opt_chars(resolved[i]) == Some(p);
    lemma_walk_writes(root, group, Seq::empty());
    assert(qs[i].write);
    let a = choose|a: CstNode| in_tree(a, root) && assigns_to(a, group, qs[i].path);
}

/// Whether `a` is `root` or a node reached from it through the child lists of
/// nodes that are not themselves declarations or assignments: a statement (or
/// a part of one) at any depth of nested blocks, conditionals and loops.
pub open spec fn in_statement_tree(a: CstNode, root: CstNode) -> bool
    decreases root, root.children@.len() + 1,
{
    a == root || (root.kind != CstKind::LocalDeclaration && root.kind != CstKind::AssignmentStatement
        && in_statement_children(a, root, root.children@.len()))
}

/// Whether `a` is in the statement tree of one of the first `n` children of
/// `root`.
pub open spec fn in_statement_children(a: CstNode, root: CstNode, n: nat) -> bool
    decreases root, n,
{
    if n == 0 || n > root.children@.len() {
        false
    } else {
        in_statement_children(a, root, (n - 1) as nat) || in_statement_tree(a, root.children@[n - 1])
    }
}

proof fn lemma_walk_finds_assignment(
    node: CstNode,
    group: Option<Seq<char>>,
    locals: Seq<Seq<char>>,
    a: CstNode,
    p: Seq<char>,
)
    requires
        in_statement_tree(a, node),
        assigns_to(a, group, p),
    ensures
        exists|k: int|
            0 <= k < walk_of(node, group, locals).0.len() && (#[trigger] walk_of(node, group, locals).0[k]).write
                && walk_of(node, group, locals).0[k].path == p,
    decreases node, node.children@.len() + 1,
{
    let qs = walk_of(node, group, locals).0;
    if a == node {
        let w = write_query(node.target, node.compound, group, locals);
        let r = match node.value {
            Some(v) => reads_of(*v, group, locals),
            None => Seq::empty(),
        };
        assert(qs == w + r);
        assert(qs[0] == w[0]);
        assert(qs[0].write && qs[0].path == p);
    } else {
        lemma_walk_children_find_assignment(node, group, locals, node.children@.len(), a, p);
        assert(qs == walk_of_children(node, group, locals, node.children@.len()).0);
    }
}

proof fn lemma_walk_children_find_assignment(
    node: CstNode,
    group: Option<Seq<char>>,
    locals: Seq<Seq<char>>,
    n: nat,
    a: CstNode,
    p: Seq<char>,
)
    requires
        in_statement_children(a, node, n),
        assigns_to(a, group, p),
    ensures
        exists|k: int|
            0 <= k < walk_of_children(node, group, locals, n).0.len() && (#[trigger] walk_of_children(
                node,
                group,
                locals,
                n,
            ).0[k]).write && walk_of_children(node, group, locals, n).0[k].path == p,
    decreases node, n,
{
    let (q1, l1) = walk_of_children(node, group, locals, (n - 1) as nat);
    let c = node.children@[n - 1];
    let (q2, l2) = walk_of(c, group, l1);
    let qs = walk_of_children(node, group, locals, n).0;
    assert(qs == q1 + q2);
    if in_statement_children(a, node, (n - 1) as nat) {
        lemma_walk_children_find_assignment(node, group, locals, (n - 1) as nat, a, p);
        let k = choose|k: int| 0 <= k < q1.len() && (#[trigger] q1[k]).write && q1[k].path == p;
        assert(qs[k] == q1[k]);
    } else {
        assert(decreases_to!(node => node.children));
        assert(decreases_to!(node.children => node.children@));
        assert(decreases_to!(node.children@ => node.children@[n - 1]));
        lemma_walk_finds_assignment(c, group, l1, a, p);
        let k = choose|k: int| 0 <= k < q2.len() && (#[trigger] q2[k]).write && q2[k].path == p;
        assert(qs[k + q1.len()] == q2[k]);
    }
}

/// Every assignment statement of a script, at any depth of nested blocks,
/// conditionals and loops, whose target resolves as the path `p`, gives the
/// walk a write query for `p` (in whatever locals are in scope then).
pub proof fn lemma_every_assignment_is_written(
    root: CstNode,
    group: Option<Seq<char>>,
    a: CstNode,
    p: Seq<char>,
)
    requires
        in_statement_tree(a, root),
        assigns_to(a, group, p),
    ensures
        exists|k: int|
            0 <= k < walk_of(root, group, Seq::empty()).0.len() && (#[trigger] walk_of(
                root,
                group,
                Seq::empty(),
            ).0[k]).write && walk_of(root, group, Seq::empty()).0[k].path == p,
{
    lemma_walk_finds_assignment(root, group, Seq::empty(), a, p);
}

} // verus!
