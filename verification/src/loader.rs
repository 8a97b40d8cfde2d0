//! Builds a [`GraphModel`] from a project's symbol table.
//!
//! What the structural graph derives from the symbols:
//!
//! - **Nodes** from every channel / parameter / constant / table / function /
//!   group symbol, plus a group node for every ancestor implied by a dotted path
//!   that is not declared itself, plus one clock node per distinct rate.
//! - **Hierarchy edges** from dotted-path containment (parent to child).
//! - **TableAxis edges** from a table to every node nested under its path.
//! - **Schedule edges** from the clock of a rate to every node with that rate.
//! - **DataFlow edges** from each symbol a function reads to the function, and
//!   from the function to each symbol it writes.
//!
//! Nodes come out ordered by id (a stable order: nodes sharing an id keep the
//! order they were produced in), and edges ordered by (kind tag, from, to)
//! without duplicates, so every renderer's output is deterministic.
use vstd::prelude::*;

use crate::dataflow::IoSets;
use crate::model::{
    edge_tag, edge_views, node_views, EdgeKind, EdgeView, GraphEdge, GraphModel, GraphNode,
    NodeKind, NodeView,
};
use crate::text::{
    chars_of, last_index_of, lemma_last_index_of, lemma_text_lt_asymmetric,
    lemma_text_lt_irreflexive, lemma_text_lt_total, lemma_text_lt_transitive, parent_of,
    rfind_char, text_less, text_lt,
};

verus! {

// ---------------------------------------------------------------------------
// The symbol table
// ---------------------------------------------------------------------------

/// The kind of a project symbol.
#[derive(Debug, Clone, Copy, PartialEq, Eq, Structural)]
pub enum SymbolKind {
    Channel,
    Parameter,
    Constant,
    Function,
    Method,
    Table,
    Group,
    Reference,
    Object,
    Other,
}

/// The resolved value type of a project symbol.
#[derive(Debug, Clone, Copy, PartialEq, Eq, Structural)]
pub enum ValueType {
    Boolean,
    Integer,
    Unsigned,
    Float,
    Enum,
    String,
    Unknown,
}

/// One entry of a project's symbol table, as the graph reads it.
#[derive(Debug, Clone, PartialEq)]
pub struct Symbol {
    /// The canonical dotted path.
    pub path: String,
    /// What the symbol is.
    pub kind: SymbolKind,
    /// The declared storage type, verbatim, when present.
    pub declared_type: Option<String>,
    /// The resolved value type.
    pub value_type: ValueType,
    /// The display unit, when present.
    pub display_unit: Option<String>,
    /// The engineering unit, when present.
    pub unit: Option<String>,
    /// The call (trigger) rate in Hz, as decimal text, when known.
    pub call_rate_hz: Option<String>,
    /// The logging rate in Hz, as decimal text, when known.
    pub log_rate_hz: Option<String>,
    /// For tables with configured shape: the number of input axes.
    pub table_axes: Option<usize>,
}

/// The node kind a symbol kind surfaces as, if any. References, opaque
/// objects and `Other` are not surfaced as nodes.
pub open spec fn node_kind_of(kind: SymbolKind) -> Option<NodeKind> {
    match kind {
        SymbolKind::Channel => Some(NodeKind::Channel),
        SymbolKind::Parameter => Some(NodeKind::Parameter),
        SymbolKind::Constant => Some(NodeKind::Constant),
        SymbolKind::Table => Some(NodeKind::Table),
        SymbolKind::Function => Some(NodeKind::Function),
        SymbolKind::Method => Some(NodeKind::Function),
        SymbolKind::Group => Some(NodeKind::Group),
        SymbolKind::Object => None,
        SymbolKind::Reference => None,
        SymbolKind::Other => None,
    }
}

/// Map a symbol kind to a [`NodeKind`].
pub fn node_kind(kind: SymbolKind) -> (r: Option<NodeKind>)
    ensures
        r == node_kind_of(kind),
{
    match kind {
        SymbolKind::Channel => Some(NodeKind::Channel),
        SymbolKind::Parameter => Some(NodeKind::Parameter),
        SymbolKind::Constant => Some(NodeKind::Constant),
        SymbolKind::Table => Some(NodeKind::Table),
        SymbolKind::Function | SymbolKind::Method => Some(NodeKind::Function),
        SymbolKind::Group => Some(NodeKind::Group),
        SymbolKind::Object | SymbolKind::Reference | SymbolKind::Other => None,
    }
}

/// The short label of a value type.
pub open spec fn value_type_text(vt: ValueType) -> Seq<char> {
    match vt {
        ValueType::Boolean => "bool"@,
        ValueType::Integer => "integer"@,
        ValueType::Unsigned => "unsigned"@,
        ValueType::Float => "float"@,
        ValueType::Enum => "enum"@,
        ValueType::String => "string"@,
        ValueType::Unknown => "unknown"@,
    }
}

/// Render a value type as a short label.
pub fn value_type_label(vt: ValueType) -> (r: &'static str)
    ensures
        r@ == value_type_text(vt),
{
    match vt {
        ValueType::Boolean => "bool",
        ValueType::Integer => "integer",
        ValueType::Unsigned => "unsigned",
        ValueType::Float => "float",
        ValueType::Enum => "enum",
        ValueType::String => "string",
        ValueType::Unknown => "unknown",
    }
}

/// The first of two optional texts that is present.
pub open spec fn either(a: Option<String>, b: Option<String>) -> Option<Seq<char>> {
    match a {
        Some(x) => Some(x@),
        None => match b {
            Some(y) => Some(y@),
            None => None,
        },
    }
}

/// The type label of a symbol: its declared type verbatim when present, else
/// the label of its value type.
pub open spec fn type_text(sym: Symbol) -> Seq<char> {
    match sym.declared_type {
        Some(t) => t@,
        None => value_type_text(sym.value_type),
    }
}

/// Human-readable type label for a symbol.
pub fn type_label(sym: &Symbol) -> (r: String)
    ensures
        r@ == type_text(*sym),
{
    match &sym.declared_type {
        Some(t) => t.clone(),
        None => crate::text::owned(value_type_label(sym.value_type)),
    }
}

/// The node a symbol surfaces as, with its metadata: unit (display unit first),
/// type label, rate (call rate first), table dimensionality and parent path.
pub open spec fn symbol_node(sym: Symbol, kind: NodeKind) -> NodeView {
    NodeView {
        id: sym.path@,
        path: sym.path@,
        kind,
        rate_hz: either(sym.call_rate_hz, sym.log_rate_hz),
        unit: either(sym.display_unit, sym.unit),
        type_label: Some(type_text(sym)),
        table_dims: sym.table_axes,
        parent: parent_of(sym.path@),
    }
}

/// The nodes the symbols surface as, in symbol order.
pub open spec fn symbol_nodes(syms: Seq<Symbol>) -> Seq<NodeView>
    decreases syms.len(),
{
    if syms.len() == 0 {
        Seq::empty()
    } else {
        match node_kind_of(syms.last().kind) {
            Some(k) => symbol_nodes(syms.drop_last()).push(symbol_node(syms.last(), k)),
            None => symbol_nodes(syms.drop_last()),
        }
    }
}

// ---------------------------------------------------------------------------
// Paths
// ---------------------------------------------------------------------------

/// The parent (containing) path of a dotted path: everything before the final
/// `.` segment. `None` when the path has no dot (a top-level node).
pub fn parent_path(path: &str) -> (r: Option<&str>)
    ensures
        match r {
            Some(p) => parent_of(path@) == Some(p@),
            None => parent_of(path@) is None,
        },
{
    let cs = chars_of(path);
    proof {
        lemma_last_index_of(cs@, '.');
    }
    match rfind_char(&cs, '.') {
        Some(i) => {
            let p = path.substring_char(0, i);
            proof {
                assert(p@ == path@.take(i as int));
            }
            Some(p)
        },
        None => None,
    }
}

/// Whether `a` is a proper dotted ancestor of `path`: reached from `path` by
/// repeatedly taking the parent.
pub open spec fn is_ancestor(a: Seq<char>, path: Seq<char>) -> bool
    decreases path.len(),
{
    if last_index_of(path, '.') < 0 {
        false
    } else {
        proof {
            lemma_last_index_of(path, '.');
        }
        let p = path.take(last_index_of(path, '.'));
        p == a || is_ancestor(a, p)
    }
}

/// Whether some node of `ns` has id `id`.
pub open spec fn has_id(ns: Seq<NodeView>, id: Seq<char>) -> bool {
    exists|i: int| 0 <= i < ns.len() && ns[i].id == id
}

/// The ids of the structural nodes: every symbol node id and every ancestor of
/// one.
pub open spec fn structural_id(syms: Seq<Symbol>, id: Seq<char>) -> bool {
    has_id(symbol_nodes(syms), id) || exists|i: int|
        0 <= i < symbol_nodes(syms).len() && is_ancestor(id, #[trigger] symbol_nodes(syms)[i].id)
}

/// Whether `id` is an ancestor group that no symbol declares and that is
/// therefore synthesized.
pub open spec fn synthesized(syms: Seq<Symbol>, id: Seq<char>) -> bool {
    structural_id(syms, id) && !has_id(symbol_nodes(syms), id)
}

/// The synthesized group node for an undeclared ancestor path.
pub open spec fn group_node(path: Seq<char>) -> NodeView {
    NodeView {
        id: path,
        path,
        kind: NodeKind::Group,
        rate_hz: None,
        unit: None,
        type_label: None,
        table_dims: None,
        parent: parent_of(path),
    }
}


// ---------------------------------------------------------------------------
// Clocks
// ---------------------------------------------------------------------------

/// Whether `c` is a decimal digit.
pub open spec fn is_digit(c: char) -> bool {
    48 <= (c as u32) <= 57
}

/// `r` without a leading `-`.
pub open spec fn unsigned_part(r: Seq<char>) -> Seq<char> {
    if r.len() > 0 && r[0] == '-' {
        r.drop_first()
    } else {
        r
    }
}

/// Whether every character of `d` is a decimal digit.
pub open spec fn all_digits(d: Seq<char>) -> bool {
    forall|i: int| 0 <= i < d.len() ==> is_digit(#[trigger] d[i])
}

/// Whether `r` is an optional `-` followed by one or more decimal digits.
pub open spec fn is_integer_text(r: Seq<char>) -> bool {
    unsigned_part(r).len() > 0 && all_digits(unsigned_part(r))
}

/// The number a string of decimal digits writes.
pub open spec fn digits_value(d: Seq<char>) -> nat
    decreases d.len(),
{
    if d.len() == 0 {
        0
    } else {
        10 * digits_value(d.drop_last()) + ((d.last() as u32) - 48) as nat
    }
}

/// The spacing of the `f64` values around a whole number `v`: 1 below 2^53,
/// doubling with each further binary digit of `v`.
pub open spec fn f64_spacing(v: nat) -> nat
    decreases v,
{
    if v < 9007199254740992 {
        1
    } else {
        2 * f64_spacing(v / 2)
    }
}

/// The whole number `v` rounded to the nearest `f64` (ties to an even last
/// significant bit): the value an `f64` written as `v` holds.
pub open spec fn nearest_f64(v: nat) -> nat {
    let p = f64_spacing(v);
    let q = v / p;
    let rem = v % p;
    if p == 1 {
        v
    } else if rem > p / 2 || (rem == p / 2 && q % 2 == 1) {
        (q + 1) * p
    } else {
        q * p
    }
}

/// The decimal digit of `d < 10`.
pub open spec fn digit_char(d: nat) -> char {
    if d == 0 { '0' } else if d == 1 { '1' } else if d == 2 { '2' } else if d == 3 { '3' }
    else if d == 4 { '4' } else if d == 5 { '5' } else if d == 6 { '6' } else if d == 7 { '7' }
    else if d == 8 { '8' } else { '9' }
}

/// The decimal text of `n`, without leading zeros.
pub open spec fn decimal(n: nat) -> Seq<char>
    decreases n,
{
    if n < 10 {
        seq![digit_char(n)]
    } else {
        decimal(n / 10).push(digit_char(n % 10))
    }
}

/// The text a whole-number rate (an optional `-` and digits) gives in a clock
/// id: the `i64` that the `f64` it writes converts to, saturating at the
/// `i64` range (so `-0` gives `0`).
pub open spec fn whole_rate_text(r: Seq<char>) -> Seq<char> {
    let neg = r.len() > 0 && r[0] == '-';
    let v = digits_value(unsigned_part(r));
    let w = nearest_f64(v);
    let saturated = v >= 18446744073709551616 || w >= 9223372036854775808;
    if neg {
        if saturated {
            "-9223372036854775808"@
        } else if w == 0 {
            "0"@
        } else {
            "-"@ + decimal(w)
        }
    } else if saturated {
        "9223372036854775807"@
    } else {
        decimal(w)
    }
}

/// The rate text a clock id uses: the rate's decimal text, except that a whole
/// number is written as the `i64` it converts to.
pub open spec fn clock_rate_text(r: Seq<char>) -> Seq<char> {
    if is_integer_text(r) {
        whole_rate_text(r)
    } else {
        r
    }
}

/// The id of the clock node of a rate.
pub open spec fn clock_id(r: Seq<char>) -> Seq<char> {
    "Clock@"@ + clock_rate_text(r) + "Hz"@
}

/// The decimal digit character of `d < 10`.
fn digit_of(d: u128) -> (c: char)
    requires
        d < 10,
    ensures
        c == digit_char(d as nat),
{
    if d == 0 { '0' } else if d == 1 { '1' } else if d == 2 { '2' } else if d == 3 { '3' }
    else if d == 4 { '4' } else if d == 5 { '5' } else if d == 6 { '6' } else if d == 7 { '7' }
    else if d == 8 { '8' } else { '9' }
}

/// Appends the decimal text of `n`.
fn push_decimal(out: &mut String, n: u128)
    ensures
        final(out)@ == old(out)@ + decimal(n as nat),
    decreases n,
{
    if n >= 10 {
        push_decimal(out, n / 10);
    }
    let c = digit_of(n % 10);
    out.push(c);
    proof {
        if n >= 10 {
            assert(decimal(n as nat) == decimal((n / 10) as nat).push(digit_char((n % 10) as nat)));
        } else {
            assert(decimal(n as nat) == seq![digit_char(n as nat)]);
        }
        assert(final(out)@ =~= old(out)@ + decimal(n as nat));
    }
}

/// The nearest `f64` to a whole number below 2^64, as the spec rounds it.
fn round_to_f64(v: u128) -> (w: u128)
    requires
        v < 18446744073709551616,
    ensures
        w == nearest_f64(v as nat),
{
    let mut t: u128 = v;
    let mut p: u128 = 1;
    while t >= 9007199254740992
        invariant
            p >= 1,
            p * t <= v,
            t == v / p,
            f64_spacing(v as nat) == p * f64_spacing(t as nat),
            v < 18446744073709551616,
        decreases t,
    {
        let ghost old_p = p;
        let ghost old_t = t;
        proof {
            vstd::arithmetic::div_mod::lemma_div_denominator(v as int, p as int, 2);
            assert(p <= v) by (nonlinear_arith)
                requires
                    p * t <= v,
                    t >= 1,
            ;
            assert((2 * p) * (t / 2) <= p * t) by (nonlinear_arith)
                requires
                    p >= 1,
            ;
            assert(f64_spacing(t as nat) == 2 * f64_spacing((t / 2) as nat));
            assert(p * (2 * f64_spacing((t / 2) as nat)) == (2 * p) * f64_spacing((t / 2) as nat))
                by (nonlinear_arith);
        }
        t = t / 2;
        p = p * 2;
    }
    proof {
        let st = f64_spacing(t as nat);
        assert(st == 1);
        assert(p * st == p) by (nonlinear_arith)
            requires
                st == 1,
        ;
        assert(f64_spacing(v as nat) == p);
    }
    if p == 1 {
        return v;
    }
    let q = v / p;
    let rem = v % p;
    proof {
        vstd::arithmetic::div_mod::lemma_fundamental_div_mod(v as int, p as int);
        assert((q + 1) * p == q * p + p) by (nonlinear_arith);
        assert(q * p == p * q) by (nonlinear_arith);
    }
    if rem > p / 2 || (rem == p / 2 && q % 2 == 1) {
        (q + 1) * p
    } else {
        q * p
    }
}

/// Format a rate for a clock-node id: a whole number is written as the `i64`
/// it converts to (no trailing `.0`); any other rate text is kept.
pub fn format_rate(rate: &str) -> (r: String)
    ensures
        r@ == clock_rate_text(rate@),
{
    let cs = chars_of(rate);
    let neg = cs.len() > 0 && cs[0] == '-';
    let start: usize = if neg { 1 } else { 0 };
    let ghost d = if neg { rate@.drop_first() } else { rate@ };
    proof {
        assert(cs@ == rate@);
        assert(d == unsigned_part(rate@));
        assert(d == cs@.subrange(start as int, cs@.len() as int));
    }
    if start >= cs.len() {
        return crate::text::owned(rate);
    }
    let mut i: usize = start;
    let mut v: u128 = 0;
    while i < cs.len()
        invariant
            start <= i <= cs.len(),
            d == cs@.subrange(start as int, cs@.len() as int),
            d == unsigned_part(rate@),
            forall|k: int| 0 <= k < i - start ==> is_digit(#[trigger] d[k]),
            v == (if digits_value(d.take(i - start)) < 18446744073709551616 {
                digits_value(d.take(i - start))
            } else {
                18446744073709551616nat
            }),
        decreases cs.len() - i,
    {
        let c = cs[i] as u32;
        if c < 48 || c > 57 {
            proof {
                assert(0 <= i - start < d.len());
                assert(cs@[i as int] == d[i - start]);
                assert(!is_digit(d[i - start]));
                assert(!all_digits(d));
                assert(!is_integer_text(rate@));
            }
            return crate::text::owned(rate);
        }
        let ghost before = digits_value(d.take(i - start));
        proof {
            assert(d.take(i - start + 1).drop_last() == d.take(i - start));
            assert(d.take(i - start + 1).last() == d[i - start]);
            assert(digits_value(d.take(i - start + 1)) == 10 * before + (c - 48));
        }
        let next = v * 10 + (c - 48) as u128;
        v = if next < 18446744073709551616 { next } else { 18446744073709551616 };
        i = i + 1;
    }
    proof {
        assert(d.take(d.len() as int) == d);
        assert(is_integer_text(rate@));
    }
    let big = v >= 18446744073709551616;
    let w: u128 = if big { 0 } else { round_to_f64(v) };
    let saturated = big || w >= 9223372036854775808;
    let mut out = String::new();
    if neg {
        if saturated {
            out.append("-9223372036854775808");
        } else if w == 0 {
            out.push('0');
        } else {
            out.push('-');
            push_decimal(&mut out, w);
        }
    } else if saturated {
        out.append("9223372036854775807");
    } else {
        push_decimal(&mut out, w);
    }
    proof {
        reveal_strlit("-9223372036854775808");
        reveal_strlit("9223372036854775807");
        reveal_strlit("0");
        reveal_strlit("-");
        assert(out@ =~= clock_rate_text(rate@));
    }
    out
}

/// The rate of the first node of `ns` (in order) whose clock is `c`.
pub open spec fn first_rate(ns: Seq<NodeView>, c: Seq<char>) -> Option<Seq<char>>
    decreases ns.len(),
{
    if ns.len() == 0 {
        None
    } else {
        match first_rate(ns.drop_last(), c) {
            Some(r) => Some(r),
            None => match ns.last().rate_hz {
                Some(r) => if clock_id(r) == c {
                    Some(r)
                } else {
                    None
                },
                None => None,
            },
        }
    }
}

/// The clock node of the rate `r`, with id `c`.
pub open spec fn clock_node(c: Seq<char>, r: Seq<char>) -> NodeView {
    NodeView {
        id: c,
        path: c,
        kind: NodeKind::Group,
        rate_hz: Some(r),
        unit: None,
        type_label: None,
        table_dims: None,
        parent: None,
    }
}

// ---------------------------------------------------------------------------
// Scripts
// ---------------------------------------------------------------------------

/// Whether the names of `s` never decrease.
pub open spec fn names_nondecreasing(s: Seq<(String, String)>) -> bool {
    forall|i: int, j: int| #![trigger s[i], s[j]] 0 <= i < j < s.len() ==> !text_lt(s[j].0@, s[i].0@)
}

/// Whether a pair is named `n`.
pub open spec fn name_is(n: Seq<char>) -> spec_fn((String, String)) -> bool {
    |x: (String, String)| x.0@ == n
}

/// The pairs of `s` named `n`, in order.
pub open spec fn named(s: Seq<(String, String)>, n: Seq<char>) -> Seq<(String, String)> {
    s.filter(name_is(n))
}

/// Sort discovered `(name, source)` script pairs by name, keeping pairs that
/// share a name in the order they came: the result's names never decrease,
/// and for every name it holds exactly the pairs of that name, in their order.
pub fn sort_scripts(pairs: Vec<(String, String)>) -> (sorted: Vec<(String, String)>)
    ensures
        names_nondecreasing(sorted@),
        forall|n: Seq<char>| #[trigger] named(sorted@, n) == named(pairs@, n),
        sorted@.len() == pairs@.len(),
{
    broadcast use vstd::seq_lib::group_filter_ensures;

    let ghost orig = pairs@;
    let mut rest = pairs;
    let mut out: Vec<(String, String)> = Vec::new();
    proof {
        assert(orig.skip(orig.len() as int) =~= Seq::<(String, String)>::empty());
        assert forall|n: Seq<char>| #[trigger] named(out@, n) == named(orig.skip(orig.len() as int), n) by {
            assert(out@ =~= Seq::<(String, String)>::empty());
        }
    }
    while rest.len() > 0
        invariant
            rest@ == orig.take(rest@.len() as int),
            rest@.len() <= orig.len(),
            names_nondecreasing(out@),
            forall|n: Seq<char>| #[trigger] named(out@, n) == named(orig.skip(rest@.len() as int), n),
            out@.len() + rest@.len() == orig.len(),
        decreases rest@.len(),
    {
        let ghost k = rest@.len() as int;
        let x = rest.pop().unwrap();
        proof {
            assert(x == orig[k - 1]);
            assert(rest@ == orig.take(k - 1));
        }
        let mut pos: usize = 0;
        while pos < out.len() && text_less(out[pos].0.as_str(), x.0.as_str())
            invariant
                pos <= out@.len(),
                forall|j: int| 0 <= j < pos ==> text_lt(#[trigger] out@[j].0@, x.0@),
            decreases out@.len() - pos,
        {
            pos = pos + 1;
        }
        let ghost r = out@;
        proof {
            assert forall|j: int| pos <= j < r.len() implies !text_lt(#[trigger] r[j].0@, x.0@) by {
                if pos < r.len() {
                    assert(!text_lt(r[pos as int].0@, x.0@));
                    if j > pos {
                        assert(!text_lt(r[j].0@, r[pos as int].0@));
                        lemma_text_lt_total(r[pos as int].0@, x.0@);
                        if text_lt(r[j].0@, x.0@) && text_lt(x.0@, r[pos as int].0@) {
                            lemma_text_lt_transitive(r[j].0@, x.0@, r[pos as int].0@);
                        }
                    }
                }
            }
        }
        out.insert(pos, x);
        proof {
            let o = out@;
            assert(o == r.insert(pos as int, x));
            assert forall|i: int, j: int| #![trigger o[i], o[j]] 0 <= i < j < o.len() implies !text_lt(o[j].0@, o[i].0@) by {
                if j < pos {
                    assert(o[i] == r[i] && o[j] == r[j]);
                } else if j == pos {
                    assert(o[i] == r[i] && o[j] == x);
                    lemma_text_lt_asymmetric(r[i].0@, x.0@);
                } else if i < pos {
                    assert(o[i] == r[i] && o[j] == r[j - 1]);
                } else if i == pos {
                    assert(o[i] == x && o[j] == r[j - 1]);
                } else {
                    assert(o[i] == r[i - 1] && o[j] == r[j - 1]);
                }
            }
            assert(o == r.take(pos as int) + (seq![x] + r.skip(pos as int)));
            assert(orig.skip(k - 1) == seq![x] + orig.skip(k));
            assert forall|n: Seq<char>| #[trigger] named(o, n) == named(orig.skip(k - 1), n) by {
                let p = name_is(n);
                assert(named(r, n) == named(orig.skip(k), n));
                Seq::filter_distributes_over_add(r.take(pos as int), seq![x] + r.skip(pos as int), p);
                r.skip(pos as int).lemma_filter_prepend(x, p);
                orig.skip(k).lemma_filter_prepend(x, p);
                assert(r == r.take(pos as int) + r.skip(pos as int));
                Seq::filter_distributes_over_add(r.take(pos as int), r.skip(pos as int), p);
                if n == x.0@ {
                    assert(r.take(pos as int).all(|y: (String, String)| !p(y))) by {
                        assert forall|j: int| 0 <= j < pos implies !p(#[trigger] r.take(pos as int)[j]) by {
                            assert(r.take(pos as int)[j] == r[j]);
                            lemma_text_lt_irreflexive(x.0@);
                        }
                    }
                    r.take(pos as int).lemma_all_neg_filter_empty(p);
                    assert(named(o, n) =~= seq![x] + r.skip(pos as int).filter(p));
                    assert(named(r, n) =~= r.skip(pos as int).filter(p));
                } else {
                    assert(named(o, n) =~= r.take(pos as int).filter(p) + r.skip(pos as int).filter(p));
                }
            }
        }
    }
    proof {
        assert(orig.skip(0) == orig);
    }
    out
}

// ---------------------------------------------------------------------------
// The graph a symbol table gives
// ---------------------------------------------------------------------------

/// The nodes of `ns` whose id is `id`, in order.
pub open spec fn with_id(ns: Seq<NodeView>, id: Seq<char>) -> Seq<NodeView>
    decreases ns.len(),
{
    if ns.len() == 0 {
        Seq::empty()
    } else if ns.last().id == id {
        with_id(ns.drop_last(), id).push(ns.last())
    } else {
        with_id(ns.drop_last(), id)
    }
}

/// The nodes with id `id` that a symbol table gives, in the order they are
/// produced: symbol nodes in symbol order, then the synthesized group, then the
/// clock.
pub open spec fn expected_with_id(syms: Seq<Symbol>, id: Seq<char>) -> Seq<NodeView> {
    with_id(symbol_nodes(syms), id) + (if synthesized(syms, id) {
        seq![group_node(id)]
    } else {
        Seq::empty()
    }) + match first_rate(symbol_nodes(syms), id) {
        Some(r) => seq![clock_node(id, r)],
        None => Seq::empty(),
    }
}

/// Whether node ids never decrease along `ns`.
pub open spec fn ids_sorted(ns: Seq<NodeView>) -> bool {
    forall|i: int, j: int| 0 <= i < j < ns.len() ==> !text_lt(ns[j].id, ns[i].id)
}

/// Whether `id` is nested (directly or indirectly) under the dotted path `t`.
pub open spec fn nested_under(id: Seq<char>, t: Seq<char>) -> bool {
    id.len() > t.len() && id.take(t.len() + 1int) == t.push('.')
}

/// Whether some symbol is a table at path `t`.
pub open spec fn is_table_path(syms: Seq<Symbol>, t: Seq<char>) -> bool {
    exists|i: int| 0 <= i < syms.len() && syms[i].kind == SymbolKind::Table && syms[i].path@ == t
}

/// Whether `xs` holds a string with the characters `x`.
pub open spec fn holds(xs: Seq<String>, x: Seq<char>) -> bool {
    exists|i: int| 0 <= i < xs.len() && xs[i]@ == x
}

/// Whether a function's flow makes `e` a data-flow edge: a read into the
/// function, or the function into a write.
pub open spec fn flow_edge(f: (String, IoSets), e: EdgeView) -> bool {
    (holds(f.1.reads@, e.from) && e.to == f.0@) || (e.from == f.0@ && holds(f.1.writes@, e.to))
}

/// Whether `e` is an edge of the graph that `syms` and the functions' flows
/// give.
pub open spec fn expected_edge(syms: Seq<Symbol>, flows: Seq<(String, IoSets)>, e: EdgeView) -> bool {
    match e.kind {
        EdgeKind::Hierarchy => structural_id(syms, e.to) && parent_of(e.to) == Some(e.from)
            && structural_id(syms, e.from),
        EdgeKind::TableAxis => is_table_path(syms, e.from) && structural_id(syms, e.to)
            && nested_under(e.to, e.from),
        EdgeKind::Schedule => exists|i: int|
            0 <= i < symbol_nodes(syms).len() && (#[trigger] symbol_nodes(syms)[i]).rate_hz
                is Some && e.from == clock_id(symbol_nodes(syms)[i].rate_hz->0) && e.to
                == symbol_nodes(syms)[i].id,
        EdgeKind::DataFlow => (exists|j: int| 0 <= j < flows.len() && flow_edge(#[trigger] flows[j], e))
            && structural_id(syms, e.from) && structural_id(syms, e.to),
    }
}

/// Strict order of edges by (kind tag, from, to).
pub open spec fn edge_lt(a: EdgeView, b: EdgeView) -> bool {
    text_lt(edge_tag(a.kind), edge_tag(b.kind)) || (a.kind == b.kind && (text_lt(a.from, b.from) || (
    a.from == b.from && text_lt(a.to, b.to))))
}

/// Whether `es` is strictly increasing by (kind tag, from, to), so it holds no
/// edge twice.
pub open spec fn edges_sorted(es: Seq<EdgeView>) -> bool {
    forall|i: int, j: int| 0 <= i < j < es.len() ==> edge_lt(es[i], es[j])
}

/// Whether `m` is the graph that `syms` and `flows` give, titled `title`.
pub open spec fn graph_of(
    m: GraphModel,
    syms: Seq<Symbol>,
    flows: Seq<(String, IoSets)>,
    title: Option<String>,
) -> bool {
    let nv = node_views(m.nodes@);
    let ev = edge_views(m.edges@);
    &&& m.title == title
    &&& m.overlay is None
    &&& ids_sorted(nv)
    &&& forall|id: Seq<char>| #[trigger] with_id(nv, id) == expected_with_id(syms, id)
    &&& edges_sorted(ev)
    &&& forall|e: EdgeView| #[trigger] ev.contains(e) <==> expected_edge(syms, flows, e)
}


// ---------------------------------------------------------------------------
// Building the nodes
// ---------------------------------------------------------------------------

/// The optional text `a`, else `b`.
fn first_present(a: &Option<String>, b: &Option<String>) -> (r: Option<String>)
    ensures
        crate::model::opt_chars(r) == either(*a, *b),
        r == (if a is Some {
            *a
        } else {
            *b
        }),
{
    match a {
        Some(x) => Some(x.clone()),
        None => match b {
            Some(y) => Some(y.clone()),
            None => None,
        },
    }
}

/// Build a [`GraphNode`] from a symbol of a known [`NodeKind`], filling in its
/// unit, type label, rate, table dimensionality and parent.
pub fn build_node(sym: &Symbol, kind: NodeKind) -> (node: GraphNode)
    ensures
        node@ == symbol_node(*sym, kind),
        node.id@ == sym.path@,
        node.path@ == sym.path@,
        node.kind == kind,
        node.unit == (if sym.display_unit is Some {
            sym.display_unit
        } else {
            sym.unit
        }),
        node.rate_hz == (if sym.call_rate_hz is Some {
            sym.call_rate_hz
        } else {
            sym.log_rate_hz
        }),
        node.table_dims == sym.table_axes,
        crate::model::opt_chars(node.parent) == parent_of(sym.path@),
{
    let parent = match parent_path(sym.path.as_str()) {
        Some(p) => Some(crate::text::owned(p)),
        None => None,
    };
    GraphNode {
        id: sym.path.clone(),
        path: sym.path.clone(),
        kind,
        rate_hz: first_present(&sym.call_rate_hz, &sym.log_rate_hz),
        unit: first_present(&sym.display_unit, &sym.unit),
        type_label: Some(type_label(sym)),
        table_dims: sym.table_axes,
        parent,
    }
}

/// The nodes the symbols surface as, in symbol order.
fn symbol_node_list(syms: &Vec<Symbol>) -> (v: Vec<GraphNode>)
    ensures
        node_views(v@) == symbol_nodes(syms@),
{
    let mut v: Vec<GraphNode> = Vec::new();
    let mut i: usize = 0;
    while i < syms.len()
        invariant
            i <= syms.len(),
            node_views(v@) == symbol_nodes(syms@.take(i as int)),
        decreases syms.len() - i,
    {
        proof {
            assert(syms@.take(i + 1).drop_last() == syms@.take(i as int));
            assert(syms@.take(i + 1).last() == syms@[i as int]);
        }
        match node_kind(syms[i].kind) {
            Some(k) => {
                let n = build_node(&syms[i], k);
                let ghost before = v@;
                v.push(n);
                proof {
                    assert(node_views(v@) =~= node_views(before).push(n@));
                }
            },
            None => {},
        }
        i = i + 1;
    }
    proof {
        assert(syms@.take(syms@.len() as int) == syms@);
    }
    v
}

/// Whether `xs` holds a string with the characters of `x`.
pub fn holds_text(xs: &Vec<String>, x: &String) -> (r: bool)
    ensures
        r == holds(xs@, x@),
{
    let mut i: usize = 0;
    while i < xs.len()
        invariant
            i <= xs.len(),
            forall|k: int| 0 <= k < i ==> xs@[k]@ != x@,
        decreases xs.len() - i,
    {
        if xs[i] == *x {
            return true;
        }
        i = i + 1;
    }
    false
}

pub proof fn lemma_is_ancestor_step(a: Seq<char>, path: Seq<char>)
    ensures
        is_ancestor(a, path) <==> (parent_of(path) is Some && (parent_of(path)->0 == a || is_ancestor(
            a,
            parent_of(path)->0,
        ))),
{
}

pub proof fn lemma_is_ancestor_shorter(a: Seq<char>, path: Seq<char>)
    requires
        is_ancestor(a, path),
    ensures
        a.len() < path.len(),
    decreases path.len(),
{
    lemma_last_index_of(path, '.');
    let p = path.take(last_index_of(path, '.'));
    if p != a {
        lemma_is_ancestor_shorter(a, p);
    }
}

pub proof fn lemma_is_ancestor_transitive(a: Seq<char>, b: Seq<char>, c: Seq<char>)
    requires
        is_ancestor(a, b),
        is_ancestor(b, c),
    ensures
        is_ancestor(a, c),
    decreases c.len(),
{
    lemma_last_index_of(c, '.');
    let p = c.take(last_index_of(c, '.'));
    if p != b {
        lemma_is_ancestor_transitive(a, b, p);
    }
}

/// Whether the ids of `synth` are exactly those of `ids` that are not ids of `sn`.
pub open spec fn synth_matches(ids: Seq<String>, sn: Seq<NodeView>, synth: Seq<NodeView>) -> bool {
    forall|x: Seq<char>|
        #![trigger has_id(synth, x)]
        #![trigger holds(ids, x)]
        (holds(ids, x) && !has_id(sn, x)) <==> has_id(synth, x)
}

/// The structural ids (every symbol node id, then every undeclared ancestor)
/// and the synthesized group nodes of the undeclared ancestors.
fn structural_ids(sym_nodes: &Vec<GraphNode>, Ghost(syms): Ghost<Seq<Symbol>>) -> (r: (
    Vec<String>,
    Vec<GraphNode>,
))
    requires
        node_views(sym_nodes@) == symbol_nodes(syms),
    ensures
        forall|x: Seq<char>| holds(r.0@, x) <==> structural_id(syms, x),
        forall|i: int, j: int|
            0 <= i < j < r.1@.len() ==> (#[trigger] r.1@[i])@.id != (#[trigger] r.1@[j])@.id,
        forall|i: int| 0 <= i < r.1@.len() ==> (#[trigger] r.1@[i])@ == group_node(r.1@[i]@.id),
        forall|x: Seq<char>| has_id(node_views(r.1@), x) <==> synthesized(syms, x),
{
    let ghost sn = symbol_nodes(syms);
    let mut ids: Vec<String> = Vec::new();
    let mut i: usize = 0;
    while i < sym_nodes.len()
        invariant
            i <= sym_nodes.len(),
            node_views(sym_nodes@) == sn,
            sn == symbol_nodes(syms),
            ids@.len() == i,
            forall|k: int| 0 <= k < i ==> (#[trigger] ids@[k])@ == sn[k].id,
        decreases sym_nodes.len() - i,
    {
        proof {
            assert(sym_nodes@[i as int]@ == sn[i as int]);
        }
        ids.push(sym_nodes[i].id.clone());
        i = i + 1;
    }
    proof {
        assert forall|x: Seq<char>| holds(ids@, x) <==> has_id(sn, x) by {
            if holds(ids@, x) {
                let m = choose|m: int| 0 <= m < ids@.len() && ids@[m]@ == x;
                assert(sn[m].id == x);
            }
            if has_id(sn, x) {
                let m = choose|m: int| 0 <= m < sn.len() && sn[m].id == x;
                assert(ids@[m]@ == x);
            }
        }
        assert forall|x: Seq<char>| holds(ids@, x) implies structural_id(syms, x) by {}
        assert(synth_matches(ids@, sn, node_views(Seq::<GraphNode>::empty())));
    }
    let mut synth: Vec<GraphNode> = Vec::new();
    let mut i: usize = 0;
    while i < sym_nodes.len()
        invariant
            i <= sym_nodes.len(),
            node_views(sym_nodes@) == sn,
            sn == symbol_nodes(syms),
            forall|x: Seq<char>| has_id(sn, x) ==> holds(ids@, x),
            forall|x: Seq<char>| holds(ids@, x) ==> structural_id(syms, x),
            forall|k: int, x: Seq<char>| 0 <= k < i && is_ancestor(x, sn[k].id) ==> holds(ids@, x),
            synth_matches(ids@, sn, node_views(synth@)),
            forall|a: int, b: int|
                0 <= a < b < synth@.len() ==> (#[trigger] synth@[a])@.id != (#[trigger] synth@[b])@.id,
            forall|a: int| 0 <= a < synth@.len() ==> (#[trigger] synth@[a])@ == group_node(synth@[a]@.id),
        decreases sym_nodes.len() - i,
    {
        let mut cur = sym_nodes[i].id.clone();
        let ghost id = sn[i as int].id;
        proof {
            assert(sym_nodes@[i as int]@ == sn[i as int]);
        }
        loop
            invariant
                i < sym_nodes.len(),
                node_views(sym_nodes@) == sn,
                sn == symbol_nodes(syms),
                id == sn[i as int].id,
                cur@ == id || is_ancestor(cur@, id),
                forall|x: Seq<char>| has_id(sn, x) ==> holds(ids@, x),
                forall|x: Seq<char>| holds(ids@, x) ==> structural_id(syms, x),
                forall|k: int, x: Seq<char>| 0 <= k < i && is_ancestor(x, sn[k].id) ==> holds(ids@, x),
                forall|x: Seq<char>| is_ancestor(x, id) && !is_ancestor(x, cur@) ==> holds(ids@, x),
                synth_matches(ids@, sn, node_views(synth@)),
                forall|a: int, b: int|
                    0 <= a < b < synth@.len() ==> (#[trigger] synth@[a])@.id != (#[trigger] synth@[b])@.id,
                forall|a: int| 0 <= a < synth@.len() ==> (#[trigger] synth@[a])@ == group_node(synth@[a]@.id),
            ensures
                forall|x: Seq<char>| is_ancestor(x, id) ==> holds(ids@, x),
                forall|x: Seq<char>| has_id(sn, x) ==> holds(ids@, x),
                forall|x: Seq<char>| holds(ids@, x) ==> structural_id(syms, x),
                forall|k: int, x: Seq<char>| 0 <= k < i && is_ancestor(x, sn[k].id) ==> holds(ids@, x),
                synth_matches(ids@, sn, node_views(synth@)),
                forall|a: int, b: int|
                    0 <= a < b < synth@.len() ==> (#[trigger] synth@[a])@.id != (#[trigger] synth@[b])@.id,
                forall|a: int| 0 <= a < synth@.len() ==> (#[trigger] synth@[a])@ == group_node(synth@[a]@.id),
            decreases cur@.len(),
        {
            let p = match parent_path(cur.as_str()) {
                Some(p) => crate::text::owned(p),
                None => {
                    proof {
                        assert forall|x: Seq<char>| is_ancestor(x, id) implies holds(ids@, x) by {
                            lemma_is_ancestor_step(x, cur@);
                        }
                    }
                    break ;
                },
            };
            proof {
                lemma_is_ancestor_step(p@, cur@);
                if cur@ != id {
                    lemma_is_ancestor_transitive(p@, cur@, id);
                }
                assert(is_ancestor(p@, id));
                assert(structural_id(syms, p@));
                lemma_is_ancestor_shorter(p@, cur@);
                assert forall|x: Seq<char>| is_ancestor(x, id) && !is_ancestor(x, p@) implies (x == p@
                    || !is_ancestor(x, cur@)) by {
                    lemma_is_ancestor_step(x, cur@);
                }
            }
            if !holds_text(&ids, &p) {
                let ghost before_ids = ids@;
                let ghost before_synth = synth@;
                let mut g = GraphNode::new(p.as_str(), NodeKind::Group);
                g.parent = match parent_path(p.as_str()) {
                    Some(q) => Some(crate::text::owned(q)),
                    None => None,
                };
                ids.push(p.clone());
                synth.push(g);
                proof {
                    assert(!has_id(sn, p@));
                    assert(g@ == group_node(p@));
                    assert forall|x: Seq<char>| holds(ids@, x) <==> (holds(before_ids, x) || x == p@) by {
                        if holds(ids@, x) {
                            let m = choose|m: int| 0 <= m < ids@.len() && ids@[m]@ == x;
                            if m < before_ids.len() {
                                assert(before_ids[m]@ == x);
                            }
                        }
                        if holds(before_ids, x) {
                            let m = choose|m: int| 0 <= m < before_ids.len() && before_ids[m]@ == x;
                            assert(ids@[m]@ == x);
                        }
                        if x == p@ {
                            assert(ids@[before_ids.len() as int]@ == x);
                        }
                    }
                    assert forall|x: Seq<char>| has_id(node_views(synth@), x) <==> (has_id(
                        node_views(before_synth),
                        x,
                    ) || x == p@) by {
                        if has_id(node_views(synth@), x) {
                            let m = choose|m: int| 0 <= m < node_views(synth@).len() && node_views(synth@)[m].id == x;
                            if m < before_synth.len() {
                                assert(node_views(before_synth)[m].id == x);
                            }
                        }
                        if has_id(node_views(before_synth), x) {
                            let m = choose|m: int| 0 <= m < node_views(before_synth).len() && node_views(before_synth)[m].id == x;
                            assert(node_views(synth@)[m].id == x);
                        }
                        if x == p@ {
                            assert(node_views(synth@)[before_synth.len() as int].id == x);
                        }
                    }
                    assert forall|a: int, b: int|
                        0 <= a < b < synth@.len() implies (#[trigger] synth@[a])@.id != (#[trigger] synth@[b])@.id by {
                        if b == synth@.len() - 1 {
                            assert(node_views(before_synth)[a].id == synth@[a]@.id);
                            assert(has_id(node_views(before_synth), synth@[a]@.id));
                        }
                    }
                    assert(synth_matches(before_ids, sn, node_views(before_synth)));
                    assert forall|x: Seq<char>|
                        #![trigger has_id(node_views(synth@), x)]
                        #![trigger holds(ids@, x)]
                        (holds(ids@, x) && !has_id(sn, x)) <==> has_id(node_views(synth@), x) by {
                        assert((holds(before_ids, x) && !has_id(sn, x)) <==> has_id(
                            node_views(before_synth),
                            x,
                        ));
                    }
                    assert(synth_matches(ids@, sn, node_views(synth@)));
                }
            }
            cur = p;
        }
        i = i + 1;
    }
    proof {
        assert forall|x: Seq<char>| structural_id(syms, x) implies holds(ids@, x) by {
            if !has_id(sn, x) {
                let k = choose|k: int| 0 <= k < sn.len() && is_ancestor(x, #[trigger] sn[k].id);
            }
        }
        assert forall|x: Seq<char>| has_id(node_views(synth@), x) <==> synthesized(syms, x) by {
            assert(synth_matches(ids@, sn, node_views(synth@)));
        }
    }
    (ids, synth)
}


// ---------------------------------------------------------------------------
// Ordering the nodes
// ---------------------------------------------------------------------------

pub proof fn lemma_with_id_add(a: Seq<NodeView>, b: Seq<NodeView>, id: Seq<char>)
    ensures
        with_id(a + b, id) == with_id(a, id) + with_id(b, id),
    decreases b.len(),
{
    if b.len() == 0 {
        assert(a + b == a);
        assert(with_id(a, id) + Seq::<NodeView>::empty() == with_id(a, id));
    } else {
        lemma_with_id_add(a, b.drop_last(), id);
        assert((a + b).drop_last() == a + b.drop_last());
        assert((a + b).last() == b.last());
    }
}

pub proof fn lemma_with_id_none(s: Seq<NodeView>, id: Seq<char>)
    requires
        forall|i: int| 0 <= i < s.len() ==> s[i].id != id,
    ensures
        with_id(s, id) == Seq::<NodeView>::empty(),
    decreases s.len(),
{
    if s.len() > 0 {
        lemma_with_id_none(s.drop_last(), id);
    }
}

pub proof fn lemma_with_id_single(x: NodeView, id: Seq<char>)
    ensures
        with_id(seq![x], id) == (if x.id == id {
            seq![x]
        } else {
            Seq::<NodeView>::empty()
        }),
{
    assert(seq![x].drop_last() == Seq::<NodeView>::empty());
    assert(seq![x].last() == x);
    assert(with_id(Seq::<NodeView>::empty(), id) == Seq::<NodeView>::empty());
    if x.id == id {
        assert(Seq::<NodeView>::empty().push(x) == seq![x]);
    }
}

/// Insert `n` after every node whose id does not sort after its own, keeping
/// the ids sorted and nodes that share an id in the order they came.
fn insert_by_id(out: &mut Vec<GraphNode>, n: GraphNode)
    requires
        ids_sorted(node_views(old(out)@)),
    ensures
        ids_sorted(node_views(final(out)@)),
        forall|id: Seq<char>| #[trigger] with_id(node_views(final(out)@), id) == with_id(
            node_views(old(out)@).push(n@),
            id,
        ),
{
    let ghost old_v = node_views(out@);
    let mut p: usize = 0;
    while p < out.len() && !text_less(n.id.as_str(), out[p].id.as_str())
        invariant
            p <= out.len(),
            old_v == node_views(out@),
            forall|j: int| 0 <= j < p ==> !text_lt(n@.id, #[trigger] old_v[j].id),
        decreases out.len() - p,
    {
        p = p + 1;
    }
    let ghost x = n@;
    out.insert(p, n);
    proof {
        let nv = node_views(out@);
        assert(nv =~= old_v.take(p as int) + seq![x] + old_v.skip(p as int));
        assert forall|j: int| p <= j < old_v.len() implies text_lt(x.id, #[trigger] old_v[j].id) by {
            assert(text_lt(x.id, old_v[p as int].id));
            if j > p {
                lemma_text_lt_total(old_v[j].id, old_v[p as int].id);
                if old_v[j].id != old_v[p as int].id {
                    lemma_text_lt_transitive(x.id, old_v[p as int].id, old_v[j].id);
                }
            }
        }
        assert forall|i: int, j: int| 0 <= i < j < nv.len() implies !text_lt(nv[j].id, nv[i].id) by {
            if i < p && j == p {
                assert(!text_lt(x.id, old_v[i].id));
            } else if i == p && j > p {
                assert(nv[j] == old_v[j - 1]);
                lemma_text_lt_asymmetric(x.id, old_v[j - 1].id);
            } else if i < p && j > p {
                assert(nv[i] == old_v[i]);
                assert(nv[j] == old_v[j - 1]);
            } else if i > p {
                assert(nv[i] == old_v[i - 1]);
                assert(nv[j] == old_v[j - 1]);
            }
        }
        assert forall|id: Seq<char>| #[trigger] with_id(nv, id) == with_id(old_v.push(x), id) by {
            let a = old_v.take(p as int);
            let b = old_v.skip(p as int);
            assert(old_v == a + b);
            assert(old_v.push(x) == a + b + seq![x]);
            lemma_with_id_add(a + seq![x], b, id);
            lemma_with_id_add(a, seq![x], id);
            lemma_with_id_add(a + b, seq![x], id);
            lemma_with_id_add(a, b, id);
            lemma_with_id_single(x, id);
            if x.id == id {
                assert forall|i: int| 0 <= i < b.len() implies b[i].id != id by {
                    assert(b[i] == old_v[p + i]);
                    lemma_text_lt_irreflexive(id);
                }
                lemma_with_id_none(b, id);
                assert(with_id(nv, id) =~= with_id(old_v.push(x), id));
            } else {
                assert(with_id(nv, id) =~= with_id(old_v.push(x), id));
            }
        }
    }
}

/// Insert every node of `ns`, in order.
fn insert_all_by_id(out: &mut Vec<GraphNode>, ns: &Vec<GraphNode>)
    requires
        ids_sorted(node_views(old(out)@)),
    ensures
        ids_sorted(node_views(final(out)@)),
        forall|id: Seq<char>| #[trigger] with_id(node_views(final(out)@), id) == with_id(
            node_views(old(out)@) + node_views(ns@),
            id,
        ),
{
    let ghost start = node_views(out@);
    let mut i: usize = 0;
    while i < ns.len()
        invariant
            i <= ns.len(),
            ids_sorted(node_views(out@)),
            forall|id: Seq<char>| #[trigger] with_id(node_views(out@), id) == with_id(
                start + node_views(ns@).take(i as int),
                id,
            ),
        decreases ns.len() - i,
    {
        let ghost before = node_views(out@);
        insert_by_id(out, ns[i].duplicate());
        proof {
            assert(start + node_views(ns@).take(i + 1) == (start + node_views(ns@).take(i as int)).push(
                ns@[i as int]@,
            ));
            assert forall|id: Seq<char>| #[trigger] with_id(node_views(out@), id) == with_id(
                start + node_views(ns@).take(i + 1),
                id,
            ) by {
                assert(with_id(before, id) == with_id(start + node_views(ns@).take(i as int), id));
                lemma_with_id_add(before, seq![ns@[i as int]@], id);
                lemma_with_id_add(start + node_views(ns@).take(i as int), seq![ns@[i as int]@], id);
                assert(before.push(ns@[i as int]@) == before + seq![ns@[i as int]@]);
                assert((start + node_views(ns@).take(i as int)).push(ns@[i as int]@) == (start
                    + node_views(ns@).take(i as int)) + seq![ns@[i as int]@]);
            }
        }
        i = i + 1;
    }
    proof {
        assert(node_views(ns@).take(ns@.len() as int) == node_views(ns@));
    }
}


// ---------------------------------------------------------------------------
// Ordering the edges
// ---------------------------------------------------------------------------

/// The position of an edge kind in the order of its tags.
pub open spec fn kind_rank(k: EdgeKind) -> int {
    match k {
        EdgeKind::DataFlow => 0,
        EdgeKind::Hierarchy => 1,
        EdgeKind::Schedule => 2,
        EdgeKind::TableAxis => 3,
    }
}

/// The tags of edge kinds sort as the kinds rank.
pub proof fn lemma_tag_order(a: EdgeKind, b: EdgeKind)
    ensures
        text_lt(edge_tag(a), edge_tag(b)) <==> kind_rank(a) < kind_rank(b),
{
    reveal_strlit("data_flow");
    reveal_strlit("hierarchy");
    reveal_strlit("schedule");
    reveal_strlit("table_axis");
    let ta = edge_tag(a);
    let tb = edge_tag(b);
    if a == b {
        lemma_text_lt_irreflexive(ta);
    } else {
        assert(ta[0] != tb[0]);
        assert(text_lt(ta, tb) == ((ta[0] as u32) < (tb[0] as u32)));
    }
}

pub proof fn lemma_edge_lt_irreflexive(a: EdgeView)
    ensures
        !edge_lt(a, a),
{
    lemma_tag_order(a.kind, a.kind);
    lemma_text_lt_irreflexive(a.from);
    lemma_text_lt_irreflexive(a.to);
}

pub proof fn lemma_edge_lt_transitive(a: EdgeView, b: EdgeView, c: EdgeView)
    requires
        edge_lt(a, b),
        edge_lt(b, c),
    ensures
        edge_lt(a, c),
{
    lemma_tag_order(a.kind, b.kind);
    lemma_tag_order(b.kind, c.kind);
    lemma_tag_order(a.kind, c.kind);
    if a.kind == b.kind && b.kind == c.kind {
        if text_lt(a.from, b.from) && text_lt(b.from, c.from) {
            lemma_text_lt_transitive(a.from, b.from, c.from);
        }
        if a.from == b.from && b.from == c.from && text_lt(a.to, b.to) && text_lt(b.to, c.to) {
            lemma_text_lt_transitive(a.to, b.to, c.to);
        }
    }
}

pub proof fn lemma_edge_lt_total(a: EdgeView, b: EdgeView)
    ensures
        a == b || edge_lt(a, b) || edge_lt(b, a),
{
    lemma_tag_order(a.kind, b.kind);
    lemma_tag_order(b.kind, a.kind);
    lemma_text_lt_total(a.from, b.from);
    lemma_text_lt_total(a.to, b.to);
}

pub proof fn lemma_edge_lt_asymmetric(a: EdgeView, b: EdgeView)
    requires
        edge_lt(a, b),
    ensures
        !edge_lt(b, a),
{
    if edge_lt(b, a) {
        lemma_edge_lt_transitive(a, b, a);
        lemma_edge_lt_irreflexive(a);
    }
}

/// The rank of an edge kind.
fn rank_of(k: EdgeKind) -> (r: u8)
    ensures
        r as int == kind_rank(k),
{
    match k {
        EdgeKind::DataFlow => 0,
        EdgeKind::Hierarchy => 1,
        EdgeKind::Schedule => 2,
        EdgeKind::TableAxis => 3,
    }
}

/// Whether edge `a` sorts strictly before edge `b`.
fn edge_less(a: &GraphEdge, b: &GraphEdge) -> (r: bool)
    ensures
        r == edge_lt(a@, b@),
{
    proof {
        lemma_tag_order(a.kind, b.kind);
        lemma_tag_order(b.kind, a.kind);
    }
    let ra = rank_of(a.kind);
    let rb = rank_of(b.kind);
    if ra != rb {
        proof {
            if ra == rb {
            }
        }
        return ra < rb;
    }
    proof {
        assert(a.kind == b.kind);
    }
    if text_less(a.from.as_str(), b.from.as_str()) {
        return true;
    }
    a.from == b.from && text_less(a.to.as_str(), b.to.as_str())
}

/// Insert `e` into the strictly increasing edge list `out` unless it is
/// already there.
fn insert_edge(out: &mut Vec<GraphEdge>, e: GraphEdge)
    requires
        edges_sorted(edge_views(old(out)@)),
    ensures
        edges_sorted(edge_views(final(out)@)),
        forall|x: EdgeView| #[trigger] edge_views(final(out)@).contains(x) <==> (edge_views(
            old(out)@,
        ).contains(x) || x == e@),
{
    let ghost old_v = edge_views(out@);
    let mut p: usize = 0;
    while p < out.len() && edge_less(&out[p], &e)
        invariant
            p <= out.len(),
            old_v == edge_views(out@),
            forall|j: int| 0 <= j < p ==> edge_lt(#[trigger] old_v[j], e@),
        decreases out.len() - p,
    {
        p = p + 1;
    }
    if p < out.len() && out[p].kind == e.kind && out[p].from == e.from && out[p].to == e.to {
        proof {
            assert(old_v[p as int] == e@);
            assert(old_v.contains(e@));
        }
        return;
    }
    let ghost x = e@;
    proof {
        if p < old_v.len() {
            assert(old_v[p as int] != x);
            assert(!edge_lt(old_v[p as int], x));
            lemma_edge_lt_total(old_v[p as int], x);
        }
    }
    out.insert(p, e);
    proof {
        let nv = edge_views(out@);
        assert(nv =~= old_v.take(p as int) + seq![x] + old_v.skip(p as int));
        assert forall|j: int| p <= j < old_v.len() implies edge_lt(x, #[trigger] old_v[j]) by {
            if j > p {
                lemma_edge_lt_transitive(x, old_v[p as int], old_v[j]);
            }
        }
        assert forall|i: int, j: int| 0 <= i < j < nv.len() implies edge_lt(nv[i], nv[j]) by {
            if i < p && j == p {
            } else if i == p && j > p {
                assert(nv[j] == old_v[j - 1]);
            } else if i < p && j > p {
                assert(nv[i] == old_v[i]);
                assert(nv[j] == old_v[j - 1]);
            } else if i > p {
                assert(nv[i] == old_v[i - 1]);
                assert(nv[j] == old_v[j - 1]);
            }
        }
        assert forall|y: EdgeView| #[trigger] nv.contains(y) <==> (old_v.contains(y) || y == x) by {
            if nv.contains(y) {
                let k = choose|k: int| 0 <= k < nv.len() && nv[k] == y;
                if k < p {
                    assert(old_v[k] == y);
                } else if k > p {
                    assert(old_v[k - 1] == y);
                }
            }
            if old_v.contains(y) {
                let k = choose|k: int| 0 <= k < old_v.len() && old_v[k] == y;
                if k < p {
                    assert(nv[k] == y);
                } else {
                    assert(nv[k + 1] == y);
                }
            }
            if y == x {
                assert(nv[p as int] == y);
            }
        }
    }
}


/// Append `e` to the edge list.
fn push_edge(out: &mut Vec<GraphEdge>, e: GraphEdge)
    ensures
        edge_views(final(out)@) == edge_views(old(out)@).push(e@),
        forall|x: EdgeView| #[trigger] edge_views(final(out)@).contains(x) <==> (edge_views(
            old(out)@,
        ).contains(x) || x == e@),
{
    let ghost old_v = edge_views(out@);
    let ghost x = e@;
    out.push(e);
    proof {
        let nv = edge_views(out@);
        assert(nv =~= old_v.push(x));
        assert forall|y: EdgeView| #[trigger] nv.contains(y) <==> (old_v.contains(y) || y == x) by {
            if nv.contains(y) {
                let k = choose|k: int| 0 <= k < nv.len() && nv[k] == y;
                if k < old_v.len() {
                    assert(old_v[k] == y);
                }
            }
            if old_v.contains(y) {
                let k = choose|k: int| 0 <= k < old_v.len() && old_v[k] == y;
                assert(nv[k] == y);
            }
            if y == x {
                assert(nv[old_v.len() as int] == y);
            }
        }
    }
}

/// The edges sorted by (kind tag, from, to), each once.
fn sort_edges(es: &Vec<GraphEdge>) -> (out: Vec<GraphEdge>)
    ensures
        edges_sorted(edge_views(out@)),
        forall|x: EdgeView| #[trigger] edge_views(out@).contains(x) <==> edge_views(es@).contains(x),
{
    let mut out: Vec<GraphEdge> = Vec::new();
    let mut i: usize = 0;
    proof {
        assert(edge_views(out@) =~= Seq::<EdgeView>::empty());
    }
    while i < es.len()
        invariant
            i <= es.len(),
            edges_sorted(edge_views(out@)),
            forall|x: EdgeView| #[trigger] edge_views(out@).contains(x) <==> edge_views(es@).take(i as int).contains(x),
        decreases es.len() - i,
    {
        let ghost before = edge_views(es@).take(i as int);
        insert_edge(&mut out, es[i].duplicate());
        proof {
            let after = edge_views(es@).take(i + 1);
            assert(after == before.push(es@[i as int]@));
            assert forall|x: EdgeView| #[trigger] after.contains(x) <==> (before.contains(x) || x == es@[i as int]@) by {
                if after.contains(x) {
                    let k = choose|k: int| 0 <= k < after.len() && after[k] == x;
                    if k < before.len() {
                        assert(before[k] == x);
                    }
                }
                if before.contains(x) {
                    let k = choose|k: int| 0 <= k < before.len() && before[k] == x;
                    assert(after[k] == x);
                }
                if x == es@[i as int]@ {
                    assert(after[i as int] == x);
                }
            }
        }
        i = i + 1;
    }
    proof {
        assert(edge_views(es@).take(es@.len() as int) == edge_views(es@));
    }
    out
}

// ---------------------------------------------------------------------------
// The edge families
// ---------------------------------------------------------------------------

/// Whether `x` is a hierarchy edge from the parent of one of the first `n`
/// nodes of `ns` to that node, with the parent a structural id.
pub open spec fn hierarchy_upto(ns: Seq<NodeView>, ids: Seq<String>, x: EdgeView, n: int) -> bool {
    x.kind == EdgeKind::Hierarchy && holds(ids, x.from) && exists|i: int|
        0 <= i < n && (#[trigger] ns[i]).parent == Some(x.from) && ns[i].id == x.to
}

/// The hierarchy edges of the first `n` nodes of `ns`, in node order: one from
/// each node's recorded parent to the node, where the parent is among `ids`.
pub open spec fn hierarchy_edges(ns: Seq<NodeView>, ids: Seq<String>, n: nat) -> Seq<EdgeView>
    decreases n,
{
    if n == 0 || n > ns.len() {
        Seq::empty()
    } else {
        hierarchy_edges(ns, ids, (n - 1) as nat) + match ns[n - 1].parent {
            Some(p) => if holds(ids, p) {
                seq![EdgeView { from: p, to: ns[n - 1].id, kind: EdgeKind::Hierarchy }]
            } else {
                Seq::empty()
            },
            None => Seq::empty(),
        }
    }
}

/// Append a hierarchy edge from each node's parent to the node, in node
/// order, where the parent is a node of the graph.
fn add_hierarchy_edges(edges: &mut Vec<GraphEdge>, sn: &Vec<GraphNode>, ids: &Vec<String>)
    ensures
        edge_views(final(edges)@) == edge_views(old(edges)@) + hierarchy_edges(
            node_views(sn@),
            ids@,
            sn@.len() as nat,
        ),
        forall|x: EdgeView| #[trigger] edge_views(final(edges)@).contains(x) <==> (edge_views(
            old(edges)@,
        ).contains(x) || hierarchy_upto(node_views(sn@), ids@, x, sn@.len() as int)),
{
    let ghost start = edge_views(edges@);
    let ghost nv = node_views(sn@);
    let mut i: usize = 0;
    while i < sn.len()
        invariant
            i <= sn.len(),
            nv == node_views(sn@),
            edge_views(edges@) == start + hierarchy_edges(nv, ids@, i as nat),
            forall|x: EdgeView| #[trigger] edge_views(edges@).contains(x) <==> (start.contains(x)
                || hierarchy_upto(nv, ids@, x, i as int)),
        decreases sn.len() - i,
    {
        proof {
            assert(nv[i as int] == sn@[i as int]@);
        }
        match &sn[i].parent {
            Some(p) => {
                if holds_text(ids, p) {
                    let e = GraphEdge::new(p.as_str(), sn[i].id.as_str(), EdgeKind::Hierarchy);
                    let ghost ex = e@;
                    push_edge(edges, e);
                    proof {
                        assert(nv[i as int].parent == Some(p@));
                        assert(hierarchy_edges(nv, ids@, (i + 1) as nat) == hierarchy_edges(nv, ids@, i as nat).push(ex));
                        assert(edge_views(edges@) =~= start + hierarchy_edges(nv, ids@, (i + 1) as nat));
                        assert forall|x: EdgeView| #[trigger] edge_views(edges@).contains(x) <==> (
                        start.contains(x) || hierarchy_upto(nv, ids@, x, i + 1)) by {
                            if hierarchy_upto(nv, ids@, x, i + 1) && !hierarchy_upto(nv, ids@, x, i as int) {
                                let k = choose|k: int| 0 <= k < i + 1 && (#[trigger] nv[k]).parent == Some(x.from) && nv[k].id == x.to;
                                assert(k == i);
                                assert(x == ex);
                            }
                            if x == ex {
                                assert(nv[i as int].parent == Some(x.from));
                            }
                        }
                    }
                } else {
                    proof {
                        assert(nv[i as int].parent == Some(p@));
                        assert(hierarchy_edges(nv, ids@, (i + 1) as nat) =~= hierarchy_edges(nv, ids@, i as nat));
                        assert forall|x: EdgeView| hierarchy_upto(nv, ids@, x, i + 1) implies hierarchy_upto(nv, ids@, x, i as int) by {
                            let k = choose|k: int| 0 <= k < i + 1 && (#[trigger] nv[k]).parent == Some(x.from) && nv[k].id == x.to;
                            if k == i {
                                assert(holds(ids@, p@));
                            }
                        }
                    }
                }
            },
            None => {
                proof {
                    assert(hierarchy_edges(nv, ids@, (i + 1) as nat) =~= hierarchy_edges(nv, ids@, i as nat));
                    assert forall|x: EdgeView| hierarchy_upto(nv, ids@, x, i + 1) implies hierarchy_upto(nv, ids@, x, i as int) by {
                        let k = choose|k: int| 0 <= k < i + 1 && (#[trigger] nv[k]).parent == Some(x.from) && nv[k].id == x.to;
                    }
                }
            },
        }
        i = i + 1;
    }
}

/// Whether `id` is nested (directly or indirectly) under the dotted path `t`.
fn is_nested_under(id: &String, t: &String) -> (r: bool)
    ensures
        r == nested_under(id@, t@),
{
    let a = chars_of(id.as_str());
    let b = chars_of(t.as_str());
    if a.len() <= b.len() {
        return false;
    }
    let mut k: usize = 0;
    while k < b.len()
        invariant
            b.len() < a.len(),
            a@ == id@,
            b@ == t@,
            k <= b.len(),
            forall|j: int| 0 <= j < k ==> a@[j] == b@[j],
        decreases b.len() - k,
    {
        if a[k] != b[k] {
            proof {
                assert(a@.take(b@.len() + 1int)[k as int] != b@.push('.')[k as int]);
            }
            return false;
        }
        k = k + 1;
    }
    if a[b.len()] != '.' {
        proof {
            assert(a@.take(b@.len() + 1int)[b@.len() as int] != b@.push('.')[b@.len() as int]);
        }
        return false;
    }
    proof {
        assert(a@.take(b@.len() + 1int) =~= b@.push('.'));
    }
    true
}

/// The table-axis edges from table `t` to the first `n` nodes of `ns` nested
/// under it, in node order.
pub open spec fn table_node_edges(t: Seq<char>, ns: Seq<NodeView>, n: nat) -> Seq<EdgeView>
    decreases n,
{
    if n == 0 || n > ns.len() {
        Seq::empty()
    } else {
        table_node_edges(t, ns, (n - 1) as nat) + if nested_under(ns[n - 1].id, t) {
            seq![EdgeView { from: t, to: ns[n - 1].id, kind: EdgeKind::TableAxis }]
        } else {
            Seq::empty()
        }
    }
}

/// The table-axis edges of the first `n` tables of `tables`: for each table in
/// order, its edges to the nodes of `ns` in node order.
pub open spec fn table_edges(tables: Seq<String>, ns: Seq<NodeView>, n: nat) -> Seq<EdgeView>
    decreases n,
{
    if n == 0 || n > tables.len() {
        Seq::empty()
    } else {
        table_edges(tables, ns, (n - 1) as nat) + table_node_edges(tables[n - 1]@, ns, ns.len())
    }
}

/// Whether `x` is a table-axis edge from a table of `tables` to a node of
/// `ns` nested under it.
pub open spec fn table_edge(tables: Seq<String>, ns: Seq<NodeView>, x: EdgeView) -> bool {
    &&& x.kind == EdgeKind::TableAxis
    &&& holds(tables, x.from)
    &&& has_id(ns, x.to)
    &&& nested_under(x.to, x.from)
}

/// The paths of the table symbols, ascending, each once.
fn table_paths(syms: &Vec<Symbol>) -> (v: Vec<String>)
    ensures
        crate::dataflow::strictly_ascending(v@),
        forall|p: Seq<char>| holds(v@, p) <==> is_table_path(syms@, p),
{
    let mut v: Vec<String> = Vec::new();
    let mut i: usize = 0;
    while i < syms.len()
        invariant
            i <= syms.len(),
            crate::dataflow::strictly_ascending(v@),
            forall|p: Seq<char>| holds(v@, p) <==> exists|k: int|
                0 <= k < i && (#[trigger] syms@[k]).kind == SymbolKind::Table && syms@[k].path@ == p,
        decreases syms.len() - i,
    {
        if syms[i].kind == SymbolKind::Table {
            crate::dataflow::insert_text(&mut v, syms[i].path.clone());
            proof {
                assert forall|p: Seq<char>| holds(v@, p) <==> exists|k: int|
                    0 <= k < i + 1 && (#[trigger] syms@[k]).kind == SymbolKind::Table && syms@[k].path@ == p by {
                    if exists|k: int| 0 <= k < i + 1 && (#[trigger] syms@[k]).kind == SymbolKind::Table && syms@[k].path@ == p {
                        let k = choose|k: int| 0 <= k < i + 1 && (#[trigger] syms@[k]).kind == SymbolKind::Table && syms@[k].path@ == p;
                        if k < i {
                            assert(exists|k2: int| 0 <= k2 < i && (#[trigger] syms@[k2]).kind == SymbolKind::Table && syms@[k2].path@ == p);
                        }
                    }
                }
            }
        } else {
            proof {
                assert forall|p: Seq<char>| holds(v@, p) <==> exists|k: int|
                    0 <= k < i + 1 && (#[trigger] syms@[k]).kind == SymbolKind::Table && syms@[k].path@ == p by {
                    if exists|k: int| 0 <= k < i + 1 && (#[trigger] syms@[k]).kind == SymbolKind::Table && syms@[k].path@ == p {
                        let k = choose|k: int| 0 <= k < i + 1 && (#[trigger] syms@[k]).kind == SymbolKind::Table && syms@[k].path@ == p;
                        assert(k < i);
                    }
                }
            }
        }
        i = i + 1;
    }
    v
}

/// Append a table-axis edge from each table to every node nested under its
/// path: tables in the order given, and for each the nodes in their order.
fn add_table_axis_edges(edges: &mut Vec<GraphEdge>, tables: &Vec<String>, sn: &Vec<GraphNode>)
    ensures
        edge_views(final(edges)@) == edge_views(old(edges)@) + table_edges(
            tables@,
            node_views(sn@),
            tables@.len() as nat,
        ),
        forall|x: EdgeView| #[trigger] edge_views(final(edges)@).contains(x) <==> (edge_views(
            old(edges)@,
        ).contains(x) || table_edge(tables@, node_views(sn@), x)),
{
    let ghost start = edge_views(edges@);
    let ghost nv = node_views(sn@);
    let mut t: usize = 0;
    while t < tables.len()
        invariant
            t <= tables.len(),
            nv == node_views(sn@),
            edge_views(edges@) == start + table_edges(tables@, nv, t as nat),
            forall|x: EdgeView| #[trigger] edge_views(edges@).contains(x) <==> (start.contains(x) || (
                x.kind == EdgeKind::TableAxis && (exists|m: int| 0 <= m < t && (#[trigger] tables@[m])@ == x.from)
                && has_id(nv, x.to) && nested_under(x.to, x.from))),
        decreases tables.len() - t,
    {
        let tp = &tables[t];
        let ghost mid = edge_views(edges@);
        let mut i: usize = 0;
        while i < sn.len()
            invariant
                t < tables.len(),
                tp == tables@[t as int],
                i <= sn.len(),
                nv == node_views(sn@),
                mid == start + table_edges(tables@, nv, t as nat),
                edge_views(edges@) == mid + table_node_edges(tp@, nv, i as nat),
                forall|x: EdgeView| #[trigger] edge_views(edges@).contains(x) <==> (mid.contains(x)
                    || (x.kind == EdgeKind::TableAxis && x.from == tp@ && (exists|k: int|
                    0 <= k < i && (#[trigger] nv[k]).id == x.to) && nested_under(x.to, x.from))),
            decreases sn.len() - i,
        {
            proof {
                assert(nv[i as int] == sn@[i as int]@);
            }
            if is_nested_under(&sn[i].id, tp) {
                let e = GraphEdge::new(tp.as_str(), sn[i].id.as_str(), EdgeKind::TableAxis);
                let ghost ex = e@;
                push_edge(edges, e);
                proof {
                    assert(table_node_edges(tp@, nv, (i + 1) as nat) == table_node_edges(tp@, nv, i as nat).push(ex));
                    assert(edge_views(edges@) =~= mid + table_node_edges(tp@, nv, (i + 1) as nat));
                    assert forall|x: EdgeView| #[trigger] edge_views(edges@).contains(x) <==> (
                    mid.contains(x) || (x.kind == EdgeKind::TableAxis && x.from == tp@ && (exists|k: int|
                    0 <= k < i + 1 && (#[trigger] nv[k]).id == x.to) && nested_under(x.to, x.from))) by {
                        if x == ex {
                            assert(nv[i as int].id == x.to);
                        }
                        if x.kind == EdgeKind::TableAxis && x.from == tp@ && (exists|k: int|
                        0 <= k < i + 1 && (#[trigger] nv[k]).id == x.to) && nested_under(x.to, x.from) {
                            let k = choose|k: int| 0 <= k < i + 1 && (#[trigger] nv[k]).id == x.to;
                            if k == i {
                                assert(x == ex);
                            }
                        }
                    }
                }
            } else {
                proof {
                    assert(table_node_edges(tp@, nv, (i + 1) as nat) =~= table_node_edges(tp@, nv, i as nat));
                    assert forall|x: EdgeView| (x.kind == EdgeKind::TableAxis && x.from == tp@ && (exists|k: int|
                    0 <= k < i + 1 && (#[trigger] nv[k]).id == x.to) && nested_under(x.to, x.from)) implies (exists|k: int|
                    0 <= k < i && (#[trigger] nv[k]).id == x.to) by {
                        let k = choose|k: int| 0 <= k < i + 1 && (#[trigger] nv[k]).id == x.to;
                        if k == i {
                            assert(!nested_under(nv[i as int].id, tp@));
                        }
                    }
                }
            }
            i = i + 1;
        }
        proof {
            assert(nv.len() == sn@.len());
            assert(table_edges(tables@, nv, (t + 1) as nat) == table_edges(tables@, nv, t as nat)
                + table_node_edges(tables@[t as int]@, nv, nv.len()));
            assert(edge_views(edges@) =~= start + table_edges(tables@, nv, (t + 1) as nat));
            assert forall|x: EdgeView| #[trigger] edge_views(edges@).contains(x) <==> (start.contains(x) || (
                x.kind == EdgeKind::TableAxis && (exists|m: int| 0 <= m < t + 1 && (#[trigger] tables@[m])@ == x.from)
                && has_id(nv, x.to) && nested_under(x.to, x.from))) by {
                if x.kind == EdgeKind::TableAxis && (exists|m: int| 0 <= m < t + 1 && (#[trigger] tables@[m])@ == x.from)
                    && has_id(nv, x.to) && nested_under(x.to, x.from) {
                    let m = choose|m: int| 0 <= m < t + 1 && (#[trigger] tables@[m])@ == x.from;
                    if m == t {
                        let k = choose|k: int| 0 <= k < nv.len() && nv[k].id == x.to;
                        assert(nv[k].id == x.to);
                    }
                }
                if !start.contains(x) && !mid.contains(x) && edge_views(edges@).contains(x) {
                    let k = choose|k: int| 0 <= k < sn@.len() && (#[trigger] nv[k]).id == x.to;
                    assert(has_id(nv, x.to));
                    assert(tables@[t as int]@ == x.from);
                }
            }
        }
        t = t + 1;
    }
    proof {
        assert forall|x: EdgeView| #[trigger] edge_views(edges@).contains(x) <==> (start.contains(x)
            || table_edge(tables@, nv, x)) by {
            if holds(tables@, x.from) {
                let m = choose|m: int| 0 <= m < tables@.len() && tables@[m]@ == x.from;
                assert(tables@[m]@ == x.from);
            }
        }
    }
}

/// The id of the clock node of a rate.
fn clock_id_of(rate: &String) -> (c: String)
    ensures
        c@ == clock_id(rate@),
{
    let mut c = String::new();
    c.append("Clock@");
    let f = format_rate(rate.as_str());
    c.append(f.as_str());
    c.append("Hz");
    proof {
        assert(c@ =~= clock_id(rate@));
    }
    c
}

/// Whether some node of `ns` has id `id`.
fn has_node_id(ns: &Vec<GraphNode>, id: &String) -> (r: bool)
    ensures
        r == has_id(node_views(ns@), id@),
{
    let mut i: usize = 0;
    while i < ns.len()
        invariant
            i <= ns.len(),
            forall|k: int| 0 <= k < i ==> ns@[k]@.id != id@,
        decreases ns.len() - i,
    {
        if ns[i].id == *id {
            proof {
                assert(node_views(ns@)[i as int].id == id@);
            }
            return true;
        }
        i = i + 1;
    }
    proof {
        assert forall|k: int| 0 <= k < node_views(ns@).len() implies node_views(ns@)[k].id != id@ by {
            assert(node_views(ns@)[k] == ns@[k]@);
        }
    }
    false
}

/// One clock node per distinct clock id of the rated nodes, carrying the rate
/// of the first node with that clock.
fn clock_nodes(sym_nodes: &Vec<GraphNode>) -> (cs: Vec<GraphNode>)
    ensures
        forall|i: int, j: int| 0 <= i < j < cs@.len() ==> (#[trigger] cs@[i])@.id != (#[trigger] cs@[j])@.id,
        forall|i: int|
            0 <= i < cs@.len() ==> first_rate(node_views(sym_nodes@), (#[trigger] cs@[i])@.id) is Some
                && cs@[i]@ == clock_node(cs@[i]@.id, first_rate(node_views(sym_nodes@), cs@[i]@.id)->0),
        forall|c: Seq<char>| has_id(node_views(cs@), c) <==> first_rate(node_views(sym_nodes@), c) is Some,
{
    let ghost nv = node_views(sym_nodes@);
    let mut cs: Vec<GraphNode> = Vec::new();
    let mut i: usize = 0;
    while i < sym_nodes.len()
        invariant
            i <= sym_nodes.len(),
            nv == node_views(sym_nodes@),
            forall|a: int, b: int| 0 <= a < b < cs@.len() ==> (#[trigger] cs@[a])@.id != (#[trigger] cs@[b])@.id,
            forall|a: int|
                0 <= a < cs@.len() ==> first_rate(nv.take(i as int), (#[trigger] cs@[a])@.id) is Some
                    && cs@[a]@ == clock_node(cs@[a]@.id, first_rate(nv.take(i as int), cs@[a]@.id)->0),
            forall|c: Seq<char>|
                #![trigger has_id(node_views(cs@), c)]
                #![trigger first_rate(nv.take(i as int), c)]
                has_id(node_views(cs@), c) <==> first_rate(nv.take(i as int), c) is Some,
        decreases sym_nodes.len() - i,
    {
        proof {
            assert(nv.take(i + 1).drop_last() == nv.take(i as int));
            assert(nv.take(i + 1).last() == nv[i as int]);
            assert(nv[i as int] == sym_nodes@[i as int]@);
        }
        match &sym_nodes[i].rate_hz {
            Some(r) => {
                let c = clock_id_of(r);
                if !has_node_id(&cs, &c) {
                    let ghost before = cs@;
                    let mut n = GraphNode::new(c.as_str(), NodeKind::Group);
                    n.rate_hz = Some(r.clone());
                    cs.push(n);
                    proof {
                        assert(first_rate(nv.take(i as int), c@) is None);
                        assert(first_rate(nv.take(i + 1), c@) == Some(r@));
                        assert(n@ == clock_node(c@, r@));
                        assert forall|d: Seq<char>| has_id(node_views(cs@), d) <==> first_rate(nv.take(i + 1), d) is Some by {
                            if has_id(node_views(cs@), d) {
                                let m = choose|m: int| 0 <= m < node_views(cs@).len() && node_views(cs@)[m].id == d;
                                if m < before.len() {
                                    assert(node_views(before)[m].id == d);
                                }
                            }
                            if first_rate(nv.take(i + 1), d) is Some {
                                if first_rate(nv.take(i as int), d) is Some {
                                    assert(has_id(node_views(before), d));
                                    let m = choose|m: int| 0 <= m < node_views(before).len() && node_views(before)[m].id == d;
                                    assert(node_views(cs@)[m].id == d);
                                } else {
                                    assert(d == c@);
                                    assert(node_views(cs@)[before.len() as int].id == d);
                                }
                            }
                        }
                        assert forall|a: int, b: int| 0 <= a < b < cs@.len() implies (#[trigger] cs@[a])@.id != (#[trigger] cs@[b])@.id by {
                            if b == before.len() {
                                assert(node_views(before)[a].id == cs@[a]@.id);
                            }
                        }
                    }
                } else {
                    proof {
                        assert(first_rate(nv.take(i as int), c@) is Some);
                    }
                }
            },
            None => {},
        }
        i = i + 1;
    }
    proof {
        assert(nv.take(sym_nodes@.len() as int) == nv);
    }
    cs
}

/// Whether `x` is a schedule edge from the clock of one of the first `n` nodes
/// of `ns` to that node.
pub open spec fn schedule_upto(ns: Seq<NodeView>, x: EdgeView, n: int) -> bool {
    x.kind == EdgeKind::Schedule && exists|i: int|
        0 <= i < n && (#[trigger] ns[i]).rate_hz is Some && x.from == clock_id(ns[i].rate_hz->0)
            && x.to == ns[i].id
}

/// The schedule edges of the first `n` nodes of `ns`, in node order: one from
/// the clock of each rated node to the node.
pub open spec fn schedule_edges(ns: Seq<NodeView>, n: nat) -> Seq<EdgeView>
    decreases n,
{
    if n == 0 || n > ns.len() {
        Seq::empty()
    } else {
        schedule_edges(ns, (n - 1) as nat) + match ns[n - 1].rate_hz {
            Some(r) => seq![EdgeView { from: clock_id(r), to: ns[n - 1].id, kind: EdgeKind::Schedule }],
            None => Seq::empty(),
        }
    }
}

/// Append a schedule edge from the clock of every rated node to the node, in
/// node order.
fn add_schedule_edges(edges: &mut Vec<GraphEdge>, sym_nodes: &Vec<GraphNode>)
    ensures
        edge_views(final(edges)@) == edge_views(old(edges)@) + schedule_edges(
            node_views(sym_nodes@),
            sym_nodes@.len() as nat,
        ),
        forall|x: EdgeView| #[trigger] edge_views(final(edges)@).contains(x) <==> (edge_views(
            old(edges)@,
        ).contains(x) || schedule_upto(node_views(sym_nodes@), x, sym_nodes@.len() as int)),
{
    let ghost start = edge_views(edges@);
    let ghost nv = node_views(sym_nodes@);
    let mut i: usize = 0;
    while i < sym_nodes.len()
        invariant
            i <= sym_nodes.len(),
            nv == node_views(sym_nodes@),
            edge_views(edges@) == start + schedule_edges(nv, i as nat),
            forall|x: EdgeView| #[trigger] edge_views(edges@).contains(x) <==> (start.contains(x)
                || schedule_upto(nv, x, i as int)),
        decreases sym_nodes.len() - i,
    {
        proof {
            assert(nv[i as int] == sym_nodes@[i as int]@);
        }
        match &sym_nodes[i].rate_hz {
            Some(r) => {
                let c = clock_id_of(r);
                let e = GraphEdge::new(c.as_str(), sym_nodes[i].id.as_str(), EdgeKind::Schedule);
                let ghost ex = e@;
                push_edge(edges, e);
                proof {
                    assert(nv[i as int].rate_hz == Some(r@));
                    assert(schedule_edges(nv, (i + 1) as nat) == schedule_edges(nv, i as nat).push(ex));
                    assert(edge_views(edges@) =~= start + schedule_edges(nv, (i + 1) as nat));
                    assert forall|x: EdgeView| #[trigger] edge_views(edges@).contains(x) <==> (
                    start.contains(x) || schedule_upto(nv, x, i + 1)) by {
                        if schedule_upto(nv, x, i + 1) && !schedule_upto(nv, x, i as int) {
                            let k = choose|k: int| 0 <= k < i + 1 && (#[trigger] nv[k]).rate_hz is Some && x.from == clock_id(nv[k].rate_hz->0) && x.to == nv[k].id;
                            assert(k == i);
                            assert(x == ex);
                        }
                        if x == ex {
                            assert(nv[i as int].rate_hz == Some(r@));
                        }
                    }
                }
            },
            None => {
                proof {
                    assert(schedule_edges(nv, (i + 1) as nat) =~= schedule_edges(nv, i as nat));
                    assert forall|x: EdgeView| schedule_upto(nv, x, i + 1) implies schedule_upto(nv, x, i as int) by {
                        let k = choose|k: int| 0 <= k < i + 1 && (#[trigger] nv[k]).rate_hz is Some && x.from == clock_id(nv[k].rate_hz->0) && x.to == nv[k].id;
                    }
                }
            },
        }
        i = i + 1;
    }
}

/// Whether `x` is a data-flow edge of one of the first `n` flows whose ends are
/// both structural ids.
pub open spec fn flow_upto(flows: Seq<(String, IoSets)>, ids: Seq<String>, x: EdgeView, n: int) -> bool {
    &&& x.kind == EdgeKind::DataFlow
    &&& exists|j: int| 0 <= j < n && flow_edge(#[trigger] flows[j], x)
    &&& holds(ids, x.from)
    &&& holds(ids, x.to)
}

/// The edges from the first `k` reads of function `f` into it, in order,
/// where both ends are among `ids`.
pub open spec fn flow_read_edges(f: (String, IoSets), ids: Seq<String>, k: nat) -> Seq<EdgeView>
    decreases k,
{
    if k == 0 || k > f.1.reads@.len() {
        Seq::empty()
    } else {
        flow_read_edges(f, ids, (k - 1) as nat) + if holds(ids, f.0@) && holds(ids, f.1.reads@[k - 1]@) {
            seq![EdgeView { from: f.1.reads@[k - 1]@, to: f.0@, kind: EdgeKind::DataFlow }]
        } else {
            Seq::empty()
        }
    }
}

/// The edges from function `f` into its first `k` writes, in order, where
/// both ends are among `ids`.
pub open spec fn flow_write_edges(f: (String, IoSets), ids: Seq<String>, k: nat) -> Seq<EdgeView>
    decreases k,
{
    if k == 0 || k > f.1.writes@.len() {
        Seq::empty()
    } else {
        flow_write_edges(f, ids, (k - 1) as nat) + if holds(ids, f.0@) && holds(ids, f.1.writes@[k - 1]@) {
            seq![EdgeView { from: f.0@, to: f.1.writes@[k - 1]@, kind: EdgeKind::DataFlow }]
        } else {
            Seq::empty()
        }
    }
}

/// The data-flow edges of one function: its reads' edges, then its writes'.
pub open spec fn function_flow_edges(f: (String, IoSets), ids: Seq<String>) -> Seq<EdgeView> {
    flow_read_edges(f, ids, f.1.reads@.len()) + flow_write_edges(f, ids, f.1.writes@.len())
}

/// The data-flow edges of the first `n` functions, in order.
pub open spec fn flows_edges(flows: Seq<(String, IoSets)>, ids: Seq<String>, n: nat) -> Seq<EdgeView>
    decreases n,
{
    if n == 0 || n > flows.len() {
        Seq::empty()
    } else {
        flows_edges(flows, ids, (n - 1) as nat) + function_flow_edges(flows[n - 1], ids)
    }
}

/// Append the data-flow edges of one function: each read into the function,
/// then the function into each write, where both ends are structural ids.
fn add_flow_edges(edges: &mut Vec<GraphEdge>, f: &(String, IoSets), ids: &Vec<String>)
    ensures
        edge_views(final(edges)@) == edge_views(old(edges)@) + function_flow_edges(*f, ids@),
        forall|x: EdgeView| #[trigger] edge_views(final(edges)@).contains(x) <==> (edge_views(
            old(edges)@,
        ).contains(x) || (x.kind == EdgeKind::DataFlow && flow_edge(*f, x) && holds(ids@, x.from)
            && holds(ids@, x.to))),
{
    let ghost start = edge_views(edges@);
    let fname = &f.0;
    let reads = &f.1.reads;
    let writes = &f.1.writes;
    let fn_known = holds_text(ids, fname);
    let mut k: usize = 0;
    while k < reads.len()
        invariant
            k <= reads.len(),
            *reads == f.1.reads,
            *fname == f.0,
            fn_known == holds(ids@, fname@),
            edge_views(edges@) == start + flow_read_edges(*f, ids@, k as nat),
            forall|x: EdgeView| #[trigger] edge_views(edges@).contains(x) <==> (start.contains(x) || (
                x.kind == EdgeKind::DataFlow && x.to == fname@ && (exists|m: int| 0 <= m < k && (#[trigger] reads@[m])@ == x.from)
                && holds(ids@, x.from) && holds(ids@, x.to))),
        decreases reads.len() - k,
    {
        if fn_known && holds_text(ids, &reads[k]) {
            let e = GraphEdge::new(reads[k].as_str(), fname.as_str(), EdgeKind::DataFlow);
            let ghost ex = e@;
            push_edge(edges, e);
            proof {
                assert(flow_read_edges(*f, ids@, (k + 1) as nat) == flow_read_edges(*f, ids@, k as nat).push(ex));
                assert(edge_views(edges@) =~= start + flow_read_edges(*f, ids@, (k + 1) as nat));
                assert forall|x: EdgeView| #[trigger] edge_views(edges@).contains(x) <==> (start.contains(x) || (
                x.kind == EdgeKind::DataFlow && x.to == fname@ && (exists|m: int| 0 <= m < k + 1 && (#[trigger] reads@[m])@ == x.from)
                && holds(ids@, x.from) && holds(ids@, x.to))) by {
                    if x == ex {
                        assert(reads@[k as int]@ == x.from);
                    }
                    if x.kind == EdgeKind::DataFlow && x.to == fname@ && (exists|m: int| 0 <= m < k + 1 && (#[trigger] reads@[m])@ == x.from) {
                        let m = choose|m: int| 0 <= m < k + 1 && (#[trigger] reads@[m])@ == x.from;
                        if m == k {
                            assert(x == ex);
                        }
                    }
                }
            }
        } else {
            proof {
                assert(flow_read_edges(*f, ids@, (k + 1) as nat) =~= flow_read_edges(*f, ids@, k as nat));
                assert forall|x: EdgeView| (x.kind == EdgeKind::DataFlow && x.to == fname@ && (exists|m: int| 0 <= m < k + 1 && (#[trigger] reads@[m])@ == x.from)
                && holds(ids@, x.from) && holds(ids@, x.to)) implies (exists|m: int| 0 <= m < k && (#[trigger] reads@[m])@ == x.from) by {
                    let m = choose|m: int| 0 <= m < k + 1 && (#[trigger] reads@[m])@ == x.from;
                }
            }
        }
        k = k + 1;
    }
    let ghost mid = edge_views(edges@);
    let mut k: usize = 0;
    while k < writes.len()
        invariant
            k <= writes.len(),
            *reads == f.1.reads,
            *writes == f.1.writes,
            *fname == f.0,
            fn_known == holds(ids@, fname@),
            mid == start + flow_read_edges(*f, ids@, reads@.len() as nat),
            edge_views(edges@) == mid + flow_write_edges(*f, ids@, k as nat),
            forall|x: EdgeView| #[trigger] edge_views(edges@).contains(x) <==> (mid.contains(x) || (
                x.kind == EdgeKind::DataFlow && x.from == fname@ && (exists|m: int| 0 <= m < k && (#[trigger] writes@[m])@ == x.to)
                && holds(ids@, x.from) && holds(ids@, x.to))),
        decreases writes.len() - k,
    {
        if fn_known && holds_text(ids, &writes[k]) {
            let e = GraphEdge::new(fname.as_str(), writes[k].as_str(), EdgeKind::DataFlow);
            let ghost ex = e@;
            push_edge(edges, e);
            proof {
                assert(flow_write_edges(*f, ids@, (k + 1) as nat) == flow_write_edges(*f, ids@, k as nat).push(ex));
                assert(edge_views(edges@) =~= mid + flow_write_edges(*f, ids@, (k + 1) as nat));
                assert forall|x: EdgeView| #[trigger] edge_views(edges@).contains(x) <==> (mid.contains(x) || (
                x.kind == EdgeKind::DataFlow && x.from == fname@ && (exists|m: int| 0 <= m < k + 1 && (#[trigger] writes@[m])@ == x.to)
                && holds(ids@, x.from) && holds(ids@, x.to))) by {
                    if x == ex {
                        assert(writes@[k as int]@ == x.to);
                    }
                    if x.kind == EdgeKind::DataFlow && x.from == fname@ && (exists|m: int| 0 <= m < k + 1 && (#[trigger] writes@[m])@ == x.to) {
                        let m = choose|m: int| 0 <= m < k + 1 && (#[trigger] writes@[m])@ == x.to;
                        if m == k {
                            assert(x == ex);
                        }
                    }
                }
            }
        } else {
            proof {
                assert(flow_write_edges(*f, ids@, (k + 1) as nat) =~= flow_write_edges(*f, ids@, k as nat));
                assert forall|x: EdgeView| (x.kind == EdgeKind::DataFlow && x.from == fname@ && (exists|m: int| 0 <= m < k + 1 && (#[trigger] writes@[m])@ == x.to)
                && holds(ids@, x.from) && holds(ids@, x.to)) implies (exists|m: int| 0 <= m < k && (#[trigger] writes@[m])@ == x.to) by {
                    let m = choose|m: int| 0 <= m < k + 1 && (#[trigger] writes@[m])@ == x.to;
                }
            }
        }
        k = k + 1;
    }
    proof {
        assert(edge_views(edges@) =~= start + function_flow_edges(*f, ids@));
        assert forall|x: EdgeView| #[trigger] edge_views(edges@).contains(x) <==> (start.contains(x) || (
            x.kind == EdgeKind::DataFlow && flow_edge(*f, x) && holds(ids@, x.from) && holds(ids@, x.to))) by {
            if holds(f.1.reads@, x.from) {
                let m = choose|m: int| 0 <= m < f.1.reads@.len() && f.1.reads@[m]@ == x.from;
                assert(reads@[m]@ == x.from);
            }
            if holds(f.1.writes@, x.to) {
                let m = choose|m: int| 0 <= m < f.1.writes@.len() && f.1.writes@[m]@ == x.to;
                assert(writes@[m]@ == x.to);
            }
        }
    }
}

/// Append the data-flow edges of every function, in function order.
fn add_data_flow_edges(edges: &mut Vec<GraphEdge>, flows: &Vec<(String, IoSets)>, ids: &Vec<String>)
    ensures
        edge_views(final(edges)@) == edge_views(old(edges)@) + flows_edges(flows@, ids@, flows@.len() as nat),
        forall|x: EdgeView| #[trigger] edge_views(final(edges)@).contains(x) <==> (edge_views(
            old(edges)@,
        ).contains(x) || flow_upto(flows@, ids@, x, flows@.len() as int)),
{
    let ghost start = edge_views(edges@);
    let mut j: usize = 0;
    while j < flows.len()
        invariant
            j <= flows.len(),
            edge_views(edges@) == start + flows_edges(flows@, ids@, j as nat),
            forall|x: EdgeView| #[trigger] edge_views(edges@).contains(x) <==> (start.contains(x)
                || flow_upto(flows@, ids@, x, j as int)),
        decreases flows.len() - j,
    {
        add_flow_edges(edges, &flows[j], ids);
        proof {
            assert(edge_views(edges@) =~= start + flows_edges(flows@, ids@, (j + 1) as nat));
            assert forall|x: EdgeView| #[trigger] edge_views(edges@).contains(x) <==> (start.contains(x)
                || flow_upto(flows@, ids@, x, j + 1)) by {
                if flow_upto(flows@, ids@, x, j + 1) && !flow_upto(flows@, ids@, x, j as int) {
                    let m = choose|m: int| 0 <= m < j + 1 && flow_edge(#[trigger] flows@[m], x);
                    assert(m == j);
                }
                if x.kind == EdgeKind::DataFlow && flow_edge(flows@[j as int], x) && holds(ids@, x.from) && holds(ids@, x.to) {
                    assert(flow_upto(flows@, ids@, x, j + 1));
                }
            }
        }
        j = j + 1;
    }
}


// ---------------------------------------------------------------------------
// The whole graph
// ---------------------------------------------------------------------------

pub proof fn lemma_with_id_unique(s: Seq<NodeView>, id: Seq<char>, f: spec_fn(Seq<char>) -> NodeView)
    requires
        forall|i: int, j: int| 0 <= i < j < s.len() ==> s[i].id != s[j].id,
        forall|i: int| 0 <= i < s.len() ==> s[i] == f(s[i].id),
    ensures
        with_id(s, id) == (if has_id(s, id) {
            seq![f(id)]
        } else {
            Seq::<NodeView>::empty()
        }),
    decreases s.len(),
{
    if s.len() > 0 {
        let d = s.drop_last();
        lemma_with_id_unique(d, id, f);
        if s.last().id == id {
            assert forall|i: int| 0 <= i < d.len() implies d[i].id != id by {
                assert(s[i].id != s[s.len() - 1].id);
            }
            assert(!has_id(d, id));
            assert(Seq::<NodeView>::empty().push(s.last()) == seq![f(id)]);
            assert(has_id(s, id));
        } else {
            assert(has_id(s, id) == has_id(d, id)) by {
                if has_id(s, id) {
                    let k = choose|k: int| 0 <= k < s.len() && s[k].id == id;
                    assert(d[k].id == id);
                }
                if has_id(d, id) {
                    let k = choose|k: int| 0 <= k < d.len() && d[k].id == id;
                    assert(s[k].id == id);
                }
            }
        }
    } else {
        assert(!has_id(s, id));
    }
}

pub proof fn lemma_symbol_nodes_shape(syms: Seq<Symbol>)
    ensures
        forall|i: int|
            0 <= i < symbol_nodes(syms).len() ==> (#[trigger] symbol_nodes(syms)[i]).parent == parent_of(
                symbol_nodes(syms)[i].id,
            ),
    decreases syms.len(),
{
    if syms.len() > 0 {
        lemma_symbol_nodes_shape(syms.drop_last());
    }
}

/// Whether every node of `ns` records either no parent or its id's dotted
/// parent.
pub open spec fn dotted_parents(ns: Seq<NodeView>) -> bool {
    forall|i: int|
        0 <= i < ns.len() ==> (#[trigger] ns[i]).parent is None || ns[i].parent == parent_of(ns[i].id)
}

/// Every node of a graph built from a symbol table records either no parent
/// (a clock) or its id's dotted parent; every node that is not a clock records
/// exactly its id's dotted parent (none for an id without a dot).
pub proof fn lemma_graph_parents_dotted(
    m: GraphModel,
    syms: Seq<Symbol>,
    flows: Seq<(String, IoSets)>,
    title: Option<String>,
)
    requires
        graph_of(m, syms, flows, title),
    ensures
        dotted_parents(node_views(m.nodes@)),
        forall|i: int|
            0 <= i < node_views(m.nodes@).len() && !is_clock(#[trigger] node_views(m.nodes@)[i]) ==> node_views(
                m.nodes@,
            )[i].parent == parent_of(node_views(m.nodes@)[i].id),
{
    let nv = node_views(m.nodes@);
    lemma_symbol_nodes_shape(syms);
    assert forall|i: int| 0 <= i < nv.len() implies ((#[trigger] nv[i]).parent is None || nv[i].parent
        == parent_of(nv[i].id)) && (!is_clock(nv[i]) ==> nv[i].parent == parent_of(nv[i].id)) by {
        let v = nv[i];
        let id = v.id;
        lemma_with_id_members(nv, id);
        assert(with_id(nv, id).contains(v));
        assert(with_id(nv, id) == expected_with_id(syms, id));
        let sn = symbol_nodes(syms);
        let a = with_id(sn, id);
        let b = if synthesized(syms, id) {
            seq![group_node(id)]
        } else {
            Seq::<NodeView>::empty()
        };
        let c = match first_rate(sn, id) {
            Some(r) => seq![clock_node(id, r)],
            None => Seq::<NodeView>::empty(),
        };
        let e = expected_with_id(syms, id);
        assert(e == a + b + c);
        let k = choose|k: int| 0 <= k < e.len() && e[k] == v;
        if k < a.len() {
            assert(e[k] == a[k]);
            lemma_with_id_members(sn, id);
            assert(sn.contains(a[k]));
            let j = choose|j: int| 0 <= j < sn.len() && sn[j] == a[k];
            assert(sn[j].parent == parent_of(sn[j].id));
        } else if k < a.len() + b.len() {
            assert(e[k] == b[k - a.len()]);
        } else {
            assert(e[k] == c[k - a.len() - b.len()]);
        }
    }
}

/// The concatenation of two node lists.
fn concat_nodes(a: &Vec<GraphNode>, b: &Vec<GraphNode>) -> (v: Vec<GraphNode>)
    ensures
        node_views(v@) == node_views(a@) + node_views(b@),
{
    let mut v: Vec<GraphNode> = Vec::new();
    let mut i: usize = 0;
    while i < a.len()
        invariant
            i <= a.len(),
            node_views(v@) == node_views(a@).take(i as int),
        decreases a.len() - i,
    {
        v.push(a[i].duplicate());
        proof {
            assert(node_views(a@).take(i + 1) =~= node_views(a@).take(i as int).push(a@[i as int]@));
            assert(node_views(v@) =~= node_views(a@).take(i + 1));
        }
        i = i + 1;
    }
    let mut j: usize = 0;
    while j < b.len()
        invariant
            j <= b.len(),
            node_views(v@) == node_views(a@) + node_views(b@).take(j as int),
        decreases b.len() - j,
    {
        let ghost before = node_views(v@);
        v.push(b[j].duplicate());
        proof {
            assert(node_views(v@) =~= before.push(b@[j as int]@));
            assert(node_views(b@).take(j + 1) =~= node_views(b@).take(j as int).push(b@[j as int]@));
            assert(node_views(v@) =~= node_views(a@) + node_views(b@).take(j + 1));
        }
        j = j + 1;
    }
    proof {
        assert(node_views(a@).take(a@.len() as int) == node_views(a@));
        assert(node_views(b@).take(b@.len() as int) == node_views(b@));
    }
    v
}

/// Build the structural graph model from a project's symbols and the read/write
/// sets of its functions (each paired with the path of the function it backs).
pub fn build_model_with_scripts(
    symbols: &Vec<Symbol>,
    flows: &Vec<(String, IoSets)>,
    title: Option<String>,
) -> (m: GraphModel)
    ensures
        graph_of(m, symbols@, flows@, title),
{
    let ghost syms = symbols@;
    let sym_nodes = symbol_node_list(symbols);
    let (ids, synth) = structural_ids(&sym_nodes, Ghost(syms));
    let sn = concat_nodes(&sym_nodes, &synth);
    let clocks = clock_nodes(&sym_nodes);
    let mut edges: Vec<GraphEdge> = Vec::new();
    let ghost e0 = edge_views(edges@);
    add_hierarchy_edges(&mut edges, &sn, &ids);
    let ghost e1 = edge_views(edges@);
    let tables = table_paths(symbols);
    add_table_axis_edges(&mut edges, &tables, &sn);
    let ghost e2 = edge_views(edges@);
    add_schedule_edges(&mut edges, &sym_nodes);
    let ghost e3 = edge_views(edges@);
    add_data_flow_edges(&mut edges, flows, &ids);
    let mut nodes: Vec<GraphNode> = Vec::new();
    let ghost n0 = node_views(nodes@);
    insert_all_by_id(&mut nodes, &sym_nodes);
    let ghost n1 = node_views(nodes@);
    insert_all_by_id(&mut nodes, &synth);
    let ghost n2 = node_views(nodes@);
    insert_all_by_id(&mut nodes, &clocks);
    let ghost raw = edge_views(edges@);
    let edges = sort_edges(&edges);
    let m = GraphModel { title, nodes, edges, overlay: None };
    proof {
        let sv = symbol_nodes(syms);
        let snv = node_views(sn@);
        lemma_symbol_nodes_shape(syms);
        // The structural nodes: their ids are the structural ids, and each
        // records its dotted parent.
        assert(snv == sv + node_views(synth@));
        assert forall|x: Seq<char>| has_id(snv, x) implies structural_id(syms, x) by {
            if has_id(snv, x) {
                let k = choose|k: int| 0 <= k < snv.len() && snv[k].id == x;
                if k < sv.len() {
                    assert(sv[k].id == x);
                    assert(has_id(sv, x));
                } else {
                    assert(node_views(synth@)[k - sv.len()].id == x);
                    assert(has_id(node_views(synth@), x));
                    assert(synthesized(syms, x));
                }
                assert(structural_id(syms, x));
            }
        }
        assert forall|x: Seq<char>| structural_id(syms, x) implies has_id(snv, x) by {
            if structural_id(syms, x) {
                if has_id(sv, x) {
                    let k = choose|k: int| 0 <= k < sv.len() && sv[k].id == x;
                    assert(snv[k].id == x);
                } else {
                    assert(synthesized(syms, x));
                    let k = choose|k: int| 0 <= k < node_views(synth@).len() && node_views(synth@)[k].id == x;
                    assert(snv[sv.len() + k].id == x);
                }
            }
        }
        assert forall|i: int| 0 <= i < snv.len() implies (#[trigger] snv[i]).parent == parent_of(snv[i].id) by {
            if i < sv.len() {
                assert(snv[i] == sv[i]);
            } else {
                assert(snv[i] == node_views(synth@)[i - sv.len()]);
                assert(synth@[i - sv.len()]@ == group_node(synth@[i - sv.len()]@.id));
            }
        }
        // Nodes.
        let nv = node_views(m.nodes@);
        assert forall|id: Seq<char>| #[trigger] with_id(nv, id) == expected_with_id(syms, id) by {
            assert(n0 == Seq::<NodeView>::empty());
            assert(n0 + node_views(sym_nodes@) == sv);
            lemma_with_id_add(n1, node_views(synth@), id);
            lemma_with_id_add(n2, node_views(clocks@), id);
            lemma_with_id_unique(node_views(synth@), id, |p: Seq<char>| group_node(p));
            assert(has_id(node_views(synth@), id) == synthesized(syms, id));
            let cf = |c: Seq<char>| clock_node(c, first_rate(sv, c)->0);
            assert forall|i: int| 0 <= i < node_views(clocks@).len() implies node_views(clocks@)[i] == cf(
                node_views(clocks@)[i].id,
            ) by {
                assert(node_views(clocks@)[i] == clocks@[i]@);
            }
            assert forall|i: int, j: int| 0 <= i < j < node_views(clocks@).len() implies node_views(clocks@)[i].id
                != node_views(clocks@)[j].id by {
                assert(node_views(clocks@)[i] == clocks@[i]@);
                assert(node_views(clocks@)[j] == clocks@[j]@);
            }
            assert forall|i: int, j: int| 0 <= i < j < node_views(synth@).len() implies node_views(synth@)[i].id
                != node_views(synth@)[j].id by {
                assert(node_views(synth@)[i] == synth@[i]@);
                assert(node_views(synth@)[j] == synth@[j]@);
            }
            assert forall|i: int| 0 <= i < node_views(synth@).len() implies node_views(synth@)[i] == group_node(
                node_views(synth@)[i].id,
            ) by {
                assert(node_views(synth@)[i] == synth@[i]@);
            }
            lemma_with_id_unique(node_views(clocks@), id, cf);
            assert(has_id(node_views(clocks@), id) == (first_rate(sv, id) is Some));
        }
        // Edges.
        let ev = edge_views(m.edges@);
        assert(e0 =~= Seq::<EdgeView>::empty());
        assert forall|x: EdgeView| #[trigger] ev.contains(x) <==> expected_edge(syms, flows@, x) by {
            assert(ev.contains(x) == raw.contains(x));
            assert(!e0.contains(x));
            if hierarchy_upto(snv, ids@, x, snv.len() as int) {
                let k = choose|k: int| 0 <= k < snv.len() && (#[trigger] snv[k]).parent == Some(x.from) && snv[k].id == x.to;
                assert(has_id(snv, x.to));
            }
            if x.kind == EdgeKind::Hierarchy && expected_edge(syms, flows@, x) {
                assert(has_id(snv, x.to));
                let k = choose|k: int| 0 <= k < snv.len() && snv[k].id == x.to;
                assert(snv[k].parent == parent_of(snv[k].id));
                assert(hierarchy_upto(snv, ids@, x, snv.len() as int));
            }
            if x.kind == EdgeKind::TableAxis && expected_edge(syms, flows@, x) {
                assert(is_table_path(syms, x.from));
                assert(holds(tables@, x.from));
                assert(table_edge(tables@, snv, x));
            }
            if x.kind == EdgeKind::Schedule && expected_edge(syms, flows@, x) {
                let i = choose|i: int| 0 <= i < sv.len() && (#[trigger] sv[i]).rate_hz is Some && x.from == clock_id(sv[i].rate_hz->0) && x.to == sv[i].id;
                assert(schedule_upto(node_views(sym_nodes@), x, sym_nodes@.len() as int));
            }
        }
    }
    m
}

/// Build the structural graph model from a project's symbols alone, with no
/// function scripts (so no data-flow edges).
pub fn build_model(symbols: &Vec<Symbol>, title: Option<String>) -> (m: GraphModel)
    ensures
        graph_of(m, symbols@, Seq::empty(), title),
{
    let flows: Vec<(String, IoSets)> = Vec::new();
    build_model_with_scripts(symbols, &flows, title)
}


// ---------------------------------------------------------------------------
// Laws
// ---------------------------------------------------------------------------

proof fn lemma_with_id_members(s: Seq<NodeView>, id: Seq<char>)
    ensures
        forall|j: int| 0 <= j < with_id(s, id).len() ==> (#[trigger] with_id(s, id)[j]).id == id && s.contains(
            with_id(s, id)[j],
        ),
        forall|i: int| 0 <= i < s.len() && s[i].id == id ==> with_id(s, id).contains(#[trigger] s[i]),
        has_id(s, id) <==> with_id(s, id).len() > 0,
    decreases s.len(),
{
    if s.len() > 0 {
        let d = s.drop_last();
        lemma_with_id_members(d, id);
        let w = with_id(s, id);
        let wd = with_id(d, id);
        assert forall|j: int| 0 <= j < w.len() implies (#[trigger] w[j]).id == id && s.contains(w[j]) by {
            if j < wd.len() {
                assert(w[j] == wd[j]);
                let k = choose|k: int| 0 <= k < d.len() && d[k] == wd[j];
                assert(s[k] == d[k]);
            } else {
                assert(w[j] == s.last());
                assert(s[s.len() - 1] == s.last());
            }
        }
        assert forall|i: int| 0 <= i < s.len() && s[i].id == id implies w.contains(#[trigger] s[i]) by {
            if i < s.len() - 1 {
                assert(s[i] == d[i]);
                let k = choose|k: int| 0 <= k < wd.len() && wd[k] == d[i];
                assert(w[k] == wd[k]);
            } else {
                assert(w[w.len() - 1] == s[i]);
            }
        }
        if has_id(s, id) {
            let i = choose|i: int| 0 <= i < s.len() && s[i].id == id;
            assert(w.contains(s[i]));
        }
        if w.len() > 0 {
            assert(s.contains(w[0]));
            let k = choose|k: int| 0 <= k < s.len() && s[k] == w[0];
            assert(s[k].id == id);
        }
    } else {
        assert(!has_id(s, id));
    }
}

proof fn lemma_symbol_node_parents(syms: Seq<Symbol>, x: NodeView)
    requires
        symbol_nodes(syms).contains(x),
    ensures
        x.parent == parent_of(x.id),
        has_id(symbol_nodes(syms), x.id),
{
    lemma_symbol_nodes_shape(syms);
    let k = choose|k: int| 0 <= k < symbol_nodes(syms).len() && symbol_nodes(syms)[k] == x;
    assert(symbol_nodes(syms)[k].parent == parent_of(symbol_nodes(syms)[k].id));
}

proof fn lemma_structural_parent(syms: Seq<Symbol>, k: Seq<char>, p: Seq<char>)
    requires
        structural_id(syms, k),
        parent_of(k) == Some(p),
    ensures
        structural_id(syms, p),
{
    lemma_is_ancestor_step(p, k);
    assert(is_ancestor(p, k));
    let sn = symbol_nodes(syms);
    if has_id(sn, k) {
        let i = choose|i: int| 0 <= i < sn.len() && sn[i].id == k;
        assert(is_ancestor(p, sn[i].id));
    } else {
        let i = choose|i: int| 0 <= i < sn.len() && is_ancestor(k, #[trigger] sn[i].id);
        lemma_is_ancestor_transitive(p, k, sn[i].id);
    }
}

/// The hierarchy is connected up to the roots: every node that records a
/// parent has that parent as a node of the graph, joined to it by a hierarchy
/// edge.
pub proof fn lemma_parents_are_connected(
    m: GraphModel,
    syms: Seq<Symbol>,
    flows: Seq<(String, IoSets)>,
    title: Option<String>,
    i: int,
)
    requires
        graph_of(m, syms, flows, title),
        0 <= i < m.nodes@.len(),
        m.nodes@[i]@.parent is Some,
    ensures
        has_id(node_views(m.nodes@), m.nodes@[i]@.parent->0),
        edge_views(m.edges@).contains(
            EdgeView {
                from: m.nodes@[i]@.parent->0,
                to: m.nodes@[i]@.id,
                kind: EdgeKind::Hierarchy,
            },
        ),
{
    let nv = node_views(m.nodes@);
    let x = nv[i];
    let k = x.id;
    let p = x.parent->0;
    lemma_with_id_members(nv, k);
    assert(with_id(nv, k).contains(x));
    assert(with_id(nv, k) == expected_with_id(syms, k));
    let sn = symbol_nodes(syms);
    let a = with_id(sn, k);
    let b = if synthesized(syms, k) {
        seq![group_node(k)]
    } else {
        Seq::<NodeView>::empty()
    };
    let c = match first_rate(sn, k) {
        Some(r) => seq![clock_node(k, r)],
        None => Seq::<NodeView>::empty(),
    };
    assert(expected_with_id(syms, k) == a + b + c);
    let j = choose|j: int| 0 <= j < (a + b + c).len() && (a + b + c)[j] == x;
    lemma_with_id_members(sn, k);
    if j < a.len() {
        assert((a + b + c)[j] == a[j]);
        lemma_symbol_node_parents(syms, x);
        assert(structural_id(syms, k));
    } else if j < a.len() + b.len() {
        assert((a + b + c)[j] == b[j - a.len()]);
        assert(synthesized(syms, k));
    } else {
        assert((a + b + c)[j] == c[j - a.len() - b.len()]);
        assert(x.parent is None);
    }
    assert(parent_of(k) == Some(p));
    lemma_structural_parent(syms, k, p);
    let e = EdgeView { from: p, to: k, kind: EdgeKind::Hierarchy };
    assert(expected_edge(syms, flows, e));
    lemma_with_id_members(nv, p);
    lemma_with_id_members(sn, p);
    assert(with_id(nv, p) == expected_with_id(syms, p));
    if has_id(sn, p) {
        assert(with_id(sn, p).len() > 0);
    } else {
        assert(synthesized(syms, p));
    }
    assert(with_id(nv, p).len() > 0);
}

/// A structural id is the id of a node of the graph whose recorded parent is
/// the id's dotted parent.
proof fn lemma_structural_node(
    m: GraphModel,
    syms: Seq<Symbol>,
    flows: Seq<(String, IoSets)>,
    title: Option<String>,
    x: Seq<char>,
) -> (i: int)
    requires
        graph_of(m, syms, flows, title),
        structural_id(syms, x),
    ensures
        0 <= i < node_views(m.nodes@).len(),
        node_views(m.nodes@)[i].id == x,
        node_views(m.nodes@)[i].parent == parent_of(x),
{
    let nv = node_views(m.nodes@);
    let sn = symbol_nodes(syms);
    lemma_with_id_members(nv, x);
    lemma_with_id_members(sn, x);
    assert(with_id(nv, x) == expected_with_id(syms, x));
    let a = with_id(sn, x);
    let b = if synthesized(syms, x) {
        seq![group_node(x)]
    } else {
        Seq::<NodeView>::empty()
    };
    let c = match first_rate(sn, x) {
        Some(r) => seq![clock_node(x, r)],
        None => Seq::<NodeView>::empty(),
    };
    assert(expected_with_id(syms, x) == a + b + c);
    let v = if has_id(sn, x) {
        assert(a.len() > 0);
        assert((a + b + c)[0] == a[0]);
        lemma_symbol_node_parents(syms, a[0]);
        a[0]
    } else {
        assert((a + b + c)[a.len() as int] == group_node(x));
        group_node(x)
    };
    assert(with_id(nv, x).contains(v));
    let i = choose|i: int| 0 <= i < nv.len() && nv[i] == v;
    i
}

/// The hierarchy edges of a graph built from a symbol table are exactly the
/// links from a node's recorded parent to the node. (With
/// `lemma_graph_parents_dotted`, each such parent is the dotted parent of the
/// node's id.)
pub proof fn lemma_hierarchy_edges_are_parent_links(
    m: GraphModel,
    syms: Seq<Symbol>,
    flows: Seq<(String, IoSets)>,
    title: Option<String>,
    e: EdgeView,
)
    requires
        graph_of(m, syms, flows, title),
        e.kind == EdgeKind::Hierarchy,
    ensures
        edge_views(m.edges@).contains(e) <==> exists|i: int|
            0 <= i < node_views(m.nodes@).len() && (#[trigger] node_views(m.nodes@)[i]).id == e.to
                && node_views(m.nodes@)[i].parent == Some(e.from),
{
    let nv = node_views(m.nodes@);
    if edge_views(m.edges@).contains(e) {
        assert(expected_edge(syms, flows, e));
        let i = lemma_structural_node(m, syms, flows, title, e.to);
        assert(nv[i].id == e.to && nv[i].parent == Some(e.from));
    }
    if exists|i: int| 0 <= i < nv.len() && (#[trigger] nv[i]).id == e.to && nv[i].parent == Some(e.from) {
        let i = choose|i: int| 0 <= i < nv.len() && (#[trigger] nv[i]).id == e.to && nv[i].parent == Some(e.from);
        assert(nv[i] == m.nodes@[i]@);
        lemma_parents_are_connected(m, syms, flows, title, i);
        assert(e == EdgeView { from: m.nodes@[i]@.parent->0, to: m.nodes@[i]@.id, kind: EdgeKind::Hierarchy });
    }
}

proof fn lemma_ancestor_structural(syms: Seq<Symbol>, a: Seq<char>, x: Seq<char>)
    requires
        structural_id(syms, x),
        is_ancestor(a, x),
    ensures
        structural_id(syms, a),
    decreases x.len(),
{
    lemma_is_ancestor_step(a, x);
    let p = parent_of(x)->0;
    lemma_last_index_of(x, '.');
    lemma_structural_parent(syms, x, p);
    if p != a {
        lemma_ancestor_structural(syms, a, p);
    }
}

/// Every dotted ancestor of a node that records a parent is itself a node of
/// the graph (undeclared ancestors are synthesized as groups).
pub proof fn lemma_ancestors_are_nodes(
    m: GraphModel,
    syms: Seq<Symbol>,
    flows: Seq<(String, IoSets)>,
    title: Option<String>,
    i: int,
    a: Seq<char>,
)
    requires
        graph_of(m, syms, flows, title),
        0 <= i < m.nodes@.len(),
        m.nodes@[i]@.parent is Some,
        is_ancestor(a, m.nodes@[i]@.id),
    ensures
        has_id(node_views(m.nodes@), a),
{
    let nv = node_views(m.nodes@);
    lemma_parents_are_connected(m, syms, flows, title, i);
    let e = EdgeView { from: m.nodes@[i]@.parent->0, to: m.nodes@[i]@.id, kind: EdgeKind::Hierarchy };
    assert(expected_edge(syms, flows, e));
    lemma_ancestor_structural(syms, a, m.nodes@[i]@.id);
    let j = lemma_structural_node(m, syms, flows, title, a);
}

/// Whether a node is a synthetic clock: it has a rate but, unlike every
/// symbol node, no type label.
pub open spec fn is_clock(v: NodeView) -> bool {
    v.type_label is None && v.rate_hz is Some
}

/// The clock nodes among `ns` whose id is `c`.
pub open spec fn clocks_with_id(ns: Seq<NodeView>, c: Seq<char>) -> Seq<NodeView> {
    with_id(ns, c).filter(|v: NodeView| is_clock(v))
}

/// Whether some non-clock node of `ns` has a rate whose clock id is `c`.
pub open spec fn rated_for(ns: Seq<NodeView>, c: Seq<char>) -> bool {
    exists|i: int|
        0 <= i < ns.len() && !is_clock(#[trigger] ns[i]) && ns[i].rate_hz is Some && clock_id(
            ns[i].rate_hz->0,
        ) == c
}

proof fn lemma_symbol_nodes_typed(syms: Seq<Symbol>)
    ensures
        forall|i: int|
            0 <= i < symbol_nodes(syms).len() ==> (#[trigger] symbol_nodes(syms)[i]).type_label is Some,
    decreases syms.len(),
{
    if syms.len() > 0 {
        lemma_symbol_nodes_typed(syms.drop_last());
    }
}

proof fn lemma_first_rate(ns: Seq<NodeView>, c: Seq<char>)
    ensures
        first_rate(ns, c) is Some <==> exists|k: int|
            0 <= k < ns.len() && (#[trigger] ns[k]).rate_hz is Some && clock_id(ns[k].rate_hz->0) == c,
        first_rate(ns, c) is Some ==> clock_id(first_rate(ns, c)->0) == c,
    decreases ns.len(),
{
    if ns.len() > 0 {
        let d = ns.drop_last();
        lemma_first_rate(d, c);
        if exists|k: int| 0 <= k < d.len() && (#[trigger] d[k]).rate_hz is Some && clock_id(d[k].rate_hz->0) == c {
            let k = choose|k: int| 0 <= k < d.len() && (#[trigger] d[k]).rate_hz is Some && clock_id(d[k].rate_hz->0) == c;
            assert(ns[k] == d[k]);
        }
        if exists|k: int| 0 <= k < ns.len() && (#[trigger] ns[k]).rate_hz is Some && clock_id(ns[k].rate_hz->0) == c {
            let k = choose|k: int| 0 <= k < ns.len() && (#[trigger] ns[k]).rate_hz is Some && clock_id(ns[k].rate_hz->0) == c;
            if k < ns.len() - 1 {
                assert(d[k] == ns[k]);
            }
        }
    }
}

/// A node of a graph built from a symbol table is a clock, a synthesized
/// group (no rate), or a symbol node.
proof fn lemma_node_origin(
    m: GraphModel,
    syms: Seq<Symbol>,
    flows: Seq<(String, IoSets)>,
    title: Option<String>,
    i: int,
)
    requires
        graph_of(m, syms, flows, title),
        0 <= i < node_views(m.nodes@).len(),
    ensures
        is_clock(node_views(m.nodes@)[i]) || node_views(m.nodes@)[i].rate_hz is None || symbol_nodes(
            syms,
        ).contains(node_views(m.nodes@)[i]),
{
    let nv = node_views(m.nodes@);
    let v = nv[i];
    let x = v.id;
    let sn = symbol_nodes(syms);
    lemma_with_id_members(nv, x);
    lemma_with_id_members(sn, x);
    assert(with_id(nv, x).contains(v));
    let a = with_id(sn, x);
    let b = if synthesized(syms, x) {
        seq![group_node(x)]
    } else {
        Seq::<NodeView>::empty()
    };
    let c = match first_rate(sn, x) {
        Some(r) => seq![clock_node(x, r)],
        None => Seq::<NodeView>::empty(),
    };
    assert(with_id(nv, x) == a + b + c);
    let j = choose|j: int| 0 <= j < (a + b + c).len() && (a + b + c)[j] == v;
    if j < a.len() {
        assert((a + b + c)[j] == a[j]);
    } else if j < a.len() + b.len() {
        assert((a + b + c)[j] == b[j - a.len()]);
    } else {
        assert((a + b + c)[j] == c[j - a.len() - b.len()]);
    }
}

/// A rated symbol node is a rated non-clock node of the graph, and a rated
/// non-clock node of the graph is a symbol node.
proof fn lemma_rated_nodes(
    m: GraphModel,
    syms: Seq<Symbol>,
    flows: Seq<(String, IoSets)>,
    title: Option<String>,
)
    requires
        graph_of(m, syms, flows, title),
    ensures
        forall|k: int|
            0 <= k < symbol_nodes(syms).len() ==> !is_clock(#[trigger] symbol_nodes(syms)[k])
                && node_views(m.nodes@).contains(symbol_nodes(syms)[k]),
        forall|i: int|
            0 <= i < node_views(m.nodes@).len() && !is_clock(#[trigger] node_views(m.nodes@)[i])
                && node_views(m.nodes@)[i].rate_hz is Some ==> symbol_nodes(syms).contains(
                node_views(m.nodes@)[i],
            ),
{
    let nv = node_views(m.nodes@);
    let sn = symbol_nodes(syms);
    lemma_symbol_nodes_typed(syms);
    assert forall|k: int| 0 <= k < sn.len() implies !is_clock(#[trigger] sn[k]) && nv.contains(sn[k]) by {
        let x = sn[k].id;
        lemma_with_id_members(sn, x);
        lemma_with_id_members(nv, x);
        assert(with_id(sn, x).contains(sn[k]));
        let j = choose|j: int| 0 <= j < with_id(sn, x).len() && with_id(sn, x)[j] == sn[k];
        assert(with_id(nv, x) == expected_with_id(syms, x));
        assert(expected_with_id(syms, x)[j] == sn[k]);
        assert(with_id(nv, x).contains(sn[k]));
    }
    assert forall|i: int| 0 <= i < nv.len() && !is_clock(#[trigger] nv[i]) && nv[i].rate_hz is Some implies sn.contains(
        nv[i],
    ) by {
        lemma_node_origin(m, syms, flows, title, i);
    }
}

/// The schedule edges of a graph built from a symbol table are exactly the
/// links from the clock of each rated non-clock node to that node; a node
/// without a rate gets none.
pub proof fn lemma_schedule_edges_are_clock_links(
    m: GraphModel,
    syms: Seq<Symbol>,
    flows: Seq<(String, IoSets)>,
    title: Option<String>,
    e: EdgeView,
)
    requires
        graph_of(m, syms, flows, title),
        e.kind == EdgeKind::Schedule,
    ensures
        edge_views(m.edges@).contains(e) <==> exists|i: int|
            0 <= i < node_views(m.nodes@).len() && !is_clock(#[trigger] node_views(m.nodes@)[i])
                && node_views(m.nodes@)[i].rate_hz is Some && e.from == clock_id(
                node_views(m.nodes@)[i].rate_hz->0,
            ) && e.to == node_views(m.nodes@)[i].id,
{
    let nv = node_views(m.nodes@);
    let sn = symbol_nodes(syms);
    lemma_rated_nodes(m, syms, flows, title);
    if edge_views(m.edges@).contains(e) {
        assert(expected_edge(syms, flows, e));
        let k = choose|k: int|
            0 <= k < sn.len() && (#[trigger] sn[k]).rate_hz is Some && e.from == clock_id(sn[k].rate_hz->0)
                && e.to == sn[k].id;
        assert(nv.contains(sn[k]));
        let i = choose|i: int| 0 <= i < nv.len() && nv[i] == sn[k];
        assert(!is_clock(nv[i]));
    }
    if exists|i: int|
        0 <= i < nv.len() && !is_clock(#[trigger] nv[i]) && nv[i].rate_hz is Some && e.from == clock_id(
            nv[i].rate_hz->0,
        ) && e.to == nv[i].id {
        let i = choose|i: int|
            0 <= i < nv.len() && !is_clock(#[trigger] nv[i]) && nv[i].rate_hz is Some && e.from == clock_id(
                nv[i].rate_hz->0,
            ) && e.to == nv[i].id;
        assert(sn.contains(nv[i]));
        let k = choose|k: int| 0 <= k < sn.len() && sn[k] == nv[i];
        assert(expected_edge(syms, flows, e));
    }
}

/// A graph built from a symbol table holds exactly one clock node per clock
/// id that some rated non-clock node names, and none for any other id; each
/// clock is a top-level group whose rate names its own id.
pub proof fn lemma_one_clock_per_rate(
    m: GraphModel,
    syms: Seq<Symbol>,
    flows: Seq<(String, IoSets)>,
    title: Option<String>,
    c: Seq<char>,
)
    requires
        graph_of(m, syms, flows, title),
    ensures
        clocks_with_id(node_views(m.nodes@), c).len() == (if rated_for(node_views(m.nodes@), c) {
            1int
        } else {
            0int
        }),
        forall|k: int|
            0 <= k < clocks_with_id(node_views(m.nodes@), c).len() ==> {
                let v = #[trigger] clocks_with_id(node_views(m.nodes@), c)[k];
                &&& v.kind == NodeKind::Group
                &&& v.parent is None
                &&& v.id == c
                &&& clock_id(v.rate_hz->0) == c
            },
{
    broadcast use vstd::seq_lib::group_filter_ensures;

    let nv = node_views(m.nodes@);
    let sn = symbol_nodes(syms);
    let p = |v: NodeView| is_clock(v);
    let a = with_id(sn, c);
    let b = if synthesized(syms, c) {
        seq![group_node(c)]
    } else {
        Seq::<NodeView>::empty()
    };
    let cc = match first_rate(sn, c) {
        Some(r) => seq![clock_node(c, r)],
        None => Seq::<NodeView>::empty(),
    };
    assert(with_id(nv, c) == a + b + cc);
    lemma_symbol_nodes_typed(syms);
    lemma_with_id_members(sn, c);
    assert(a.all(|x: NodeView| !p(x))) by {
        assert forall|j: int| 0 <= j < a.len() implies !p(#[trigger] a[j]) by {
            let k = choose|k: int| 0 <= k < sn.len() && sn[k] == a[j];
        }
    }
    a.lemma_all_neg_filter_empty(p);
    assert(b.all(|x: NodeView| !p(x)));
    b.lemma_all_neg_filter_empty(p);
    Seq::filter_distributes_over_add(a, b, p);
    Seq::filter_distributes_over_add(a + b, cc, p);
    lemma_first_rate(sn, c);
    if first_rate(sn, c) is Some {
        let r = first_rate(sn, c)->0;
        reveal(Seq::filter);
        assert(cc.drop_last() == Seq::<NodeView>::empty());
        assert(cc.filter(p) == seq![clock_node(c, r)]);
    } else {
        assert(cc.filter(p) =~= Seq::<NodeView>::empty());
    }
    assert(clocks_with_id(nv, c) =~= cc.filter(p));
    lemma_rated_nodes(m, syms, flows, title);
    if rated_for(nv, c) {
        let i = choose|i: int|
            0 <= i < nv.len() && !is_clock(#[trigger] nv[i]) && nv[i].rate_hz is Some && clock_id(
                nv[i].rate_hz->0,
            ) == c;
        assert(sn.contains(nv[i]));
        let k = choose|k: int| 0 <= k < sn.len() && sn[k] == nv[i];
        assert(sn[k].rate_hz is Some && clock_id(sn[k].rate_hz->0) == c);
    }
    if first_rate(sn, c) is Some {
        let k = choose|k: int| 0 <= k < sn.len() && (#[trigger] sn[k]).rate_hz is Some && clock_id(sn[k].rate_hz->0) == c;
        assert(nv.contains(sn[k]));
        let i = choose|i: int| 0 <= i < nv.len() && nv[i] == sn[k];
        assert(!is_clock(nv[i]) && nv[i].rate_hz is Some && clock_id(nv[i].rate_hz->0) == c);
    }
}

/// Each surfaced symbol kind becomes the node kind of the same name
/// (functions and methods both become functions), and the kinds that are not
/// surfaced (objects, references, others) give no node; no two surfaced symbol
/// kinds share a node kind except functions and methods.
pub proof fn lemma_node_kinds_keep_names()
    ensures
        node_kind_of(SymbolKind::Channel) == Some(NodeKind::Channel),
        node_kind_of(SymbolKind::Parameter) == Some(NodeKind::Parameter),
        node_kind_of(SymbolKind::Constant) == Some(NodeKind::Constant),
        node_kind_of(SymbolKind::Table) == Some(NodeKind::Table),
        node_kind_of(SymbolKind::Function) == Some(NodeKind::Function),
        node_kind_of(SymbolKind::Method) == Some(NodeKind::Function),
        node_kind_of(SymbolKind::Group) == Some(NodeKind::Group),
        node_kind_of(SymbolKind::Object) is None,
        node_kind_of(SymbolKind::Reference) is None,
        node_kind_of(SymbolKind::Other) is None,
        forall|a: SymbolKind, b: SymbolKind|
            a != b && #[trigger] node_kind_of(a) is Some && node_kind_of(a) == #[trigger] node_kind_of(b)
                ==> (a == SymbolKind::Function && b == SymbolKind::Method) || (a == SymbolKind::Method && b
                == SymbolKind::Function),
{
}

/// The node a symbol surfaces as carries the symbol's path as id and path,
/// the given kind, its display unit (its engineering unit only when it has no
/// display unit), its call rate (its logging rate only when it has no call
/// rate), its declared type (else its value type's label), its table
/// dimensionality, and its id's dotted parent.
pub proof fn lemma_symbol_node_metadata(sym: Symbol, kind: NodeKind)
    ensures
        symbol_node(sym, kind).id == sym.path@,
        symbol_node(sym, kind).path == sym.path@,
        symbol_node(sym, kind).kind == kind,
        symbol_node(sym, kind).unit == (match sym.display_unit {
            Some(d) => Some(d@),
            None => match sym.unit {
                Some(u) => Some(u@),
                None => None,
            },
        }),
        symbol_node(sym, kind).rate_hz == (match sym.call_rate_hz {
            Some(c) => Some(c@),
            None => match sym.log_rate_hz {
                Some(l) => Some(l@),
                None => None,
            },
        }),
        symbol_node(sym, kind).type_label == Some(match sym.declared_type {
            Some(t) => t@,
            None => value_type_text(sym.value_type),
        }),
        symbol_node(sym, kind).table_dims == sym.table_axes,
        symbol_node(sym, kind).parent == parent_of(sym.path@),
{
}

proof fn lemma_symbol_nodes_hold(syms: Seq<Symbol>, k: int)
    requires
        0 <= k < syms.len(),
        node_kind_of(syms[k].kind) is Some,
    ensures
        symbol_nodes(syms).contains(symbol_node(syms[k], node_kind_of(syms[k].kind)->0)),
    decreases syms.len(),
{
    let d = syms.drop_last();
    if k == syms.len() - 1 {
        let sn = symbol_nodes(syms);
        assert(sn == symbol_nodes(d).push(symbol_node(syms.last(), node_kind_of(syms.last().kind)->0)));
        assert(sn[sn.len() - 1] == symbol_node(syms[k], node_kind_of(syms[k].kind)->0));
    } else {
        assert(d[k] == syms[k]);
        lemma_symbol_nodes_hold(d, k);
        let x = symbol_node(syms[k], node_kind_of(syms[k].kind)->0);
        let j = choose|j: int| 0 <= j < symbol_nodes(d).len() && symbol_nodes(d)[j] == x;
        match node_kind_of(syms.last().kind) {
            Some(kk) => {
                assert(symbol_nodes(syms) == symbol_nodes(d).push(symbol_node(syms.last(), kk)));
                assert(symbol_nodes(syms)[j] == x);
            },
            None => {},
        }
    }
}

/// A graph built from a symbol table holds, for every symbol of a surfaced
/// kind, the node that symbol surfaces as: of the node kind its symbol kind
/// names, with the metadata of `lemma_symbol_node_metadata`.
pub proof fn lemma_every_surfaced_symbol_is_a_node(
    m: GraphModel,
    syms: Seq<Symbol>,
    flows: Seq<(String, IoSets)>,
    title: Option<String>,
    k: int,
)
    requires
        graph_of(m, syms, flows, title),
        0 <= k < syms.len(),
        node_kind_of(syms[k].kind) is Some,
    ensures
        node_views(m.nodes@).contains(symbol_node(syms[k], node_kind_of(syms[k].kind)->0)),
{
    lemma_symbol_nodes_hold(syms, k);
    lemma_rated_nodes(m, syms, flows, title);
    let sn = symbol_nodes(syms);
    let j = choose|j: int| 0 <= j < sn.len() && sn[j] == symbol_node(syms[k], node_kind_of(syms[k].kind)->0);
    assert(node_views(m.nodes@).contains(sn[j]));
}

proof fn lemma_sorted_by_id_unique(a: Seq<NodeView>, b: Seq<NodeView>)
    requires
        ids_sorted(a),
        ids_sorted(b),
        forall|id: Seq<char>| #[trigger] with_id(a, id) == with_id(b, id),
    ensures
        a == b,
    decreases a.len() + b.len(),
{
    if a.len() == 0 && b.len() == 0 {
        assert(a =~= b);
    } else if a.len() == 0 {
        lemma_with_id_members(a, b.last().id);
        lemma_with_id_members(b, b.last().id);
        assert(b[b.len() - 1] == b.last());
        assert(has_id(b, b.last().id));
    } else if b.len() == 0 {
        lemma_with_id_members(a, a.last().id);
        lemma_with_id_members(b, a.last().id);
        assert(a[a.len() - 1] == a.last());
        assert(has_id(a, a.last().id));
    } else {
        let k = a.last().id;
        let kb = b.last().id;
        lemma_with_id_members(a, kb);
        lemma_with_id_members(b, kb);
        lemma_with_id_members(a, k);
        lemma_with_id_members(b, k);
        assert(a[a.len() - 1] == a.last());
        assert(b[b.len() - 1] == b.last());
        assert(has_id(a, k));
        assert(has_id(b, kb));
        assert(has_id(b, k));
        assert(has_id(a, kb));
        let ia = choose|i: int| 0 <= i < a.len() && a[i].id == kb;
        let ib = choose|i: int| 0 <= i < b.len() && b[i].id == k;
        if ia < a.len() - 1 {
            assert(!text_lt(k, a[ia].id));
        } else {
            lemma_text_lt_irreflexive(k);
        }
        if ib < b.len() - 1 {
            assert(!text_lt(kb, b[ib].id));
        } else {
            lemma_text_lt_irreflexive(kb);
        }
        lemma_text_lt_total(k, kb);
        assert(k == kb);
        let da = a.drop_last();
        let db = b.drop_last();
        assert(with_id(a, k) == with_id(da, k).push(a.last()));
        assert(with_id(b, k) == with_id(db, k).push(b.last()));
        assert(with_id(da, k) == with_id(a, k).drop_last());
        assert(a.last() == with_id(a, k).last());
        assert forall|id: Seq<char>| #[trigger] with_id(da, id) == with_id(db, id) by {
            if id != k {
                assert(with_id(a, id) == with_id(da, id));
                assert(with_id(b, id) == with_id(db, id));
            }
        }
        assert forall|i: int, j: int| 0 <= i < j < da.len() implies !text_lt(da[j].id, da[i].id) by {
            assert(da[i] == a[i] && da[j] == a[j]);
        }
        assert forall|i: int, j: int| 0 <= i < j < db.len() implies !text_lt(db[j].id, db[i].id) by {
            assert(db[i] == b[i] && db[j] == b[j]);
        }
        lemma_sorted_by_id_unique(da, db);
        assert(a == da.push(a.last()));
        assert(b == db.push(b.last()));
    }
}

proof fn lemma_sorted_edges_unique(a: Seq<EdgeView>, b: Seq<EdgeView>)
    requires
        edges_sorted(a),
        edges_sorted(b),
        forall|x: EdgeView| #[trigger] a.contains(x) <==> b.contains(x),
    ensures
        a == b,
    decreases a.len() + b.len(),
{
    if a.len() == 0 && b.len() == 0 {
        assert(a =~= b);
    } else if a.len() == 0 {
        assert(b.contains(b[0]));
        assert(a.contains(b[0]));
    } else if b.len() == 0 {
        assert(a.contains(a[0]));
        assert(b.contains(a[0]));
    } else {
        assert(a.contains(a[0]));
        assert(b.contains(b[0]));
        assert(b.contains(a[0]));
        assert(a.contains(b[0]));
        let i = choose|i: int| 0 <= i < b.len() && b[i] == a[0];
        let j = choose|j: int| 0 <= j < a.len() && a[j] == b[0];
        if a[0] != b[0] {
            assert(i > 0 && j > 0);
            assert(edge_lt(b[0], b[i]));
            assert(edge_lt(a[0], a[j]));
            lemma_edge_lt_asymmetric(a[0], b[0]);
        }
        let da = a.drop_first();
        let db = b.drop_first();
        assert forall|x: EdgeView| #[trigger] da.contains(x) <==> db.contains(x) by {
            if da.contains(x) {
                let k = choose|k: int| 0 <= k < da.len() && da[k] == x;
                assert(a[k + 1] == x);
                assert(edge_lt(a[0], x));
                lemma_edge_lt_irreflexive(x);
                assert(a.contains(x));
                assert(b.contains(x));
                let m = choose|m: int| 0 <= m < b.len() && b[m] == x;
                assert(m != 0);
                assert(db[m - 1] == x);
            }
            if db.contains(x) {
                let k = choose|k: int| 0 <= k < db.len() && db[k] == x;
                assert(b[k + 1] == x);
                assert(edge_lt(b[0], x));
                lemma_edge_lt_irreflexive(x);
                assert(b.contains(x));
                assert(a.contains(x));
                let m = choose|m: int| 0 <= m < a.len() && a[m] == x;
                assert(m != 0);
                assert(da[m - 1] == x);
            }
        }
        assert forall|p: int, q: int| 0 <= p < q < da.len() implies edge_lt(da[p], da[q]) by {
            assert(da[p] == a[p + 1] && da[q] == a[q + 1]);
        }
        assert forall|p: int, q: int| 0 <= p < q < db.len() implies edge_lt(db[p], db[q]) by {
            assert(db[p] == b[p + 1] && db[q] == b[q + 1]);
        }
        lemma_sorted_edges_unique(da, db);
        assert(a[0] == b[0]);
        assert(a =~= seq![a[0]] + da);
        assert(b =~= seq![b[0]] + db);
    }
}

/// The graph of a symbol table is determined: two models that are both the
/// graph of the same symbols, flows and title have the same title, overlay,
/// nodes (in the same order) and edges (in the same order). Building twice
/// from the same inputs gives byte-identical renders.
pub proof fn lemma_graph_is_determined(
    m1: GraphModel,
    m2: GraphModel,
    syms: Seq<Symbol>,
    flows: Seq<(String, IoSets)>,
    title: Option<String>,
)
    requires
        graph_of(m1, syms, flows, title),
        graph_of(m2, syms, flows, title),
    ensures
        m1.title == m2.title,
        m1.overlay == m2.overlay,
        node_views(m1.nodes@) == node_views(m2.nodes@),
        edge_views(m1.edges@) == edge_views(m2.edges@),
{
    let a = node_views(m1.nodes@);
    let b = node_views(m2.nodes@);
    assert forall|id: Seq<char>| #[trigger] with_id(a, id) == with_id(b, id) by {
        assert(with_id(a, id) == expected_with_id(syms, id));
        assert(with_id(b, id) == expected_with_id(syms, id));
    }
    lemma_sorted_by_id_unique(a, b);
    let ea = edge_views(m1.edges@);
    let eb = edge_views(m2.edges@);
    assert forall|x: EdgeView| #[trigger] ea.contains(x) <==> eb.contains(x) by {
        assert(ea.contains(x) <==> expected_edge(syms, flows, x));
        assert(eb.contains(x) <==> expected_edge(syms, flows, x));
    }
    lemma_sorted_edges_unique(ea, eb);
}

} // verus!
