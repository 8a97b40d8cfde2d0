//! Self-contained interactive HTML export of a [`GraphModel`].
//!
//! The page is the viewer shell with three placeholders substituted, in order:
//! the Cytoscape.js library inline, the model's compact JSON, and the title.
//! The JSON is made script-safe first: `<`, `>` and `&` become their JSON
//! `\uXXXX` escapes, which stay valid JSON/JS but can never close the inline
//! `<script>` element. The title is HTML-escaped.
use vstd::prelude::*;

use crate::model::GraphModel;
use crate::text::{chars_of, replace_all, replace_text};

verus! {

/// The Cytoscape placeholder of the viewer shell.
pub open spec fn cytoscape_token() -> Seq<char> {
    "/*__CYTOSCAPE_JS__*/"@
}

/// The graph placeholder of the viewer shell, together with the empty-graph
/// fallback literal that follows it in the shell.
pub open spec fn graph_json_token() -> Seq<char> {
    "/*__GRAPH_JSON__*/{\"nodes\":[],\"edges\":[]}"@
}

/// The title placeholder of the viewer shell.
pub open spec fn title_token() -> Seq<char> {
    "__TITLE__"@
}

/// The script-safe form of one JSON character.
pub open spec fn script_safe_char(c: char) -> Seq<char> {
    if c == '<' {
        "\\u003c"@
    } else if c == '>' {
        "\\u003e"@
    } else if c == '&' {
        "\\u0026"@
    } else {
        seq![c]
    }
}

/// JSON text with every `<`, `>` and `&` replaced by its `\uXXXX` escape.
pub open spec fn script_safe(s: Seq<char>) -> Seq<char>
    decreases s.len(),
{
    if s.len() == 0 {
        Seq::empty()
    } else {
        script_safe(s.drop_last()) + script_safe_char(s.last())
    }
}

/// The HTML text escape of one character.
pub open spec fn text_escape_char(c: char) -> Seq<char> {
    if c == '&' {
        "&amp;"@
    } else if c == '<' {
        "&lt;"@
    } else if c == '>' {
        "&gt;"@
    } else {
        seq![c]
    }
}

/// Text with `&`, `<` and `>` replaced by their HTML entities.
pub open spec fn text_escaped(s: Seq<char>) -> Seq<char>
    decreases s.len(),
{
    if s.len() == 0 {
        Seq::empty()
    } else {
        text_escaped(s.drop_last()) + text_escape_char(s.last())
    }
}

/// The title shown on the page: the model's title, else `M1 Project`.
pub open spec fn page_title(title: Option<String>) -> Seq<char> {
    match title {
        Some(t) => t@,
        None => "M1 Project"@,
    }
}

/// The page: the shell with the library, the script-safe graph JSON and the
/// escaped title substituted for their placeholders, in that order.
pub open spec fn page(shell: Seq<char>, cytoscape: Seq<char>, graph_json: Seq<char>, title: Seq<char>) -> Seq<
    char,
> {
    replace_all(
        replace_all(
            replace_all(shell, cytoscape_token(), cytoscape),
            graph_json_token(),
            script_safe(graph_json),
        ),
        title_token(),
        text_escaped(title),
    )
}

/// The script-safe form of JSON text.
pub fn script_safe_json(s: &str) -> (r: String)
    ensures
        r@ == script_safe(s@),
{
    let cs = chars_of(s);
    let mut r = String::new();
    let mut i: usize = 0;
    while i < cs.len()
        invariant
            i <= cs.len(),
            cs@ == s@,
            r@ == script_safe(cs@.take(i as int)),
        decreases cs.len() - i,
    {
        proof {
            assert(cs@.take(i + 1).drop_last() == cs@.take(i as int));
        }
        let c = cs[i];
        if c == '<' {
            r.append("\\u003c");
        } else if c == '>' {
            r.append("\\u003e");
        } else if c == '&' {
            r.append("\\u0026");
        } else {
            r.push(c);
        }
        i = i + 1;
    }
    proof {
        assert(cs@.take(cs@.len() as int) == cs@);
    }
    r
}

/// Minimal text escaping for the title interpolated into element text and the
/// `<title>`.
pub fn html_escape_text(s: &str) -> (r: String)
    ensures
        r@ == text_escaped(s@),
{
    let cs = chars_of(s);
    let mut r = String::new();
    let mut i: usize = 0;
    while i < cs.len()
        invariant
            i <= cs.len(),
            cs@ == s@,
            r@ == text_escaped(cs@.take(i as int)),
        decreases cs.len() - i,
    {
        proof {
            assert(cs@.take(i + 1).drop_last() == cs@.take(i as int));
        }
        let c = cs[i];
        if c == '&' {
            r.append("&amp;");
        } else if c == '<' {
            r.append("&lt;");
        } else if c == '>' {
            r.append("&gt;");
        } else {
            r.push(c);
        }
        i = i + 1;
    }
    proof {
        assert(cs@.take(cs@.len() as int) == cs@);
    }
    r
}

/// Render the model as a single self-contained interactive HTML document.
///
/// `graph_json` is the model's compact JSON, `viewer_html` the viewer shell and
/// `cytoscape_js` the library to inline.
pub fn render(model: &GraphModel, graph_json: &str, viewer_html: &str, cytoscape_js: &str) -> (out:
    String)
    ensures
        out@ == page(viewer_html@, cytoscape_js@, graph_json@, page_title(model.title)),
{
    proof {
        reveal_strlit("/*__CYTOSCAPE_JS__*/");
        reveal_strlit("/*__GRAPH_JSON__*/{\"nodes\":[],\"edges\":[]}");
        reveal_strlit("__TITLE__");
    }
    let title: &str = match &model.title {
        Some(t) => t.as_str(),
        None => "M1 Project",
    };
    let safe = script_safe_json(graph_json);
    let with_lib = replace_text(viewer_html, "/*__CYTOSCAPE_JS__*/", cytoscape_js);
    let with_graph = replace_text(
        with_lib.as_str(),
        "/*__GRAPH_JSON__*/{\"nodes\":[],\"edges\":[]}",
        safe.as_str(),
    );
    let escaped = html_escape_text(title);
    replace_text(with_graph.as_str(), "__TITLE__", escaped.as_str())
}

/// The script-safe form of any JSON text holds no `<`, `>` or `&`, so embedded
/// graph data can never close the inline script element or start markup.
pub proof fn lemma_script_safe_has_no_markup(s: Seq<char>)
    ensures
        forall|i: int|
            0 <= i < script_safe(s).len() ==> script_safe(s)[i] != '<' && script_safe(s)[i] != '>'
                && script_safe(s)[i] != '&',
    decreases s.len(),
{
    reveal_strlit("\\u003c");
    reveal_strlit("\\u003e");
    reveal_strlit("\\u0026");
    if s.len() > 0 {
        lemma_script_safe_has_no_markup(s.drop_last());
        let a = script_safe(s.drop_last());
        let b = script_safe_char(s.last());
        assert forall|i: int| 0 <= i < (a + b).len() implies (a + b)[i] != '<' && (a + b)[i] != '>'
            && (a + b)[i] != '&' by {
            if i >= a.len() {
                assert((a + b)[i] == b[i - a.len()]);
            }
        }
    }
}

/// The escaped title holds no `<` or `>`, so a title can never open or close
/// an element.
pub proof fn lemma_escaped_title_has_no_tags(s: Seq<char>)
    ensures
        forall|i: int|
            0 <= i < text_escaped(s).len() ==> text_escaped(s)[i] != '<' && text_escaped(s)[i] != '>',
    decreases s.len(),
{
    reveal_strlit("&amp;");
    reveal_strlit("&lt;");
    reveal_strlit("&gt;");
    if s.len() > 0 {
        lemma_escaped_title_has_no_tags(s.drop_last());
        let a = text_escaped(s.drop_last());
        let b = text_escape_char(s.last());
        assert forall|i: int| 0 <= i < (a + b).len() implies (a + b)[i] != '<' && (a + b)[i] != '>' by {
            if i >= a.len() {
                assert((a + b)[i] == b[i - a.len()]);
            }
        }
    }
}

} // verus!
