use m1_visualiser::html::{html_escape_text, render, script_safe_json};
use m1_visualiser::model::{GraphModel, GraphNode, NodeKind};

const SHELL: &str = "<!DOCTYPE html><title>__TITLE__</title><script>/*__CYTOSCAPE_JS__*/</script>\n<script>\nvar GRAPH = /*__GRAPH_JSON__*/{\"nodes\":[],\"edges\":[]};\n</script><h1>__TITLE__</h1>";
const LIB: &str = "/* cytoscape 3.30.2 */";

#[test]
fn title_is_escaped() {
    let mut g = GraphModel::new(Some("A<b>&c".into()));
    g.nodes.push(GraphNode::new("X", NodeKind::Group));
    let html = render(&g, "{}", SHELL, LIB);
    assert!(html.contains("A&lt;b&gt;&amp;c"));
}

#[test]
fn embedded_json_escapes_script_close() {
    let mut g = GraphModel::new(Some("Demo".into()));
    g.nodes.push(GraphNode::new(
        "Root.</script><img src=x onerror=alert(1)>",
        NodeKind::Channel,
    ));
    let json = "{\"title\":\"Demo\",\"nodes\":[{\"id\":\"Root.</script><img src=x onerror=alert(1)>\"}],\"edges\":[]}";
    let html = render(&g, json, SHELL, LIB);
    assert!(
        !html.contains("</script><img"),
        "raw </script><img injection leaked into the exported HTML"
    );
    assert!(
        html.contains("\\u003c/script"),
        "expected the script-close to be embedded as its \\u003c escape"
    );
}

#[test]
fn embeds_library_graph_and_title_with_no_placeholders_left() {
    let g = GraphModel::new(None);
    let html = render(&g, "{\"nodes\":[1]}", SHELL, LIB);
    assert!(!html.contains("/*__CYTOSCAPE_JS__*/"));
    assert!(!html.contains("/*__GRAPH_JSON__*/"));
    assert!(!html.contains("__TITLE__"));
    assert!(html.contains("3.30.2"));
    assert_eq!(
        html,
        "<!DOCTYPE html><title>M1 Project</title><script>/* cytoscape 3.30.2 */</script>\n<script>\nvar GRAPH = {\"nodes\":[1]};\n</script><h1>M1 Project</h1>"
    );
}

#[test]
fn script_safe_json_escapes_markup_characters() {
    assert_eq!(script_safe_json("a<b>&c"), "a\\u003cb\\u003e\\u0026c");
    assert_eq!(html_escape_text("x&<>"), "x&amp;&lt;&gt;");
}
