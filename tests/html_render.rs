use djot::{convert, get_string_content, Document, Tag, TagKind};

fn node(kind: TagKind, children: Vec<Tag>) -> Tag {
    Tag { kind, attrs: Vec::new(), children }
}

fn text(s: &str) -> Tag {
    node(TagKind::Str(s.to_string()), Vec::new())
}

fn doc(children: Vec<Tag>) -> String {
    convert(&Document { children })
}

#[test]
fn paragraph_escapes_text() {
    let p = node(TagKind::Para, vec![text("a<b & \"c\">")]);
    assert_eq!(doc(vec![p]), "<p>a&lt;b &amp; &quot;c&quot;&gt;</p>\n");
}

#[test]
fn paragraph_attributes_are_escaped() {
    let mut p = node(TagKind::Para, vec![text("x")]);
    p.attrs.push(("id".to_string(), "a\"b<".to_string()));
    assert_eq!(doc(vec![p]), "<p id=\"a&quot;b&lt;\">x</p>\n");
}

#[test]
fn link_with_destination() {
    let l = node(TagKind::Link(Some("http://x?a=1&b=2".to_string())), vec![text("t")]);
    assert_eq!(doc(vec![l]), "<a href=\"http://x?a=1&amp;b=2\">t</a>");
}

#[test]
fn link_without_destination() {
    let l = node(TagKind::Link(None), vec![text("t")]);
    assert_eq!(doc(vec![l]), "<a href=\"url\">t</a>");
}

#[test]
fn image_with_alt_text() {
    let i = node(
        TagKind::Image(Some("i.png".to_string())),
        vec![text("a "), node(TagKind::Emph, vec![text("pic")])],
    );
    assert_eq!(doc(vec![i]), "<img alt=\"a pic\" src=\"i.png\">");
}

#[test]
fn image_without_alt_text() {
    let i = node(TagKind::Image(Some("i.png".to_string())), Vec::new());
    assert_eq!(doc(vec![i]), "<img src=\"i.png\">");
}

#[test]
fn code_block_with_language() {
    let c = node(
        TagKind::CodeBlock("x < y".to_string(), Some("rust".to_string())),
        Vec::new(),
    );
    assert_eq!(doc(vec![c]), "<pre><code class=\"language-rust\">x &lt; y</code></pre>\n");
}

#[test]
fn code_block_without_language() {
    let c = node(TagKind::CodeBlock("a&b".to_string(), None), Vec::new());
    assert_eq!(doc(vec![c]), "<pre><code>a&amp;b</code></pre>\n");
}

#[test]
fn inline_kinds() {
    let p = node(
        TagKind::Para,
        vec![
            node(TagKind::Strong, vec![text("s")]),
            node(TagKind::Emph, vec![text("e")]),
            node(TagKind::Softbreak, Vec::new()),
            node(TagKind::DoubleQuoted, vec![text("q")]),
            node(TagKind::Verbatim("<v>".to_string()), Vec::new()),
            node(TagKind::Span, vec![text("p")]),
            node(TagKind::Url("http://u".to_string()), vec![text("http://u")]),
        ],
    );
    assert_eq!(
        doc(vec![p]),
        "<p><strong>s</strong><em>e</em>\n&ldquo;q&rdquo;<code>&lt;v&gt;</code>\
         <span>p</span><a href=\"http://u\">http://u</a></p>\n"
    );
}

#[test]
fn reference_definitions_render_nothing() {
    let r = node(
        TagKind::ReferenceDefinition,
        vec![node(TagKind::ReferenceKey, Vec::new()), node(TagKind::ReferenceValue, Vec::new())],
    );
    assert_eq!(doc(vec![r, node(TagKind::Para, vec![text("a")])]), "<p>a</p>\n");
}

#[test]
fn nested_document_node_renders_children() {
    let d = node(TagKind::Doc, vec![node(TagKind::Para, vec![text("a")])]);
    assert_eq!(doc(vec![d]), "<p>a</p>\n");
}

#[test]
fn string_content_collects_text() {
    let t = node(
        TagKind::Para,
        vec![text("a"), node(TagKind::Strong, vec![text("b")]), node(TagKind::Verbatim("c".to_string()), Vec::new())],
    );
    assert_eq!(get_string_content(&t), "abc");
}
