use search::markdown::{render_ast_to_html, Node, NodeType, RenderFlags, RenderOptions};

fn leaf(kind: NodeType, content: Option<&str>) -> Node {
    Node { kind, content: content.map(|s| s.to_string()), children: vec![] }
}

fn parent(kind: NodeType, children: Vec<Node>) -> Node {
    Node { kind, content: None, children }
}

#[test]
fn default_flags() {
    let f = RenderFlags::default();
    assert!(f.sanitize && f.gfm);
    assert!(!f.syntax_highlight && !f.toc && !f.directives && !f.footnotes);
}

#[test]
fn fast_flags_are_all_off() {
    let f = RenderFlags::fast();
    assert_eq!(
        f,
        RenderFlags { sanitize: false, syntax_highlight: false, toc: false, directives: false, gfm: false, footnotes: false }
    );
}

#[test]
fn from_options_none_is_default() {
    assert_eq!(RenderFlags::from_options(None), RenderFlags::default());
}

#[test]
fn from_options_fills_absent_with_defaults() {
    let o = RenderOptions { sanitize: Some(false), syntax_highlight: None, toc: Some(true), directives: None, gfm: None, footnotes: Some(true) };
    let f = RenderFlags::from_options(Some(o));
    assert_eq!(
        f,
        RenderFlags { sanitize: false, syntax_highlight: false, toc: true, directives: false, gfm: true, footnotes: true }
    );
}

#[test]
fn renders_nested_tree() {
    let tree = parent(
        NodeType::Document,
        vec![
            parent(NodeType::Heading(2), vec![leaf(NodeType::Text, Some("Title"))]),
            parent(
                NodeType::Paragraph,
                vec![
                    leaf(NodeType::Text, Some("a ")),
                    parent(NodeType::Strong, vec![leaf(NodeType::Text, Some("b"))]),
                    parent(NodeType::Emph, vec![leaf(NodeType::Text, Some("c"))]),
                ],
            ),
        ],
    );
    assert_eq!(render_ast_to_html(&tree), "<h2>Title</h2><p>a <strong>b</strong><em>c</em></p>");
}

#[test]
fn heading_levels_in_decimal() {
    let h = parent(NodeType::Heading(12), vec![leaf(NodeType::Text, Some("x"))]);
    assert_eq!(render_ast_to_html(&h), "<h12>x</h12>");
}

#[test]
fn text_is_escaped() {
    let t = leaf(NodeType::Text, Some("<a href=\"x\">'&'</a>"));
    assert_eq!(render_ast_to_html(&t), "&lt;a href=&quot;x&quot;&gt;&#x27;&amp;&#x27;&lt;&#x2f;a&gt;");
}

#[test]
fn code_block_is_verbatim() {
    let c = leaf(NodeType::CodeBlock("rust".to_string()), Some("a < b"));
    assert_eq!(render_ast_to_html(&c), "<pre><code class=\"language-rust\">a < b</code></pre>");
    let plain = leaf(NodeType::CodeBlock(String::new()), Some("x"));
    assert_eq!(render_ast_to_html(&plain), "<pre><code>x</code></pre>");
}

#[test]
fn nodes_without_content_render_nothing() {
    assert_eq!(render_ast_to_html(&leaf(NodeType::Text, None)), "");
    assert_eq!(render_ast_to_html(&leaf(NodeType::CodeBlock("x".to_string()), None)), "");
    assert_eq!(render_ast_to_html(&parent(NodeType::Document, vec![])), "");
}
