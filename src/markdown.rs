//! Markdown rendering settings and HTML output for a parsed markdown tree.
use vstd::prelude::*;

verus! {

/// Rendering options as a caller gives them; an absent option takes its default.
#[derive(Debug, Clone, Copy, PartialEq, Eq, Structural)]
pub struct RenderOptions {
    pub sanitize: Option<bool>,
    pub syntax_highlight: Option<bool>,
    pub toc: Option<bool>,
    pub directives: Option<bool>,
    pub gfm: Option<bool>,
    pub footnotes: Option<bool>,
}

/// The rendering features in effect.
#[derive(Debug, Clone, Copy, PartialEq, Eq, Structural)]
pub struct RenderFlags {
    pub sanitize: bool,
    pub syntax_highlight: bool,
    pub toc: bool,
    pub directives: bool,
    pub gfm: bool,
    pub footnotes: bool,
}

/// The default flags: sanitized GitHub-flavoured markdown, nothing else.
pub open spec fn default_flags() -> RenderFlags {
    RenderFlags {
        sanitize: true,
        syntax_highlight: false,
        toc: false,
        directives: false,
        gfm: true,
        footnotes: false,
    }
}

/// The value of an option, or `d` when it is absent.
pub open spec fn or_default(o: Option<bool>, d: bool) -> bool {
    match o {
        Some(b) => b,
        None => d,
    }
}

fn pick(o: Option<bool>, d: bool) -> (r: bool)
    ensures
        r == or_default(o, d),
{
    match o {
        Some(b) => b,
        None => d,
    }
}

impl Default for RenderFlags {
    fn default() -> (r: Self)
        ensures
            r == default_flags(),
    {
        RenderFlags {
            sanitize: true,
            syntax_highlight: false,
            toc: false,
            directives: false,
            gfm: true,
            footnotes: false,
        }
    }
}

impl RenderFlags {
    /// Every feature off: plain CommonMark, unsanitized.
    pub fn fast() -> (r: Self)
        ensures
            !r.sanitize && !r.syntax_highlight && !r.toc && !r.directives && !r.gfm && !r.footnotes,
    {
        RenderFlags {
            sanitize: false,
            syntax_highlight: false,
            toc: false,
            directives: false,
            gfm: false,
            footnotes: false,
        }
    }

    /// The flags that `options` asks for, each absent option taking its
    /// default; the defaults when there are no options.
    pub fn from_options(options: Option<RenderOptions>) -> (r: Self)
        ensures
            match options {
                Some(o) => r == (RenderFlags {
                    sanitize: or_default(o.sanitize, default_flags().sanitize),
                    syntax_highlight: or_default(
                        o.syntax_highlight,
                        default_flags().syntax_highlight,
                    ),
                    toc: or_default(o.toc, default_flags().toc),
                    directives: or_default(o.directives, default_flags().directives),
                    gfm: or_default(o.gfm, default_flags().gfm),
                    footnotes: or_default(o.footnotes, default_flags().footnotes),
                }),
                None => r == default_flags(),
            },
    {
        let d = RenderFlags::default();
        match options {
            Some(o) => RenderFlags {
                sanitize: pick(o.sanitize, d.sanitize),
                syntax_highlight: pick(o.syntax_highlight, d.syntax_highlight),
                toc: pick(o.toc, d.toc),
                directives: pick(o.directives, d.directives),
                gfm: pick(o.gfm, d.gfm),
                footnotes: pick(o.footnotes, d.footnotes),
            },
            None => d,
        }
    }
}

/// The kind of a node of a markdown tree.
#[derive(Debug, PartialEq, Eq)]
pub enum NodeType {
    Heading(u32),
    Paragraph,
    Strong,
    Emph,
    Text,
    /// A code block, with its language (empty when none is given).
    CodeBlock(String),
    Document,
}

/// A node of a markdown tree.
#[derive(Debug, PartialEq, Eq)]
pub struct Node {
    pub kind: NodeType,
    pub content: Option<String>,
    pub children: Vec<Node>,
}

/// How `v_htmlescape` writes one character.
pub open spec fn escape_char(c: char) -> Seq<char> {
    if c == '"' {
        seq!['&', 'q', 'u', 'o', 't', ';']
    } else if c == '&' {
        seq!['&', 'a', 'm', 'p', ';']
    } else if c == '\'' {
        seq!['&', '#', 'x', '2', '7', ';']
    } else if c == '/' {
        seq!['&', '#', 'x', '2', 'f', ';']
    } else if c == '<' {
        seq!['&', 'l', 't', ';']
    } else if c == '>' {
        seq!['&', 'g', 't', ';']
    } else {
        seq![c]
    }
}

/// `s` with HTML's special characters escaped, one character at a time.
pub open spec fn html_escaped(s: Seq<char>) -> Seq<char>
    decreases s.len(),
{
    if s.len() == 0 {
        seq![]
    } else {
        html_escaped(s.drop_last()) + escape_char(s.last())
    }
}

/// Relies on `v_htmlescape::escape_string`, which appends its input with
/// `"`, `&`, `'`, `/`, `<` and `>` replaced by their entities.
#[verifier::external_body]
fn push_escaped(out: &mut String, s: &str)
    ensures
        final(out)@ == old(out)@ + html_escaped(s@),
{
    v_htmlescape::escape_string(s, out)
}

/// The ASCII digit for `d`, which is below ten.
pub open spec fn digit_char(d: nat) -> char {
    if d == 0 {
        '0'
    } else if d == 1 {
        '1'
    } else if d == 2 {
        '2'
    } else if d == 3 {
        '3'
    } else if d == 4 {
        '4'
    } else if d == 5 {
        '5'
    } else if d == 6 {
        '6'
    } else if d == 7 {
        '7'
    } else if d == 8 {
        '8'
    } else {
        '9'
    }
}

/// The decimal digits of `n`.
pub open spec fn decimal(n: nat) -> Seq<char>
    decreases n,
{
    if n < 10 {
        seq![digit_char(n)]
    } else {
        decimal(n / 10).push(digit_char(n % 10))
    }
}

fn digit(d: u32) -> (c: char)
    requires
        d < 10,
    ensures
        c == digit_char(d as nat),
{
    if d == 0 {
        '0'
    } else if d == 1 {
        '1'
    } else if d == 2 {
        '2'
    } else if d == 3 {
        '3'
    } else if d == 4 {
        '4'
    } else if d == 5 {
        '5'
    } else if d == 6 {
        '6'
    } else if d == 7 {
        '7'
    } else if d == 8 {
        '8'
    } else {
        '9'
    }
}

fn push_decimal(out: &mut String, n: u32)
    ensures
        final(out)@ == old(out)@ + decimal(n as nat),
    decreases n,
{
    if n >= 10 {
        push_decimal(out, n / 10);
    }
    crate::tokenizer::push_char(out, digit(n % 10));
    assert(final(out)@ =~= old(out)@ + decimal(n as nat));
}

/// The HTML of the first `k` children of `n`, one after another.
pub open spec fn children_html(n: Node, k: int) -> Seq<char>
    decreases n, k,
{
    if k <= 0 || k > n.children.len() {
        seq![]
    } else {
        children_html(n, k - 1) + node_html(n.children@[k - 1])
    }
}

/// The HTML of a markdown tree: its children wrapped in the node's element;
/// a text node gives its content escaped, a code block its content verbatim
/// (with the language as a class), and either gives nothing without content.
pub open spec fn node_html(n: Node) -> Seq<char>
    decreases n, n.children.len() + 1,
{
    let inner = children_html(n, n.children.len() as int);
    match n.kind {
        NodeType::Document => inner,
        NodeType::Paragraph => "<p>"@ + inner + "</p>"@,
        NodeType::Heading(level) => "<h"@ + decimal(level as nat) + ">"@ + inner + "</h"@
            + decimal(level as nat) + ">"@,
        NodeType::Strong => "<strong>"@ + inner + "</strong>"@,
        NodeType::Emph => "<em>"@ + inner + "</em>"@,
        NodeType::CodeBlock(lang) => match n.content {
            Some(c) => if lang@.len() > 0 {
                "<pre><code class=\"language-"@ + lang@ + "\">"@ + c@ + "</code></pre>"@
            } else {
                "<pre><code>"@ + c@ + "</code></pre>"@
            },
            None => seq![],
        },
        NodeType::Text => match n.content {
            Some(c) => html_escaped(c@),
            None => seq![],
        },
    }
}

/// Appends the HTML of the children of `node`.
fn render_children_into(node: &Node, out: &mut String)
    ensures
        final(out)@ == old(out)@ + children_html(*node, node.children.len() as int),
    decreases *node, 0nat,
{
    let mut i: usize = 0;
    while i < node.children.len()
        invariant
            i <= node.children.len(),
            out@ == old(out)@ + children_html(*node, i as int),
        decreases node.children.len() - i,
    {
        proof {
            vstd::std_specs::vec::axiom_vec_index_decreases(node.children, i as int);
        }
        render_ast_to_html_into(&node.children[i], out);
        i = i + 1;
        assert(out@ =~= old(out)@ + children_html(*node, i as int));
    }
}

/// Appends the HTML of `node`.
fn render_ast_to_html_into(node: &Node, out: &mut String)
    ensures
        final(out)@ == old(out)@ + node_html(*node),
    decreases *node, 1nat,
{
    match &node.kind {
        NodeType::Document => {
            render_children_into(node, out);
        },
        NodeType::Paragraph => {
            out.append("<p>");
            render_children_into(node, out);
            out.append("</p>");
        },
        NodeType::Heading(level) => {
            out.append("<h");
            push_decimal(out, *level);
            out.append(">");
            render_children_into(node, out);
            out.append("</h");
            push_decimal(out, *level);
            out.append(">");
        },
        NodeType::Strong => {
            out.append("<strong>");
            render_children_into(node, out);
            out.append("</strong>");
        },
        NodeType::Emph => {
            out.append("<em>");
            render_children_into(node, out);
            out.append("</em>");
        },
        NodeType::CodeBlock(lang) => {
            match &node.content {
                Some(content) => {
                    if lang.as_str().unicode_len() > 0 {
                        out.append("<pre><code class=\"language-");
                        out.append(lang.as_str());
                        out.append("\">");
                    } else {
                        out.append("<pre><code>");
                    }
                    out.append(content.as_str());
                    out.append("</code></pre>");
                },
                None => {},
            }
        },
        NodeType::Text => {
            match &node.content {
                Some(content) => {
                    push_escaped(out, content.as_str());
                },
                None => {},
            }
        },
    }
    assert(final(out)@ =~= old(out)@ + node_html(*node));
}

/// The HTML of a markdown tree.
pub fn render_ast_to_html(node: &Node) -> (r: String)
    ensures
        r@ == node_html(*node),
{
    let mut out = String::new();
    render_ast_to_html_into(node, &mut out);
    assert(out@ =~= node_html(*node));
    out
}

} // verus!
