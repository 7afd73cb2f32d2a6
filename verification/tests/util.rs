use hackernews::node::{Attributes, Node, Tag};
use hackernews::util::parse_html_to_nodes;

fn text(s: &str) -> Node {
    Node::Text(s.to_string())
}

fn link(href: &str, children: Vec<Node>) -> Node {
    Node::Element(Tag::Anchor, Attributes { href: Some(href.to_string()) }, children)
}

#[test]
fn renders_plain_text() {
    assert_eq!(parse_html_to_nodes("hello"), vec![text("hello")]);
}

#[test]
fn renders_an_encoded_address_as_a_link() {
    assert_eq!(
        parse_html_to_nodes("see https:&#x2F;&#x2F;example.com&#x2F;a now"),
        vec![
            text("see "),
            link("https://example.com/a", vec![text("https://example.com/a")]),
            text(" now"),
        ]
    );
}

#[test]
fn renders_without_script() {
    assert_eq!(
        parse_html_to_nodes("<script>alert(1)</script><i>ok</i>"),
        vec![Node::Element(Tag::Italic, Attributes { href: None }, vec![text("ok")])]
    );
}

#[test]
fn renders_paragraphs_and_code() {
    assert_eq!(
        parse_html_to_nodes("first<p>second <code>x &lt; y</code></p>"),
        vec![
            text("first"),
            Node::Element(
                Tag::Paragraph,
                Attributes { href: None },
                vec![text("second "), Node::LiteralElement(Tag::Code, vec![text("x < y")])]
            ),
        ]
    );
}

fn tags_of(nodes: &[Node], found: &mut Vec<(Tag, Option<String>)>) {
    for node in nodes {
        match node {
            Node::Text(_) => {}
            Node::Element(tag, attributes, children) => {
                found.push((*tag, attributes.href.clone()));
                tags_of(children, found);
            }
            Node::LiteralElement(tag, children) => {
                found.push((*tag, None));
                assert_eq!(children.len(), 1);
                assert!(matches!(children[0], Node::Text(_)));
            }
        }
    }
}

#[test]
fn renders_only_what_is_allowed() {
    let nodes = parse_html_to_nodes(
        "<div onclick=\"x()\"><img src=\"y.png\"><h1>t</h1>\
         <a href=\"http://e.com\" title=\"t\" onclick=\"x()\">l</a>\
         <iframe src=\"z\"></iframe><style>p{}</style><code class=\"c\">k</code>\
         <b style=\"color:red\">b</b></div>",
    );
    let mut found = Vec::new();
    tags_of(&nodes, &mut found);
    assert_eq!(
        found,
        vec![
            (Tag::Anchor, Some("http://e.com".to_string())),
            (Tag::Code, None),
            (Tag::Bold, None),
        ]
    );
}

#[test]
fn renders_a_script_address_as_no_link() {
    assert_eq!(
        parse_html_to_nodes("<a href=\"javascript:alert(1)\">x</a>"),
        vec![Node::Element(Tag::Anchor, Attributes { href: None }, vec![text("x")])]
    );
}

#[test]
fn renders_a_linked_address_once() {
    assert_eq!(
        parse_html_to_nodes("<a href=\"https://x.io\">https://x.io</a>"),
        vec![link("https://x.io", vec![text("https://x.io")])]
    );
}

#[test]
fn renders_preformatted_code() {
    assert_eq!(
        parse_html_to_nodes("<pre><code>let x = 1;\n  x</code></pre>"),
        vec![Node::Element(
            Tag::Preformatted,
            Attributes { href: None },
            vec![Node::LiteralElement(Tag::Code, vec![text("let x = 1;\n  x")])]
        )]
    );
}
