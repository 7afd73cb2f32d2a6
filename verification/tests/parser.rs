use hackernews::node::{Attributes, Node, Tag};
use hackernews::parser::parse_simple_html;

fn text(s: &str) -> Node {
    Node::Text(s.to_string())
}

fn element(tag: Tag, children: Vec<Node>) -> Node {
    Node::Element(tag, Attributes { href: None }, children)
}

fn link(href: &str, children: Vec<Node>) -> Node {
    Node::Element(Tag::Anchor, Attributes { href: Some(href.to_string()) }, children)
}

fn literal(tag: Tag, s: &str) -> Node {
    Node::LiteralElement(tag, vec![text(s)])
}

#[test]
fn plain_text_is_one_leaf() {
    assert_eq!(parse_simple_html("hello world"), vec![text("hello world")]);
}

#[test]
fn empty_and_blank_input_give_nothing() {
    assert_eq!(parse_simple_html(""), vec![]);
    assert_eq!(parse_simple_html("  \n\t "), vec![]);
    assert_eq!(parse_simple_html("<b> </b>"), vec![element(Tag::Bold, vec![])]);
}

#[test]
fn text_is_entity_decoded() {
    assert_eq!(parse_simple_html("a &amp; b &lt;c&gt;"), vec![text("a & b <c>")]);
}

#[test]
fn paragraph_italic_and_bold_nest() {
    assert_eq!(
        parse_simple_html("<p>one <i>two</i> <b>three</b></p>tail"),
        vec![
            element(
                Tag::Paragraph,
                vec![
                    text("one "),
                    element(Tag::Italic, vec![text("two")]),
                    element(Tag::Bold, vec![text("three")]),
                ]
            ),
            text("tail"),
        ]
    );
}

#[test]
fn paragraph_with_attributes_is_a_paragraph() {
    assert_eq!(
        parse_simple_html("<p class=\"x\">a</p>"),
        vec![element(Tag::Paragraph, vec![text("a")])]
    );
}

#[test]
fn unclosed_paragraph_is_a_line_break() {
    assert_eq!(
        parse_simple_html("one<p>two"),
        vec![text("one"), element(Tag::LineBreak, vec![]), text("two")]
    );
}

#[test]
fn line_break_in_every_spelling() {
    assert_eq!(parse_simple_html("<br>"), vec![element(Tag::LineBreak, vec![])]);
    assert_eq!(parse_simple_html("<br/>"), vec![element(Tag::LineBreak, vec![])]);
    assert_eq!(
        parse_simple_html("a<br />b"),
        vec![text("a"), element(Tag::LineBreak, vec![]), text("b")]
    );
}

#[test]
fn code_and_teletype_are_literal() {
    assert_eq!(
        parse_simple_html("<code>a <b>x</b> &lt;</code>"),
        vec![literal(Tag::Code, "a <b>x</b> <")]
    );
    assert_eq!(parse_simple_html("<tt>x<i>y</i></tt>"), vec![literal(Tag::Teletype, "x<i>y</i>")]);
}

#[test]
fn pre_code_nesting() {
    assert_eq!(
        parse_simple_html("<pre>a<code>b</code>c</pre>"),
        vec![element(
            Tag::Preformatted,
            vec![text("a"), literal(Tag::Code, "b"), text("c")]
        )]
    );
}

#[test]
fn nested_pre_closes_at_the_matching_tag() {
    assert_eq!(
        parse_simple_html("<pre>a<pre>b</pre>c</pre>d"),
        vec![
            element(
                Tag::Preformatted,
                vec![text("a"), element(Tag::Preformatted, vec![text("b")]), text("c")]
            ),
            text("d"),
        ]
    );
}

#[test]
fn unterminated_bold_is_skipped() {
    assert_eq!(parse_simple_html("<b>"), vec![]);
    assert_eq!(parse_simple_html("<b>bold"), vec![text("bold")]);
    assert_eq!(parse_simple_html("<i>it"), vec![text("it")]);
    assert_eq!(parse_simple_html("<code>c"), vec![text("c")]);
    assert_eq!(parse_simple_html("<tt>t"), vec![text("t")]);
    assert_eq!(parse_simple_html("<a href=\"x\">t"), vec![text("t")]);
}

#[test]
fn unterminated_pre_runs_to_the_end() {
    assert_eq!(
        parse_simple_html("<pre>unclosed"),
        vec![element(Tag::Preformatted, vec![text("unclosed")])]
    );
    assert_eq!(
        parse_simple_html("<pre>a<pre>b</pre>c"),
        vec![element(
            Tag::Preformatted,
            vec![text("a"), element(Tag::Preformatted, vec![text("b")]), text("c")]
        )]
    );
}

#[test]
fn anchor_href_extraction() {
    assert_eq!(
        parse_simple_html("<a href='http://e.com'>x</a>"),
        vec![link("http://e.com", vec![text("x")])]
    );
    assert_eq!(
        parse_simple_html("<a href=\"http://e.com\">x</a>"),
        vec![link("http://e.com", vec![text("x")])]
    );
}

#[test]
fn anchor_takes_the_quote_style_that_comes_first() {
    assert_eq!(
        parse_simple_html("<a href='one' data-href=\"two\">x</a>"),
        vec![link("one", vec![text("x")])]
    );
    assert_eq!(
        parse_simple_html("<a href=\"one\" data-href='two'>x</a>"),
        vec![link("one", vec![text("x")])]
    );
}

#[test]
fn anchor_without_href_keeps_its_content() {
    assert_eq!(parse_simple_html("<a>x</a>"), vec![element(Tag::Anchor, vec![text("x")])]);
    assert_eq!(
        parse_simple_html("<a name=\"n\">x</a>"),
        vec![element(Tag::Anchor, vec![text("x")])]
    );
    assert_eq!(
        parse_simple_html("<a href=\"open>x</a>"),
        vec![element(Tag::Anchor, vec![text("x")])]
    );
}

#[test]
fn unknown_tags_are_skipped() {
    assert_eq!(
        parse_simple_html("a<div>b</div>c<span>d"),
        vec![text("a"), text("b"), text("c"), text("d")]
    );
}

#[test]
fn malformed_tag_is_text_to_the_end() {
    assert_eq!(parse_simple_html("<b"), vec![text("<b")]);
    assert_eq!(parse_simple_html("a <b x"), vec![text("a "), text("<b x")]);
    assert_eq!(parse_simple_html("<<<<<<<<"), vec![text("<<<<<<<<")]);
}

#[test]
fn many_open_angles_terminate() {
    let input = "<".repeat(5000);
    assert_eq!(parse_simple_html(&input), vec![text(&input)]);
    let input = "<p>".repeat(300);
    assert_eq!(parse_simple_html(&input).len(), 300);
}
