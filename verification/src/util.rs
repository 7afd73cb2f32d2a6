//! The whole way from submitted text to nodes.

use crate::entities::{decode, decode_entities};
use crate::linkify::{linkified, linkify_text};
use crate::node::{all_well_formed, views, Node, NodeView};
use crate::parser::{lemma_parse_well_formed, parse_simple_html, parsed};
use crate::sanitize::{sanitize, sanitized};
use vstd::prelude::*;

verus! {

/// The nodes that submitted text is shown as: its entities are decoded, its
/// bare web addresses made into hyperlinks, all markup that is not allowed
/// removed, and what is left read into nodes.
pub open spec fn rendered(text: Seq<char>) -> Seq<NodeView> {
    parsed(sanitized(linkified(decode(text))))
}

/// Whatever is submitted, every node that it is shown as is well formed:
/// no tag but the allowed ones appears, and no attribute but the target of a
/// hyperlink on an anchor.
pub proof fn lemma_rendered_well_formed(text: Seq<char>)
    ensures
        all_well_formed(rendered(text)),
{
    lemma_parse_well_formed(sanitized(linkified(decode(text))), 0);
}

/// Renders submitted text (the text of a story or a comment, or what a user
/// says about themselves) as a tree of nodes.
pub fn parse_html_to_nodes(text: &str) -> (nodes: Vec<Node>)
    ensures
        views(nodes@) == rendered(text@),
        all_well_formed(views(nodes@)),
{
    let decoded = decode_entities(text);
    let linked = linkify_text(decoded.as_str());
    let clean = sanitize(linked.as_str());
    parse_simple_html(clean.as_str())
}

} // verus!
