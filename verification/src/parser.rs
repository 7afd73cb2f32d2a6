//! Reading sanitized markup into a tree of nodes. The reader knows a handful
//! of tags and degrades gracefully on everything else: it never fails.

use crate::entities::{decode, decode_chars};
use crate::node::{all_well_formed, attributes_of, views, Attributes, Node, NodeView, Tag};
use crate::text::{
    blank, chars_of, find, find_char, find_from, index_from, is_blank, lemma_find_from,
    lemma_index_from, matches_at, stands_at, starts_with, string_of,
};
use vstd::prelude::*;
use vstd::slice::slice_subrange;

verus! {

/// What one step of the scan finds behind the text it passes over. Index
/// pairs bound a part of the input: from the first, up to the second.
pub enum Item {
    /// Nothing to show: a tag that is unknown, or known but never closed.
    Nothing,
    /// A stretch of input shown as one text leaf.
    Text(int, int),
    /// An element without content.
    Void(Tag),
    /// An element whose content is one text leaf.
    Literal(Tag, int, int),
    /// An element, with the target of its hyperlink if it has one, whose
    /// content is read in turn.
    Nested(Tag, Option<Seq<char>>, int, int),
}

/// One step of the scan: the text before the next tag ends at `text_end`,
/// `item` is what the tag gives, and the scan goes on at `next`.
pub struct Step {
    pub text_end: int,
    pub item: Item,
    pub next: int,
}

/// The tag that an opening tag names, told by how it begins.
pub open spec fn tag_of(open: Seq<char>) -> Option<Tag> {
    if starts_with(open, "<p>"@) || starts_with(open, "<p "@) {
        Some(Tag::Paragraph)
    } else if starts_with(open, "<i>"@) {
        Some(Tag::Italic)
    } else if starts_with(open, "<b>"@) {
        Some(Tag::Bold)
    } else if starts_with(open, "<br"@) {
        Some(Tag::LineBreak)
    } else if starts_with(open, "<code>"@) {
        Some(Tag::Code)
    } else if starts_with(open, "<pre>"@) {
        Some(Tag::Preformatted)
    } else if starts_with(open, "<tt>"@) {
        Some(Tag::Teletype)
    } else if starts_with(open, "<a "@) || starts_with(open, "<a>"@) {
        Some(Tag::Anchor)
    } else {
        None
    }
}

/// The closing tag of `tag`; a line break has none.
pub open spec fn closing(tag: Tag) -> Seq<char> {
    match tag {
        Tag::Paragraph => "</p>"@,
        Tag::Italic => "</i>"@,
        Tag::Bold => "</b>"@,
        Tag::LineBreak => Seq::empty(),
        Tag::Code => "</code>"@,
        Tag::Preformatted => "</pre>"@,
        Tag::Teletype => "</tt>"@,
        Tag::Anchor => "</a>"@,
    }
}

/// The index of the `close` that brings the nesting of `open` and `close`
/// from `depth` down to nothing, searching `s` from `pos` on.
pub open spec fn balanced_close(
    s: Seq<char>,
    open: Seq<char>,
    close: Seq<char>,
    pos: int,
    depth: nat,
) -> Option<int>
    decreases s.len() - pos,
{
    if pos < 0 || pos >= s.len() {
        None
    } else if matches_at(s, close, pos) {
        if depth <= 1 {
            Some(pos)
        } else {
            balanced_close(s, open, close, pos + 1, (depth - 1) as nat)
        }
    } else if matches_at(s, open, pos) {
        balanced_close(s, open, close, pos + 1, depth + 1)
    } else {
        balanced_close(s, open, close, pos + 1, depth)
    }
}

/// The text between `start` and the next `quote` in `s`.
pub open spec fn quoted(s: Seq<char>, start: int, quote: char) -> Option<Seq<char>> {
    match index_from(s, quote, start) {
        Some(end) => Some(s.subrange(start, end)),
        None => None,
    }
}

/// The target of the hyperlink that the opening tag `open` holds: the text in
/// quotes behind the first `href="` or `href='`, whichever of the two comes
/// first. There is none where neither occurs, or where the quote is not closed.
pub open spec fn href_of(open: Seq<char>) -> Option<Seq<char>> {
    let double = find_from(open, "href=\""@, 0);
    let single = find_from(open, "href='"@, 0);
    match (double, single) {
        (Some(d), Some(q)) => if d < q {
            quoted(open, d + "href=\""@.len(), '"')
        } else {
            quoted(open, q + "href='"@.len(), '\'')
        },
        (Some(d), None) => quoted(open, d + "href=\""@.len(), '"'),
        (None, Some(q)) => quoted(open, q + "href='"@.len(), '\''),
        (None, None) => None,
    }
}

/// What the opening tag that fills `s` from `lt` up to `end` gives, and where
/// the scan goes on.
pub open spec fn element_at(s: Seq<char>, lt: int, end: int) -> (Item, int) {
    let open = s.subrange(lt, end);
    match tag_of(open) {
        None => (Item::Nothing, end),
        Some(Tag::LineBreak) => (Item::Void(Tag::LineBreak), end),
        Some(Tag::Preformatted) => match balanced_close(s, "<pre>"@, "</pre>"@, end, 1) {
            Some(close) => (
                Item::Nested(Tag::Preformatted, None, end, close),
                close + "</pre>"@.len(),
            ),
            None => (
                Item::Nested(Tag::Preformatted, None, end, s.len() as int),
                s.len() as int,
            ),
        },
        Some(tag) => match find_from(s, closing(tag), end) {
            Some(close) => (
                match tag {
                    Tag::Code | Tag::Teletype => Item::Literal(tag, end, close),
                    Tag::Anchor => Item::Nested(tag, href_of(open), end, close),
                    _ => Item::Nested(tag, None, end, close),
                },
                close + closing(tag).len(),
            ),
            None => (
                if tag == Tag::Paragraph {
                    Item::Void(Tag::LineBreak)
                } else {
                    Item::Nothing
                },
                end,
            ),
        },
    }
}

/// The step that the scan of `s` takes at `pos`.
///
/// Where no `<` is left, the rest is text and the scan ends. Where a `<` has
/// no `>` behind it, the input from that `<` on is one text leaf and the scan
/// ends. Otherwise the tag runs up to the first `>`, and is read by
/// `element_at`.
pub open spec fn step(s: Seq<char>, pos: int) -> Step {
    match index_from(s, '<', pos) {
        None => Step { text_end: s.len() as int, item: Item::Nothing, next: s.len() as int },
        Some(lt) => match index_from(s, '>', lt) {
            None => Step { text_end: lt, item: Item::Text(lt, s.len() as int), next: s.len() as int },
            Some(gt) => {
                let (item, next) = element_at(s, lt, gt + 1);
                Step { text_end: lt, item, next }
            },
        },
    }
}

/// The nodes that a stretch of text between tags gives: none where it is
/// blank, else one leaf with its entities decoded.
pub open spec fn text_nodes(span: Seq<char>) -> Seq<NodeView> {
    if blank(span) {
        Seq::empty()
    } else {
        seq![NodeView::Text(decode(span))]
    }
}

/// A step moves the scan forward and stays inside the input. The content of
/// what it finds lies behind the cursor and inside the input. The content of a
/// nested element is at least one character shorter than the way the step
/// makes: so it is shorter than the input.
pub proof fn lemma_step(s: Seq<char>, pos: int)
    requires
        0 <= pos < s.len(),
    ensures
        pos <= step(s, pos).text_end <= s.len(),
        pos < step(s, pos).next <= s.len(),
        match step(s, pos).item {
            Item::Text(lo, hi) | Item::Literal(_, lo, hi) => pos <= lo <= hi <= s.len(),
            Item::Nested(_, _, lo, hi) => {
                &&& pos < lo <= hi <= s.len()
                &&& hi - lo < step(s, pos).next - pos
            },
            _ => true,
        },
{
    lemma_index_from(s, '<', pos);
    match index_from(s, '<', pos) {
        None => {},
        Some(lt) => {
            lemma_index_from(s, '>', lt);
            match index_from(s, '>', lt) {
                None => {},
                Some(gt) => {
                    let end = gt + 1;
                    let open = s.subrange(lt, end);
                    match tag_of(open) {
                        None => {},
                        Some(Tag::LineBreak) => {},
                        Some(Tag::Preformatted) => {
                            lemma_balanced_close(s, "<pre>"@, "</pre>"@, end, 1);
                        },
                        Some(tag) => {
                            lemma_find_from(s, closing(tag), end);
                        },
                    }
                },
            }
        },
    }
}

/// Where `balanced_close` finds a closing tag, it stands at or behind `pos`
/// and inside `s`.
pub proof fn lemma_balanced_close(
    s: Seq<char>,
    open: Seq<char>,
    close: Seq<char>,
    pos: int,
    depth: nat,
)
    requires
        0 <= pos,
    ensures
        match balanced_close(s, open, close, pos, depth) {
            Some(at) => pos <= at && matches_at(s, close, at),
            None => true,
        },
    decreases s.len() - pos,
{
    if pos >= s.len() {
    } else if matches_at(s, close, pos) {
        if depth > 1 {
            lemma_balanced_close(s, open, close, pos + 1, (depth - 1) as nat);
        }
    } else if matches_at(s, open, pos) {
        lemma_balanced_close(s, open, close, pos + 1, depth + 1);
    } else {
        lemma_balanced_close(s, open, close, pos + 1, depth);
    }
}

/// The node that an item found in `s` gives, if it gives one. The content of
/// a nested element is read as markup of its own.
pub open spec fn item_node(s: Seq<char>, item: Item) -> Option<NodeView>
    decreases s.len(), 0int, 0int,
{
    match item {
        Item::Nothing => None,
        Item::Text(lo, hi) => Some(NodeView::Text(decode(s.subrange(lo, hi)))),
        Item::Void(tag) => Some(NodeView::Element(tag, Map::empty(), Seq::empty())),
        Item::Literal(tag, lo, hi) => Some(
            NodeView::LiteralElement(tag, seq![NodeView::Text(decode(s.subrange(lo, hi)))]),
        ),
        Item::Nested(tag, href, lo, hi) => Some(
            NodeView::Element(
                tag,
                attributes_of(href),
                if 0 <= lo <= hi <= s.len() && hi - lo < s.len() {
                    parse_from(s.subrange(lo, hi), 0)
                } else {
                    Seq::empty()
                },
            ),
        ),
    }
}

/// No node, or one.
pub open spec fn maybe(node: Option<NodeView>) -> Seq<NodeView> {
    match node {
        Some(node) => seq![node],
        None => Seq::empty(),
    }
}

/// The nodes that the scan of `s` gives from `pos` on: at each step the text
/// passed over, then what the tag gives, then the nodes of the rest.
pub open spec fn parse_from(s: Seq<char>, pos: int) -> Seq<NodeView>
    decreases s.len(), 1int, s.len() - pos,
{
    if 0 <= pos < s.len() {
        proof {
            lemma_step(s, pos);
        }
        let found = step(s, pos);
        text_nodes(s.subrange(pos, found.text_end)) + maybe(item_node(s, found.item)) + parse_from(
            s,
            found.next,
        )
    } else {
        Seq::empty()
    }
}

/// The nodes that the markup `s` is read as.
pub open spec fn parsed(s: Seq<char>) -> Seq<NodeView> {
    parse_from(s, 0)
}

/// The number of steps that reading the content of an item takes.
pub open spec fn item_steps(s: Seq<char>, item: Item) -> nat
    decreases s.len(), 0int, 0int,
{
    match item {
        Item::Nested(_, _, lo, hi) => if 0 <= lo <= hi <= s.len() && hi - lo < s.len() {
            steps_from(s.subrange(lo, hi), 0)
        } else {
            0
        },
        _ => 0,
    }
}

/// The number of steps that the scan of `s` takes from `pos` on, with the
/// steps that it takes inside nested elements. It is the number of turns
/// that the loop of the reader makes.
pub open spec fn steps_from(s: Seq<char>, pos: int) -> nat
    decreases s.len(), 1int, s.len() - pos,
{
    if 0 <= pos < s.len() {
        proof {
            lemma_step(s, pos);
        }
        let found = step(s, pos);
        1 + item_steps(s, found.item) + steps_from(s, found.next)
    } else {
        0
    }
}

/// Reading markup takes no more steps than the markup has characters,
/// whatever it holds: each step moves the cursor forward by more than the
/// content that it hands on to be read in turn.
pub proof fn lemma_steps_bounded(s: Seq<char>, pos: int)
    requires
        0 <= pos <= s.len(),
    ensures
        steps_from(s, pos) <= s.len() - pos,
    decreases s.len(), 1int, s.len() - pos,
{
    if pos < s.len() {
        lemma_step(s, pos);
        let found = step(s, pos);
        match found.item {
            Item::Nested(_, _, lo, hi) => {
                lemma_steps_bounded(s.subrange(lo, hi), 0);
                assert(item_steps(s, found.item) <= hi - lo);
            },
            _ => {
                assert(item_steps(s, found.item) == 0);
            },
        }
        lemma_steps_bounded(s, found.next);
        assert(steps_from(s, pos) == 1 + item_steps(s, found.item) + steps_from(s, found.next));
    }
}

impl Item {
    /// Whether the item is one that the scan can find: only a line break is
    /// void, only code and teletype are literal, neither of the three is
    /// nested, and only an anchor leads anywhere.
    pub open spec fn fits(self) -> bool {
        match self {
            Item::Nothing | Item::Text(_, _) => true,
            Item::Void(tag) => tag == Tag::LineBreak,
            Item::Literal(tag, _, _) => tag == Tag::Code || tag == Tag::Teletype,
            Item::Nested(tag, href, _, _) => {
                &&& tag != Tag::LineBreak && tag != Tag::Code && tag != Tag::Teletype
                &&& href is Some ==> tag == Tag::Anchor
            },
        }
    }
}

/// What a step finds is always an item that fits.
pub proof fn lemma_step_fits(s: Seq<char>, pos: int)
    ensures
        step(s, pos).item.fits(),
{
}

/// The node of an item that fits is well formed.
pub proof fn lemma_item_well_formed(s: Seq<char>, item: Item)
    requires
        item.fits(),
    ensures
        all_well_formed(maybe(item_node(s, item))),
    decreases s.len(), 0int, 0int,
{
    match item {
        Item::Nested(tag, href, lo, hi) => {
            if 0 <= lo <= hi <= s.len() && hi - lo < s.len() {
                lemma_parse_well_formed(s.subrange(lo, hi), 0);
            }
            let node = item_node(s, item).unwrap();
            assert(maybe(item_node(s, item))[0] == node);
        },
        _ => {},
    }
}

/// Whatever the input, every node read from it is well formed: no element
/// carries a tag it cannot have, and no attribute but the target of a
/// hyperlink on an anchor is ever kept.
pub proof fn lemma_parse_well_formed(s: Seq<char>, pos: int)
    ensures
        all_well_formed(parse_from(s, pos)),
    decreases s.len(), 1int, s.len() - pos,
{
    if 0 <= pos < s.len() {
        lemma_step(s, pos);
        lemma_step_fits(s, pos);
        let found = step(s, pos);
        lemma_item_well_formed(s, found.item);
        lemma_parse_well_formed(s, found.next);
    }
}

/// What one step of the scan finds, with indices into the input.
enum Piece {
    Nothing,
    Text(usize, usize),
    Void(Tag),
    Literal(Tag, usize, usize),
    Nested(Tag, Option<String>, usize, usize),
}

/// One step of the scan, with indices into the input.
struct Scanned {
    text_end: usize,
    piece: Piece,
    next: usize,
}

/// The character sequence of an optional string.
pub open spec fn target_of(href: Option<String>) -> Option<Seq<char>> {
    match href {
        Some(target) => Some(target@),
        None => None,
    }
}

impl Piece {
    spec fn item(self) -> Item {
        match self {
            Piece::Nothing => Item::Nothing,
            Piece::Text(lo, hi) => Item::Text(lo as int, hi as int),
            Piece::Void(tag) => Item::Void(tag),
            Piece::Literal(tag, lo, hi) => Item::Literal(tag, lo as int, hi as int),
            Piece::Nested(tag, href, lo, hi) => Item::Nested(
                tag,
                target_of(href),
                lo as int,
                hi as int,
            ),
        }
    }
}

impl Scanned {
    spec fn step(self) -> Step {
        Step { text_end: self.text_end as int, item: self.piece.item(), next: self.next as int }
    }
}

/// Whether `s` begins with `pat`.
fn begins(s: &[char], pat: &str) -> (r: bool)
    ensures
        r == starts_with(s@, pat@),
{
    let pat = chars_of(pat);
    stands_at(s, pat.as_slice(), 0)
}

/// The tag that the opening tag `open` names.
fn classify(open: &[char]) -> (tag: Option<Tag>)
    ensures
        tag == tag_of(open@),
{
    if begins(open, "<p>") || begins(open, "<p ") {
        Some(Tag::Paragraph)
    } else if begins(open, "<i>") {
        Some(Tag::Italic)
    } else if begins(open, "<b>") {
        Some(Tag::Bold)
    } else if begins(open, "<br") {
        Some(Tag::LineBreak)
    } else if begins(open, "<code>") {
        Some(Tag::Code)
    } else if begins(open, "<pre>") {
        Some(Tag::Preformatted)
    } else if begins(open, "<tt>") {
        Some(Tag::Teletype)
    } else if begins(open, "<a ") || begins(open, "<a>") {
        Some(Tag::Anchor)
    } else {
        None
    }
}

/// The closing tag of `tag`.
fn closing_tag(tag: Tag) -> (close: Vec<char>)
    ensures
        close@ == closing(tag),
{
    match tag {
        Tag::Paragraph => chars_of("</p>"),
        Tag::Italic => chars_of("</i>"),
        Tag::Bold => chars_of("</b>"),
        Tag::LineBreak => Vec::new(),
        Tag::Code => chars_of("</code>"),
        Tag::Preformatted => chars_of("</pre>"),
        Tag::Teletype => chars_of("</tt>"),
        Tag::Anchor => chars_of("</a>"),
    }
}

/// The index of the `close` that matches an `open` which stands before
/// `from`, with the pairs of `open` and `close` in between left out.
fn find_balanced(s: &[char], open: &[char], close: &[char], from: usize) -> (r: Option<usize>)
    ensures
        match r {
            Some(at) => balanced_close(s@, open@, close@, from as int, 1) == Some(at as int),
            None => balanced_close(s@, open@, close@, from as int, 1) is None,
        },
{
    let mut pos: usize = from;
    let mut inner: usize = 0;
    while pos < s.len()
        invariant
            from <= pos,
            inner <= pos - from,
            balanced_close(s@, open@, close@, pos as int, (inner + 1) as nat) == balanced_close(
                s@,
                open@,
                close@,
                from as int,
                1,
            ),
        decreases s.len() - pos,
    {
        if stands_at(s, close, pos) {
            if inner == 0 {
                return Some(pos);
            }
            inner -= 1;
        } else if stands_at(s, open, pos) {
            inner += 1;
        }
        pos += 1;
    }
    None
}

/// The text between `start` and the next `quote` in `s`.
fn quoted_text(s: &[char], start: usize, quote: char) -> (text: Option<String>)
    requires
        start <= s.len(),
    ensures
        target_of(text) == quoted(s@, start as int, quote),
{
    match find_char(s, quote, start) {
        Some(end) => {
            proof {
                lemma_index_from(s@, quote, start as int);
            }
            Some(string_of(slice_subrange(s, start, end)))
        },
        None => None,
    }
}

/// The target of the hyperlink that the opening tag `open` holds.
fn href(open: &[char]) -> (target: Option<String>)
    ensures
        target_of(target) == href_of(open@),
{
    let double = chars_of("href=\"");
    let single = chars_of("href='");
    let d = find(open, double.as_slice(), 0);
    let q = find(open, single.as_slice(), 0);
    proof {
        lemma_find_from(open@, double@, 0);
        lemma_find_from(open@, single@, 0);
        assert(open@.len() == open.len());
    }
    match (d, q) {
        (Some(d), Some(q)) => if d < q {
            quoted_text(open, d + double.len(), '"')
        } else {
            quoted_text(open, q + single.len(), '\'')
        },
        (Some(d), None) => quoted_text(open, d + double.len(), '"'),
        (None, Some(q)) => quoted_text(open, q + single.len(), '\''),
        (None, None) => None,
    }
}

/// The step that the scan of `s` takes at `pos`.
fn scan(s: &[char], pos: usize) -> (found: Scanned)
    requires
        pos < s.len(),
    ensures
        found.step() == step(s@, pos as int),
{
    let lt = match find_char(s, '<', pos) {
        Some(lt) => lt,
        None => {
            return Scanned { text_end: s.len(), piece: Piece::Nothing, next: s.len() };
        },
    };
    let gt = match find_char(s, '>', lt) {
        Some(gt) => gt,
        None => {
            return Scanned { text_end: lt, piece: Piece::Text(lt, s.len()), next: s.len() };
        },
    };
    proof {
        lemma_index_from(s@, '<', pos as int);
        lemma_index_from(s@, '>', lt as int);
    }
    let end = gt + 1;
    let open = slice_subrange(s, lt, end);
    let (piece, next) = match classify(open) {
        None => (Piece::Nothing, end),
        Some(Tag::LineBreak) => (Piece::Void(Tag::LineBreak), end),
        Some(Tag::Preformatted) => {
            let opening = chars_of("<pre>");
            let close = chars_of("</pre>");
            match find_balanced(s, opening.as_slice(), close.as_slice(), end) {
                Some(at) => {
                    proof {
                        lemma_balanced_close(s@, opening@, close@, end as int, 1);
                    }
                    (Piece::Nested(Tag::Preformatted, None, end, at), at + close.len())
                },
                None => (Piece::Nested(Tag::Preformatted, None, end, s.len()), s.len()),
            }
        },
        Some(tag) => {
            let close = closing_tag(tag);
            match find(s, close.as_slice(), end) {
                Some(at) => {
                    proof {
                        lemma_find_from(s@, close@, end as int);
                    }
                    let piece = match tag {
                        Tag::Code | Tag::Teletype => Piece::Literal(tag, end, at),
                        Tag::Anchor => Piece::Nested(tag, href(open), end, at),
                        _ => Piece::Nested(tag, None, end, at),
                    };
                    (piece, at + close.len())
                },
                None => (
                    match tag {
                        Tag::Paragraph => Piece::Void(Tag::LineBreak),
                        _ => Piece::Nothing,
                    },
                    end,
                ),
            }
        },
    };
    Scanned { text_end: lt, piece, next }
}

/// A text leaf that holds `span` with its entities decoded.
fn text_leaf(span: &[char]) -> (leaf: Node)
    ensures
        leaf@ == NodeView::Text(decode(span@)),
{
    let decoded = decode_chars(span);
    Node::Text(string_of(decoded.as_slice()))
}

/// The values of a list with one more node are those of the list and that of
/// the node.
pub proof fn lemma_views_push(nodes: Seq<Node>, node: Node)
    ensures
        views(nodes.push(node)) == views(nodes).push(node@),
{
}

/// The value of an optional node.
pub open spec fn view_of(node: Option<Node>) -> Option<NodeView> {
    match node {
        Some(node) => Some(node@),
        None => None,
    }
}

/// The node that a piece found in `s` gives, if it gives one, with the
/// number of steps that reading its content took.
fn piece_node(s: &[char], piece: Piece) -> (out: (Option<Node>, Ghost<nat>))
    requires
        match piece.item() {
            Item::Text(lo, hi) | Item::Literal(_, lo, hi) => 0 <= lo <= hi <= s@.len(),
            Item::Nested(_, _, lo, hi) => 0 <= lo <= hi <= s@.len() && hi - lo < s@.len(),
            _ => true,
        },
    ensures
        view_of(out.0) == item_node(s@, piece.item()),
        out.1@ == item_steps(s@, piece.item()),
    decreases s@.len(), 0int,
{
    match piece {
        Piece::Nothing => (None, Ghost(0)),
        Piece::Text(lo, hi) => (Some(text_leaf(slice_subrange(s, lo, hi))), Ghost(0)),
        Piece::Void(tag) => {
            let children: Vec<Node> = Vec::new();
            assert(views(children@) == Seq::<NodeView>::empty());
            (Some(Node::Element(tag, Attributes { href: None }, children)), Ghost(0))
        },
        Piece::Literal(tag, lo, hi) => {
            let leaf = text_leaf(slice_subrange(s, lo, hi));
            let mut only: Vec<Node> = Vec::new();
            only.push(leaf);
            assert(views(only@) == seq![leaf@]);
            (Some(Node::LiteralElement(tag, only)), Ghost(0))
        },
        Piece::Nested(tag, href, lo, hi) => {
            let (children, steps) = parse_counted(slice_subrange(s, lo, hi));
            (Some(Node::Element(tag, Attributes { href }, children)), steps)
        },
    }
}

/// Reads the markup `s` into nodes, and counts the steps that the scan takes,
/// those inside nested elements included: each turn of the loop is one.
fn parse_counted(s: &[char]) -> (out: (Vec<Node>, Ghost<nat>))
    ensures
        views(out.0@) == parsed(s@),
        out.1@ == steps_from(s@, 0),
        out.1@ <= s@.len(),
    decreases s@.len(), 1int,
{
    let mut nodes: Vec<Node> = Vec::new();
    let mut pos: usize = 0;
    let ghost mut steps: nat = 0;
    assert(views(nodes@) + parse_from(s@, 0) == parsed(s@));
    while pos < s.len()
        invariant
            pos <= s.len(),
            views(nodes@) + parse_from(s@, pos as int) == parsed(s@),
            steps + steps_from(s@, pos as int) == steps_from(s@, 0),
        decreases s.len() - pos,
    {
        proof {
            lemma_step(s@, pos as int);
        }
        let ghost before = views(nodes@);
        let found = scan(s, pos);
        let lead = slice_subrange(s, pos, found.text_end);
        if !is_blank(lead) {
            let leaf = text_leaf(lead);
            proof {
                lemma_views_push(nodes@, leaf);
            }
            nodes.push(leaf);
        }
        assert(views(nodes@) == before + text_nodes(lead@));
        let ghost item = found.piece.item();
        let (node, inner) = piece_node(s, found.piece);
        match node {
            Some(node) => {
                proof {
                    lemma_views_push(nodes@, node);
                }
                nodes.push(node);
            },
            None => {},
        }
        assert(views(nodes@) == before + text_nodes(lead@) + maybe(item_node(s@, item)));
        assert(views(nodes@) + parse_from(s@, found.next as int) == before + parse_from(
            s@,
            pos as int,
        ));
        proof {
            assert(steps_from(s@, pos as int) == 1 + item_steps(s@, item) + steps_from(
                s@,
                found.next as int,
            ));
            steps = steps + 1 + inner@;
        }
        pos = found.next;
    }
    proof {
        assert(parse_from(s@, pos as int) == Seq::<NodeView>::empty());
        assert(steps_from(s@, pos as int) == 0);
        lemma_steps_bounded(s@, 0);
    }
    (nodes, Ghost(steps))
}

/// Reads sanitized markup into a tree of nodes.
///
/// Text between tags becomes a text leaf with its entities decoded, unless it
/// is blank. `<p>`, `<i>`, `<b>`, `<pre>` and `<a>` become elements whose content
/// is read in turn; `<code>` and `<tt>` become elements whose content is one text
/// leaf; `<br>` becomes a line break. A `<p>` that is never closed becomes a line
/// break, a `<pre>` that is never closed runs to the end of the input, and any
/// other tag that is unknown or never closed is passed over. A `<` with no `>`
/// behind it begins a text leaf that runs to the end of the input.
pub fn parse_simple_html(html: &str) -> (nodes: Vec<Node>)
    ensures
        views(nodes@) == parsed(html@),
        all_well_formed(views(nodes@)),
{
    let chars = chars_of(html);
    proof {
        lemma_parse_well_formed(html@, 0);
    }
    let (nodes, _) = parse_counted(chars.as_slice());
    nodes
}

} // verus!
