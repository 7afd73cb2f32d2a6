//! Turning bare web addresses in text into hyperlinks.

use crate::text::{
    append, chars_of, find, find_from, find_last, is_space, is_whitespace, lemma_find_from, rfind,
    string_of,
};
use vstd::prelude::*;
use vstd::slice::slice_subrange;

verus! {

/// The characters at which a web address ends: white space, angle brackets,
/// round brackets and square brackets.
pub open spec fn ends_url(c: char) -> bool {
    is_space(c) || c == '<' || c == '>' || c == '(' || c == ')' || c == '[' || c == ']'
}

/// The index at which the address that runs through `from` ends: that of the
/// first character at `from` or later that ends an address, or the length of
/// `s` if there is none.
pub open spec fn url_end(s: Seq<char>, from: int) -> int
    decreases s.len() - from,
{
    if 0 <= from < s.len() && !ends_url(s[from]) {
        url_end(s, from + 1)
    } else {
        from
    }
}

/// Whether text that follows `before` stands inside a hyperlink that is open:
/// the last `<a ` in `before` has no `</a>` after it.
pub open spec fn inside_anchor(before: Seq<char>) -> bool {
    match rfind(before, "<a "@) {
        Some(open) => find_from(before, "</a>"@, open) is None,
        None => false,
    }
}

/// The markup of a hyperlink that leads to `url` and shows `url`.
pub open spec fn anchor(url: Seq<char>) -> Seq<char> {
    "<a href=\""@ + url + "\">"@ + url + "</a>"@
}

/// Whether the occurrence of `proto` at `at` in `s`, with `before` standing
/// for all that precedes it, begins an address that becomes a hyperlink: it
/// stands outside an open hyperlink, and at least two characters follow the
/// protocol before the address ends.
pub open spec fn links_at(before: Seq<char>, s: Seq<char>, at: int, proto: Seq<char>) -> bool {
    !inside_anchor(before) && url_end(s, at + proto.len()) > at + proto.len() + 1
}

/// `url_end` lies between `from` and the end of `s`, nothing before it ends
/// an address, and what stands at it does.
pub proof fn lemma_url_end(s: Seq<char>, from: int)
    requires
        0 <= from <= s.len(),
    ensures
        from <= url_end(s, from) <= s.len(),
        forall|i: int| from <= i < url_end(s, from) ==> !ends_url(s[i]),
        url_end(s, from) < s.len() ==> ends_url(s[url_end(s, from)]),
    decreases s.len() - from,
{
    if from < s.len() && !ends_url(s[from]) {
        lemma_url_end(s, from + 1);
    }
}

/// `done`, followed by `s` from `pos` on with the addresses that begin with
/// `proto` made into hyperlinks. Occurrences of `proto` are taken from left to
/// right. One that does not become a hyperlink is passed over; after one that
/// does, the search goes on behind the address.
pub open spec fn link_from(done: Seq<char>, s: Seq<char>, pos: int, proto: Seq<char>) -> Seq<char>
    decreases s.len() - pos,
{
    match find_from(s, proto, pos) {
        Some(at) if proto.len() > 0 && 0 <= pos => {
            proof {
                lemma_find_from(s, proto, pos);
                lemma_url_end(s, at + proto.len());
            }
            let before = done + s.subrange(pos, at);
            if links_at(before, s, at, proto) {
                let end = url_end(s, at + proto.len());
                link_from(before + anchor(s.subrange(at, end)), s, end, proto)
            } else {
                link_from(before + proto, s, at + proto.len(), proto)
            }
        },
        _ => done + s.subrange(pos, s.len() as int),
    }
}

/// `s` with the addresses that begin with `proto` made into hyperlinks.
pub open spec fn link_pass(s: Seq<char>, proto: Seq<char>) -> Seq<char> {
    link_from(Seq::empty(), s, 0, proto)
}

/// `s` with its bare web addresses made into hyperlinks: first those that
/// begin with `https://`, then those that begin with `http://`.
pub open spec fn linkified(s: Seq<char>) -> Seq<char> {
    link_pass(link_pass(s, "https://"@), "http://"@)
}

/// Whether `c` ends a web address.
fn is_url_end(c: char) -> (r: bool)
    ensures
        r == ends_url(c),
{
    is_whitespace(c) || c == '<' || c == '>' || c == '(' || c == ')' || c == '[' || c == ']'
}

/// The index at which the address that runs through `from` ends.
fn scan_url(s: &[char], from: usize) -> (end: usize)
    requires
        from <= s.len(),
    ensures
        end == url_end(s@, from as int),
        from <= end <= s.len(),
{
    let mut end: usize = from;
    while end < s.len() && !is_url_end(s[end])
        invariant
            from <= end <= s.len(),
            url_end(s@, end as int) == url_end(s@, from as int),
        decreases s.len() - end,
    {
        end += 1;
    }
    end
}

/// Whether text that follows `before` stands inside an open hyperlink.
fn is_inside_anchor(before: &[char]) -> (r: bool)
    ensures
        r == inside_anchor(before@),
{
    let open = chars_of("<a ");
    let close = chars_of("</a>");
    match find_last(before, open.as_slice()) {
        Some(at) => find(before, close.as_slice(), at).is_none(),
        None => false,
    }
}

/// `s` with the addresses that begin with `proto` made into hyperlinks.
pub fn link_protocol(s: &[char], proto: &[char]) -> (out: Vec<char>)
    ensures
        out@ == link_pass(s@, proto@),
{
    let head = chars_of("<a href=\"");
    let mid = chars_of("\">");
    let tail = chars_of("</a>");
    let mut out: Vec<char> = Vec::new();
    let mut pos: usize = 0;
    loop
        invariant
            pos <= s.len(),
            head@ == "<a href=\""@,
            mid@ == "\">"@,
            tail@ == "</a>"@,
            link_from(out@, s@, pos as int, proto@) == link_pass(s@, proto@),
        decreases s.len() - pos,
    {
        let found = if proto.len() > 0 {
            find(s, proto, pos)
        } else {
            None
        };
        match found {
            Some(at) => {
                proof {
                    lemma_find_from(s@, proto@, pos as int);
                }
                append(&mut out, slice_subrange(s, pos, at));
                let start = at + proto.len();
                let end = scan_url(s, start);
                if !is_inside_anchor(out.as_slice()) && end - start > 1 {
                    let url = slice_subrange(s, at, end);
                    let ghost before = out@;
                    append(&mut out, head.as_slice());
                    append(&mut out, url);
                    append(&mut out, mid.as_slice());
                    append(&mut out, url);
                    append(&mut out, tail.as_slice());
                    assert(out@ == before + anchor(url@));
                    pos = end;
                } else {
                    append(&mut out, proto);
                    pos = start;
                }
            },
            None => {
                append(&mut out, slice_subrange(s, pos, s.len()));
                return out;
            },
        }
    }
}

/// The characters of `s` with its bare web addresses made into hyperlinks.
pub fn linkify_chars(s: &[char]) -> (out: Vec<char>)
    ensures
        out@ == linkified(s@),
{
    let secure = chars_of("https://");
    let plain = chars_of("http://");
    let first = link_protocol(s, secure.as_slice());
    link_protocol(first.as_slice(), plain.as_slice())
}

/// Wraps each bare web address in `text` in a hyperlink that leads to the
/// address and shows it. An address begins with `https://` or `http://` and
/// runs to the next white space, `<`, `>`, `(`, `)`, `[` or `]`, or to the end;
/// it is left as it is inside a hyperlink that is still open, and where fewer
/// than two characters follow the protocol.
pub fn linkify_text(text: &str) -> (out: String)
    ensures
        out@ == linkified(text@),
{
    let chars = chars_of(text);
    let linked = linkify_chars(chars.as_slice());
    string_of(linked.as_slice())
}

} // verus!
