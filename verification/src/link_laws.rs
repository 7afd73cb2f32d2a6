//! Laws of the linkifier: text whose addresses all stand inside hyperlinks is
//! left as it is, and linkifying twice gives what linkifying once gives.

use crate::linkify::{
    anchor, ends_url, inside_anchor, lemma_url_end, link_from, link_pass, linkified, links_at,
    url_end,
};
use crate::text::{find_from, lemma_find_from, lemma_rfind_upto, matches_at, rfind};
use vstd::prelude::*;

verus! {

/// Whether the address that begins at `i` ends within one character.
pub open spec fn short_at(s: Seq<char>, i: int) -> bool {
    ||| i >= s.len()
    ||| ends_url(s[i])
    ||| i + 1 >= s.len()
    ||| ends_url(s[i + 1])
}

/// An address ends within one character exactly where `short_at` says so.
pub proof fn lemma_short_at(s: Seq<char>, i: int)
    requires
        0 <= i,
    ensures
        url_end(s, i) <= i + 1 <==> short_at(s, i),
{
    if i < s.len() && !ends_url(s[i]) {
        assert(url_end(s, i) == url_end(s, i + 1));
        if i + 1 < s.len() && !ends_url(s[i + 1]) {
            lemma_url_end(s, i + 2);
            assert(url_end(s, i + 1) == url_end(s, i + 2));
        }
    }
}

/// The opening of a hyperlink, as the linkifier looks for it.
pub open spec fn opening() -> Seq<char> {
    "<a "@
}

/// The closing of a hyperlink.
pub open spec fn closing() -> Seq<char> {
    "</a>"@
}

/// Text stands inside an open hyperlink exactly when some opening before it
/// has no closing behind it.
pub proof fn lemma_inside_anchor(s: Seq<char>)
    ensures
        inside_anchor(s) <==> exists|r: int|
            #[trigger] matches_at(s, opening(), r) && forall|j: int|
                r <= j ==> !matches_at(s, closing(), j),
{
    let upto = s.len() - opening().len();
    lemma_rfind_upto(s, opening(), upto);
    match rfind(s, opening()) {
        Some(last) => {
            lemma_find_from(s, closing(), last);
            if exists|r: int|
                #[trigger] matches_at(s, opening(), r) && forall|j: int|
                    r <= j ==> !matches_at(s, closing(), j) {
                let r = choose|r: int|
                    #[trigger] matches_at(s, opening(), r) && forall|j: int|
                        r <= j ==> !matches_at(s, closing(), j);
                assert(r <= last);
            }
        },
        None => {
            assert forall|r: int| !matches_at(s, opening(), r) by {
                if matches_at(s, opening(), r) {
                    assert(r <= upto);
                }
            }
        },
    }
}

/// An occurrence of `proto` at `i` in `s` is passed over by the linkifier
/// when all of `s` before it is what precedes it.
pub open spec fn inert(s: Seq<char>, proto: Seq<char>, i: int) -> bool {
    !links_at(s.subrange(0, i), s, i, proto)
}

/// Whether every occurrence of `proto` at `from` or later in `s` is passed
/// over: each stands inside an open hyperlink, or begins an address that ends
/// within one character behind the protocol.
pub open spec fn settled(s: Seq<char>, proto: Seq<char>, from: int) -> bool {
    forall|i: int| from <= i && #[trigger] matches_at(s, proto, i) ==> inert(s, proto, i)
}

/// The linkifier only adds: its result begins with what was done before, and
/// is at least as long as what was done and what was left.
pub proof fn lemma_link_from_prefix(done: Seq<char>, s: Seq<char>, pos: int, proto: Seq<char>)
    requires
        0 <= pos <= s.len(),
    ensures
        link_from(done, s, pos, proto).len() >= done.len() + s.len() - pos,
        link_from(done, s, pos, proto).subrange(0, done.len() as int) == done,
    decreases s.len() - pos,
{
    let out = link_from(done, s, pos, proto);
    match find_from(s, proto, pos) {
        Some(at) if proto.len() > 0 => {
            lemma_find_from(s, proto, pos);
            lemma_url_end(s, at + proto.len());
            let before = done + s.subrange(pos, at);
            if links_at(before, s, at, proto) {
                let end = url_end(s, at + proto.len());
                let next = before + anchor(s.subrange(at, end));
                lemma_link_from_prefix(next, s, end, proto);
                assert(out.subrange(0, done.len() as int) == out.subrange(0, next.len() as int).subrange(
                    0,
                    done.len() as int,
                ));
                assert(next.subrange(0, done.len() as int) == done);
            } else {
                let next = before + proto;
                lemma_link_from_prefix(next, s, at + proto.len(), proto);
                assert(out.subrange(0, done.len() as int) == out.subrange(0, next.len() as int).subrange(
                    0,
                    done.len() as int,
                ));
                assert(next.subrange(0, done.len() as int) == done);
            }
        },
        _ => {
            assert(out == done + s.subrange(pos, s.len() as int));
            assert(out.subrange(0, done.len() as int) == done);
        },
    }
}

/// Where every occurrence of `proto` from `from` on is passed over, the
/// linkifier hands `s` back as it is.
pub proof fn lemma_settled_unchanged(s: Seq<char>, proto: Seq<char>, from: int)
    requires
        0 <= from <= s.len(),
        settled(s, proto, from),
    ensures
        link_from(s.subrange(0, from), s, from, proto) == s,
    decreases s.len() - from,
{
    let done = s.subrange(0, from);
    match find_from(s, proto, from) {
        Some(at) if proto.len() > 0 => {
            lemma_find_from(s, proto, from);
            let before = done + s.subrange(from, at);
            assert(before == s.subrange(0, at));
            assert(inert(s, proto, at));
            let next = at + proto.len();
            assert(before + proto == s.subrange(0, next));
            lemma_settled_unchanged(s, proto, next);
        },
        _ => {
            assert(done + s.subrange(from, s.len() as int) == s);
        },
    }
}

/// The two protocols with which an address can begin.
pub open spec fn is_protocol(proto: Seq<char>) -> bool {
    proto == "https://"@ || proto == "http://"@
}

/// What the laws need of a protocol: it begins with `ht`, holds no further
/// `h`, no character that ends an address, and no double quote.
#[verifier::opaque]
pub open spec fn plain(proto: Seq<char>) -> bool {
    &&& proto.len() >= 5
    &&& proto[0] == 'h'
    &&& proto[1] == 't'
    &&& forall|k: int| 0 < k < proto.len() ==> proto[k] != 'h'
    &&& forall|k: int| 0 <= k < proto.len() ==> !ends_url(proto[k]) && proto[k] != '"'
}

/// Both protocols are plain.
pub proof fn lemma_protocol_plain(proto: Seq<char>)
    requires
        is_protocol(proto),
    ensures
        plain(proto),
{
    reveal(plain);
    reveal_strlit("https://");
    reveal_strlit("http://");
}

/// What a plain protocol holds at `k`.
proof fn lemma_plain_at(proto: Seq<char>, k: int)
    requires
        plain(proto),
        0 <= k < proto.len(),
    ensures
        proto.len() >= 5,
        proto[0] == 'h',
        proto[1] == 't',
        k > 0 ==> proto[k] != 'h',
        !ends_url(proto[k]),
        proto[k] != '"',
        proto[k] != '<',
        proto[k] != '>',
{
    reveal(plain);
}

/// A plain protocol has at least five characters.
proof fn lemma_plain_len(proto: Seq<char>)
    requires
        plain(proto),
    ensures
        proto.len() >= 5,
{
    reveal(plain);
}

/// What an occurrence of `pat` at `i` holds at its place `k`.
proof fn lemma_match_at(s: Seq<char>, pat: Seq<char>, i: int, k: int)
    requires
        matches_at(s, pat, i),
        0 <= k < pat.len(),
    ensures
        s[i + k] == pat[k],
{
    assert(s.subrange(i, i + pat.len())[k] == s[i + k]);
}

/// A sequence holds what its beginning holds.
proof fn lemma_prefix_index(out: Seq<char>, next: Seq<char>, j: int)
    requires
        next.len() <= out.len(),
        out.subrange(0, next.len() as int) == next,
        0 <= j < next.len(),
    ensures
        out[j] == next[j],
{
    assert(out.subrange(0, next.len() as int)[j] == out[j]);
}

/// Where `out` begins with `done` and a copy of `s` from `pos` up to `upto`,
/// an occurrence inside the copy is an occurrence in `s`.
proof fn lemma_copied_occurrence(
    out: Seq<char>,
    done: Seq<char>,
    s: Seq<char>,
    pos: int,
    upto: int,
    pat: Seq<char>,
    i: int,
)
    requires
        0 <= pos <= upto <= s.len(),
        done.len() + upto - pos <= out.len(),
        out.subrange(0, done.len() + upto - pos) == done + s.subrange(pos, upto),
        done.len() <= i,
        i + pat.len() <= done.len() + upto - pos,
        matches_at(out, pat, i),
    ensures
        matches_at(s, pat, pos + i - done.len()),
{
    let j = pos + i - done.len();
    let head = out.subrange(0, done.len() + upto - pos);
    let found = out.subrange(i, i + pat.len());
    let same = s.subrange(j, j + pat.len());
    assert forall|k: int| 0 <= k < pat.len() implies #[trigger] found[k] == same[k] by {
        assert(head[i + k] == out[i + k]);
        assert(head[i + k] == s.subrange(pos, upto)[i + k - done.len()]);
    }
    assert(found == same);
}

/// Where the address at the cursor ends within one character, so does the
/// address at the same place in what the linkifier makes of the text.
pub proof fn lemma_link_from_head(done: Seq<char>, s: Seq<char>, pos: int, proto: Seq<char>)
    requires
        plain(proto),
        0 <= pos <= s.len(),
        short_at(s, pos),
    ensures
        short_at(link_from(done, s, pos, proto), done.len() as int),
{
    let out = link_from(done, s, pos, proto);
    let d = done.len() as int;
    lemma_plain_len(proto);
    match find_from(s, proto, pos) {
        Some(at) => {
            lemma_find_from(s, proto, pos);
            lemma_match_at(s, proto, at, 0);
            lemma_match_at(s, proto, at, 1);
            lemma_plain_at(proto, 0);
            lemma_plain_at(proto, 1);
            lemma_url_end(s, at + proto.len());
            let before = done + s.subrange(pos, at);
            let (next, resume) = if links_at(before, s, at, proto) {
                let end = url_end(s, at + proto.len());
                (before + anchor(s.subrange(at, end)), end)
            } else {
                (before + proto, at + proto.len())
            };
            lemma_link_from_prefix(next, s, resume, proto);
            assert(out == link_from(next, s, resume, proto));
            assert(next.len() >= before.len() + 2) by {
                reveal_strlit("<a href=\"");
            }
            if at == pos + 1 {
                lemma_prefix_index(out, next, d);
                assert(out[d] == before[d]);
            } else if at >= pos + 2 {
                lemma_prefix_index(out, next, d);
                lemma_prefix_index(out, next, d + 1);
                assert(out[d] == before[d]);
                assert(out[d + 1] == before[d + 1]);
            }
        },
        None => {
            assert(out == done + s.subrange(pos, s.len() as int));
        },
    }
}

/// Behind an opening that no `<` follows, text stands inside an open
/// hyperlink.
pub proof fn lemma_open_anchor(s: Seq<char>, open: int, i: int)
    requires
        matches_at(s, opening(), open),
        open + opening().len() <= i <= s.len(),
        forall|j: int| open < j < i ==> s[j] != '<',
    ensures
        inside_anchor(s.subrange(0, i)),
{
    reveal_strlit("<a ");
    reveal_strlit("</a>");
    let head = s.subrange(0, i);
    lemma_inside_anchor(head);
    lemma_match_at(s, opening(), open, 1);
    assert(head.subrange(open, open + opening().len()) == s.subrange(open, open + opening().len()));
    assert forall|j: int| open <= j implies !matches_at(head, closing(), j) by {
        if matches_at(head, closing(), j) {
            lemma_match_at(head, closing(), j, 0);
            lemma_match_at(head, closing(), j, 1);
        }
    }
    assert(matches_at(head, opening(), open));
}

/// Whether no character of `url` ends an address.
pub open spec fn unbroken(url: Seq<char>) -> bool {
    forall|k: int| 0 <= k < url.len() ==> !ends_url(#[trigger] url[k])
}

/// The characters of a new hyperlink: it opens with `<a `, holds no further
/// `<` before that of its closing, ends with `>`, and holds an `h` only in
/// `href` and in its two copies of the address.
pub proof fn lemma_anchor_shape(url: Seq<char>)
    requires
        unbroken(url),
    ensures
        anchor(url).len() == 2 * url.len() + 15,
        matches_at(anchor(url), opening(), 0),
        anchor(url)[0] == '<',
        anchor(url)[4] == 'r',
        anchor(url)[anchor(url).len() - 1] == '>',
        forall|j: int| 0 < j < anchor(url).len() - 4 ==> anchor(url)[j] != '<',
        forall|j: int|
            0 <= j < anchor(url).len() && anchor(url)[j] == 'h' ==> j == 3 || (9 <= j
                && j < anchor(url).len() - 4),
{
    reveal_strlit("<a href=\"");
    reveal_strlit("\">");
    reveal_strlit("</a>");
    reveal_strlit("<a ");
    let head = "<a href=\""@;
    let mid = "\">"@;
    let tail = "</a>"@;
    let a = anchor(url);
    let n = url.len() as int;
    assert(a.len() == 2 * n + 15);
    assert forall|j: int| 0 <= j < a.len() implies a[j] == (if j < 9 {
        head[j]
    } else if j < 9 + n {
        url[j - 9]
    } else if j < 11 + n {
        mid[j - 9 - n]
    } else if j < 11 + 2 * n {
        url[j - 11 - n]
    } else {
        tail[j - 11 - 2 * n]
    }) by {}
    assert(a.subrange(0, 3) == opening());
    assert forall|j: int| 0 < j < a.len() - 4 implies a[j] != '<' by {
        if 9 <= j < 9 + n {
            assert(!ends_url(url[j - 9]));
        } else if 11 + n <= j < 11 + 2 * n {
            assert(!ends_url(url[j - 11 - n]));
        }
    }
}

/// An occurrence of a protocol that begins inside a new hyperlink stands
/// inside an open hyperlink, and ends inside the new hyperlink.
pub proof fn lemma_in_new_anchor(
    out: Seq<char>,
    before: Seq<char>,
    url: Seq<char>,
    proto: Seq<char>,
    i: int,
)
    requires
        plain(proto),
        unbroken(url),
        before.len() + anchor(url).len() <= out.len(),
        out.subrange(0, (before.len() + anchor(url).len()) as int) == before + anchor(url),
        before.len() <= i < before.len() + anchor(url).len(),
        matches_at(out, proto, i),
    ensures
        inside_anchor(out.subrange(0, i)),
        i + proto.len() <= before.len() + anchor(url).len(),
{
    reveal_strlit("<a ");
    let b = before.len() as int;
    let a = anchor(url);
    let next = before + a;
    lemma_anchor_shape(url);
    lemma_plain_len(proto);
    lemma_plain_at(proto, 0);
    lemma_plain_at(proto, 1);
    assert forall|j: int| b <= j < b + a.len() implies out[j] == a[j - b] by {
        lemma_prefix_index(out, next, j);
    }
    lemma_match_at(out, proto, i, 0);
    lemma_match_at(out, proto, i, 1);
    assert(a[i - b] == 'h');
    if i - b == 3 {
        assert(out[i + 1] == a[4]);
    }
    assert(i - b >= 9);
    assert(out.subrange(b, b + 3) == a.subrange(0, 3));
    lemma_open_anchor(out, b, i);
    if i + proto.len() > b + a.len() {
        let k = b + a.len() - 1 - i;
        lemma_match_at(out, proto, i, k);
        lemma_plain_at(proto, k);
        assert(out[i + k] == a[a.len() - 1]);
    }
}

/// The address that the linkifier finds behind an occurrence of a plain
/// protocol is unbroken.
proof fn lemma_url_unbroken(s: Seq<char>, proto: Seq<char>, at: int)
    requires
        plain(proto),
        matches_at(s, proto, at),
    ensures
        unbroken(s.subrange(at, url_end(s, at + proto.len()))),
        at + proto.len() <= url_end(s, at + proto.len()) <= s.len(),
{
    let n = proto.len() as int;
    lemma_url_end(s, at + n);
    let url = s.subrange(at, url_end(s, at + n));
    assert forall|k: int| 0 <= k < url.len() implies !ends_url(#[trigger] url[k]) by {
        if k < n {
            lemma_match_at(s, proto, at, k);
            lemma_plain_at(proto, k);
        }
    }
}

/// Before a new hyperlink, what the linkifier has made holds no occurrence
/// of a protocol that its input did not hold at the same place.
proof fn lemma_before_anchor(
    out: Seq<char>,
    done: Seq<char>,
    s: Seq<char>,
    pos: int,
    at: int,
    url: Seq<char>,
    proto: Seq<char>,
    i: int,
)
    requires
        plain(proto),
        unbroken(url),
        0 <= pos <= at <= s.len(),
        ({
            let next = done + s.subrange(pos, at) + anchor(url);
            next.len() <= out.len() && out.subrange(0, next.len() as int) == next
        }),
        done.len() <= i < done.len() + at - pos,
        matches_at(out, proto, i),
    ensures
        i + proto.len() <= done.len() + at - pos,
        matches_at(s, proto, pos + i - done.len()),
{
    let before = done + s.subrange(pos, at);
    let b = before.len() as int;
    let next = before + anchor(url);
    lemma_anchor_shape(url);
    if i + proto.len() > b {
        let k = b - i;
        lemma_match_at(out, proto, i, k);
        lemma_plain_at(proto, k);
        lemma_prefix_index(out, next, b);
        assert(next[b] == anchor(url)[0]);
    }
    assert(out.subrange(0, b) == before) by {
        assert(out.subrange(0, b) == out.subrange(0, next.len() as int).subrange(0, b));
        assert(next.subrange(0, b) == before);
    }
    lemma_copied_occurrence(out, done, s, pos, at, proto, i);
}

/// The step of `lemma_link_from_settled` where an address becomes a
/// hyperlink.
proof fn lemma_settled_after_link(
    done: Seq<char>,
    s: Seq<char>,
    pos: int,
    proto: Seq<char>,
    at: int,
    out: Seq<char>,
)
    requires
        plain(proto),
        0 <= pos <= at,
        matches_at(s, proto, at),
        forall|j: int| pos <= j < at ==> !matches_at(s, proto, j),
        ({
            let url = s.subrange(at, url_end(s, at + proto.len()));
            let next = done + s.subrange(pos, at) + anchor(url);
            &&& next.len() <= out.len()
            &&& out.subrange(0, next.len() as int) == next
            &&& settled(out, proto, next.len() as int)
        }),
    ensures
        settled(out, proto, done.len() as int),
{
    let d = done.len() as int;
    let before = done + s.subrange(pos, at);
    let url = s.subrange(at, url_end(s, at + proto.len()));
    let next = before + anchor(url);
    lemma_url_unbroken(s, proto, at);
    assert forall|i: int| d <= i && #[trigger] matches_at(out, proto, i) implies inert(
        out,
        proto,
        i,
    ) by {
        if i < before.len() {
            lemma_before_anchor(out, done, s, pos, at, url, proto, i);
        } else if i < next.len() {
            lemma_in_new_anchor(out, before, url, proto, i);
        }
    }
}

/// Where `out` begins with `done` and a copy of `s` from `pos` through an
/// occurrence of a plain protocol at `at`, no occurrence of the protocol
/// begins inside that one.
proof fn lemma_no_overlap(
    out: Seq<char>,
    done: Seq<char>,
    s: Seq<char>,
    pos: int,
    at: int,
    proto: Seq<char>,
    i: int,
)
    requires
        plain(proto),
        0 <= pos <= at,
        matches_at(s, proto, at),
        done.len() + at + proto.len() - pos <= out.len(),
        out.subrange(0, done.len() + at + proto.len() - pos) == done + s.subrange(
            pos,
            at + proto.len(),
        ),
        done.len() + at - pos < i < done.len() + at - pos + proto.len(),
    ensures
        !matches_at(out, proto, i),
{
    let b = done.len() + at - pos;
    let next = done + s.subrange(pos, at + proto.len());
    if matches_at(out, proto, i) {
        lemma_match_at(out, proto, i, 0);
        lemma_prefix_index(out, next, i);
        lemma_match_at(s, proto, at, i - b);
        lemma_plain_at(proto, i - b);
    }
}

/// The step of `lemma_link_from_settled` where an occurrence is passed
/// over.
proof fn lemma_settled_after_skip(
    done: Seq<char>,
    s: Seq<char>,
    pos: int,
    proto: Seq<char>,
    at: int,
    out: Seq<char>,
)
    requires
        plain(proto),
        0 <= pos <= at,
        matches_at(s, proto, at),
        forall|j: int| pos <= j < at ==> !matches_at(s, proto, j),
        !links_at(done + s.subrange(pos, at), s, at, proto),
        ({
            let next = done + s.subrange(pos, at) + proto;
            &&& next.len() <= out.len()
            &&& out.subrange(0, next.len() as int) == next
            &&& settled(out, proto, next.len() as int)
            &&& short_at(s, at + proto.len()) ==> short_at(out, next.len() as int)
        }),
    ensures
        settled(out, proto, done.len() as int),
{
    let d = done.len() as int;
    let n = proto.len() as int;
    let before = done + s.subrange(pos, at);
    let b = before.len() as int;
    let next = before + proto;
    assert(next == done + s.subrange(pos, at + n)) by {
        assert(s.subrange(pos, at + n) == s.subrange(pos, at) + s.subrange(at, at + n));
    }
    assert forall|i: int| d <= i && #[trigger] matches_at(out, proto, i) implies inert(
        out,
        proto,
        i,
    ) by {
        if i < b {
            lemma_copied_occurrence(out, done, s, pos, at + n, proto, i);
        } else if i == b {
            assert(out.subrange(0, i) == before) by {
                assert(out.subrange(0, b) == out.subrange(0, next.len() as int).subrange(0, b));
                assert(next.subrange(0, b) == before);
            }
            if !inside_anchor(before) {
                lemma_short_at(s, at + n);
                lemma_short_at(out, i + n);
            }
        } else if i < b + n {
            lemma_no_overlap(out, done, s, pos, at, proto, i);
        }
    }
}

/// What the linkifier makes of text is settled: every occurrence of the
/// protocol at or behind the place where it began to work is passed over.
pub proof fn lemma_link_from_settled(done: Seq<char>, s: Seq<char>, pos: int, proto: Seq<char>)
    requires
        plain(proto),
        0 <= pos <= s.len(),
    ensures
        settled(link_from(done, s, pos, proto), proto, done.len() as int),
    decreases s.len() - pos,
{
    let out = link_from(done, s, pos, proto);
    let d = done.len() as int;
    let n = proto.len() as int;
    lemma_find_from(s, proto, pos);
    lemma_plain_len(proto);
    match find_from(s, proto, pos) {
        Some(at) => {
            lemma_url_end(s, at + n);
            let before = done + s.subrange(pos, at);
            if links_at(before, s, at, proto) {
                let end = url_end(s, at + n);
                let next = before + anchor(s.subrange(at, end));
                lemma_link_from_prefix(next, s, end, proto);
                lemma_link_from_settled(next, s, end, proto);
                lemma_settled_after_link(done, s, pos, proto, at, out);
            } else {
                let next = before + proto;
                lemma_link_from_prefix(next, s, at + n, proto);
                lemma_link_from_settled(next, s, at + n, proto);
                if short_at(s, at + n) {
                    lemma_link_from_head(next, s, at + n, proto);
                }
                lemma_settled_after_skip(done, s, pos, proto, at, out);
            }
        },
        None => {
            assert(out == done + s.subrange(pos, s.len() as int));
            assert forall|i: int| d <= i && #[trigger] matches_at(out, proto, i) implies inert(
                out,
                proto,
                i,
            ) by {
                assert(out.subrange(0, d + s.len() - pos) == out);
                lemma_copied_occurrence(out, done, s, pos, s.len() as int, proto, i);
            }
        },
    }
}

/// Whether two texts leave what follows them in the same state: whatever
/// comes next stands inside an open hyperlink behind both or behind neither.
pub open spec fn same_state(a: Seq<char>, b: Seq<char>) -> bool {
    forall|t: Seq<char>| #[trigger] inside_anchor(a + t) == inside_anchor(b + t)
}

/// Two texts that leave the same state still do so when the same text is
/// added to both.
proof fn lemma_same_state_extend(a: Seq<char>, b: Seq<char>, w: Seq<char>)
    requires
        same_state(a, b),
    ensures
        same_state(a + w, b + w),
{
    assert forall|t: Seq<char>| #[trigger] inside_anchor((a + w) + t) == inside_anchor((b + w) + t) by {
        assert((a + w) + t == a + (w + t));
        assert((b + w) + t == b + (w + t));
        assert(inside_anchor(a + (w + t)) == inside_anchor(b + (w + t)));
    }
}

/// An occurrence in the last part of a text is an occurrence at the same
/// place of that part behind any other beginning.
proof fn lemma_tail_occurrence(
    x1: Seq<char>,
    x2: Seq<char>,
    t: Seq<char>,
    pat: Seq<char>,
    r: int,
)
    requires
        x1.len() <= r,
        matches_at(x1 + t, pat, r),
    ensures
        matches_at(x2 + t, pat, r - x1.len() + x2.len()),
{
    let r2 = r - x1.len() + x2.len();
    assert((x1 + t).subrange(r, r + pat.len()) == (x2 + t).subrange(r2, r2 + pat.len()));
}

/// Behind a new hyperlink and more text, an opening that nothing closes
/// stands in that text.
proof fn lemma_open_behind_anchor(y: Seq<char>, u: Seq<char>, t: Seq<char>, r: int)
    requires
        unbroken(u),
        matches_at(y + anchor(u) + t, opening(), r),
        forall|j: int| r <= j ==> !matches_at(y + anchor(u) + t, closing(), j),
    ensures
        r >= y.len() + anchor(u).len(),
{
    reveal_strlit("<a ");
    reveal_strlit("</a>");
    reveal_strlit("<a href=\"");
    reveal_strlit("\">");
    let a = anchor(u);
    let z = y + a + t;
    let close = y.len() + a.len() - 4;
    lemma_anchor_shape(u);
    assert(z.subrange(close, close + 4) == closing());
    assert(matches_at(z, closing(), close));
    if r < y.len() + a.len() {
        lemma_match_at(z, opening(), r, 0);
        assert(z[r] == a[r - y.len()]);
    }
}

/// Behind a bare address and more text, an opening that nothing closes
/// stands in that text, unless what precedes the address is itself inside an
/// open hyperlink.
proof fn lemma_open_behind_url(y: Seq<char>, u: Seq<char>, t: Seq<char>, r: int)
    requires
        unbroken(u),
        u.len() > 0,
        u[0] == 'h',
        !inside_anchor(y),
        matches_at(y + u + t, opening(), r),
        forall|j: int| r <= j ==> !matches_at(y + u + t, closing(), j),
    ensures
        r >= y.len() + u.len(),
{
    reveal_strlit("<a ");
    let z = y + u + t;
    if r < y.len() + u.len() {
        lemma_match_at(z, opening(), r, 0);
        if r >= y.len() {
            assert(z[r] == u[r - y.len()]);
            assert(!ends_url(u[r - y.len()]));
        } else {
            if r + 3 > y.len() {
                let k = y.len() - r;
                lemma_match_at(z, opening(), r, k);
                assert(z[r + k] == u[0]);
            }
            assert(z.subrange(r, r + 3) == y.subrange(r, r + 3));
            assert(matches_at(y, opening(), r));
            assert forall|j: int| r <= j implies !matches_at(y, closing(), j) by {
                if matches_at(y, closing(), j) {
                    assert(z.subrange(j, j + closing().len()) == y.subrange(j, j + closing().len()));
                    assert(matches_at(z, closing(), j));
                }
            }
            lemma_inside_anchor(y);
        }
    }
}

/// An opening in the last part of a text that nothing closes is one behind
/// any other beginning.
proof fn lemma_open_moves(x1: Seq<char>, x2: Seq<char>, t: Seq<char>, r: int)
    requires
        x1.len() <= r,
        matches_at(x1 + t, opening(), r),
        forall|j: int| r <= j ==> !matches_at(x1 + t, closing(), j),
    ensures
        inside_anchor(x2 + t),
{
    let r2 = r - x1.len() + x2.len();
    lemma_tail_occurrence(x1, x2, t, opening(), r);
    assert forall|j: int| r2 <= j implies !matches_at(x2 + t, closing(), j) by {
        if matches_at(x2 + t, closing(), j) {
            lemma_tail_occurrence(x2, x1, t, closing(), j);
        }
    }
    lemma_inside_anchor(x2 + t);
}

/// A bare address outside a hyperlink and the hyperlink made of it leave the
/// same state.
proof fn lemma_same_state_link(y: Seq<char>, x: Seq<char>, u: Seq<char>)
    requires
        same_state(y, x),
        !inside_anchor(y),
        unbroken(u),
        u.len() > 0,
        u[0] == 'h',
    ensures
        same_state(y + anchor(u), x + u),
{
    assert forall|t: Seq<char>| #[trigger]
        inside_anchor((y + anchor(u)) + t) == inside_anchor((x + u) + t) by {
        let z1 = y + anchor(u) + t;
        let z2 = y + u + t;
        assert((x + u) + t == x + (u + t));
        assert(z2 == y + (u + t));
        assert(inside_anchor(y + (u + t)) == inside_anchor(x + (u + t)));
        lemma_inside_anchor(z1);
        lemma_inside_anchor(z2);
        if inside_anchor(z1) {
            let r = choose|r: int|
                #[trigger] matches_at(z1, opening(), r) && forall|j: int|
                    r <= j ==> !matches_at(z1, closing(), j);
            lemma_open_behind_anchor(y, u, t, r);
            lemma_open_moves(y + anchor(u), y + u, t, r);
        }
        if inside_anchor(z2) {
            let r = choose|r: int|
                #[trigger] matches_at(z2, opening(), r) && forall|j: int|
                    r <= j ==> !matches_at(z2, closing(), j);
            lemma_open_behind_url(y, u, t, r);
            lemma_open_moves(y + u, y + anchor(u), t, r);
        }
    }
}

/// Whether no occurrence of one of `p` and `q` can begin where one of the
/// other begins.
pub open spec fn apart(p: Seq<char>, q: Seq<char>) -> bool {
    p.len() >= 5 && q.len() >= 5 && p[4] != q[4]
}

/// Occurrences of two plain protocols that are apart do not overlap.
proof fn lemma_apart(s: Seq<char>, p: Seq<char>, i: int, q: Seq<char>, j: int)
    requires
        plain(p),
        plain(q),
        apart(p, q),
        matches_at(s, p, i),
        matches_at(s, q, j),
    ensures
        j + q.len() <= i || i + p.len() <= j,
{
    lemma_plain_len(p);
    lemma_plain_len(q);
    if i <= j < i + p.len() {
        lemma_match_at(s, q, j, 0);
        lemma_match_at(s, p, i, j - i);
        lemma_plain_at(q, 0);
        lemma_plain_at(p, j - i);
        lemma_match_at(s, p, i, 4);
        lemma_match_at(s, q, j, 4);
    } else if j < i < j + q.len() {
        lemma_match_at(s, p, i, 0);
        lemma_match_at(s, q, j, i - j);
        lemma_plain_at(p, 0);
        lemma_plain_at(q, i - j);
    }
}

/// An occurrence that is passed over in `s` is passed over in `out`, where
/// being inside a hyperlink and the end of the address carry over.
proof fn lemma_inert_carries(
    s: Seq<char>,
    j: int,
    out: Seq<char>,
    i: int,
    q: Seq<char>,
)
    requires
        0 <= i,
        0 <= j,
        inert(s, q, j),
        inside_anchor(s.subrange(0, j)) ==> inside_anchor(out.subrange(0, i)),
        short_at(s, j + q.len()) ==> short_at(out, i + q.len()),
    ensures
        inert(out, q, i),
{
    lemma_short_at(s, j + q.len());
    lemma_short_at(out, i + q.len());
}

/// Where `out` begins with `done` and a copy of `s` from `pos` up to `upto`,
/// and `done` leaves the state that `s` leaves before `pos`, an occurrence
/// in the copy that is passed over in `s` is passed over in `out`, if at
/// least two characters of the copy follow it, or the copy and `s` end
/// together.
proof fn lemma_copied_inert(
    out: Seq<char>,
    done: Seq<char>,
    s: Seq<char>,
    pos: int,
    upto: int,
    q: Seq<char>,
    i: int,
)
    requires
        0 <= pos <= upto <= s.len(),
        done.len() + upto - pos <= out.len(),
        out.subrange(0, done.len() + upto - pos) == done + s.subrange(pos, upto),
        same_state(done, s.subrange(0, pos)),
        done.len() <= i,
        i + q.len() + 2 <= done.len() + upto - pos || (i + q.len() <= done.len() + upto - pos
            && upto == s.len() && out.len() == done.len() + upto - pos),
        inert(s, q, pos + i - done.len()),
    ensures
        inert(out, q, i),
{
    let j = pos + i - done.len();
    let n = q.len() as int;
    let head = done + s.subrange(pos, upto);
    assert(out.subrange(0, i) == done + s.subrange(pos, j)) by {
        assert(out.subrange(0, i) == out.subrange(0, head.len() as int).subrange(0, i));
    }
    assert(s.subrange(0, j) == s.subrange(0, pos) + s.subrange(pos, j));
    assert(inside_anchor(done + s.subrange(pos, j)) == inside_anchor(
        s.subrange(0, pos) + s.subrange(pos, j),
    ));
    if i + n + 2 <= head.len() {
        lemma_prefix_index(out, head, i + n);
        lemma_prefix_index(out, head, i + n + 1);
        assert(head[i + n] == s[j + n]);
        assert(head[i + n + 1] == s[j + n + 1]);
    } else {
        if i + n < head.len() {
            lemma_prefix_index(out, head, i + n);
            assert(head[i + n] == s[j + n]);
        }
    }
    lemma_inert_carries(s, j, out, i, q);
}

/// Linkifying for one protocol a second time changes nothing.
pub proof fn lemma_link_pass_twice(s: Seq<char>, proto: Seq<char>)
    requires
        plain(proto),
    ensures
        link_pass(link_pass(s, proto), proto) == link_pass(s, proto),
{
    let out = link_pass(s, proto);
    lemma_link_from_settled(Seq::empty(), s, 0, proto);
    lemma_settled_unchanged(out, proto, 0);
    assert(out.subrange(0, 0) == Seq::<char>::empty());
}

/// An occurrence that ends before a new hyperlink and is passed over in `s`
/// is passed over in `out`.
proof fn lemma_inert_before_anchor(
    out: Seq<char>,
    done: Seq<char>,
    s: Seq<char>,
    pos: int,
    at: int,
    url: Seq<char>,
    q: Seq<char>,
    i: int,
)
    requires
        unbroken(url),
        0 <= pos <= at <= s.len(),
        ({
            let next = done + s.subrange(pos, at) + anchor(url);
            next.len() <= out.len() && out.subrange(0, next.len() as int) == next
        }),
        same_state(done, s.subrange(0, pos)),
        done.len() <= i,
        i + q.len() <= done.len() + at - pos,
        inert(s, q, pos + i - done.len()),
    ensures
        inert(out, q, i),
{
    let j = pos + i - done.len();
    let n = q.len() as int;
    let before = done + s.subrange(pos, at);
    let b = before.len() as int;
    let next = before + anchor(url);
    lemma_anchor_shape(url);
    assert(out.subrange(0, i) == done + s.subrange(pos, j)) by {
        assert(out.subrange(0, i) == out.subrange(0, next.len() as int).subrange(0, i));
    }
    assert(s.subrange(0, j) == s.subrange(0, pos) + s.subrange(pos, j));
    assert(inside_anchor(done + s.subrange(pos, j)) == inside_anchor(
        s.subrange(0, pos) + s.subrange(pos, j),
    ));
    lemma_prefix_index(out, next, b);
    assert(next[b] == anchor(url)[0]);
    assert(ends_url('<'));
    if i + n + 2 <= b {
        lemma_prefix_index(out, next, i + n);
        lemma_prefix_index(out, next, i + n + 1);
        assert(next[i + n] == s[j + n]);
        assert(next[i + n + 1] == s[j + n + 1]);
    }
    lemma_inert_carries(s, j, out, i, q);
}

/// The step of `lemma_other_settled` where an address becomes a hyperlink.
proof fn lemma_other_after_link(
    done: Seq<char>,
    s: Seq<char>,
    pos: int,
    p: Seq<char>,
    q: Seq<char>,
    at: int,
    out: Seq<char>,
)
    requires
        plain(p),
        plain(q),
        0 <= pos <= at,
        matches_at(s, p, at),
        settled(s, q, pos),
        same_state(done, s.subrange(0, pos)),
        ({
            let url = s.subrange(at, url_end(s, at + p.len()));
            let next = done + s.subrange(pos, at) + anchor(url);
            &&& next.len() <= out.len()
            &&& out.subrange(0, next.len() as int) == next
            &&& settled(out, q, next.len() as int)
        }),
    ensures
        settled(out, q, done.len() as int),
{
    let d = done.len() as int;
    let before = done + s.subrange(pos, at);
    let url = s.subrange(at, url_end(s, at + p.len()));
    let next = before + anchor(url);
    lemma_url_unbroken(s, p, at);
    assert forall|i: int| d <= i && #[trigger] matches_at(out, q, i) implies inert(out, q, i) by {
        if i < before.len() {
            lemma_before_anchor(out, done, s, pos, at, url, q, i);
            let j = pos + i - d;
            assert(matches_at(s, q, j));
            lemma_inert_before_anchor(out, done, s, pos, at, url, q, i);
        } else if i < next.len() {
            lemma_in_new_anchor(out, before, url, q, i);
        }
    }
}

/// The step of `lemma_other_settled` where an occurrence is passed over.
proof fn lemma_other_after_skip(
    done: Seq<char>,
    s: Seq<char>,
    pos: int,
    p: Seq<char>,
    q: Seq<char>,
    at: int,
    out: Seq<char>,
)
    requires
        plain(p),
        plain(q),
        apart(p, q),
        0 <= pos <= at,
        matches_at(s, p, at),
        settled(s, q, pos),
        same_state(done, s.subrange(0, pos)),
        ({
            let next = done + s.subrange(pos, at + p.len());
            &&& next.len() <= out.len()
            &&& out.subrange(0, next.len() as int) == next
            &&& settled(out, q, next.len() as int)
        }),
    ensures
        settled(out, q, done.len() as int),
{
    let d = done.len() as int;
    let n = p.len() as int;
    let b = d + at - pos;
    let next = done + s.subrange(pos, at + n);
    assert(matches_at(out, p, b)) by {
        assert(out.subrange(b, b + n) == s.subrange(at, at + n)) by {
            assert forall|k: int| 0 <= k < n implies #[trigger] out.subrange(b, b + n)[k]
                == s.subrange(at, at + n)[k] by {
                lemma_prefix_index(out, next, b + k);
            }
        }
    }
    assert forall|i: int| d <= i && #[trigger] matches_at(out, q, i) implies inert(out, q, i) by {
        if i < next.len() {
            lemma_apart(out, p, b, q, i);
            lemma_copied_occurrence(out, done, s, pos, at + n, q, i);
            let j = pos + i - d;
            assert(matches_at(s, q, j));
            lemma_copied_inert(out, done, s, pos, at + n, q, i);
        }
    }
}

/// Linkifying for one protocol leaves text settled for the other: if every
/// occurrence of `q` is passed over in the text, every occurrence of `q` is
/// passed over in what linkifying for `p` makes of it.
pub proof fn lemma_other_settled(
    done: Seq<char>,
    s: Seq<char>,
    pos: int,
    p: Seq<char>,
    q: Seq<char>,
)
    requires
        plain(p),
        plain(q),
        apart(p, q),
        0 <= pos <= s.len(),
        settled(s, q, pos),
        same_state(done, s.subrange(0, pos)),
    ensures
        settled(link_from(done, s, pos, p), q, done.len() as int),
    decreases s.len() - pos,
{
    let out = link_from(done, s, pos, p);
    let d = done.len() as int;
    let n = p.len() as int;
    lemma_find_from(s, p, pos);
    lemma_plain_len(p);
    match find_from(s, p, pos) {
        Some(at) => {
            lemma_url_end(s, at + n);
            let before = done + s.subrange(pos, at);
            lemma_same_state_extend(done, s.subrange(0, pos), s.subrange(pos, at));
            assert(s.subrange(0, pos) + s.subrange(pos, at) == s.subrange(0, at));
            if links_at(before, s, at, p) {
                let end = url_end(s, at + n);
                let url = s.subrange(at, end);
                let next = before + anchor(url);
                lemma_url_unbroken(s, p, at);
                lemma_match_at(s, p, at, 0);
                lemma_plain_at(p, 0);
                lemma_same_state_link(before, s.subrange(0, at), url);
                assert(s.subrange(0, at) + url == s.subrange(0, end));
                lemma_link_from_prefix(next, s, end, p);
                lemma_other_settled(next, s, end, p, q);
                lemma_other_after_link(done, s, pos, p, q, at, out);
            } else {
                let next = before + p;
                lemma_same_state_extend(before, s.subrange(0, at), p);
                assert(s.subrange(0, at) + p == s.subrange(0, at + n));
                assert(next == done + s.subrange(pos, at + n)) by {
                    assert(s.subrange(pos, at + n) == s.subrange(pos, at) + s.subrange(at, at + n));
                }
                lemma_link_from_prefix(next, s, at + n, p);
                lemma_other_settled(next, s, at + n, p, q);
                lemma_other_after_skip(done, s, pos, p, q, at, out);
            }
        },
        None => {
            assert(out == done + s.subrange(pos, s.len() as int));
            assert forall|i: int| d <= i && #[trigger] matches_at(out, q, i) implies inert(
                out,
                q,
                i,
            ) by {
                assert(out.subrange(0, d + s.len() - pos) == out);
                lemma_copied_occurrence(out, done, s, pos, s.len() as int, q, i);
                let j = pos + i - d;
                assert(matches_at(s, q, j));
                lemma_copied_inert(out, done, s, pos, s.len() as int, q, i);
            }
        },
    }
}

/// Text in which every address already stands inside a hyperlink, or is too
/// short to be one, is left as it is.
pub proof fn lemma_linkify_settled(s: Seq<char>)
    requires
        settled(s, "https://"@, 0),
        settled(s, "http://"@, 0),
    ensures
        linkified(s) == s,
{
    assert(s.subrange(0, 0) == Seq::<char>::empty());
    lemma_settled_unchanged(s, "https://"@, 0);
    lemma_settled_unchanged(s, "http://"@, 0);
}

/// Linkifying twice gives what linkifying once gives: no hyperlink is
/// wrapped a second time.
pub proof fn lemma_linkify_twice(s: Seq<char>)
    ensures
        linkified(linkified(s)) == linkified(s),
{
    let secure = "https://"@;
    let bare = "http://"@;
    lemma_protocol_plain(secure);
    lemma_protocol_plain(bare);
    assert(apart(bare, secure)) by {
        reveal_strlit("https://");
        reveal_strlit("http://");
    }
    let first = link_pass(s, secure);
    let second = link_pass(first, bare);
    let empty = Seq::<char>::empty();
    lemma_link_from_settled(empty, s, 0, secure);
    assert(first.subrange(0, 0) == empty);
    assert(same_state(empty, first.subrange(0, 0)));
    lemma_other_settled(empty, first, 0, bare, secure);
    lemma_settled_unchanged(second, secure, 0);
    assert(second.subrange(0, 0) == empty);
    lemma_link_pass_twice(first, bare);
}

} // verus!
