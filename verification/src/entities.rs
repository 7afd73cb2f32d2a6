//! Decoding of the character entities that submitted text may hold.

use crate::text::{append, chars_of, find, find_from, lemma_find_from, string_of};
use vstd::prelude::*;
use vstd::slice::slice_subrange;

verus! {

/// `s` from `pos` on, with every occurrence of `pat` replaced by `rep`.
/// Occurrences are taken from left to right and do not overlap. An empty
/// `pat` occurs nowhere.
pub open spec fn replace_from(s: Seq<char>, pat: Seq<char>, rep: Seq<char>, pos: int) -> Seq<char>
    decreases s.len() - pos,
{
    match find_from(s, pat, pos) {
        Some(k) if pat.len() > 0 && 0 <= pos => {
            proof {
                lemma_find_from(s, pat, pos);
            }
            s.subrange(pos, k) + rep + replace_from(s, pat, rep, k + pat.len())
        },
        _ => s.subrange(pos, s.len() as int),
    }
}

/// `s` with every occurrence of `pat` replaced by `rep`.
pub open spec fn replace_all(s: Seq<char>, pat: Seq<char>, rep: Seq<char>) -> Seq<char> {
    replace_from(s, pat, rep, 0)
}

/// `s` with its entities decoded: nine replacements, one after the other, each
/// on the result of the one before.
pub open spec fn decode(s: Seq<char>) -> Seq<char> {
    let s = replace_all(s, "&amp;"@, "&"@);
    let s = replace_all(s, "&lt;"@, "<"@);
    let s = replace_all(s, "&gt;"@, ">"@);
    let s = replace_all(s, "&quot;"@, "\""@);
    let s = replace_all(s, "&#x27;"@, "'"@);
    let s = replace_all(s, "&#x2F;"@, "/"@);
    let s = replace_all(s, "&#x3D;"@, "="@);
    let s = replace_all(s, "&#39;"@, "'"@);
    replace_all(s, "&nbsp;"@, " "@)
}

/// Whether one of the nine entity spellings occurs in `s`.
pub open spec fn has_entity(s: Seq<char>) -> bool {
    ||| find_from(s, "&amp;"@, 0) is Some
    ||| find_from(s, "&lt;"@, 0) is Some
    ||| find_from(s, "&gt;"@, 0) is Some
    ||| find_from(s, "&quot;"@, 0) is Some
    ||| find_from(s, "&#x27;"@, 0) is Some
    ||| find_from(s, "&#x2F;"@, 0) is Some
    ||| find_from(s, "&#x3D;"@, 0) is Some
    ||| find_from(s, "&#39;"@, 0) is Some
    ||| find_from(s, "&nbsp;"@, 0) is Some
}

/// Text in which none of the nine entity spellings occurs is decoded to
/// itself: what is not a known entity passes through unchanged.
pub proof fn lemma_decode_without_entity(s: Seq<char>)
    requires
        !has_entity(s),
    ensures
        decode(s) == s,
{
    assert(s.subrange(0, s.len() as int) == s);
}

/// `s` with every occurrence of `pat` replaced by `rep`.
pub fn replace(s: &[char], pat: &[char], rep: &[char]) -> (out: Vec<char>)
    ensures
        out@ == replace_all(s@, pat@, rep@),
{
    let mut out: Vec<char> = Vec::new();
    let mut pos: usize = 0;
    loop
        invariant
            pos <= s.len(),
            out@ + replace_from(s@, pat@, rep@, pos as int) == replace_all(s@, pat@, rep@),
        decreases s.len() - pos,
    {
        let found = if pat.len() > 0 {
            find(s, pat, pos)
        } else {
            None
        };
        match found {
            Some(k) => {
                proof {
                    lemma_find_from(s@, pat@, pos as int);
                }
                let ghost before = out@;
                append(&mut out, slice_subrange(s, pos, k));
                append(&mut out, rep);
                assert(out@ + replace_from(s@, pat@, rep@, k + pat.len()) == before + replace_from(
                    s@,
                    pat@,
                    rep@,
                    pos as int,
                ));
                pos = k + pat.len();
            },
            None => {
                append(&mut out, slice_subrange(s, pos, s.len()));
                return out;
            },
        }
    }
}

/// `s` with every occurrence of `pat` replaced by `rep`.
fn replace_str(s: Vec<char>, pat: &str, rep: &str) -> (out: Vec<char>)
    ensures
        out@ == replace_all(s@, pat@, rep@),
{
    let pat = chars_of(pat);
    let rep = chars_of(rep);
    replace(s.as_slice(), pat.as_slice(), rep.as_slice())
}

/// The characters of `s` with its entities decoded.
pub fn decode_chars(s: &[char]) -> (out: Vec<char>)
    ensures
        out@ == decode(s@),
{
    let amp = chars_of("&amp;");
    let and = chars_of("&");
    let out = replace(s, amp.as_slice(), and.as_slice());
    let out = replace_str(out, "&lt;", "<");
    let out = replace_str(out, "&gt;", ">");
    let out = replace_str(out, "&quot;", "\"");
    let out = replace_str(out, "&#x27;", "'");
    let out = replace_str(out, "&#x2F;", "/");
    let out = replace_str(out, "&#x3D;", "=");
    let out = replace_str(out, "&#39;", "'");
    replace_str(out, "&nbsp;", " ")
}

/// Decodes the entities in `text`: `&amp;`, `&lt;`, `&gt;`, `&quot;`,
/// `&#x27;`, `&#x2F;`, `&#x3D;`, `&#39;` and `&nbsp;`, in this order.
pub fn decode_entities(text: &str) -> (out: String)
    ensures
        out@ == decode(text@),
{
    let chars = chars_of(text);
    let decoded = decode_chars(chars.as_slice());
    string_of(decoded.as_slice())
}

} // verus!
