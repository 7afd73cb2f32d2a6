//! Removal of all markup that is not on the allow-list. This is the one place
//! where safety is decided; the work is done by the `ammonia` crate.

use vstd::prelude::*;

verus! {

/// The markup that `ammonia` hands back for `text` when a builder allows the
/// elements `tags`, the attributes `generic` on every element and the
/// attributes `attrs` on the element `tag`, and adds `rel` to every link.
pub uninterp spec fn cleaned(
    text: Seq<char>,
    tags: Seq<Seq<char>>,
    generic: Seq<Seq<char>>,
    tag: Seq<char>,
    attrs: Seq<Seq<char>>,
    rel: Option<Seq<char>>,
) -> Seq<char>;

/// The character sequences of a list of names.
pub open spec fn names(list: Seq<&str>) -> Seq<Seq<char>> {
    list.map_values(|name: &str| name@)
}

/// The character sequence of an optional name.
pub open spec fn name_of(name: Option<&str>) -> Option<Seq<char>> {
    match name {
        Some(name) => Some(name@),
        None => None,
    }
}

/// Runs `ammonia::Builder::clean` on `text` and writes the document out as a
/// string. The builder is `Builder::default()` with its allowed tags replaced
/// by `tags`, its generic attributes by `generic`, its per-tag attributes by
/// `attrs` for `tag` alone, and its `rel` for links by `rel`. The contract
/// claims only that the result is a function of these arguments. The
/// precondition leaves out the settings on which `clean` panics: an allowed
/// tag whose content the default builder removes, and a `rel` that is both
/// allowed and imposed.
#[verifier::external_body]
fn clean_with<'a>(
    text: &str,
    tags: &Vec<&'a str>,
    generic: &Vec<&'a str>,
    tag: &'a str,
    attrs: &Vec<&'a str>,
    rel: Option<&'a str>,
) -> (out: String)
    requires
        !names(tags@).contains("script"@),
        !names(tags@).contains("style"@),
        tag@ != "script"@,
        tag@ != "style"@,
        rel is Some ==> !names(generic@).contains("rel"@) && !names(attrs@).contains("rel"@),
    ensures
        out@ == cleaned(text@, names(tags@), names(generic@), tag@, names(attrs@), name_of(rel)),
{
    let mut builder = ammonia::Builder::default();
    builder.tags(tags.iter().copied().collect());
    builder.generic_attributes(generic.iter().copied().collect());
    builder.tag_attributes(std::iter::once((tag, attrs.iter().copied().collect())).collect());
    builder.link_rel(rel);
    builder.clean(text).to_string()
}

/// The elements that pass: `p`, `i`, `b`, `br`, `code`, `pre`, `tt` and `a`.
pub open spec fn allowed_tags() -> Seq<Seq<char>> {
    seq!["p"@, "i"@, "b"@, "br"@, "code"@, "pre"@, "tt"@, "a"@]
}

/// `text` with everything removed but the allowed elements and, on `a`, the
/// attribute `href`.
pub open spec fn sanitized(text: Seq<char>) -> Seq<char> {
    cleaned(text, allowed_tags(), Seq::empty(), "a"@, seq!["href"@], None)
}

/// Strips from `text` all markup but the elements `p`, `i`, `b`, `br`, `code`,
/// `pre`, `tt` and `a`, and all attributes but `href` on `a`.
pub fn sanitize(text: &str) -> (out: String)
    ensures
        out@ == sanitized(text@),
{
    let tags: Vec<&str> = vec!["p", "i", "b", "br", "code", "pre", "tt", "a"];
    let generic: Vec<&str> = Vec::new();
    let attrs: Vec<&str> = vec!["href"];
    proof {
        reveal_strlit("p");
        reveal_strlit("i");
        reveal_strlit("b");
        reveal_strlit("br");
        reveal_strlit("code");
        reveal_strlit("pre");
        reveal_strlit("tt");
        reveal_strlit("a");
        reveal_strlit("script");
        reveal_strlit("style");
        assert(names(tags@) == allowed_tags());
        assert forall|i: int| 0 <= i < allowed_tags().len() implies #[trigger] allowed_tags()[i].len()
            <= 4 by {}
        assert("script"@.len() == 6);
        assert("style"@.len() == 5);
        assert(names(generic@) == Seq::<Seq<char>>::empty());
        assert(names(attrs@) == seq!["href"@]);
    }
    clean_with(text, &tags, &generic, "a", &attrs, None)
}

} // verus!
