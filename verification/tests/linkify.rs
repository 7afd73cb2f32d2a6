use hackernews::linkify::linkify_text;

#[test]
fn linkify_boundary() {
    assert_eq!(
        linkify_text("see https://x.io/p?a=1 now"),
        "see <a href=\"https://x.io/p?a=1\">https://x.io/p?a=1</a> now"
    );
    assert_eq!(linkify_text("(https://x.io)"), "(<a href=\"https://x.io\">https://x.io</a>)");
    assert_eq!(linkify_text("[http://x.io]"), "[<a href=\"http://x.io\">http://x.io</a>]");
    assert_eq!(linkify_text("http://x.io<br>"), "<a href=\"http://x.io\">http://x.io</a><br>");
}

#[test]
fn linkify_leaves_linked_text_alone() {
    let linked = "<a href=\"https://x.io\">https://x.io</a>";
    assert_eq!(linkify_text(linked), linked);
    let linked = "go <a href=\"http://x.io/a\">here</a> now";
    assert_eq!(linkify_text(linked), linked);
}

#[test]
fn linkify_is_idempotent_on_examples() {
    for input in [
        "see https://x.io/p?a=1 now",
        "http://a.com/https://b.com and https://c.org",
        "https:// https://b.com http://c",
        "<a https://x.com</a> https://y.com",
    ] {
        let once = linkify_text(input);
        assert_eq!(linkify_text(&once), once);
    }
}

#[test]
fn linkify_rejects_short_addresses() {
    assert_eq!(linkify_text("http://"), "http://");
    assert_eq!(linkify_text("https://a b"), "https://a b");
    assert_eq!(linkify_text("https://ab"), "<a href=\"https://ab\">https://ab</a>");
}

#[test]
fn linkify_after_a_closed_link() {
    assert_eq!(
        linkify_text("<a href=\"/x\">x</a> http://y.io"),
        "<a href=\"/x\">x</a> <a href=\"http://y.io\">http://y.io</a>"
    );
}

#[test]
fn linkify_handles_text_beyond_ascii() {
    assert_eq!(
        linkify_text("caf\u{e9} \u{2603} https://x.io/\u{e9} fin"),
        "caf\u{e9} \u{2603} <a href=\"https://x.io/\u{e9}\">https://x.io/\u{e9}</a> fin"
    );
    assert_eq!(
        linkify_text("a\u{3000}http://x.io\u{a0}b"),
        "a\u{3000}<a href=\"http://x.io\">http://x.io</a>\u{a0}b"
    );
}

/// Text made of the pieces that matter to the linkifier, drawn by a fixed
/// rule from `seed`.
fn sample(mut seed: u64, pieces: usize) -> String {
    let parts = [
        "https://", "http://", "<a ", "</a>", "<a href=\"", "\">", " ", "a", "bc", "(", ")", "[",
        "]", "<", ">", "x.io/p", "\n", "h", "t", "\u{e9}",
    ];
    let mut text = String::new();
    for _ in 0..pieces {
        seed = seed.wrapping_mul(6364136223846793005).wrapping_add(1442695040888963407);
        text.push_str(parts[((seed >> 33) % parts.len() as u64) as usize]);
    }
    text
}

#[test]
fn linkify_twice_is_linkify_once() {
    for seed in 0..2000u64 {
        let input = sample(seed, 1 + (seed % 12) as usize);
        let once = linkify_text(&input);
        assert_eq!(linkify_text(&once), once, "{:?}", input);
    }
}

#[test]
fn linkify_keeps_text_without_addresses() {
    for input in ["", "plain text", "<b>bold</b>", "ftp://x.io", "http:/x.io", "https:x"] {
        assert_eq!(linkify_text(input), input);
    }
}

#[test]
fn linkify_wraps_each_address_once() {
    assert_eq!(
        linkify_text("a http://a.io b https://b.io c"),
        "a <a href=\"http://a.io\">http://a.io</a> b <a href=\"https://b.io\">https://b.io</a> c"
    );
    assert_eq!(
        linkify_text("http://a.com/https://b.com"),
        "<a href=\"http://a.com/\">http://a.com/</a><a href=\"https://b.com\">https://b.com</a>"
    );
}
