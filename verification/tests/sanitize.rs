use hackernews::sanitize::sanitize;

#[test]
fn removes_script_and_keeps_bold() {
    assert_eq!(sanitize("<script>alert(1)</script><b>hi</b>"), "<b>hi</b>");
}

#[test]
fn keeps_only_href_on_links() {
    assert_eq!(
        sanitize("<a href=\"http://e.com\" onclick=\"x()\" title=\"t\">x</a>"),
        "<a href=\"http://e.com\">x</a>"
    );
}
