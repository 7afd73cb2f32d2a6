use hackernews::entities::decode_entities;

#[test]
fn decodes_each_entity() {
    assert_eq!(decode_entities("&amp;"), "&");
    assert_eq!(decode_entities("&lt;"), "<");
    assert_eq!(decode_entities("&gt;"), ">");
    assert_eq!(decode_entities("&quot;"), "\"");
    assert_eq!(decode_entities("&#x27;"), "'");
    assert_eq!(decode_entities("&#x2F;"), "/");
    assert_eq!(decode_entities("&#x3D;"), "=");
    assert_eq!(decode_entities("&#39;"), "'");
    assert_eq!(decode_entities("&nbsp;"), " ");
}

#[test]
fn unknown_entity_passes_through() {
    assert_eq!(decode_entities("&copy;"), "&copy;");
    assert_eq!(decode_entities("a &copy; b"), "a &copy; b");
}
