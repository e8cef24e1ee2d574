use pjd_split::entities::{decode_html_entities, holds_ampersand, prepare_text};

#[test]
fn named_entities_are_decoded() {
    assert_eq!(decode_html_entities("&lt;pjd&gt;"), "<pjd>");
    assert_eq!(decode_html_entities("a &amp; b"), "a & b");
    assert_eq!(decode_html_entities("&quot;x&quot;"), "\"x\"");
}

#[test]
fn numeric_entities_are_decoded() {
    assert_eq!(decode_html_entities("&#60;&#x3e;"), "<>");
    assert_eq!(decode_html_entities("&#233;"), "\u{e9}");
}

#[test]
fn text_without_ampersand_is_unchanged() {
    assert_eq!(decode_html_entities(""), "");
    assert_eq!(decode_html_entities("<pjd>plain; text</pjd>"), "<pjd>plain; text</pjd>");
    assert_eq!(decode_html_entities("\u{4e2d}\u{6587} lt;"), "\u{4e2d}\u{6587} lt;");
}

#[test]
fn text_without_entities_is_unchanged() {
    assert_eq!(decode_html_entities("a & b"), "a & b");
    assert_eq!(decode_html_entities("&nosuchentity;"), "&nosuchentity;");
    assert_eq!(decode_html_entities("&lt"), "&lt");
}

#[test]
fn decoding_is_done_once() {
    assert_eq!(decode_html_entities("&amp;lt;"), "&lt;");
}

#[test]
fn decoding_decoded_text_changes_nothing() {
    let once = decode_html_entities("&lt;pjd&gt;&lt;command&gt;build&lt;/command&gt;&lt;/pjd&gt;");
    assert_eq!(once, "<pjd><command>build</command></pjd>");
    assert_eq!(decode_html_entities(&once), once);
}

#[test]
fn ampersand_is_found_among_other_characters() {
    assert!(holds_ampersand("a&b"));
    assert!(holds_ampersand("&"));
    assert!(holds_ampersand("\u{4e2d}&"));
    assert!(!holds_ampersand(""));
    assert!(!holds_ampersand("\u{4e2d}\u{266}\u{2026}"));
}

#[test]
fn text_is_decoded_only_when_asked() {
    assert_eq!(prepare_text("&lt;pjd&gt;", true), "<pjd>");
    assert_eq!(prepare_text("&lt;pjd&gt;", false), "&lt;pjd&gt;");
    assert_eq!(prepare_text("plain", true), "plain");
}
