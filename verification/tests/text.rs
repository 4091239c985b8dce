use mcp_math_operations::graphics::{escape, palette, svg_image_data};
use mcp_math_operations::server::MathServer;

#[test]
fn palette_colors_cycle() {
    assert_eq!(palette(0), "#4e79a7");
    assert_eq!(palette(9), "#bab0ac");
    assert_eq!(palette(10), "#4e79a7");
    assert_eq!(palette(11), "#f28e2b");
    for i in 0..50usize {
        assert_eq!(palette(i), palette(i + 10));
    }
}

#[test]
fn palette_colors_distinct() {
    for a in 0..10usize {
        for b in 0..10usize {
            if a != b {
                assert_ne!(palette(a), palette(b));
            }
        }
    }
}

#[test]
fn escape_markup() {
    assert_eq!(escape("plain"), "plain");
    assert_eq!(escape(""), "");
    assert_eq!(
        escape("a<b & \"c\">"),
        "a&lt;b &amp; &quot;c&quot;&gt;"
    );
    assert_eq!(escape("&amp;"), "&amp;amp;");
    assert_eq!(escape("π ≤ 4"), "π ≤ 4");
}

#[test]
fn escaped_text_has_no_markup() {
    for s in ["<a href=\"x\">&</a>", "x > y", "\"\"", "plain text"] {
        let out = escape(s);
        assert!(!out.contains('<') && !out.contains('>') && !out.contains('"'));
    }
    assert_eq!(escape("plain text, 100% ok"), "plain text, 100% ok");
    let out = escape("a & b < c > \"d\" &amp;");
    for (i, c) in out.char_indices() {
        if c == '&' {
            let rest = &out[i..];
            assert!(["&amp;", "&lt;", "&gt;", "&quot;"].iter().any(|e| rest.starts_with(e)));
        }
    }
    let back = out
        .replace("&lt;", "<")
        .replace("&gt;", ">")
        .replace("&quot;", "\"")
        .replace("&amp;", "&");
    assert_eq!(back, "a & b < c > \"d\" &amp;");
}

#[test]
fn ping_answers_pong() {
    assert_eq!(MathServer::new().ping(), "pong");
}

#[test]
fn svg_payload_is_padded_base64() {
    assert_eq!(svg_image_data(""), "");
    assert_eq!(svg_image_data("a"), "YQ==");
    assert_eq!(svg_image_data("ab"), "YWI=");
    assert_eq!(svg_image_data("abc"), "YWJj");
    assert_eq!(svg_image_data("<svg/>"), "PHN2Zy8+");
    assert_eq!(svg_image_data("\u{3c0}?"), "z4A/");
}
