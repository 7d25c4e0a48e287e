use puml::render::primitives::escape_text;
use puml::render::theme::{normalize_key, unquote, ColorScheme};

#[test]
fn escapes_markup_characters() {
    assert_eq!(escape_text("a < b && c > d"), "a &lt; b &amp;&amp; c &gt; d");
    assert_eq!(escape_text("plain"), "plain");
    assert_eq!(escape_text(""), "");
}

#[test]
fn escaped_text_has_no_angle_brackets() {
    let out = escape_text("<<stereotype>>");
    assert!(!out.contains('<') && !out.contains('>'));
    assert_eq!(out, "&lt;&lt;stereotype&gt;&gt;");
}

#[test]
fn skin_keys_are_trimmed_and_lowercased() {
    assert_eq!(normalize_key("  BackgroundColor "), "backgroundcolor");
    assert_eq!(normalize_key("FONTSIZE"), "fontsize");
}

#[test]
fn skin_values_lose_their_quotes() {
    assert_eq!(unquote(" \"Liberation Sans\" "), "Liberation Sans");
    assert_eq!(unquote("\""), "\"");
    assert_eq!(unquote("Arial"), "Arial");
}

#[test]
fn colour_scheme_defaults_to_auto() {
    assert_eq!(ColorScheme::default(), ColorScheme::Auto);
}
