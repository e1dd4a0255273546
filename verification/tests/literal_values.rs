use datatest_mini::literal::{literal_readable, parse_string_literal};

#[test]
fn plain_string_loses_its_quotes() {
    assert_eq!(parse_string_literal("\"tests/fixtures\""), "tests/fixtures");
}

#[test]
fn plain_string_resolves_its_escapes() {
    assert_eq!(parse_string_literal("\"a\\\"b\""), "a\"b");
    assert_eq!(
        parse_string_literal("\"tokio::test(flavor = \\\"multi_thread\\\")\""),
        "tokio::test(flavor = \"multi_thread\")"
    );
    assert_eq!(parse_string_literal("\"tab\\tnl\\ncr\\rnul\\0q\\'bs\\\\\""), "tab\tnl\ncr\rnul\0q'bs\\");
}

#[test]
fn plain_string_resolves_hex_and_unicode_escapes() {
    assert_eq!(parse_string_literal("\"\\x41\\x7f\""), "A\u{7f}");
    assert_eq!(parse_string_literal("\"\\u{e9}\\u{1F600}\\u{1_F6_00}\""), "\u{e9}\u{1f600}\u{1f600}");
}

#[test]
fn plain_string_line_continuation_drops_the_whitespace() {
    assert_eq!(parse_string_literal("\"one \\\n   \t two\""), "one two");
}

#[test]
fn plain_string_with_an_invalid_escape_is_trimmed_as_written() {
    assert_eq!(parse_string_literal("\"a\\qb\""), "a\\qb");
    assert_eq!(parse_string_literal("\"\\x80\""), "\\x80");
    assert_eq!(parse_string_literal("\"\\u{D800}\""), "\\u{D800}");
    assert_eq!(parse_string_literal("\"\\u{1234567}\""), "\\u{1234567}");
    assert_eq!(parse_string_literal("\"\\u{_1}\""), "\\u{_1}");
}

#[test]
fn other_literals_lose_their_edge_quotes() {
    assert_eq!(parse_string_literal("42"), "42");
    assert_eq!(parse_string_literal("b\"x\""), "b\"x");
}

#[test]
fn plain_string_loses_every_edge_quote() {
    assert_eq!(parse_string_literal("\"\"x\"\""), "x");
    assert_eq!(parse_string_literal("\"\""), "");
}

#[test]
fn raw_string_without_hashes() {
    assert_eq!(parse_string_literal("r\"^[^/]+\\.txt$\""), "^[^/]+\\.txt$");
}

#[test]
fn raw_string_with_hashes_keeps_inner_quotes() {
    assert_eq!(
        parse_string_literal("r#\"tokio::test(flavor = \"multi_thread\")\"#"),
        "tokio::test(flavor = \"multi_thread\")"
    );
    assert_eq!(parse_string_literal("r##\"a\"#b\"##"), "a\"#b");
}

#[test]
fn raw_string_with_non_ascii_content() {
    assert_eq!(parse_string_literal("r\"h\u{e9}llo \u{1f600}\""), "h\u{e9}llo \u{1f600}");
}

#[test]
fn raw_form_is_sliced_by_byte_offsets() {
    // `#ab#`: one hash, content from byte 2 to byte 2.
    assert_eq!(parse_string_literal("r#ab#"), "");
    assert!(literal_readable("r#ab#"));
}

#[test]
fn unreadable_raw_forms_are_detected() {
    assert!(!literal_readable("r\""));
    assert!(!literal_readable("r#"));
    assert!(!literal_readable("r#x#"));
    // The end offset falls inside the two-byte character.
    assert!(!literal_readable("r\"\u{e9}"));
    assert!(literal_readable("\"anything\""));
    assert!(literal_readable("r\"ok\""));
}

#[test]
fn written_values_read_back() {
    for value in ["", "a\"b", "back\\slash", "line\nbreak\ttab\r\0", "\u{e9}\u{1f600}", "{}[]'"] {
        assert_eq!(parse_string_literal(&format!("{:?}", value)), value);
    }
}

#[test]
fn escape_debug_writings_read_back() {
    for value in ["\u{1}ctrl", "zero\u{200b}width", "a\"b\\c\n", "\u{7f}", "tab\there"] {
        let text = format!("\"{}\"", value.escape_debug());
        assert_eq!(parse_string_literal(&text), value);
    }
}
