use spelunk::lines::LineIndex;
use spelunk::text::{byte_slice, is_blank, is_whitespace, str_eq};

#[test]
fn line_index_counts_lines() {
    let idx = LineIndex::new("a\nbc\n");
    assert_eq!(idx.starts, vec![0, 2]);
    assert_eq!(idx.count, 2);
    // A final newline does not open another line.
    assert_eq!(LineIndex::new("\n").count, 1);
    assert_eq!(LineIndex::new("").count, 0);
    // Without a final newline the last line still counts.
    let idx = LineIndex::new("x\ny");
    assert_eq!(idx.starts, vec![0, 2]);
    assert_eq!(idx.count, 2);
}

#[test]
fn line_slices_rejoin_to_the_source() {
    let source = "one\ntwo\n\nfour\n";
    let idx = LineIndex::new(source);
    assert_eq!(idx.count, 4);
    assert_eq!(idx.slice(source, 1, 1), "one\n");
    assert_eq!(idx.slice(source, 2, 3), "two\n\n");
    assert_eq!(idx.slice(source, 4, 4), "four\n");
    assert_eq!(idx.slice(source, 1, idx.count), source);
    let rejoined = format!("{}{}", idx.slice(source, 1, 2), idx.slice(source, 3, 4));
    assert_eq!(rejoined, source);
    // An end past the last line runs to the end of the text.
    assert_eq!(idx.slice(source, 4, 9), "four\n");
}

#[test]
fn line_slices_of_multibyte_text() {
    let source = "é\n日本\nz";
    let idx = LineIndex::new(source);
    assert_eq!(idx.count, 3);
    assert_eq!(idx.slice(source, 2, 2), "日本\n");
    assert_eq!(idx.slice(source, 3, 3), "z");
}

#[test]
fn blank_lines() {
    let source = "a\n  \t \n\u{3000}\n";
    let idx = LineIndex::new(source);
    assert!(!idx.is_blank(source, 1));
    assert!(idx.is_blank(source, 2));
    // Ideographic space is Unicode whitespace, as for `str::trim`.
    assert!(idx.is_blank(source, 3));
}

#[test]
fn whitespace_is_unicode_white_space() {
    for c in ['\t', '\n', '\u{b}', '\u{c}', '\r', ' ', '\u{85}', '\u{a0}', '\u{1680}', '\u{2000}', '\u{200a}', '\u{2028}', '\u{2029}', '\u{202f}', '\u{205f}', '\u{3000}'] {
        assert!(is_whitespace(c), "{c:?}");
        assert_eq!(is_whitespace(c), c.is_whitespace());
    }
    for c in ['a', '0', '\u{200b}', '\u{feff}', '_', '\u{180e}'] {
        assert_eq!(is_whitespace(c), c.is_whitespace(), "{c:?}");
    }
    assert!(is_blank(""));
    assert!(is_blank(" \u{a0}\n"));
    assert!(!is_blank(" x "));
}

#[test]
fn string_equality_and_byte_slices() {
    assert!(str_eq("class_declaration", "class_declaration"));
    assert!(!str_eq("class", "class_declaration"));
    assert!(!str_eq("abc", "abd"));
    assert!(str_eq("", ""));
    let s = "aé日b";
    assert_eq!(byte_slice(s, 1, 3), "é");
    assert_eq!(byte_slice(s, 3, 6), "日");
    assert_eq!(byte_slice(s, 0, s.len()), s);
    assert_eq!(byte_slice(s, 6, 6), "");
}
