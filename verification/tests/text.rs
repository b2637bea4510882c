use parasol::text::{contains_text, decimal_text, ends_with_text, parse_u64, signed_decimal_text, split_text, trimmed};

#[test]
fn white_space_around_text_is_trimmed() {
    assert_eq!(trimmed(" \t\u{a0}a b\u{2003}\r\n"), "a b");
    assert_eq!(trimmed("\u{85}\u{3000}"), "");
    assert_eq!(trimmed("\u{200b}x"), "\u{200b}x");
    for c in ['\u{b}', '\u{c}', '\u{1c}', '\u{1680}', '\u{2028}', '\u{2029}', '\u{202f}', '\u{205f}'] {
        let text = format!("{c}x{c}");
        assert_eq!(trimmed(&text), text.trim());
    }
}

#[test]
fn splitting_gives_one_part_more_than_separators() {
    assert_eq!(split_text("a,b,,c", ','), vec!["a", "b", "", "c"]);
    assert_eq!(split_text("", ','), vec![""]);
    assert_eq!(split_text(",", ','), vec!["", ""]);
}

#[test]
fn splitting_joined_texts_gives_both_lists_of_parts() {
    let mut parts = split_text("a b", ' ');
    parts.append(&mut split_text("c  d", ' '));
    assert_eq!(split_text("a b c  d", ' '), parts);
}

#[test]
fn parts_of_texts_are_found() {
    assert!(contains_text("solve maximize x", "maximize"));
    assert!(contains_text("abc", ""));
    assert!(!contains_text("maxi", "maximize"));
    assert!(ends_with_text("x==========", "=========="));
    assert!(!ends_with_text("=", "=="));
}

#[test]
fn numbers_are_written_in_decimal() {
    assert_eq!(decimal_text(0), "0");
    assert_eq!(decimal_text(10203), "10203");
    assert_eq!(decimal_text(u64::MAX), u64::MAX.to_string());
    for n in [0, 5, -5, i64::MAX, i64::MIN] {
        assert_eq!(signed_decimal_text(n), n.to_string());
    }
}

#[test]
fn numbers_are_read_as_the_standard_library_reads_them() {
    for text in [
        "0", "007", "+5", "+", "", "-1", "-0", " 1", "1 ", "12a", "++1", "18446744073709551615",
        "18446744073709551616", "99999999999999999999", "1_0",
    ] {
        assert_eq!(parse_u64(text), text.parse::<u64>().ok(), "{text:?}");
    }
}

#[test]
fn written_numbers_read_back() {
    for n in [0, 9, 10, 4096, u64::MAX - 1] {
        assert_eq!(parse_u64(&decimal_text(n)), Some(n));
    }
}

#[test]
fn trimming_twice_is_trimming_once() {
    for text in ["", " ", " a b ", "\u{2003}x\n"] {
        assert_eq!(trimmed(trimmed(text)), trimmed(text));
    }
}

#[test]
fn splitting_reads_back_what_was_joined() {
    for parts in [vec![""], vec!["a"], vec!["", "b", ""], vec!["x y", "z"]] {
        assert_eq!(split_text(&parts.join(","), ','), parts);
    }
}
