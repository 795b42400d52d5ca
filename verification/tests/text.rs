use dfu_flasher::text::{chars_of, contains, same_text, text_of, trim};

#[test]
fn trim_takes_white_space_from_both_ends() {
    assert_eq!(trim("  a b \t\r\n"), "a b");
    assert_eq!(trim("\u{a0}\u{3000}x\u{2028}"), "x");
    assert_eq!(trim("x"), "x");
    assert_eq!(trim(""), "");
    assert_eq!(trim(" \n "), "");
    assert_eq!(trim("\u{200b}a"), "\u{200b}a");
}

#[test]
fn contains_finds_the_needle_anywhere() {
    assert!(contains("dfu-util: error detaching", "dfu-util: error detaching"));
    assert!(contains("x dfu-util: error detaching y", "error"));
    assert!(contains("abc", ""));
    assert!(contains("", ""));
    assert!(contains("aab", "ab"));
    assert!(!contains("abc", "abcd"));
    assert!(!contains("abc", "ca"));
    assert!(!contains("", "a"));
}

#[test]
fn texts_are_compared_by_their_characters() {
    assert!(same_text("dfu", "dfu"));
    assert!(!same_text("dfu", "DFU"));
    assert!(!same_text("dfu", "dfu "));
}

#[test]
fn characters_and_back() {
    let chars = chars_of("a\u{e9}\u{1f600}z");
    assert_eq!(chars, ['a', '\u{e9}', '\u{1f600}', 'z']);
    assert_eq!(text_of(&chars, 1, 3), "\u{e9}\u{1f600}");
    assert_eq!(text_of(&chars, 2, 2), "");
}

fn has_white_space_property(c: char) -> bool {
    matches!(
        c as u32,
        0x0009..=0x000d
            | 0x0020
            | 0x0085
            | 0x00a0
            | 0x1680
            | 0x2000..=0x200a
            | 0x2028
            | 0x2029
            | 0x202f
            | 0x205f
            | 0x3000
    )
}

#[test]
fn white_space_is_the_unicode_property() {
    let mut count = 0;
    for code in 0..=0x10ffffu32 {
        if let Some(c) = char::from_u32(code) {
            let text = format!("{}x{}", c, c);
            let expected = if has_white_space_property(c) { "x" } else { text.as_str() };
            assert_eq!(trim(&text), expected, "U+{:04X}", code);
            assert_eq!(c.is_whitespace(), has_white_space_property(c), "U+{:04X}", code);
            if has_white_space_property(c) {
                count += 1;
            }
        }
    }
    assert_eq!(count, 25);
}
