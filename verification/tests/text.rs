//! Text functions, held against those of the standard library.
use image_janitor::text::{
    begins_with, ends_with, holds_char, lines, same_text, split, text_of, chars_of, trim, white,
};

const SAMPLES: [&str; 14] = [
    "", " ", "a", " a ", "a,b,,c", ",", "a\nb", "a\r\nb\r\n", "\n", "\r\n\r", "\u{a0}x\u{3000}",
    "\t-\u{85}\u{2028} y \u{200b}", "caf\u{e9},", "\u{1680}\u{205f}z",
];

#[test]
fn splitting_is_that_of_std() {
    for s in SAMPLES {
        for sep in [',', 'a', '\n', ' '] {
            let expected: Vec<String> = s.split(sep).map(String::from).collect();
            assert_eq!(split(s, sep), expected, "{:?}", s);
        }
    }
}

#[test]
fn trimming_is_that_of_std() {
    for s in SAMPLES {
        assert_eq!(trim(s), s.trim(), "{:?}", s);
    }
}

#[test]
fn white_space_is_that_of_std() {
    for code in 0..0x11_0000u32 {
        if let Some(c) = char::from_u32(code) {
            assert_eq!(white(c), c.is_whitespace(), "{:x}", code);
        }
    }
}

#[test]
fn lines_are_those_of_std() {
    for s in SAMPLES {
        let expected: Vec<String> = s.lines().map(String::from).collect();
        assert_eq!(lines(s), expected, "{:?}", s);
    }
}

#[test]
fn beginnings_and_endings() {
    assert!(begins_with("-a", '-'));
    assert!(!begins_with("", '-'));
    assert!(ends_with("a.ko.xz", ".ko.xz"));
    assert!(!ends_with("xz", ".ko.xz"));
    assert!(ends_with("a", ""));
    assert!(holds_char("a*b", '*'));
    assert!(!holds_char("", '*'));
    assert!(same_text("ab", "ab") && !same_text("ab", "a"));
}

#[test]
fn characters_and_back() {
    let chars = chars_of("h\u{e9}llo");
    assert_eq!(chars, vec!['h', '\u{e9}', 'l', 'l', 'o']);
    assert_eq!(text_of(&chars, 1, 4), "\u{e9}ll");
}
