use qwen_forced_aligner::chars::{lines, split_whitespace, trim};
use qwen_forced_aligner::text_io::clean_text;

#[test]
fn lines_become_one_text() {
    assert_eq!(clean_text("  one two \r\n\r\n\tthree\n   \nfour"), "one two three four");
    assert_eq!(clean_text(""), "");
    assert_eq!(clean_text(" \n\n "), "");
    assert_eq!(clean_text("single"), "single");
}

#[test]
fn lines_are_those_of_the_standard_library() {
    for text in ["", "\n", "a", "a\n", "a\r\nb", "a\n\nb\r", "\r\n\r", "a\rb\nc"] {
        let expected: Vec<String> = text.lines().map(str::to_string).collect();
        assert_eq!(lines(text), expected);
    }
}

#[test]
fn words_and_trimming_are_those_of_the_standard_library() {
    for text in ["", "  ", " a b ", "a\u{2003}b\u{a0}c", "\u{3000}x\ty\n"] {
        let expected: Vec<String> = text.split_whitespace().map(str::to_string).collect();
        assert_eq!(split_whitespace(text), expected);
        assert_eq!(trim(text), text.trim());
    }
}
