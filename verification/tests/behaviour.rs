use whitespace_sifter::WhitespaceSifter;

fn samples() -> Vec<&'static str> {
    vec![
        "",
        " ",
        "\t \n",
        "\n\r\n",
        "a",
        " a ",
        "a  b",
        "a\r\nb",
        "a\r \nb",
        "a\r\r\nb",
        "a \r\nb",
        "a\n\rb",
        "a\rb",
        "a\r",
        "a\r\n",
        "a\n",
        "\r\na",
        "a \x0C\t b",
        "  a1\u{2764}\u{fe0f}\u{1f30d}\u{1f680}1a  ",
        "\u{e9}  \u{e9}\r\n\r\n \u{20ac}\n\n\u{1f680} ",
        "1.. \n2..  \n\r\n3..   \n\n\n4..    \r\n\n\r\n\n5..     \n\n\n\n\n",
        "a\u{a0} \u{a0}b\u{b} \u{b}",
        "line one \r\n\r\n  line\ttwo\t\t\r\nline three\n\n\n",
    ]
}

fn is_whitespace(b: u8) -> bool {
    b.is_ascii_whitespace()
}

fn content(s: &str) -> String {
    s.chars().filter(|c| !c.is_ascii_whitespace()).collect()
}

#[test]
fn sifting_twice_is_sifting_once() {
    for s in samples() {
        let once = s.sift();
        assert_eq!(once.sift(), once, "{s:?}");
        let once = s.sift_preserve_newlines();
        assert_eq!(once.sift_preserve_newlines(), once, "{s:?}");
    }
}

#[test]
fn no_whitespace_at_either_end() {
    for s in samples() {
        for out in [s.sift(), s.sift_preserve_newlines()] {
            let bytes = out.as_bytes();
            if let (Some(first), Some(last)) = (bytes.first(), bytes.last()) {
                assert!(!is_whitespace(*first), "{s:?}");
                assert!(!is_whitespace(*last), "{s:?}");
            }
        }
    }
}

#[test]
fn whitespace_side_by_side_is_a_line_break() {
    for s in samples() {
        for out in [s.sift(), s.sift_preserve_newlines()] {
            for pair in out.as_bytes().windows(2) {
                if is_whitespace(pair[0]) && is_whitespace(pair[1]) {
                    assert_eq!(pair, b"\r\n", "{s:?}");
                }
            }
        }
    }
}

#[test]
fn content_is_kept_in_order() {
    for s in samples() {
        assert_eq!(content(&s.sift()), content(s), "{s:?}");
        assert_eq!(content(&s.sift_preserve_newlines()), content(s), "{s:?}");
    }
}

#[test]
fn text_without_whitespace_is_unchanged() {
    for s in ["\u{e9}\u{20ac}\u{1f680}", "\u{2764}\u{fe0f}", "abc", "\u{a0}\u{2003}\u{b}"] {
        assert_eq!(s.sift(), s);
        assert_eq!(s.sift_preserve_newlines(), s);
    }
}

#[test]
fn whitespace_only_gives_the_empty_string() {
    for s in ["", " ", "\t \n", "\n\r\n", "\r", "\r\r\n\n", " \x0C\t\r\n "] {
        assert_eq!(s.sift(), "");
        assert_eq!(s.sift_preserve_newlines(), "");
    }
}

#[test]
fn a_sentence_with_blank_lines() {
    assert_eq!(
        "This  is   a  sentence...\n\nWith      some  duplicate...\n\nWhitespaces.".sift(),
        "This is a sentence...\nWith some duplicate...\nWhitespaces."
    );
}

#[test]
fn a_grapheme_between_duplicate_spaces() {
    let heart = "\u{2764}\u{fe0f}";
    let input = format!("a  {heart}  b");
    let out = format!("a {heart} b");
    assert_eq!(input.sift(), out);
    assert_eq!(input.sift_preserve_newlines(), out);
}

#[test]
fn a_run_is_cut_down_to_its_first_character() {
    assert_eq!("a \t\x0Cb".sift(), "a b");
    assert_eq!("a\t  b".sift(), "a\tb");
    assert_eq!("a\x0C\n b".sift(), "a\x0Cb");
    assert_eq!("a\n\r\nb".sift(), "a\nb");
    assert_eq!("a\r\rb".sift(), "a\rb");
}

#[test]
fn a_carriage_return_keeps_the_first_line_feed_of_its_run() {
    assert_eq!("a\r\nb".sift(), "a\r\nb");
    assert_eq!("a\r\n\nb".sift(), "a\r\nb");
    assert_eq!("a\r\n\r\nb".sift(), "a\r\nb");
    assert_eq!("a\r \nb".sift(), "a\r\nb");
    assert_eq!("a\r\r\nb".sift(), "a\r\nb");
    assert_eq!("a \r\nb".sift(), "a b");
}

#[test]
fn a_line_break_at_the_end_is_removed_whole() {
    assert_eq!("a\r\n".sift(), "a");
    assert_eq!("a\r\n \n".sift(), "a");
    assert_eq!("a\r".sift(), "a");
    assert_eq!("a\n".sift(), "a");
    assert_eq!("a\r\n".sift_preserve_newlines(), "a");
    assert_eq!("a\r".sift_preserve_newlines(), "a");
    assert_eq!("a \r".sift_preserve_newlines(), "a");
    assert_eq!("a\n".sift_preserve_newlines(), "a");
    assert_eq!("a\nb\r\n\r\n".sift_preserve_newlines(), "a\nb");
}

#[test]
fn each_line_break_keeps_its_style() {
    assert_eq!("a\nb\r\nc".sift_preserve_newlines(), "a\nb\r\nc");
    assert_eq!("a \r\n\n b".sift_preserve_newlines(), "a\r\nb");
    assert_eq!("a\n\r\n b".sift_preserve_newlines(), "a\nb");
    assert_eq!("a\r \nb".sift_preserve_newlines(), "a\nb");
    assert_eq!("a\r\r\nb".sift_preserve_newlines(), "a\r\nb");
}

#[test]
fn a_carriage_return_within_a_line_is_plain_whitespace() {
    assert_eq!("a\rb".sift_preserve_newlines(), "a\rb");
    assert_eq!("a\r  b\nc".sift_preserve_newlines(), "a\rb\nc");
    assert_eq!("a \rb".sift_preserve_newlines(), "a b");
    assert_eq!("x\n\u{e9}\ry".sift_preserve_newlines(), "x\n\u{e9}\ry");
}

#[test]
fn lines_are_sifted_one_by_one() {
    assert_eq!(
        "  first   line  \n\n\t\n second\tline \n".sift_preserve_newlines(),
        "first line\nsecond\tline"
    );
    assert_eq!(
        " \u{20ac}  1 \r\n \u{20ac}  2 \r\n".sift_preserve_newlines(),
        "\u{20ac} 1\r\n\u{20ac} 2"
    );
}

#[test]
fn only_ascii_whitespace_counts() {
    assert_eq!("a\u{a0}\u{a0}b".sift(), "a\u{a0}\u{a0}b");
    assert_eq!("\u{2003}a\u{2003}".sift(), "\u{2003}a\u{2003}");
    assert_eq!("a\u{b}\u{b}b".sift(), "a\u{b}\u{b}b");
    assert_eq!("\u{a0} a".sift_preserve_newlines(), "\u{a0} a");
}

#[test]
fn string_and_str_agree() {
    for s in samples() {
        assert_eq!(s.to_owned().sift(), s.sift());
        assert_eq!(s.to_owned().sift_preserve_newlines(), s.sift_preserve_newlines());
        assert_eq!(whitespace_sifter::sift(s), s.sift());
        assert_eq!(whitespace_sifter::sift_with_carriage_return(s), s.sift());
        assert_eq!(
            whitespace_sifter::preserve_newline::sift(s),
            s.sift_preserve_newlines()
        );
        assert_eq!(
            whitespace_sifter::preserve_newline::sift_with_carriage_return(s),
            s.sift_preserve_newlines()
        );
    }
}
