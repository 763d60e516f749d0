use whitespace_sifter::preserve_newline;
use whitespace_sifter::{sift, sift_with_carriage_return};

#[test]
fn lib_test_sift() {
    let input: &str = &format!(
        "{}\n\n{}\n\n{}\n\n\n",
        "This\u{0020}\u{0020}is\u{0020}\u{0020}\u{0020}a\u{0020}\u{0020}sentence...",
        "With\u{0020}\u{0020}\u{0020}\u{0020}\u{0020}\u{0020}some\u{0020}\u{0020}duplicate...",
        "Whitespaces."
    );
    assert_eq!(
        &sift(input),
        "This is a sentence...\nWith some duplicate...\nWhitespaces."
    );
}

#[test]
fn test_sift_with_carriage_return() {
    let input: &str = &format!(
        "{}\r\n\r\n{}\r\n\r\n{}\r\n\r\n\r\n",
        "This\u{0020}\u{0020}is\u{0020}\u{0020}\u{0020}a\u{0020}\u{0020}sentence...",
        "With\u{0020}\u{0020}\u{0020}\u{0020}\u{0020}\u{0020}some\u{0020}\u{0020}duplicate...",
        "Whitespaces."
    );
    assert_eq!(
        &sift_with_carriage_return(input),
        "This is a sentence...\r\nWith some duplicate...\r\nWhitespaces."
    );
}

#[test]
fn test_sift_preserved() {
    let input: &str = &format!(
        "{}\n\n{}\n\n{}\n\n\n",
        "This. \n\nis. \n\na. \n\nsentence... \n\n",
        "With. \n\nsome. \n\nduplicate... \n\n",
        "Whitespaces. \n\n"
    );
    assert_eq!(
        &preserve_newline::sift(input),
        "This.\nis.\na.\nsentence...\nWith.\nsome.\nduplicate...\nWhitespaces."
    );
}

#[test]
fn test_sift_with_carriage_return_preserved() {
    let input: &str = &format!(
        "{}\r\n\r\n{}\r\n\r\n{}\r\n\r\n\r\n",
        "This. \r\n\r\nis. \r\n\r\na. \r\n\r\nsentence... \r\n\r\n",
        "With. \r\n\r\nsome. \r\n\r\nduplicate... \r\n\r\n",
        "Whitespaces. \r\n\r\n"
    );
    assert_eq!(
        &preserve_newline::sift_with_carriage_return(input),
        "This.\r\nis.\r\na.\r\nsentence...\r\nWith.\r\nsome.\r\nduplicate...\r\nWhitespaces."
    );
}
