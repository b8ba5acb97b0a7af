use grepr::lines::split_lines;

#[test]
fn split_lines_of_empty_text_is_empty() {
    assert_eq!(split_lines(""), Vec::<&str>::new());
}

#[test]
fn split_lines_keeps_an_unterminated_last_line() {
    assert_eq!(split_lines("Lorem\nIpsum\r\nDOLOR"), vec!["Lorem", "Ipsum", "DOLOR"]);
    assert_eq!(split_lines("one"), vec!["one"]);
}

#[test]
fn split_lines_opens_no_line_behind_a_final_terminator() {
    assert_eq!(split_lines("a\nb\n"), vec!["a", "b"]);
    assert_eq!(split_lines("a\nb\r\n"), vec!["a", "b"]);
    assert_eq!(split_lines("a\nb"), vec!["a", "b"]);
    assert_eq!(split_lines("\n"), vec![""]);
    assert_eq!(split_lines("\r\n"), vec![""]);
}

#[test]
fn split_lines_keeps_empty_lines_inside() {
    assert_eq!(split_lines("a\n\nb"), vec!["a", "", "b"]);
    assert_eq!(split_lines("\n\n"), vec!["", ""]);
    assert_eq!(split_lines("a\r\n\r\nb"), vec!["a", "", "b"]);
}

#[test]
fn split_lines_strips_one_carriage_return_before_a_line_feed() {
    assert_eq!(split_lines("a\r\r\nb"), vec!["a\r", "b"]);
    assert_eq!(split_lines("a\rb\nc"), vec!["a\rb", "c"]);
    assert_eq!(split_lines("a\r"), vec!["a\r"]);
    assert_eq!(split_lines("\r"), vec!["\r"]);
}

#[test]
fn split_lines_handles_wide_characters() {
    assert_eq!(split_lines("é\n💩\r\nü"), vec!["é", "💩", "ü"]);
    assert_eq!(split_lines("日本\n語"), vec!["日本", "語"]);
}

#[test]
fn split_lines_agrees_with_the_standard_library() {
    let texts = [
        "", "\n", "\r", "\r\n", "\n\r", "a", "a\n", "a\r\n", "a\n\n", "\na", "\r\na\r", "a\r\r\n",
        "Lorem\nIpsum\r\nDOLOR", "é\r\né\n", "x\n\r\n\ny\r", "tab\tsep\nend\n",
    ];
    for text in texts {
        let expected: Vec<&str> = text.lines().collect();
        assert_eq!(split_lines(text), expected, "{:?}", text);
    }
}

#[test]
fn split_lines_numbers_every_line_once() {
    for (text, n) in [("a\nb\nc", 3usize), ("a\nb\nc\n", 3), ("a\nb\nc\r\n", 3), ("", 0), ("\n", 1)] {
        assert_eq!(split_lines(text).len(), n, "{:?}", text);
    }
}
