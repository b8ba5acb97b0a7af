use grepr::pattern::Pattern;
use grepr::{find_lines_with_default_strategy, find_lines_with_highlight_all_matches_red};

#[test]
fn test_find_lines() {
    let text = b"Lorem\nIpsum\r\nDOLOR";
    // The pattern _or_ should match the one line, "Lorem"
    let re1 = Pattern::compile("or", false).unwrap();
    let matches = find_lines_with_default_strategy(text, &re1, false);
    assert!(matches.is_ok());
    assert_eq!(matches.unwrap().len(), 1);
    // When inverted, the function should match the other two lines
    let matches = find_lines_with_default_strategy(text, &re1, true);
    assert!(matches.is_ok());
    assert_eq!(matches.unwrap().len(), 2);
    // This regex will be case-insensitive
    let re2 = Pattern::compile("or", true).unwrap();
    // The two lines "Lorem" and "DOLOR" should match
    let matches = find_lines_with_default_strategy(text, &re2, false);
    assert!(matches.is_ok());
    assert_eq!(matches.unwrap().len(), 2);
    // When inverted, the one remaining line should match
    let matches = find_lines_with_default_strategy(text, &re2, true);
    assert!(matches.is_ok());
    assert_eq!(matches.unwrap().len(), 1);
}

#[test]
fn scan_reports_numbers_and_stripped_content() {
    let text = b"Lorem\nIpsum\r\nDOLOR";
    let re = Pattern::compile("or", false).unwrap();
    let kept = find_lines_with_default_strategy(text, &re, false).unwrap();
    assert_eq!(kept.len(), 1);
    assert_eq!(kept[0].line, 1);
    assert_eq!(kept[0].content, "Lorem");
    let rest = find_lines_with_default_strategy(text, &re, true).unwrap();
    assert_eq!(rest.len(), 2);
    assert_eq!(rest[0].line, 2);
    assert_eq!(rest[0].content, "Ipsum");
    assert_eq!(rest[1].line, 3);
    assert_eq!(rest[1].content, "DOLOR");
}

#[test]
fn scan_rejects_bytes_that_are_no_text() {
    let re = Pattern::compile("or", false).unwrap();
    let result = find_lines_with_highlight_all_matches_red(&[0x4c, 0xff, 0x0a], &re, false);
    assert!(result.is_err());
}

#[test]
fn scan_keeps_one_line_of_the_sample() {
    let re = Pattern::compile("or", false).unwrap();
    let kept = find_lines_with_default_strategy(b"Lorem\nIpsum\r\nDOLOR", &re, false).unwrap();
    let seen: Vec<(usize, &str)> = kept.iter().map(|l| (l.line, l.content.as_str())).collect();
    assert_eq!(seen, vec![(1, "Lorem")]);
}

#[test]
fn inverted_scan_keeps_the_other_two_lines() {
    let re = Pattern::compile("or", false).unwrap();
    let kept = find_lines_with_default_strategy(b"Lorem\nIpsum\r\nDOLOR", &re, true).unwrap();
    let seen: Vec<(usize, &str)> = kept.iter().map(|l| (l.line, l.content.as_str())).collect();
    assert_eq!(seen, vec![(2, "Ipsum"), (3, "DOLOR")]);
}

#[test]
fn case_insensitive_scan_keeps_two_lines() {
    let re = Pattern::compile("or", true).unwrap();
    let kept = find_lines_with_default_strategy(b"Lorem\nIpsum\r\nDOLOR", &re, false).unwrap();
    let seen: Vec<(usize, &str)> = kept.iter().map(|l| (l.line, l.content.as_str())).collect();
    assert_eq!(seen, vec![(1, "Lorem"), (3, "DOLOR")]);
}

#[test]
fn scan_and_inverted_scan_share_out_the_line_numbers() {
    let inputs: [&[u8]; 5] = [b"Lorem\nIpsum\r\nDOLOR", b"a\nb\nc\n", b"", b"\n\n", b"or\r\nor\nno"];
    for input in inputs {
        let n = std::str::from_utf8(input).unwrap().lines().count();
        for pattern in ["or", "^$", "a|c", ""] {
            let re = Pattern::compile(pattern, false).unwrap();
            let kept = find_lines_with_default_strategy(input, &re, false).unwrap();
            let rest = find_lines_with_default_strategy(input, &re, true).unwrap();
            let mut numbers: Vec<usize> = kept.iter().chain(rest.iter()).map(|l| l.line).collect();
            numbers.sort();
            assert_eq!(numbers, (1..=n).collect::<Vec<usize>>());
        }
    }
}

#[test]
fn scan_numbers_do_not_depend_on_a_final_terminator() {
    let re = Pattern::compile("c", false).unwrap();
    for input in [&b"a\nb\nc"[..], &b"a\nb\nc\n"[..], &b"a\nb\nc\r\n"[..]] {
        let kept = find_lines_with_default_strategy(input, &re, false).unwrap();
        assert_eq!(kept.len(), 1);
        assert_eq!(kept[0].line, 3);
        assert_eq!(kept[0].content, "c");
    }
}

#[test]
fn scan_of_an_empty_source_keeps_nothing() {
    let re = Pattern::compile("", false).unwrap();
    assert!(find_lines_with_default_strategy(b"", &re, false).unwrap().is_empty());
    assert!(find_lines_with_default_strategy(b"", &re, true).unwrap().is_empty());
}

#[test]
fn scan_failure_names_the_cause() {
    let re = Pattern::compile("or", false).unwrap();
    match find_lines_with_default_strategy(&[b'o', b'r', 0xc3], &re, false) {
        Err(grepr::error::GreprError::IOError(cause)) => {
            assert_eq!(cause, "stream did not contain valid UTF-8")
        },
        _ => panic!("bytes that are no text must be refused"),
    }
}

#[test]
fn scan_applies_the_strategy_to_kept_lines_only() {
    let re = Pattern::compile("or", false).unwrap();
    let kept = grepr::find_lines_and_fmt_with(b"Lorem\nIpsum\nfor", &re, false, |_p: &Pattern, line: &str| {
        line.to_uppercase()
    })
    .unwrap();
    let seen: Vec<(usize, &str)> = kept.iter().map(|l| (l.line, l.content.as_str())).collect();
    assert_eq!(seen, vec![(1, "LOREM"), (3, "FOR")]);
}

#[test]
fn highlighting_scan_marks_matches_in_red() {
    colored::control::set_override(true);
    let re = Pattern::compile("or", false).unwrap();
    let kept = find_lines_with_highlight_all_matches_red(b"Lorem\nIpsum\r\nDOLOR", &re, false).unwrap();
    assert_eq!(kept.len(), 1);
    assert_eq!(kept[0].line, 1);
    assert_eq!(kept[0].content, "L\u{1b}[31mor\u{1b}[0mem");
}
