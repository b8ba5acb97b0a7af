use grepr::format::{
    decimal_string, find_form, highlight_with, line_number_field, right_justify, same_text, splice_with,
};
use grepr::matcher::{extract_words, layout_line, MatchLine, MatchWord};
use grepr::pattern::Pattern;
use grepr::{default_fmt_strategy, highlight_all_matches_red, MatchedLine};

#[test]
fn decimal_string_writes_numbers() {
    assert_eq!(decimal_string(0), "0");
    assert_eq!(decimal_string(7), "7");
    assert_eq!(decimal_string(10), "10");
    assert_eq!(decimal_string(42), "42");
    assert_eq!(decimal_string(12345), "12345");
    assert_eq!(decimal_string(1000000), "1000000");
    assert_eq!(decimal_string(usize::MAX), usize::MAX.to_string());
}

#[test]
fn decimal_string_agrees_with_the_standard_library() {
    for n in (0..2000usize).chain([9999, 10000, 99999, 100000, 123456789]) {
        assert_eq!(decimal_string(n), n.to_string());
    }
}

#[test]
fn right_justify_fills_with_spaces() {
    assert_eq!(right_justify("1", 6), "     1");
    assert_eq!(right_justify("123456", 6), "123456");
    assert_eq!(right_justify("1234567", 6), "1234567");
    assert_eq!(right_justify("", 3), "   ");
    assert_eq!(right_justify("ab", 0), "ab");
    assert_eq!(right_justify("é", 3), "  é");
}

#[test]
fn same_text_compares_character_for_character() {
    assert!(same_text("cat", "cat"));
    assert!(same_text("", ""));
    assert!(!same_text("cat", "cot"));
    assert!(!same_text("cat", "cats"));
    assert!(!same_text("é", "e"));
}

#[test]
fn layout_line_joins_number_and_content() {
    assert_eq!(layout_line("     7", "Lorem"), "     7:Lorem");
    assert_eq!(layout_line("", ""), ":");
}

#[test]
fn highlight_with_replaces_every_occurrence() {
    let out = highlight_with("a cat and a cat", &vec!["cat"], &vec!["<cat>".to_string()]);
    assert_eq!(out, "a <cat> and a <cat>");
}

#[test]
fn highlight_with_replaces_words_one_after_the_other() {
    let out = highlight_with("cat dog", &vec!["cat", "dog"], &vec!["[cat]".to_string(), "[dog]".to_string()]);
    assert_eq!(out, "[cat] [dog]");
    let again = highlight_with("ab", &vec!["a", "b"], &vec!["b".to_string(), "c".to_string()]);
    assert_eq!(again, "cc");
}

#[test]
fn highlight_with_reaches_into_longer_words() {
    let out = highlight_with("cat category", &vec!["cat"], &vec!["CAT".to_string()]);
    assert_eq!(out, "CAT CATegory");
}

#[test]
fn highlight_with_leaves_unpaired_words_alone() {
    let out = highlight_with("cat dog", &vec!["cat", "dog"], &vec!["[cat]".to_string()]);
    assert_eq!(out, "[cat] dog");
    assert_eq!(highlight_with("cat", &vec![], &vec![]), "cat");
}

#[test]
fn default_strategy_shows_the_line_as_it_is() {
    let p = Pattern::compile("or", false).unwrap();
    assert_eq!(default_fmt_strategy(&p, "Lorem"), "Lorem");
    assert_eq!(default_fmt_strategy(&p, ""), "");
}

#[test]
fn plain_highlight_leaves_the_line_unchanged() {
    colored::control::set_override(false);
    let p = Pattern::compile("or", false).unwrap();
    assert_eq!(highlight_all_matches_red(&p, "Lorem or more"), "Lorem or more");
}

#[test]
fn colored_highlight_marks_every_occurrence_of_a_word() {
    colored::control::set_override(true);
    let p = Pattern::compile("cat", false).unwrap();
    let out = highlight_all_matches_red(&p, "cat cat cat");
    assert_eq!(out, "\u{1b}[31mcat\u{1b}[0m \u{1b}[31mcat\u{1b}[0m \u{1b}[31mcat\u{1b}[0m");
    assert_eq!(out.matches("\u{1b}[31mcat\u{1b}[0m").count(), 3);
}

#[test]
fn colored_highlight_of_a_line_without_match_is_the_line() {
    colored::control::set_override(true);
    let p = Pattern::compile("dog", false).unwrap();
    assert_eq!(highlight_all_matches_red(&p, "cat cat cat"), "cat cat cat");
}

#[test]
fn matched_line_keeps_number_and_content() {
    let line = MatchedLine::new(12, "Lorem".to_string());
    assert_eq!(line.line, 12);
    assert_eq!(line.content, "Lorem");
}

#[test]
fn plain_matched_line_shows_a_right_justified_number() {
    colored::control::set_override(false);
    assert_eq!(MatchedLine::new(1, "Lorem".to_string()).render(), "     1:Lorem");
    assert_eq!(MatchedLine::new(123456, "x".to_string()).render(), "123456:x");
    assert_eq!(MatchedLine::new(1234567, "".to_string()).render(), "1234567:");
}

#[test]
fn colored_matched_line_shows_a_cyan_number() {
    colored::control::set_override(true);
    assert_eq!(MatchedLine::new(3, "DOLOR".to_string()).render(), "\u{1b}[36m     3\u{1b}[0m:DOLOR");
}

#[test]
fn plain_match_line_shows_number_and_content() {
    colored::control::set_override(false);
    let p = Pattern::compile("or", false).unwrap();
    let line = MatchLine::new(2, "Lorem or", extract_words("Lorem or", &p));
    assert_eq!(line.render(), "     2:Lorem or");
    assert_eq!(line.render_with("2", &vec!["<or>".to_string()]), "2:L<or>em <or>");
}

#[test]
fn colored_match_line_uses_one_replacement_for_a_repeated_word() {
    colored::control::set_override(true);
    let p = Pattern::compile("cat", false).unwrap();
    let line = MatchLine::new(7, "cat, cat and cat", extract_words("cat, cat and cat", &p));
    assert_eq!(line.match_words().len(), 3);
    assert_eq!(line.distinct_words(), vec!["cat"]);
    let red = "\u{1b}[31mcat\u{1b}[0m";
    assert_eq!(line.render(), format!("\u{1b}[34m     7\u{1b}[0m:{}, {} and {}", red, red, red));
}

#[test]
fn line_number_field_is_six_wide() {
    assert_eq!(line_number_field(1), "     1");
    assert_eq!(line_number_field(42), "    42");
    assert_eq!(line_number_field(999999), "999999");
    assert_eq!(line_number_field(1000000), "1000000");
}

#[test]
fn splice_with_replaces_spans_where_they_stand() {
    let out = splice_with("a cat and a cot", &vec![(2, 5), (12, 15)], &vec!["<1>".to_string(), "<2>".to_string()]);
    assert_eq!(out, "a <1> and a <2>");
    assert_eq!(splice_with("abc", &vec![], &vec![]), "abc");
    assert_eq!(splice_with("abc", &vec![(0, 3)], &vec!["".to_string()]), "");
    assert_eq!(splice_with("abc", &vec![(1, 1)], &vec!["-".to_string()]), "a-bc");
}

#[test]
fn splice_with_leaves_unusable_spans_alone() {
    let forms = vec!["X".to_string(), "Y".to_string(), "Z".to_string()];
    assert_eq!(splice_with("abcdef", &vec![(2, 4), (3, 5), (5, 6)], &forms), "abXeZ");
    assert_eq!(splice_with("abcdef", &vec![(4, 2), (5, 9), (0, 1)], &forms), "Zbcdef");
    assert_eq!(splice_with("aéb", &vec![(2, 3), (1, 3), (3, 4)], &forms), "aYZ");
    assert_eq!(splice_with("abc", &vec![(0, 1), (1, 2)], &vec!["X".to_string()]), "Xbc");
}

#[test]
fn splice_with_plain_forms_gives_back_the_text() {
    let text = "Lorem ipsum dolor";
    let spans = vec![(1, 3), (6, 6), (14, 17)];
    let forms: Vec<String> = spans.iter().map(|&(a, b)| text[a..b].to_string()).collect();
    assert_eq!(splice_with(text, &spans, &forms), text);
}

#[test]
fn find_form_takes_the_form_of_the_first_equal_key() {
    let keys = vec!["cat", "dog", "cat"];
    let forms = vec!["C".to_string(), "D".to_string(), "E".to_string()];
    assert_eq!(find_form(&keys, &forms, "cat"), "C");
    assert_eq!(find_form(&keys, &forms, "dog"), "D");
    assert_eq!(find_form(&keys, &forms, "cow"), "cow");
    assert_eq!(find_form(&keys, &vec!["C".to_string()], "dog"), "dog");
}

#[test]
fn colored_highlight_never_reaches_into_earlier_markup() {
    colored::control::set_override(true);
    let p = Pattern::compile("[0-9]", false).unwrap();
    let out = highlight_all_matches_red(&p, "2023-01-31");
    let red = |d: &str| format!("\u{1b}[31m{}\u{1b}[0m", d);
    let expected = format!(
        "{}{}{}{}-{}{}-{}{}",
        red("2"), red("0"), red("2"), red("3"), red("0"), red("1"), red("3"), red("1")
    );
    assert_eq!(out, expected);
    assert_eq!(out.replace("\u{1b}[31m", "").replace("\u{1b}[0m", ""), "2023-01-31");
}

#[test]
fn colored_highlight_agrees_with_a_replacement_by_the_engine() {
    colored::control::set_override(true);
    for (pattern, line) in [("or", "Lorem or more"), ("m|0|\\[", "m[0m 31m"), ("a*", "baaac"), ("", "ab"), ("é+", "caféé")] {
        let p = Pattern::compile(pattern, false).unwrap();
        let expected = regex::Regex::new(pattern)
            .unwrap()
            .replace_all(line, |caps: &regex::Captures| format!("\u{1b}[31m{}\u{1b}[0m", &caps[0]))
            .to_string();
        assert_eq!(highlight_all_matches_red(&p, line), expected, "{:?} in {:?}", pattern, line);
    }
}

#[test]
fn colored_match_line_never_reaches_into_earlier_markup() {
    colored::control::set_override(true);
    let p = Pattern::compile("[0-9m]", false).unwrap();
    let text = "m31 0m";
    let line = MatchLine::new(1, text, extract_words(text, &p));
    let shown = line.render();
    let content = shown.strip_prefix("\u{1b}[34m     1\u{1b}[0m:").unwrap();
    assert_eq!(content.replace("\u{1b}[31m", "").replace("\u{1b}[0m", ""), text);
    assert_eq!(content.matches("\u{1b}[31m").count(), 5);
}

#[test]
fn match_line_shows_only_matches_emphasized() {
    let p = Pattern::compile("\\bcat\\b", false).unwrap();
    let text = "cat category cat";
    let line = MatchLine::new(4, text, extract_words(text, &p));
    assert_eq!(line.render_with("4", &vec!["<cat>".to_string()]), "4:<cat> category <cat>");
}

#[test]
fn match_line_leaves_words_that_do_not_fit_alone() {
    let line = MatchLine::new(1, "abc", vec![MatchWord::new(7, "x"), MatchWord::new(usize::MAX, "yz"), MatchWord::new(1, "b")]);
    assert_eq!(line.render_with("1", &vec!["X".to_string(), "Y".to_string(), "B".to_string()]), "1:aBc");
}
