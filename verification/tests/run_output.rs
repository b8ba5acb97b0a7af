use grepr::error::GreprError;
use grepr::{has_several_sources, report_source, run, Config, Emission, Source};

fn config(pattern: &str, count: bool, invert: bool) -> Config {
    Config::new(pattern, false, vec![], false, count, invert).unwrap()
}

fn loaded(name: &str, text: &str) -> Source {
    Source::Loaded(name.to_string(), text.as_bytes().to_vec())
}

fn shown(emissions: Vec<Emission>) -> Vec<String> {
    emissions
        .into_iter()
        .map(|e| match e {
            Emission::Output(text) => format!("out {}", text),
            Emission::Diagnostic(text) => format!("err {}", text),
        })
        .collect()
}

fn strings(lines: &[&str]) -> Vec<String> {
    lines.iter().map(|l| l.to_string()).collect()
}

#[test]
fn config_defaults_to_standard_input() {
    let c = Config::new("or", true, vec![], true, false, true).unwrap();
    assert_eq!(c.get_files(), &vec!["-".to_string()]);
    assert!(c.is_recursive());
    assert!(!c.is_count());
    assert!(c.is_invert_match());
    assert_eq!(c.get_pattern().as_str(), "or");
    assert!(c.get_pattern().is_case_insensitive());
}

#[test]
fn config_keeps_the_given_files() {
    let c = Config::new("or", false, strings(&["a.txt", "b.txt"]), false, true, false).unwrap();
    assert_eq!(c.get_files(), &strings(&["a.txt", "b.txt"]));
    assert!(c.is_count());
}

#[test]
fn config_refuses_a_malformed_pattern() {
    match Config::new("*oops", false, vec![], false, false, false) {
        Err(e) => assert_eq!(e.message(), "Invalid pattern \"*oops\""),
        Ok(_) => panic!("a malformed pattern must be refused"),
    }
}

#[test]
fn report_of_a_single_source_has_no_name() {
    let lines = strings(&["     1:Lorem", "     3:DOLOR"]);
    assert_eq!(report_source("fox.txt", &lines, false, false), lines);
    assert_eq!(report_source("fox.txt", &vec![], false, false), Vec::<String>::new());
}

#[test]
fn report_of_one_among_several_sources_starts_with_its_name() {
    let lines = strings(&["     1:Lorem"]);
    assert_eq!(report_source("fox.txt", &lines, true, false), strings(&["fox.txt", "     1:Lorem"]));
}

#[test]
fn report_without_kept_lines_shows_no_name() {
    assert_eq!(report_source("fox.txt", &vec![], true, false), Vec::<String>::new());
}

#[test]
fn count_report_shows_the_number_alone_for_a_single_source() {
    let lines = strings(&["a", "b", "c"]);
    assert_eq!(report_source("fox.txt", &lines, false, true), strings(&["3"]));
    assert_eq!(report_source("fox.txt", &vec![], false, true), strings(&["0"]));
}

#[test]
fn count_report_shows_zero_among_several_sources() {
    assert_eq!(report_source("empty.txt", &vec![], true, true), strings(&["empty.txt:0"]));
    let lines: Vec<String> = (0..12).map(|i| i.to_string()).collect();
    assert_eq!(report_source("fox.txt", &lines, true, true), strings(&["fox.txt:12"]));
}

#[test]
fn unresolved_entries_are_no_sources() {
    let dir = || Source::Unresolved(GreprError::SourceResolution("d is a directory".to_string()));
    assert!(!has_several_sources(&vec![]));
    assert!(!has_several_sources(&vec![loaded("a", "")]));
    assert!(!has_several_sources(&vec![dir(), loaded("a", ""), dir()]));
    assert!(has_several_sources(&vec![loaded("a", ""), dir(), loaded("b", "")]));
    assert!(has_several_sources(&vec![
        Source::Unreadable("a".to_string(), "denied".to_string()),
        loaded("b", "")
    ]));
}

#[test]
fn run_over_one_source_shows_lines_without_name() {
    colored::control::set_override(false);
    let out = run(&config("or", false, false), &vec![loaded("fox.txt", "Lorem\nIpsum\r\nDOLOR")]);
    assert_eq!(shown(out), strings(&["out      1:Lorem"]));
}

#[test]
fn run_over_one_source_inverted() {
    colored::control::set_override(false);
    let out = run(&config("or", false, true), &vec![loaded("fox.txt", "Lorem\nIpsum\r\nDOLOR")]);
    assert_eq!(shown(out), strings(&["out      2:Ipsum", "out      3:DOLOR"]));
}

#[test]
fn run_over_several_sources_shows_names_above_matches() {
    colored::control::set_override(false);
    let entries = vec![loaded("a.txt", "Lorem\nfor\n"), loaded("b.txt", "Ipsum\n"), loaded("c.txt", "more")];
    let out = run(&config("or", false, false), &entries);
    assert_eq!(
        shown(out),
        strings(&["out a.txt", "out      1:Lorem", "out      2:for", "out c.txt", "out      1:more"])
    );
}

#[test]
fn run_counting_several_sources_never_drops_a_zero() {
    colored::control::set_override(false);
    let entries = vec![loaded("a.txt", "Lorem\nfor\n"), loaded("b.txt", "Ipsum\n"), loaded("c.txt", "")];
    let out = run(&config("or", true, false), &entries);
    assert_eq!(shown(out), strings(&["out a.txt:2", "out b.txt:0", "out c.txt:0"]));
}

#[test]
fn run_over_an_empty_source() {
    colored::control::set_override(false);
    let counted = run(&config("or", true, false), &vec![loaded("empty.txt", "")]);
    assert_eq!(shown(counted), strings(&["out 0"]));
    let listed = run(&config("or", false, false), &vec![loaded("empty.txt", "")]);
    assert_eq!(shown(listed), Vec::<String>::new());
}

#[test]
fn run_goes_on_after_a_failure() {
    colored::control::set_override(false);
    let entries = vec![
        Source::Unresolved(GreprError::SourceResolution("./tests/inputs is a directory".to_string())),
        Source::Unreadable("gone.txt".to_string(), "No such file or directory (os error 2)".to_string()),
        Source::Loaded("bad.txt".to_string(), vec![0xff, 0xfe]),
        loaded("fox.txt", "The quick brown fox\njumps over\n"),
    ];
    let out = run(&config("o", true, false), &entries);
    assert_eq!(
        shown(out),
        strings(&[
            "err ./tests/inputs is a directory",
            "err gone.txt: No such file or directory (os error 2)",
            "err bad.txt: stream did not contain valid UTF-8",
            "out fox.txt:2",
        ])
    );
}

#[test]
fn run_with_one_source_beside_an_unresolved_entry_is_single() {
    colored::control::set_override(false);
    let entries = vec![
        Source::Unresolved(GreprError::SourceResolution("d is a directory".to_string())),
        loaded("fox.txt", "fox\n"),
    ];
    let out = run(&config("fox", false, false), &entries);
    assert_eq!(shown(out), strings(&["err d is a directory", "out      1:fox"]));
}

#[test]
fn run_over_nothing_writes_nothing() {
    assert!(run(&config("or", false, false), &vec![]).is_empty());
}

#[test]
fn run_in_color_marks_names_numbers_and_words() {
    colored::control::set_override(true);
    let entries = vec![loaded("a.txt", "Lorem"), loaded("b.txt", "x")];
    let out = run(&config("or", false, false), &entries);
    assert_eq!(
        shown(out),
        strings(&[
            "out \u{1b}[32ma.txt\u{1b}[0m",
            "out \u{1b}[36m     1\u{1b}[0m:L\u{1b}[31mor\u{1b}[0mem"
        ])
    );
}

#[test]
fn report_entry_serves_one_entry_at_a_time() {
    colored::control::set_override(false);
    let c = config("or", true, false);
    let out = c.report_entry(&loaded("a.txt", "or\nor\nno"), true);
    assert_eq!(shown(out), strings(&["out a.txt:2"]));
    let alone = c.report_entry(&loaded("a.txt", "or\nor\nno"), false);
    assert_eq!(shown(alone), strings(&["out 2"]));
}
