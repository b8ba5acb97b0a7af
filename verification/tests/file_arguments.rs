use grepr::app::{match_filename, match_filenames, report_file, FileInput, GreprApp, GreprArgs, Listing};
use grepr::Emission;
use grepr::error::GreprError;
use grepr::pattern::Pattern;

fn paths(names: &[&str]) -> Listing {
    Ok(names.iter().map(|n| Ok(n.to_string())).collect())
}

fn strings(lines: &[&str]) -> Vec<String> {
    lines.iter().map(|l| l.to_string()).collect()
}

#[test]
fn match_filename_lists_all_paths() {
    assert_eq!(match_filename(paths(&["a.txt", "b.txt"])).unwrap(), strings(&["a.txt", "b.txt"]));
    assert_eq!(match_filename(paths(&[])).unwrap(), Vec::<String>::new());
}

#[test]
fn match_filename_fails_with_the_wildcard() {
    match match_filename(Err(GreprError::PatternError("bad wildcard".to_string()))) {
        Err(e) => assert_eq!(e.message(), "Failed to read glob pattern: bad wildcard"),
        Ok(_) => panic!("an unreadable wildcard must fail"),
    }
}

#[test]
fn match_filename_fails_with_the_first_unreadable_path() {
    let listing: Listing = Ok(vec![
        Ok("a.txt".to_string()),
        Err(GreprError::PathError("first".to_string())),
        Ok("b.txt".to_string()),
        Err(GreprError::PathError("second".to_string())),
    ]);
    match match_filename(listing) {
        Err(e) => assert_eq!(e.message(), "Failed to read path: first"),
        Ok(_) => panic!("an unreadable path must fail"),
    }
}

#[test]
fn match_filenames_joins_the_listings_in_order() {
    let all = match_filenames(vec![paths(&["b.txt", "a.txt"]), paths(&[]), paths(&["c.txt"])]).unwrap();
    assert_eq!(all, strings(&["b.txt", "a.txt", "c.txt"]));
    assert_eq!(match_filenames(vec![]).unwrap(), Vec::<String>::new());
}

#[test]
fn match_filenames_fails_with_the_first_failure() {
    let listings = vec![
        paths(&["a.txt"]),
        Ok(vec![Err(GreprError::PathError("inner".to_string()))]),
        Err(GreprError::PatternError("outer".to_string())),
    ];
    match match_filenames(listings) {
        Err(e) => assert_eq!(e.message(), "Failed to read path: inner"),
        Ok(_) => panic!("a failure in a listing must fail"),
    }
}

#[test]
fn arguments_without_inputs_have_no_file_names() {
    let args = GreprArgs::try_from("or".to_string(), None).unwrap();
    assert_eq!(args.pattern, "or");
    assert!(args.filenames.is_none());
}

#[test]
fn arguments_whose_inputs_match_nothing_have_no_file_names() {
    let args = GreprArgs::try_from("or".to_string(), Some(vec![paths(&[]), paths(&[])])).unwrap();
    assert!(args.filenames.is_none());
}

#[test]
fn arguments_hold_the_matched_file_names() {
    let args = GreprArgs::try_from("or".to_string(), Some(vec![paths(&["a.txt"]), paths(&["b.txt"])])).unwrap();
    assert_eq!(args.filenames, Some(strings(&["a.txt", "b.txt"])));
}

#[test]
fn arguments_fail_with_the_first_failure() {
    let inputs = Some(vec![paths(&["a.txt"]), Err(GreprError::PatternError("bad".to_string()))]);
    match GreprArgs::try_from("or".to_string(), inputs) {
        Err(e) => assert_eq!(e.message(), "Failed to read glob pattern: bad"),
        Ok(_) => panic!("a failure in a listing must fail"),
    }
}

#[test]
fn report_file_is_empty_without_matching_lines() {
    assert_eq!(report_file("fox.txt", &vec![]), Vec::<String>::new());
}

#[test]
fn report_file_shows_the_name_above_indented_lines() {
    let out = report_file("fox.txt", &strings(&["     1:Lorem", "     3:DOLOR"]));
    assert_eq!(out, strings(&["- fox.txt", "         1:Lorem", "         3:DOLOR"]));
}

#[test]
fn grep_reports_matching_lines_of_a_file() {
    colored::control::set_override(false);
    let app = GreprApp::new(GreprArgs { pattern: "or".to_string(), filenames: Some(strings(&["fox.txt"])) });
    assert_eq!(app.args.pattern, "or");
    let out = app.grep("fox.txt", "Lorem\nIpsum\r\nDOLOR or").unwrap();
    assert_eq!(out, strings(&["- fox.txt", "         1:Lorem", "         3:DOLOR or"]));
    assert_eq!(app.grep("fox.txt", "Ipsum").unwrap(), Vec::<String>::new());
}

#[test]
fn grep_in_color_marks_rows_and_words() {
    colored::control::set_override(true);
    let p = Pattern::compile("or", false).unwrap();
    let out = GreprApp::grep_with(&p, "fox.txt", "Lorem");
    assert_eq!(out, strings(&["- fox.txt", "    \u{1b}[34m     1\u{1b}[0m:L\u{1b}[31mor\u{1b}[0mem"]));
}

#[test]
fn grep_refuses_a_malformed_pattern() {
    let app = GreprApp::new(GreprArgs { pattern: "(".to_string(), filenames: None });
    match app.grep("fox.txt", "Lorem") {
        Err(e) => assert_eq!(e.message(), "Invalid pattern \"(\""),
        Ok(_) => panic!("a malformed pattern must be refused"),
    }
}

fn shown(emissions: Vec<Emission>) -> Vec<String> {
    emissions
        .into_iter()
        .map(|e| match e {
            Emission::Output(text) => format!("out {}", text),
            Emission::Diagnostic(text) => format!("err {}", text),
        })
        .collect()
}

fn read(name: &str, text: &str) -> FileInput {
    FileInput::Read(name.to_string(), text.to_string())
}

fn unreadable(name: &str, cause: &str) -> FileInput {
    FileInput::Unreadable(name.to_string(), cause.to_string())
}

#[test]
fn grep_all_goes_on_after_a_file_that_cannot_be_opened() {
    colored::control::set_override(false);
    let app = GreprApp::new(GreprArgs { pattern: "or".to_string(), filenames: None });
    let files = vec![unreadable("gone.txt", "No such file or directory (os error 2)"), read("fox.txt", "Lorem\nIpsum")];
    let out = app.grep_all(&files).unwrap();
    assert_eq!(
        shown(out),
        strings(&["err gone.txt: No such file or directory (os error 2)", "out - fox.txt", "out          1:Lorem"])
    );
}

#[test]
fn grep_all_shows_a_name_only_above_matching_lines() {
    colored::control::set_override(false);
    let app = GreprApp::new(GreprArgs { pattern: "or".to_string(), filenames: None });
    let files = vec![read("a.txt", "Ipsum"), read("b.txt", "for\nno\nmore"), read("c.txt", "")];
    let out = app.grep_all(&files).unwrap();
    assert_eq!(shown(out), strings(&["out - b.txt", "out          1:for", "out          3:more"]));
}

#[test]
fn grep_all_over_no_file_writes_nothing() {
    let app = GreprApp::new(GreprArgs { pattern: "or".to_string(), filenames: None });
    assert!(app.grep_all(&vec![]).unwrap().is_empty());
}

#[test]
fn grep_all_refuses_a_malformed_pattern_when_there_is_a_file_to_search() {
    let app = GreprApp::new(GreprArgs { pattern: "(".to_string(), filenames: None });
    match app.grep_all(&vec![unreadable("gone.txt", "denied"), read("fox.txt", "Lorem")]) {
        Err(e) => assert_eq!(e.message(), "Invalid pattern \"(\""),
        Ok(_) => panic!("a malformed pattern must be refused"),
    }
}

#[test]
fn grep_all_compiles_nothing_when_no_file_could_be_read() {
    let app = GreprApp::new(GreprArgs { pattern: "(".to_string(), filenames: None });
    let out = app.grep_all(&vec![unreadable("gone.txt", "denied"), unreadable("also.txt", "denied")]).unwrap();
    assert_eq!(shown(out), strings(&["err gone.txt: denied", "err also.txt: denied"]));
}
