//! A small line-oriented pattern search engine: compile a pattern once, split
//! a text into lines, decide line by line whether the pattern matches, locate
//! the matched words and render the result.

use vstd::prelude::*;
use vstd::string::{StringExecFns, StringSliceAdditionalSpecFns};
use vstd::utf8::{decode_utf8, valid_utf8};
use regex::Regex;
use crate::error::{message_of, GreprError};
use crate::format::{
    cyan_sequence, decimal, decimal_string, green_sequence, is_emphasis_of, is_slice, line_number_field,
    number_field, paint_cyan, paint_green, paint_red, red_sequence, same_text, slice_of, slice_text,
    splice_with, spliced,
};
use crate::lines::{split_lines, text_lines};
use crate::matcher::{layout_line, line_layout};
use crate::pattern::{compiled, leftmost_match, occurrences, Pattern};

pub mod app;
pub mod error;
pub mod format;
pub mod lines;
pub mod matcher;
pub mod pattern;

verus! {

/// A line that was kept by a scan: its number in the source, from one, and
/// what is shown of it.
#[derive(Debug)]
pub struct MatchedLine {
    /// The number of the line in its source, from one.
    pub line: usize,
    /// The content of the line, without its terminator.
    pub content: String,
}

impl MatchedLine {
    /// The line numbered `line` with the given content.
    pub fn new(line: usize, content: String) -> (matched: Self)
        ensures
            matched.line == line,
            matched.content == content,
    {
        Self { line, content }
    }

    /// Renders the line for display: the right-justified line number, plain
    /// or in cyan as the `colored` crate decides, a colon, and the content.
    pub fn render(&self) -> (out: String)
        ensures
            is_numbered_line(self.line as nat, self.content@, out@),
    {
        let number = paint_cyan(line_number_field(self.line).as_str());
        let out = layout_line(number.as_str(), self.content.as_str());
        assert(out@ == line_layout(number@, self.content@));
        out
    }
}

/// Whether `out` shows `content` as the line of the given number: the number
/// field, plain or in cyan, a colon, and the content.
pub open spec fn is_numbered_line(number: nat, content: Seq<char>, out: Seq<char>) -> bool {
    exists|field: Seq<char>|
        is_emphasis_of(cyan_sequence(), number_field(number), field) && out == #[trigger] line_layout(
            field,
            content,
        )
}

/// Whether a scan keeps `line`: the pattern matches it, or, when the scan is
/// inverted, it does not.
pub open spec fn keeps(re: Regex, line: Seq<char>, invert: bool) -> bool {
    (leftmost_match(re, line, 0) is Some) != invert
}

/// The numbers, from one, of the lines among `lines` that a scan keeps, in
/// ascending order.
pub open spec fn kept_numbers(re: Regex, lines: Seq<Seq<char>>, invert: bool) -> Seq<nat>
    decreases lines.len(),
{
    if lines.len() == 0 {
        Seq::empty()
    } else {
        let before = kept_numbers(re, lines.drop_last(), invert);
        if keeps(re, lines.last(), invert) {
            before.push(lines.len())
        } else {
            before
        }
    }
}

/// The text that a source's bytes hold.
pub open spec fn text_of(input: Seq<u8>) -> Seq<char> {
    decode_utf8(input)
}

/// `std::str::from_utf8`: bytes are a text exactly when they are valid UTF-8,
/// and the text is then encoded by just these bytes.
#[verifier::external_body]
fn decode_text(input: &[u8]) -> (text: Option<&str>)
    ensures
        text is Some <==> valid_utf8(input@),
        text matches Some(t) ==> t.spec_bytes() == input@,
{
    match std::str::from_utf8(input) {
        Ok(text) => Some(text),
        Err(_) => None,
    }
}

/// Inverting a scan keeps exactly the lines that the scan itself drops.
pub proof fn lemma_invert_keeps_the_rest(re: Regex, line: Seq<char>)
    ensures
        keeps(re, line, true) == !keeps(re, line, false),
{
}

/// The numbers that a scan keeps lie between one and the number of lines and
/// ascend. A number is kept exactly when the line that bears it is kept.
pub proof fn lemma_kept_numbers(re: Regex, lines: Seq<Seq<char>>, invert: bool)
    ensures
        forall|k: int| 0 <= k < kept_numbers(re, lines, invert).len() ==> 1 <= #[trigger] kept_numbers(re, lines, invert)[k]
            <= lines.len(),
        forall|j: int, k: int| 0 <= j < k < kept_numbers(re, lines, invert).len() ==> #[trigger] kept_numbers(
            re,
            lines,
            invert,
        )[j] < #[trigger] kept_numbers(re, lines, invert)[k],
        forall|n: nat| 1 <= n <= lines.len() ==> (kept_numbers(re, lines, invert).contains(n) <==> keeps(
            re,
            #[trigger] lines[n - 1],
            invert,
        )),
    decreases lines.len(),
{
    if lines.len() > 0 {
        let init = lines.drop_last();
        lemma_kept_numbers(re, init, invert);
        let before = kept_numbers(re, init, invert);
        let all = kept_numbers(re, lines, invert);
        assert forall|n: nat| 1 <= n <= lines.len() implies (all.contains(n) <==> keeps(re, #[trigger] lines[n - 1], invert)) by {
            if n < lines.len() {
                assert(init[n - 1] == lines[n - 1]);
                if before.contains(n) {
                    let k = choose|k: int| 0 <= k < before.len() && before[k] == n;
                    assert(all[k] == n);
                }
                if all.contains(n) {
                    let k = choose|k: int| 0 <= k < all.len() && all[k] == n;
                    assert(k < before.len());
                    assert(before[k] == n);
                }
            } else {
                if keeps(re, lines.last(), invert) {
                    assert(all[all.len() - 1] == n);
                }
                if all.contains(n) {
                    let k = choose|k: int| 0 <= k < all.len() && all[k] == n;
                    if k < before.len() {
                        assert(before[k] == n);
                    }
                }
            }
        }
    }
}

/// Every line number from one to the number of lines is reported exactly
/// once: by the scan or by the inverted scan, never by both, and by neither
/// of them twice.
pub proof fn lemma_every_line_numbered_once(re: Regex, lines: Seq<Seq<char>>, n: nat)
    requires
        1 <= n <= lines.len(),
    ensures
        kept_numbers(re, lines, false).contains(n) != kept_numbers(re, lines, true).contains(n),
        kept_numbers(re, lines, false).no_duplicates(),
        kept_numbers(re, lines, true).no_duplicates(),
{
    lemma_kept_numbers(re, lines, false);
    lemma_kept_numbers(re, lines, true);
    lemma_invert_keeps_the_rest(re, lines[n - 1]);
}

/// Shows a line as it is.
pub fn default_fmt_strategy(_pattern: &Pattern, line: &str) -> (out: String)
    ensures
        out@ == line@,
{
    line.to_owned()
}

/// The words that `re` matches in `line`, as they read.
pub open spec fn matched_texts(re: Regex, line: Seq<char>) -> Seq<Seq<char>> {
    occurrences(re, line).map_values(|m: (usize, usize)| slice_of(line, m.0 as int, m.1 as int))
}

/// Whether `out` is `line` with every occurrence of `re` replaced, where it
/// stands, by the matched text plain or in red.
pub open spec fn is_highlight_of(re: Regex, line: Seq<char>, out: Seq<char>) -> bool {
    exists|forms: Seq<Seq<char>>|
        {
            &&& forms.len() == occurrences(re, line).len()
            &&& forall|i: int|
                0 <= i < forms.len() ==> is_emphasis_of(
                    red_sequence(),
                    matched_texts(re, line)[i],
                    #[trigger] forms[i],
                )
            &&& out == #[trigger] spliced(line, 0, occurrences(re, line), forms)
        }
}

/// Taking the emphasis out of a highlighted line gives back the line: with
/// every matched text left plain, the highlighted line is the line itself.
pub proof fn lemma_plain_highlight(re: Regex, line: Seq<char>)
    ensures
        spliced(line, 0, occurrences(re, line), matched_texts(re, line)) == line,
        is_highlight_of(re, line, line),
{
    crate::format::lemma_whole_slice(line);
    crate::format::lemma_spliced_plain(line, 0, occurrences(re, line), matched_texts(re, line));
    assert(is_highlight_of(re, line, line)) by {
        let forms = matched_texts(re, line);
        assert(line == spliced(line, 0, occurrences(re, line), forms));
    }
}

/// Shows a line with every matched word emphasized: each occurrence of the
/// pattern is replaced, where it stands, by what the `colored` crate makes
/// of it in red; the text between the occurrences stays as it is. A line
/// without a match is shown as it is.
pub fn highlight_all_matches_red(pattern: &Pattern, line: &str) -> (out: String)
    ensures
        is_highlight_of(pattern.regex(), line@, out@),
        !pattern.matches(line@) ==> out@ == line@,
{
    let spans = pattern.find_all(line);
    let ghost texts_found = matched_texts(pattern.regex(), line@);
    let mut forms: Vec<String> = Vec::new();
    let mut i: usize = 0;
    while i < spans.len()
        invariant
            i <= spans.len(),
            forms.len() == i,
            spans@ == occurrences(pattern.regex(), line@),
            texts_found == matched_texts(pattern.regex(), line@),
            forall|k: int|
                0 <= k < spans.len() ==> is_slice(
                    line.spec_bytes(),
                    (#[trigger] spans[k]).0 as int,
                    spans[k].1 as int,
                ),
            forall|k: int| 0 <= k < i ==> is_emphasis_of(red_sequence(), texts_found[k], (#[trigger] forms[k])@),
        decreases spans.len() - i,
    {
        forms.push(paint_red(slice_text(line, spans[i].0, spans[i].1)));
        i += 1;
    }
    let out = splice_with(line, &spans, &forms);
    proof {
        let shown = forms@.map_values(|f: String| f@);
        assert forall|k: int| 0 <= k < shown.len() implies is_emphasis_of(
            red_sequence(),
            texts_found[k],
            #[trigger] shown[k],
        ) by {
            assert(shown[k] == forms[k]@);
        }
        assert(out@ == spliced(line@, 0, occurrences(pattern.regex(), line@), shown));
        if !pattern.matches(line@) {
            crate::format::lemma_whole_slice(line@);
        }
    }
    out
}

/// Scans the text held in `input` line by line and keeps the lines that the
/// pattern matches, or, when `invert_match` is set, those that it does not.
/// Each kept line carries its number in the source and shows what
/// `fmt_strategy` makes of it.
///
/// Fails when the bytes are not a text, and keeps nothing then.
pub fn find_lines_and_fmt_with<F: Fn(&Pattern, &str) -> String>(
    input: &[u8],
    pattern: &Pattern,
    invert_match: bool,
    fmt_strategy: F,
) -> (result: Result<Vec<MatchedLine>, GreprError>)
    requires
        forall|line: &str| call_requires(fmt_strategy, (pattern, line)),
    ensures
        result is Ok <==> valid_utf8(input@),
        result matches Err(e) ==> e matches GreprError::IOError(cause) && cause@
            == "stream did not contain valid UTF-8"@,
        result matches Ok(found) ==> {
            let lines = text_lines(text_of(input@));
            let numbers = kept_numbers(pattern.regex(), lines, invert_match);
            &&& found.len() == numbers.len()
            &&& forall|k: int| 0 <= k < found.len() ==> {
                &&& (#[trigger] found[k]).line == numbers[k]
                &&& exists|line: &str| line@ == lines[numbers[k] - 1] && #[trigger] call_ensures(fmt_strategy, (pattern, line), found[k].content)
            }
        },
{
    let text = match decode_text(input) {
        Some(text) => text,
        None => {
            return Err(GreprError::IOError(String::from_str("stream did not contain valid UTF-8")));
        },
    };
    proof {
        vstd::utf8::encode_utf8_decode_utf8(text@);
    }
    let lines = split_lines(text);
    let ghost all = text_lines(text@);
    let mut found: Vec<MatchedLine> = Vec::new();
    let mut i: usize = 0;
    assert(all.take(0) =~= Seq::<Seq<char>>::empty());
    while i < lines.len()
        invariant
            i <= lines.len(),
            all == text_lines(text@),
            lines.len() == all.len(),
            forall|line: &str| call_requires(fmt_strategy, (pattern, line)),
            forall|k: int| 0 <= k < lines.len() ==> (#[trigger] lines[k])@ == all[k],
            found.len() == kept_numbers(pattern.regex(), all.take(i as int), invert_match).len(),
            forall|k: int| 0 <= k < found.len() ==> {
                &&& (#[trigger] found[k]).line == kept_numbers(pattern.regex(), all.take(i as int), invert_match)[k]
                &&& 1 <= found[k].line <= i
                &&& exists|line: &str| line@ == all[found[k].line - 1] && #[trigger] call_ensures(fmt_strategy, (pattern, line), found[k].content)
            },
        decreases lines.len() - i,
    {
        proof {
            let next = all.take(i + 1);
            assert(next.drop_last() =~= all.take(i as int));
            assert(next.last() == lines[i as int]@);
        }
        let ghost before = kept_numbers(pattern.regex(), all.take(i as int), invert_match);
        let ghost after = kept_numbers(pattern.regex(), all.take(i + 1), invert_match);
        let ghost old_found = found@;
        if pattern.is_match(lines[i]) ^ invert_match {
            let content = fmt_strategy(pattern, lines[i]);
            found.push(MatchedLine::new(i + 1, content));
            assert(after == before.push((i + 1) as nat));
            assert(lines[i as int]@ == all[found[found.len() - 1].line - 1] && call_ensures(
                fmt_strategy,
                (pattern, lines[i as int]),
                found[found.len() - 1].content,
            ));
            assert forall|k: int| 0 <= k < found.len() - 1 implies (#[trigger] found[k]) == old_found[k] by {}
        } else {
            assert(after == before);
        }
        i += 1;
    }
    assert(all.take(i as int) =~= all);
    Ok(found)
}

/// Scans like [`find_lines_and_fmt_with`] and shows the kept lines as they
/// are.
pub fn find_lines_with_default_strategy(input: &[u8], pattern: &Pattern, invert_match: bool) -> (result: Result<
    Vec<MatchedLine>,
    GreprError,
>)
    ensures
        result is Ok <==> valid_utf8(input@),
        result matches Err(e) ==> e matches GreprError::IOError(cause) && cause@
            == "stream did not contain valid UTF-8"@,
        result matches Ok(found) ==> {
            let lines = text_lines(text_of(input@));
            let numbers = kept_numbers(pattern.regex(), lines, invert_match);
            &&& found.len() == numbers.len()
            &&& forall|k: int| 0 <= k < found.len() ==> {
                &&& (#[trigger] found[k]).line == numbers[k]
                &&& found[k].content@ == lines[numbers[k] - 1]
            }
        },
{
    find_lines_and_fmt_with(input, pattern, invert_match, default_fmt_strategy)
}

/// Scans like [`find_lines_and_fmt_with`] and shows the kept lines with
/// every matched word emphasized.
pub fn find_lines_with_highlight_all_matches_red(
    input: &[u8],
    pattern: &Pattern,
    invert_match: bool,
) -> (result: Result<Vec<MatchedLine>, GreprError>)
    ensures
        result is Ok <==> valid_utf8(input@),
        result matches Err(e) ==> e matches GreprError::IOError(cause) && cause@
            == "stream did not contain valid UTF-8"@,
        result matches Ok(found) ==> {
            let lines = text_lines(text_of(input@));
            let numbers = kept_numbers(pattern.regex(), lines, invert_match);
            &&& found.len() == numbers.len()
            &&& forall|k: int| 0 <= k < found.len() ==> {
                &&& (#[trigger] found[k]).line == numbers[k]
                &&& is_highlight_of(pattern.regex(), lines[numbers[k] - 1], found[k].content@)
            }
        },
{
    find_lines_and_fmt_with(input, pattern, invert_match, highlight_all_matches_red)
}

/// What a search runs on: the compiled pattern, the input specifiers and the
/// options.
pub struct Config {
    pattern: Pattern,
    files: Vec<String>,
    recursive: bool,
    count: bool,
    invert_match: bool,
}

/// The marker that stands for the standard input among the input specifiers.
pub open spec fn stdin_marker() -> Seq<char> {
    "-"@
}

/// The input specifiers of a run: those given, or the standard input alone
/// when none is given.
pub open spec fn effective_files(given: Seq<Seq<char>>) -> Seq<Seq<char>> {
    if given.len() == 0 {
        seq![stdin_marker()]
    } else {
        given
    }
}

/// The texts of a sequence of strings.
pub open spec fn texts(strings: Seq<String>) -> Seq<Seq<char>> {
    strings.map_values(|s: String| s@)
}

impl Config {
    /// The compiled pattern.
    pub closed spec fn pattern(&self) -> Pattern {
        self.pattern
    }

    /// The input specifiers.
    pub closed spec fn files(&self) -> Seq<Seq<char>> {
        texts(self.files@)
    }

    /// Whether directories are searched with all that is below them.
    pub closed spec fn recursive(&self) -> bool {
        self.recursive
    }

    /// Whether only the number of kept lines is reported.
    pub closed spec fn count(&self) -> bool {
        self.count
    }

    /// Whether the lines that do not match are kept.
    pub closed spec fn invert_match(&self) -> bool {
        self.invert_match
    }

    /// Puts a configuration together around a compiled pattern. Without an
    /// input specifier the run reads the standard input.
    pub fn with_pattern(pattern: Pattern, files: Vec<String>, recursive: bool, count: bool, invert_match: bool) -> (config: Config)
        ensures
            config.pattern() == pattern,
            config.files() == effective_files(texts(files@)),
            config.recursive() == recursive,
            config.count() == count,
            config.invert_match() == invert_match,
    {
        let mut files = files;
        if files.len() == 0 {
            files.push(String::from_str("-"));
            assert(texts(files@) =~= seq![stdin_marker()]);
        }
        Config { pattern, files, recursive, count, invert_match }
    }

    /// Compiles `pattern`, ignoring case when `insensitive` is set, and puts
    /// the configuration together. Succeeds exactly when the regular
    /// expression engine accepts the expression, and fails with
    /// `InvalidPattern`, carrying the expression, when it does not.
    pub fn new(
        pattern: &str,
        insensitive: bool,
        files: Vec<String>,
        recursive: bool,
        count: bool,
        invert_match: bool,
    ) -> (result: Result<Config, GreprError>)
        ensures
            result is Ok <==> compiled(pattern@, insensitive) is Some,
            result matches Ok(config) ==> {
                &&& config.pattern().source() == pattern@
                &&& config.pattern().case_insensitive() == insensitive
                &&& compiled(pattern@, insensitive) == Some(config.pattern().regex())
                &&& config.files() == effective_files(texts(files@))
                &&& config.recursive() == recursive
                &&& config.count() == count
                &&& config.invert_match() == invert_match
            },
            result matches Err(e) ==> e matches GreprError::InvalidPattern(p) && p@ == pattern@,
    {
        match Pattern::compile(pattern, insensitive) {
            Ok(compiled) => Ok(Config::with_pattern(compiled, files, recursive, count, invert_match)),
            Err(e) => Err(e),
        }
    }

    /// The compiled pattern.
    pub fn get_pattern(&self) -> (pattern: &Pattern)
        ensures
            *pattern == self.pattern(),
    {
        &self.pattern
    }

    /// The input specifiers.
    pub fn get_files(&self) -> (files: &Vec<String>)
        ensures
            texts(files@) == self.files(),
    {
        &self.files
    }

    /// Whether directories are searched with all that is below them.
    pub fn is_recursive(&self) -> (flag: bool)
        ensures
            flag == self.recursive(),
    {
        self.recursive
    }

    /// Whether only the number of kept lines is reported.
    pub fn is_count(&self) -> (flag: bool)
        ensures
            flag == self.count(),
    {
        self.count
    }

    /// Whether the lines that do not match are kept.
    pub fn is_invert_match(&self) -> (flag: bool)
        ensures
            flag == self.invert_match(),
    {
        self.invert_match
    }
}

/// What a source contributes to the output of a run.
///
/// With `count` set it is one line with the number of kept lines, behind the
/// source's name and a colon when the run has several sources. Otherwise it
/// is the kept lines, below the source's name when the run has several
/// sources and the source has a kept line.
pub open spec fn source_report(name: Seq<char>, lines: Seq<Seq<char>>, multiple: bool, count: bool) -> Seq<Seq<char>> {
    if count {
        if multiple {
            seq![name + ":"@ + decimal(lines.len())]
        } else {
            seq![decimal(lines.len())]
        }
    } else if multiple && lines.len() > 0 {
        seq![name] + lines
    } else {
        lines
    }
}

/// A run with one source that does not count shows the kept lines and
/// nothing else: no name stands above them.
pub proof fn lemma_single_source_shows_no_name(name: Seq<char>, lines: Seq<Seq<char>>)
    ensures
        source_report(name, lines, false, false) == lines,
{
}

/// A run with several sources shows for every source either its count line
/// or its kept lines, these below the source's name if there are any.
pub proof fn lemma_several_sources_show_names(name: Seq<char>, lines: Seq<Seq<char>>, count: bool)
    ensures
        count ==> source_report(name, lines, true, count) == seq![name + ":"@ + decimal(lines.len())],
        !count && lines.len() > 0 ==> source_report(name, lines, true, count) == seq![name] + lines,
        !count && lines.len() == 0 ==> source_report(name, lines, true, count).len() == 0,
{
}

/// A count line is written for every source, also for one without a kept
/// line, whose count line ends in `:0`.
pub proof fn lemma_count_line_shows_zero(name: Seq<char>, multiple: bool)
    ensures
        source_report(name, Seq::empty(), multiple, true).len() == 1,
        multiple ==> source_report(name, Seq::empty(), multiple, true)[0] == name + ":"@ + "0"@,
        !multiple ==> source_report(name, Seq::empty(), multiple, true)[0] == "0"@,
{
}

/// Puts together what one source contributes to the output: `name` is the
/// source's name as it is to be shown, `lines` are its kept lines as they
/// are to be shown.
pub fn report_source(name: &str, lines: &Vec<String>, multiple: bool, count: bool) -> (out: Vec<String>)
    ensures
        texts(out@) == source_report(name@, texts(lines@), multiple, count),
{
    let mut out: Vec<String> = Vec::new();
    if count {
        let number = decimal_string(lines.len());
        if multiple {
            let mut line = String::from_str(name);
            line.append(":");
            line.append(number.as_str());
            out.push(line);
        } else {
            out.push(number);
        }
        assert(texts(out@) =~= source_report(name@, texts(lines@), multiple, count));
    } else {
        if multiple && lines.len() > 0 {
            out.push(String::from_str(name));
        }
        let ghost head = texts(out@);
        let mut i: usize = 0;
        while i < lines.len()
            invariant
                i <= lines.len(),
                texts(out@) == head + texts(lines@).take(i as int),
            decreases lines.len() - i,
        {
            let ghost shown = texts(out@);
            out.push(lines[i].clone());
            assert(texts(out@) =~= shown.push(lines[i as int]@));
            assert(texts(lines@).take(i + 1) =~= texts(lines@).take(i as int).push(lines[i as int]@));
            i += 1;
            assert(texts(out@) =~= head + texts(lines@).take(i as int));
        }
        assert(texts(lines@).take(i as int) =~= texts(lines@));
        assert(texts(out@) =~= source_report(name@, texts(lines@), multiple, count));
    }
    out
}

/// What became of one input specifier before the search.
#[derive(Debug)]
pub enum Source {
    /// The specifier could not be turned into a source.
    Unresolved(GreprError),
    /// The source of this name could not be opened or read; holds the cause
    /// as well.
    Unreadable(String, String),
    /// The source of this name, and the bytes read from it.
    Loaded(String, Vec<u8>),
}

/// One line that a run writes.
#[derive(Debug)]
pub enum Emission {
    /// A line of output.
    Output(String),
    /// A line for the diagnostic stream.
    Diagnostic(String),
}

/// What an emission is: the stream it goes to and its text.
pub enum EmissionView {
    /// A line of output.
    Output(Seq<char>),
    /// A line for the diagnostic stream.
    Diagnostic(Seq<char>),
}

impl View for Emission {
    type V = EmissionView;

    open spec fn view(&self) -> EmissionView {
        match self {
            Emission::Output(text) => EmissionView::Output(text@),
            Emission::Diagnostic(text) => EmissionView::Diagnostic(text@),
        }
    }
}

/// The views of a sequence of emissions.
pub open spec fn emission_views(emissions: Seq<Emission>) -> Seq<EmissionView> {
    emissions.map_values(|e: Emission| e@)
}

/// The given lines as lines of output.
pub open spec fn as_output(lines: Seq<Seq<char>>) -> Seq<EmissionView> {
    lines.map_values(|line: Seq<char>| EmissionView::Output(line))
}

/// The diagnostic for a source that could not be opened or read.
pub open spec fn source_diagnostic(name: Seq<char>, cause: Seq<char>) -> Seq<char> {
    name + ": "@ + cause
}

/// How many of the entries are sources.
pub open spec fn source_count(entries: Seq<Source>) -> nat
    decreases entries.len(),
{
    if entries.len() == 0 {
        0
    } else {
        source_count(entries.drop_last()) + (if entries.last() is Unresolved { 0nat } else { 1nat })
    }
}

/// Whether the entries make a run with several sources.
pub open spec fn several_sources(entries: Seq<Source>) -> bool {
    source_count(entries) >= 2
}

/// Whether `out` is a kept line as it is shown: its number, a colon, and the
/// line with its matched words emphasized.
pub open spec fn is_rendering_of(re: Regex, number: nat, line: Seq<char>, out: Seq<char>) -> bool {
    exists|content: Seq<char>|
        #[trigger] is_highlight_of(re, line, content) && is_numbered_line(number, content, out)
}

/// Whether `out` is what the source of this name with these lines
/// contributes to the output: the report over the source's name, plain or in
/// green, and the kept lines as they are shown, in their order.
pub open spec fn is_report_of(
    re: Regex,
    source: Seq<char>,
    lines: Seq<Seq<char>>,
    invert: bool,
    multiple: bool,
    count: bool,
    out: Seq<Seq<char>>,
) -> bool {
    exists|name: Seq<char>, rendered: Seq<Seq<char>>|
        {
            &&& is_emphasis_of(green_sequence(), source, name)
            &&& rendered.len() == kept_numbers(re, lines, invert).len()
            &&& forall|k: int|
                0 <= k < rendered.len() ==> is_rendering_of(
                    re,
                    kept_numbers(re, lines, invert)[k],
                    lines[kept_numbers(re, lines, invert)[k] - 1],
                    #[trigger] rendered[k],
                )
            &&& out == #[trigger] source_report(name, rendered, multiple, count)
        }
}

/// Whether `out` is what a run writes for `entry`.
///
/// An entry that is no source, or a source that could not be opened or does
/// not hold a text, gives one diagnostic. Any other source gives its report
/// as lines of output.
pub open spec fn is_entry_report(config: Config, entry: Source, multiple: bool, out: Seq<EmissionView>) -> bool {
    match entry {
        Source::Unresolved(e) => out == seq![EmissionView::Diagnostic(message_of(e))],
        Source::Unreadable(name, cause) => out == seq![
            EmissionView::Diagnostic(source_diagnostic(name@, cause@)),
        ],
        Source::Loaded(name, input) => {
            if valid_utf8(input@) {
                exists|report: Seq<Seq<char>>|
                    {
                        &&& #[trigger] is_report_of(
                            config.pattern().regex(),
                            name@,
                            text_lines(text_of(input@)),
                            config.invert_match(),
                            multiple,
                            config.count(),
                            report,
                        )
                        &&& out == as_output(report)
                    }
            } else {
                out == seq![
                    EmissionView::Diagnostic(
                        source_diagnostic(name@, "stream did not contain valid UTF-8"@),
                    ),
                ]
            }
        },
    }
}

/// The concatenation of the given sequences.
pub open spec fn joined(parts: Seq<Seq<EmissionView>>) -> Seq<EmissionView>
    decreases parts.len(),
{
    if parts.len() == 0 {
        Seq::empty()
    } else {
        joined(parts.drop_last()) + parts.last()
    }
}

/// Whether `out` is what a run over `entries` writes: for every entry, in
/// their order, what the run writes for that entry.
pub open spec fn is_run_output(config: Config, entries: Seq<Source>, out: Seq<EmissionView>) -> bool {
    exists|parts: Seq<Seq<EmissionView>>|
        {
            &&& parts.len() == entries.len()
            &&& forall|i: int|
                0 <= i < parts.len() ==> is_entry_report(
                    config,
                    entries[i],
                    several_sources(entries),
                    #[trigger] parts[i],
                )
            &&& out == #[trigger] joined(parts)
        }
}

/// Tells whether the run has several sources. Entries that could not be
/// resolved are no sources.
pub fn has_several_sources(entries: &Vec<Source>) -> (multiple: bool)
    ensures
        multiple == several_sources(entries@),
{
    let mut seen: usize = 0;
    let mut i: usize = 0;
    assert(entries@.take(0) =~= Seq::<Source>::empty());
    while i < entries.len()
        invariant
            i <= entries.len(),
            seen == source_count(entries@.take(i as int)),
            seen <= i,
        decreases entries.len() - i,
    {
        assert(entries@.take(i + 1).drop_last() =~= entries@.take(i as int));
        match &entries[i] {
            Source::Unresolved(_) => {},
            _ => {
                seen += 1;
            },
        }
        i += 1;
    }
    assert(entries@.take(i as int) =~= entries@);
    seen >= 2
}

impl Config {
    /// Writes what the run has to say of one entry. `multiple` tells whether
    /// the run has several sources.
    ///
    /// A failure concerns this entry alone: it becomes one diagnostic, and
    /// nothing that the source may have held is shown.
    pub fn report_entry(&self, entry: &Source, multiple: bool) -> (out: Vec<Emission>)
        ensures
            is_entry_report(*self, *entry, multiple, emission_views(out@)),
    {
        let mut out: Vec<Emission> = Vec::new();
        match entry {
            Source::Unresolved(e) => {
                out.push(Emission::Diagnostic(e.message()));
                assert(emission_views(out@) =~= seq![EmissionView::Diagnostic(message_of(*e))]);
            },
            Source::Unreadable(name, cause) => {
                let mut text = name.clone();
                text.append(": ");
                text.append(cause.as_str());
                out.push(Emission::Diagnostic(text));
                assert(emission_views(out@) =~= seq![
                    EmissionView::Diagnostic(source_diagnostic(name@, cause@)),
                ]);
            },
            Source::Loaded(name, input) => {
                match find_lines_with_highlight_all_matches_red(input.as_slice(), &self.pattern, self.invert_match) {
                    Err(_) => {
                        let mut text = name.clone();
                        text.append(": ");
                        text.append("stream did not contain valid UTF-8");
                        out.push(Emission::Diagnostic(text));
                        assert(emission_views(out@) =~= seq![
                            EmissionView::Diagnostic(
                                source_diagnostic(name@, "stream did not contain valid UTF-8"@),
                            ),
                        ]);
                    },
                    Ok(found) => {
                        let ghost re = self.pattern.regex();
                        let ghost lines = text_lines(text_of(input@));
                        let ghost numbers = kept_numbers(re, lines, self.invert_match);
                        let mut rendered: Vec<String> = Vec::new();
                        let mut i: usize = 0;
                        while i < found.len()
                            invariant
                                i <= found.len(),
                                rendered.len() == i,
                                found.len() == numbers.len(),
                                forall|k: int|
                                    0 <= k < found.len() ==> is_highlight_of(
                                        re,
                                        lines[numbers[k] - 1],
                                        (#[trigger] found[k]).content@,
                                    ),
                                forall|k: int| 0 <= k < found.len() ==> (#[trigger] found[k]).line == numbers[k],
                                forall|k: int|
                                    0 <= k < i ==> is_rendering_of(
                                        re,
                                        numbers[k],
                                        lines[numbers[k] - 1],
                                        (#[trigger] rendered[k])@,
                                    ),
                            decreases found.len() - i,
                        {
                            let line = found[i].render();
                            assert(is_highlight_of(re, lines[numbers[i as int] - 1], found[i as int].content@));
                            rendered.push(line);
                            i += 1;
                        }
                        let shown = paint_green(name.as_str());
                        let report = report_source(shown.as_str(), &rendered, multiple, self.count);
                        proof {
                            assert forall|k: int| 0 <= k < texts(rendered@).len() implies is_rendering_of(
                                re,
                                numbers[k],
                                lines[numbers[k] - 1],
                                #[trigger] texts(rendered@)[k],
                            ) by {
                                assert(texts(rendered@)[k] == rendered[k]@);
                            }
                            assert(texts(report@) == source_report(shown@, texts(rendered@), multiple, self.count));
                            assert(is_report_of(re, name@, lines, self.invert_match, multiple, self.count, texts(report@)));
                        }
                        let mut j: usize = 0;
                        while j < report.len()
                            invariant
                                j <= report.len(),
                                emission_views(out@) == as_output(texts(report@).take(j as int)),
                            decreases report.len() - j,
                        {
                            let ghost shown_so_far = emission_views(out@);
                            out.push(Emission::Output(report[j].clone()));
                            assert(emission_views(out@) =~= shown_so_far.push(EmissionView::Output(report[j as int]@)));
                            j += 1;
                            assert(emission_views(out@) =~= as_output(texts(report@).take(j as int)));
                        }
                        assert(texts(report@).take(j as int) =~= texts(report@));
                        assert(is_report_of(
                            self.pattern().regex(),
                            name@,
                            text_lines(text_of(input@)),
                            self.invert_match(),
                            multiple,
                            self.count(),
                            texts(report@),
                        ));
                    },
                }
            },
        }
        out
    }
}

/// Runs the search over the entries, one after the other, and returns what
/// is to be written, in order. No entry keeps the run from going on to the
/// next one.
pub fn run(config: &Config, entries: &Vec<Source>) -> (out: Vec<Emission>)
    ensures
        is_run_output(*config, entries@, emission_views(out@)),
{
    let multiple = has_several_sources(entries);
    let mut out: Vec<Emission> = Vec::new();
    let ghost mut parts: Seq<Seq<EmissionView>> = Seq::empty();
    let mut i: usize = 0;
    while i < entries.len()
        invariant
            i <= entries.len(),
            multiple == several_sources(entries@),
            parts.len() == i,
            forall|k: int| 0 <= k < i ==> is_entry_report(*config, entries[k], multiple, #[trigger] parts[k]),
            emission_views(out@) == joined(parts),
        decreases entries.len() - i,
    {
        let mut part = config.report_entry(&entries[i], multiple);
        let ghost before = emission_views(out@);
        let ghost piece = emission_views(part@);
        out.append(&mut part);
        proof {
            assert(emission_views(out@) =~= before + piece);
            assert(parts.push(piece).drop_last() =~= parts);
            parts = parts.push(piece);
        }
        i += 1;
    }
    out
}

/// What a path names, as far as the search cares.
#[derive(Debug, Clone, Copy, PartialEq, Eq)]
pub enum PathKind {
    /// A directory.
    Directory,
    /// A regular file.
    File,
    /// Something else.
    Other,
}

/// What is to be done with an input specifier.
#[derive(Debug)]
pub enum Resolution {
    /// It names one source, by this name.
    Source(String),
    /// It names a directory whose files are all to become sources.
    Walk,
    /// It names nothing that can be searched; it is passed over in silence.
    Nothing,
    /// It cannot be turned into a source.
    Failed(GreprError),
}

/// Whether `resolution` is what is to be done with the input specifier
/// `path`, which is not the marker of the standard input, given what looking
/// it up gave: what it names, or why that could not be found out.
///
/// A file is a source. A directory is walked in a recursive search and
/// refused otherwise. A lookup that failed makes the specifier fail with the
/// path and the cause.
pub open spec fn is_resolution_of(
    path: Seq<char>,
    probe: Result<PathKind, String>,
    recursive: bool,
    resolution: Resolution,
) -> bool {
    match probe {
        Ok(PathKind::Directory) => if recursive {
            resolution is Walk
        } else {
            resolution matches Resolution::Failed(GreprError::SourceResolution(text)) && text@ == path
                + " is a directory"@
        },
        Ok(PathKind::File) => resolution matches Resolution::Source(name) && name@ == path,
        Ok(PathKind::Other) => resolution is Nothing,
        Err(cause) => resolution matches Resolution::Failed(GreprError::SourceResolution(text)) && text@
            == source_diagnostic(path, cause@),
    }
}

/// Decides what is to be done with an input specifier that was looked up.
pub fn resolve_probed(path: &str, probe: &Result<PathKind, String>, recursive: bool) -> (resolution: Resolution)
    ensures
        is_resolution_of(path@, *probe, recursive, resolution),
{
    match probe {
        Ok(PathKind::Directory) => {
            if recursive {
                Resolution::Walk
            } else {
                let mut text = String::from_str(path);
                text.append(" is a directory");
                Resolution::Failed(GreprError::SourceResolution(text))
            }
        },
        Ok(PathKind::File) => Resolution::Source(path.to_owned()),
        Ok(PathKind::Other) => Resolution::Nothing,
        Err(cause) => {
            let mut text = String::from_str(path);
            text.append(": ");
            text.append(cause.as_str());
            Resolution::Failed(GreprError::SourceResolution(text))
        },
    }
}

/// Decides what is to be done with the input specifier `path`.
///
/// The marker of the standard input is a source as it stands and is not
/// looked up. Any other specifier is looked up with `lookup`, once, and
/// resolved by what the lookup gives.
pub fn resolve_path<F: FnOnce(&str) -> Result<PathKind, String>>(path: &str, lookup: F, recursive: bool) -> (resolution: Resolution)
    requires
        path@ != stdin_marker() ==> call_requires(lookup, (path,)),
    ensures
        path@ == stdin_marker() ==> (resolution matches Resolution::Source(name) && name@ == path@),
        path@ != stdin_marker() ==> (exists|probe: Result<PathKind, String>|
            #[trigger] call_ensures(lookup, (path,), probe) && is_resolution_of(
                path@,
                probe,
                recursive,
                resolution,
            )),
{
    if same_text(path, "-") {
        return Resolution::Source(path.to_owned());
    }
    let probe = lookup(path);
    resolve_probed(path, &probe, recursive)
}

/// Decides what becomes of an entry met while walking a directory: a
/// directory is passed over, anything else is a source by its path, and an
/// entry that could not be read fails with the cause.
pub fn resolve_walk_entry(entry: Result<(String, bool), String>) -> (resolved: Option<Result<String, GreprError>>)
    ensures
        match entry {
            Ok((path, is_dir)) => if is_dir {
                resolved is None
            } else {
                resolved == Some(Ok::<String, GreprError>(path))
            },
            Err(cause) => resolved == Some(Err::<String, GreprError>(GreprError::SourceResolution(cause))),
        },
{
    match entry {
        Ok((path, is_dir)) => {
            if is_dir {
                None
            } else {
                Some(Ok(path))
            }
        },
        Err(cause) => Some(Err(GreprError::SourceResolution(cause))),
    }
}

} // verus!
