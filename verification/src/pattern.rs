//! Compiled search patterns and the search for their occurrences in a text.
//!
//! Offsets into a text are byte offsets into its UTF-8 encoding, as the
//! regular expression engine reports them.

use vstd::prelude::*;
use vstd::string::StringSliceAdditionalSpecFns;
use vstd::utf8::{encode_utf8, is_char_boundary};
use regex::Regex;
use crate::error::GreprError;
use crate::format::{is_slice, slice_of};

verus! {

/// The compiled regular expression of the `regex` crate, carried as an opaque value.
#[verifier::external_type_specification]
#[verifier::external_body]
pub struct ExRegex(regex::Regex);

/// The error that the `regex` crate reports for a pattern it cannot compile.
#[verifier::external_type_specification]
#[verifier::external_body]
pub struct ExRegexError(regex::Error);

/// The leftmost match of `re` in `text` among those that begin at byte offset
/// `start` or later, as the pair of its start and end byte offsets; `None`
/// when there is none.
pub uninterp spec fn leftmost_match(re: Regex, text: Seq<char>, start: usize) -> Option<(usize, usize)>;

/// What compiling `pattern` in the given case mode gives: the compiled form,
/// or `None` when the regular expression engine rejects the expression.
pub uninterp spec fn compiled(pattern: Seq<char>, case_insensitive: bool) -> Option<Regex>;

/// `RegexBuilder::new(pattern).case_insensitive(..).build()`: compiles the
/// pattern. The outcome depends on the expression and the case mode alone:
/// it is the compiled form that bears this name, or a failure where there is
/// none.
#[verifier::external_body]
fn build_regex(pattern: &str, case_insensitive: bool) -> (built: Result<Regex, regex::Error>)
    ensures
        built is Ok <==> compiled(pattern@, case_insensitive) is Some,
        built matches Ok(re) ==> compiled(pattern@, case_insensitive) == Some(re),
{
    regex::RegexBuilder::new(pattern).case_insensitive(case_insensitive).build()
}

/// `Regex::is_match`: true if and only if the pattern matches somewhere in
/// `text`, that is, if and only if a search from the start of `text` finds a
/// match.
#[verifier::external_body]
fn regex_is_match(re: &Regex, text: &str) -> (found: bool)
    ensures
        found == (leftmost_match(*re, text@, 0) is Some),
{
    re.is_match(text)
}

/// `Regex::find_at`: the leftmost match that begins at `start` or later, with
/// the text before `start` still seen as context. The offsets of a match are
/// ordered, lie inside the text and fall on character boundaries. The call
/// panics for a `start` beyond the end of the text, which `requires` excludes.
#[verifier::external_body]
fn regex_find_at(re: &Regex, text: &str, start: usize) -> (found: Option<(usize, usize)>)
    requires
        start <= text.spec_bytes().len(),
    ensures
        found == leftmost_match(*re, text@, start),
        found matches Some(m) ==> {
            &&& start <= m.0 <= m.1 <= text.spec_bytes().len()
            &&& is_char_boundary(text.spec_bytes(), m.0 as int)
            &&& is_char_boundary(text.spec_bytes(), m.1 as int)
        },
{
    match re.find_at(text, start) {
        Some(m) => Some((m.start(), m.end())),
        None => None,
    }
}

/// The number of bytes of a text's UTF-8 encoding.
pub open spec fn byte_len(text: Seq<char>) -> int {
    encode_utf8(text).len() as int
}

/// Whether a reported match is one that a search from `start` in `text` can
/// report: it begins at `start` or later and is a slice of the text.
pub open spec fn match_fits(text: Seq<char>, m: (usize, usize), start: int) -> bool {
    start <= m.0 && is_slice(encode_utf8(text), m.0 as int, m.1 as int)
}

/// Where the scan resumes behind an occurrence: at its end, or one byte
/// further on when the occurrence is empty, so that the scan always
/// advances.
pub open spec fn resume_at(m: (usize, usize)) -> int {
    if m.0 == m.1 {
        m.1 + 1
    } else {
        m.1 as int
    }
}

/// The occurrences found by a scan that resumes at byte `start`.
///
/// `adjacent` says that an occurrence that is not empty ended exactly at
/// `start`: an empty match found right there is passed over, and the search
/// is repeated one byte further on, so that no empty occurrence touches the
/// end of the one before.
pub open spec fn occurrences_from(re: Regex, text: Seq<char>, start: int, adjacent: bool) -> Seq<(usize, usize)>
    decreases byte_len(text) + 1 - start,
{
    let len = byte_len(text);
    if start < 0 || start > len || len > usize::MAX {
        Seq::empty()
    } else {
        match leftmost_match(re, text, start as usize) {
            None => Seq::empty(),
            Some(m) => {
                if !match_fits(text, m, start) {
                    Seq::empty()
                } else if adjacent && m.1 == start {
                    if start + 1 > len {
                        Seq::empty()
                    } else {
                        match leftmost_match(re, text, (start + 1) as usize) {
                            None => Seq::empty(),
                            Some(n) => {
                                if !match_fits(text, n, start + 1) {
                                    Seq::empty()
                                } else {
                                    seq![n] + occurrences_from(re, text, resume_at(n), n.0 != n.1)
                                }
                            },
                        }
                    }
                } else {
                    seq![m] + occurrences_from(re, text, resume_at(m), m.0 != m.1)
                }
            },
        }
    }
}

/// All non-overlapping occurrences of `re` in `text`, from left to right.
pub open spec fn occurrences(re: Regex, text: Seq<char>) -> Seq<(usize, usize)> {
    occurrences_from(re, text, 0, false)
}

/// What holds of a scan resumed at `start`: every occurrence begins at
/// `start` or later and is a slice of the text, ends beyond `start` when an
/// occurrence ended there, and begins and ends later than the one before it
/// and not before that one's end; and there are no more occurrences than
/// positions left for them to begin at.
pub proof fn lemma_occurrences_from(re: Regex, text: Seq<char>, start: int, adjacent: bool)
    ensures
        ({
            let found = occurrences_from(re, text, start, adjacent);
            &&& forall|i: int| 0 <= i < found.len() ==> match_fits(text, #[trigger] found[i], start)
            &&& adjacent ==> forall|i: int| 0 <= i < found.len() ==> (#[trigger] found[i]).1 > start
            &&& forall|i: int, j: int| 0 <= i < j < found.len() ==> {
                &&& (#[trigger] found[i]).1 <= (#[trigger] found[j]).0
                &&& found[i].1 < found[j].1
                &&& found[i].0 < found[j].0
            }
            &&& found.len() > 0 ==> found.len() <= byte_len(text) - start + 1
        }),
    decreases byte_len(text) + 1 - start,
{
    let len = byte_len(text);
    let found = occurrences_from(re, text, start, adjacent);
    if start < 0 || start > len || len > usize::MAX {
    } else {
        match leftmost_match(re, text, start as usize) {
            None => {},
            Some(m) => {
                if !match_fits(text, m, start) {
                } else if adjacent && m.1 == start {
                    if start + 1 > len {
                    } else {
                        match leftmost_match(re, text, (start + 1) as usize) {
                            None => {},
                            Some(n) => {
                                if match_fits(text, n, start + 1) {
                                    lemma_occurrences_from(re, text, resume_at(n), n.0 != n.1);
                                    let rest = occurrences_from(re, text, resume_at(n), n.0 != n.1);
                                    assert(found == seq![n] + rest);
                                    assert forall|i: int| 0 < i < found.len() implies found[i] == rest[i - 1] by {}
                                }
                            },
                        }
                    }
                } else {
                    lemma_occurrences_from(re, text, resume_at(m), m.0 != m.1);
                    let rest = occurrences_from(re, text, resume_at(m), m.0 != m.1);
                    assert(found == seq![m] + rest);
                    assert forall|i: int| 0 < i < found.len() implies found[i] == rest[i - 1] by {}
                }
            },
        }
    }
}

/// The occurrences of a pattern in a text are slices of the text and come
/// from left to right without overlapping: each begins later than the one
/// before it, not before that one's end, and ends later.
pub proof fn lemma_occurrences_ordered(re: Regex, text: Seq<char>)
    ensures
        forall|i: int| 0 <= i < occurrences(re, text).len() ==> match_fits(
            text,
            #[trigger] occurrences(re, text)[i],
            0,
        ),
        forall|i: int, j: int| 0 <= i < j < occurrences(re, text).len() ==> {
            &&& (#[trigger] occurrences(re, text)[i]).1 <= (#[trigger] occurrences(re, text)[j]).0
            &&& occurrences(re, text)[i].1 < occurrences(re, text)[j].1
            &&& occurrences(re, text)[i].0 < occurrences(re, text)[j].0
        },
{
    lemma_occurrences_from(re, text, 0, false);
}

/// A scan always ends: a text of `n` bytes holds at most `n + 1` occurrences,
/// also of a pattern that matches the empty string.
pub proof fn lemma_occurrences_bounded(re: Regex, text: Seq<char>)
    ensures
        occurrences(re, text).len() <= byte_len(text) + 1,
{
    lemma_occurrences_from(re, text, 0, false);
}

/// How many characters of `text` stand before byte offset `offset`.
pub open spec fn chars_before(text: Seq<char>, offset: int) -> nat {
    slice_of(text, 0, offset).len()
}

/// Later in the bytes is later in the characters: of two offsets at which
/// characters begin, the greater has more characters before it, and none has
/// more than the text holds.
pub proof fn lemma_chars_before(text: Seq<char>, from: int, to: int)
    requires
        is_slice(encode_utf8(text), from, to),
    ensures
        from < to ==> chars_before(text, from) < chars_before(text, to),
        chars_before(text, to) <= text.len(),
{
    let bytes = encode_utf8(text);
    let len = bytes.len() as int;
    vstd::utf8::encode_utf8_valid_utf8(text);
    crate::format::lemma_whole_slice(text);
    crate::format::lemma_slices_join(text, 0, to, len);
    if from < to {
        crate::format::lemma_slices_join(text, 0, from, to);
        crate::format::lemma_slice_is_text(bytes, from, from, to);
        let part = bytes.subrange(from, to);
        assert(part.len() > 0);
        assert(vstd::utf8::decode_utf8(part).len() > 0);
    }
}

/// The occurrence at place `i` ends behind at least `i` characters.
proof fn lemma_occurrence_ends_late(re: Regex, text: Seq<char>, i: int)
    requires
        0 <= i < occurrences(re, text).len(),
    ensures
        chars_before(text, occurrences(re, text)[i].1 as int) >= i,
    decreases i,
{
    lemma_occurrences_ordered(re, text);
    if i > 0 {
        lemma_occurrence_ends_late(re, text, i - 1);
        let earlier = occurrences(re, text)[i - 1];
        let later = occurrences(re, text)[i];
        lemma_chars_before(text, earlier.1 as int, later.1 as int);
    }
}

/// A scan always ends, and with few occurrences: a text of `n` characters
/// holds at most `n + 1` of them, also of a pattern that matches the empty
/// string.
pub proof fn lemma_occurrences_bounded_by_characters(re: Regex, text: Seq<char>)
    ensures
        occurrences(re, text).len() <= text.len() + 1,
{
    let found = occurrences(re, text);
    if found.len() > 0 {
        let last = found.len() - 1;
        lemma_occurrence_ends_late(re, text, last);
        lemma_occurrences_ordered(re, text);
        lemma_chars_before(text, found[last].1 as int, found[last].1 as int);
    }
}

/// A scan finds something exactly when a search from the start of the text
/// reports a match that lies inside the text.
pub proof fn lemma_occurrences_nonempty(re: Regex, text: Seq<char>)
    ensures
        occurrences(re, text).len() > 0 <==> (byte_len(text) <= usize::MAX && (leftmost_match(re, text, 0) matches Some(m)
            && match_fits(text, m, 0))),
{
}

/// A compiled search expression together with its case-sensitivity mode.
pub struct Pattern {
    source: String,
    case_insensitive: bool,
    regex: Regex,
}

impl Pattern {
    /// The expression the pattern was compiled from.
    pub closed spec fn source(&self) -> Seq<char> {
        self.source@
    }

    /// Whether letters match regardless of case.
    pub closed spec fn case_insensitive(&self) -> bool {
        self.case_insensitive
    }

    /// The compiled form.
    pub closed spec fn regex(&self) -> Regex {
        self.regex
    }

    /// Whether the pattern occurs somewhere in `text`.
    pub open spec fn matches(&self, text: Seq<char>) -> bool {
        leftmost_match(self.regex(), text, 0) is Some
    }

    /// Wraps the outcome of a compilation: the compiled form on success,
    /// `InvalidPattern` with the offending expression otherwise.
    pub fn from_build(pattern: &str, case_insensitive: bool, built: Result<Regex, regex::Error>) -> (result: Result<Pattern, GreprError>)
        ensures
            built is Ok <==> result is Ok,
            result matches Ok(p) ==> {
                &&& p.source() == pattern@
                &&& p.case_insensitive() == case_insensitive
                &&& built matches Ok(re) && p.regex() == re
            },
            result matches Err(e) ==> e matches GreprError::InvalidPattern(p) && p@ == pattern@,
    {
        match built {
            Ok(regex) => Ok(Pattern { source: pattern.to_owned(), case_insensitive, regex }),
            Err(_) => Err(GreprError::InvalidPattern(pattern.to_owned())),
        }
    }

    /// Compiles `pattern`. Succeeds exactly when the regular expression
    /// engine accepts the expression, and fails with `InvalidPattern`,
    /// carrying the expression, when it does not.
    pub fn compile(pattern: &str, case_insensitive: bool) -> (result: Result<Pattern, GreprError>)
        ensures
            result is Ok <==> compiled(pattern@, case_insensitive) is Some,
            result matches Ok(p) ==> {
                &&& p.source() == pattern@
                &&& p.case_insensitive() == case_insensitive
                &&& compiled(pattern@, case_insensitive) == Some(p.regex())
            },
            result matches Err(e) ==> e matches GreprError::InvalidPattern(p) && p@ == pattern@,
    {
        Pattern::from_build(pattern, case_insensitive, build_regex(pattern, case_insensitive))
    }

    /// The expression the pattern was compiled from.
    pub fn as_str(&self) -> (source: &str)
        ensures
            source@ == self.source(),
    {
        self.source.as_str()
    }

    /// Whether the pattern was compiled to ignore case.
    pub fn is_case_insensitive(&self) -> (flag: bool)
        ensures
            flag == self.case_insensitive(),
    {
        self.case_insensitive
    }

    /// Tests whether the pattern occurs in `text`: true exactly when a search
    /// of the whole text finds an occurrence.
    pub fn is_match(&self, text: &str) -> (found: bool)
        ensures
            found == self.matches(text@),
    {
        regex_is_match(&self.regex, text)
    }

    /// Finds every non-overlapping occurrence of the pattern in `text`, from
    /// left to right, as pairs of start and end byte offsets.
    pub fn find_all(&self, text: &str) -> (spans: Vec<(usize, usize)>)
        ensures
            spans@ == occurrences(self.regex(), text@),
            spans.len() > 0 <==> self.matches(text@),
            forall|i: int| 0 <= i < spans.len() ==> {
                &&& (#[trigger] spans[i]).0 <= spans[i].1 <= text.spec_bytes().len()
                &&& is_char_boundary(text.spec_bytes(), spans[i].0 as int)
                &&& is_char_boundary(text.spec_bytes(), spans[i].1 as int)
            },
    {
        let len = text.as_bytes().len();
        let mut spans: Vec<(usize, usize)> = Vec::new();
        let mut start: usize = 0;
        let mut adjacent = false;
        let mut done = false;
        while !done
            invariant
                len == byte_len(text@),
                len == text.spec_bytes().len(),
                start <= len,
                spans@ + (if done { Seq::empty() } else { occurrences_from(self.regex(), text@, start as int, adjacent) })
                    == occurrences(self.regex(), text@),
                forall|i: int| 0 <= i < spans.len() ==> {
                    &&& (#[trigger] spans[i]).0 <= spans[i].1 <= len
                    &&& is_char_boundary(text.spec_bytes(), spans[i].0 as int)
                    &&& is_char_boundary(text.spec_bytes(), spans[i].1 as int)
                },
                spans.len() == 0 && !done ==> start == 0 && !adjacent,
                spans.len() > 0 ==> self.matches(text@),
                spans.len() == 0 && done ==> !self.matches(text@),
            decreases
                if done { 0int } else { 1int }, len - start,
        {
            let ghost before = spans@;
            let found = match regex_find_at(&self.regex, text, start) {
                Some(m) if adjacent && m.1 == start => {
                    if start == len {
                        None
                    } else {
                        regex_find_at(&self.regex, text, start + 1)
                    }
                },
                other => other,
            };
            match found {
                None => {
                    done = true;
                },
                Some(m) => {
                    spans.push(m);
                    assert(spans@ =~= before + seq![m]);
                    if m.0 != m.1 {
                        start = m.1;
                        adjacent = true;
                    } else if m.1 < len {
                        start = m.1 + 1;
                        adjacent = false;
                    } else {
                        done = true;
                        assert(occurrences_from(self.regex(), text@, resume_at(m), false) =~= Seq::<(usize, usize)>::empty());
                    }
                },
            }
        }
        assert(spans@ + Seq::<(usize, usize)>::empty() =~= spans@);
        spans
    }
}

} // verus!
