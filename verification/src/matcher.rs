//! Matched words and matched lines: where a pattern occurs in a line, and
//! which lines of a text it occurs in.

use vstd::prelude::*;
use vstd::string::{StringExecFns, StringSliceAdditionalSpecFns};
use regex::Regex;
use crate::format::{
    blue_sequence, distinct, find_form, form_of, is_emphasis_of, is_slice, line_number_field,
    number_field, paint_blue, paint_red, red_sequence, same_text, slice_of, slice_text, splice_with,
    spliced,
};
use crate::lines::{split_lines, text_lines};
use crate::pattern::{byte_len, occurrences, Pattern};

verus! {

/// What a matched word is: where it begins and what it reads.
pub struct WordView {
    /// The byte offset in the line at which the word begins, from zero.
    pub col: nat,
    /// The matched text.
    pub word: Seq<char>,
}

/// What a matched line is: its number, its content and the words matched in it.
pub struct LineView {
    /// The number of the line in its text, from one.
    pub row: nat,
    /// The line without its terminator.
    pub content: Seq<char>,
    /// The matched words, from left to right.
    pub words: Seq<WordView>,
}

/// The word that an occurrence at `span` in `line` gives.
pub open spec fn word_at(line: Seq<char>, span: (usize, usize)) -> WordView {
    WordView { col: span.0 as nat, word: slice_of(line, span.0 as int, span.1 as int) }
}

/// The words of `line` that `re` matches: one for each occurrence, from left
/// to right.
pub open spec fn words_of(re: Regex, line: Seq<char>) -> Seq<WordView> {
    occurrences(re, line).map_values(|span: (usize, usize)| word_at(line, span))
}

/// The words of a line begin one behind the other: each begins later than
/// the one before it, and not before that one's end.
pub proof fn lemma_words_ordered(re: Regex, line: Seq<char>)
    ensures
        words_of(re, line).len() == occurrences(re, line).len(),
        forall|i: int, j: int|
            0 <= i < j < words_of(re, line).len() ==> {
                &&& (#[trigger] words_of(re, line)[i]).col < (#[trigger] words_of(re, line)[j]).col
                &&& occurrences(re, line)[i].1 <= words_of(re, line)[j].col
            },
{
    crate::pattern::lemma_occurrences_ordered(re, line);
}

/// The lines among `lines` in which `re` matches a word, each with its
/// number and its words. Lines are numbered from one.
pub open spec fn matching_lines(re: Regex, lines: Seq<Seq<char>>) -> Seq<LineView>
    decreases lines.len(),
{
    if lines.len() == 0 {
        Seq::empty()
    } else {
        let before = matching_lines(re, lines.drop_last());
        let words = words_of(re, lines.last());
        if words.len() > 0 {
            before.push(LineView { row: lines.len(), content: lines.last(), words })
        } else {
            before
        }
    }
}

/// One occurrence of the pattern in a line.
#[derive(Debug)]
pub struct MatchWord<'a> {
    col: usize,
    word: &'a str,
}

impl<'a> View for MatchWord<'a> {
    type V = WordView;

    closed spec fn view(&self) -> WordView {
        WordView { col: self.col as nat, word: self.word@ }
    }
}

/// The views of a sequence of matched words.
pub open spec fn word_views(words: Seq<MatchWord<'_>>) -> Seq<WordView> {
    words.map_values(|w: MatchWord<'_>| w@)
}

/// The texts of a sequence of words.
pub open spec fn word_texts(words: Seq<WordView>) -> Seq<Seq<char>> {
    words.map_values(|w: WordView| w.word)
}

impl<'a> MatchWord<'a> {
    /// A word that begins at byte offset `col` and reads `word`.
    pub fn new(col: usize, word: &'a str) -> (w: Self)
        ensures
            w@ == (WordView { col: col as nat, word: word@ }),
    {
        MatchWord { col, word }
    }

    /// The byte offset in the line at which the word begins.
    pub fn col(&self) -> (col: usize)
        ensures
            col == self@.col,
    {
        self.col
    }

    /// The matched text.
    pub fn word(&self) -> (word: &'a str)
        ensures
            word@ == self@.word,
    {
        self.word
    }
}

/// A line in which the pattern was searched, with the words found in it.
#[derive(Debug)]
pub struct MatchLine<'a> {
    row: usize,
    content: &'a str,
    match_words: Vec<MatchWord<'a>>,
}

impl<'a> View for MatchLine<'a> {
    type V = LineView;

    closed spec fn view(&self) -> LineView {
        LineView { row: self.row as nat, content: self.content@, words: word_views(self.match_words@) }
    }
}

/// The views of a sequence of matched lines.
pub open spec fn line_views(lines: Seq<MatchLine<'_>>) -> Seq<LineView> {
    lines.map_values(|l: MatchLine<'_>| l@)
}

/// A rendered line: the number, a colon, the content.
pub open spec fn line_layout(number: Seq<char>, content: Seq<char>) -> Seq<char> {
    number + ":"@ + content
}

/// The span of bytes that a word takes in its line: from where it begins,
/// as many bytes as its text has.
pub open spec fn word_span(word: WordView) -> (usize, usize) {
    let end = word.col + byte_len(word.word);
    (word.col as usize, if end <= usize::MAX { end as usize } else { usize::MAX })
}

/// The spans of the words, in their order.
pub open spec fn word_spans(words: Seq<WordView>) -> Seq<(usize, usize)> {
    words.map_values(|w: WordView| word_span(w))
}

/// The form in which each of the words is shown, when `painted` holds the
/// forms of the distinct words: words that read the same are shown the same.
pub open spec fn word_forms(words: Seq<WordView>, painted: Seq<Seq<char>>) -> Seq<Seq<char>> {
    words.map_values(|w: WordView| form_of(distinct(word_texts(words)), painted, w.word))
}

/// The content of a line with each matched word replaced, where it stands,
/// by the form of that word.
pub open spec fn rendered_content(line: LineView, painted: Seq<Seq<char>>) -> Seq<char> {
    spliced(line.content, 0, word_spans(line.words), word_forms(line.words, painted))
}

/// Whether `out` is the line as it is shown: its number, right-justified and
/// plain or in blue, a colon, and the content in which each matched word
/// stands plain or in red, one form for each distinct word.
pub open spec fn is_line_rendering(line: LineView, out: Seq<char>) -> bool {
    exists|number: Seq<char>, painted: Seq<Seq<char>>|
        {
            &&& is_emphasis_of(blue_sequence(), number_field(line.row), number)
            &&& painted.len() == distinct(word_texts(line.words)).len()
            &&& forall|j: int|
                0 <= j < painted.len() ==> is_emphasis_of(
                    red_sequence(),
                    distinct(word_texts(line.words))[j],
                    #[trigger] painted[j],
                )
            &&& out == #[trigger] line_layout(number, rendered_content(line, painted))
        }
}

/// Taking the emphasis out of a shown line gives back its content: with
/// every word of a searched line shown plain, the rendered content is the
/// line itself.
pub proof fn lemma_plain_rendering(re: Regex, row: nat, content: Seq<char>)
    ensures
        rendered_content(
            LineView { row, content, words: words_of(re, content) },
            distinct(word_texts(words_of(re, content))),
        ) == content,
{
    let found = occurrences(re, content);
    let words = words_of(re, content);
    let keys = distinct(word_texts(words));
    let spans = word_spans(words);
    let forms = word_forms(words, keys);
    crate::pattern::lemma_occurrences_ordered(re, content);
    assert forall|i: int| 0 <= i < spans.len() && i < forms.len() implies #[trigger] forms[i] == slice_of(
        content,
        spans[i].0 as int,
        spans[i].1 as int,
    ) by {
        let m = found[i];
        assert(words[i] == word_at(content, m));
        crate::format::lemma_slice_len(content, m.0 as int, m.1 as int);
        crate::format::lemma_form_of_itself(keys, words[i].word);
        assert(spans[i] == m);
    }
    crate::format::lemma_whole_slice(content);
    crate::format::lemma_spliced_plain(content, 0, spans, forms);
}

/// Joins a rendered line number and a rendered content.
pub fn layout_line(number: &str, content: &str) -> (out: String)
    ensures
        out@ == line_layout(number@, content@),
{
    let mut out = String::from_str(number);
    out.append(":");
    out.append(content);
    out
}

/// Slices the word at `span` out of `line`.
fn slice_word<'a>(line: &'a str, span: (usize, usize)) -> (w: MatchWord<'a>)
    requires
        is_slice(line.spec_bytes(), span.0 as int, span.1 as int),
    ensures
        w@ == word_at(line@, span),
{
    MatchWord::new(span.0, slice_text(line, span.0, span.1))
}

/// Finds every non-overlapping occurrence of the pattern in `line`, from
/// left to right. The result is empty exactly when the pattern does not
/// match the line.
pub fn extract_words<'a>(line: &'a str, pattern: &Pattern) -> (words: Vec<MatchWord<'a>>)
    ensures
        word_views(words@) == words_of(pattern.regex(), line@),
        words.len() > 0 <==> pattern.matches(line@),
{
    let spans = pattern.find_all(line);
    let mut words: Vec<MatchWord<'a>> = Vec::new();
    let mut i: usize = 0;
    while i < spans.len()
        invariant
            i <= spans.len(),
            words.len() == i,
            spans@ == occurrences(pattern.regex(), line@),
            forall|k: int| 0 <= k < spans.len() ==> {
                &&& (#[trigger] spans[k]).0 <= spans[k].1 <= line.spec_bytes().len()
                &&& vstd::utf8::is_char_boundary(line.spec_bytes(), spans[k].0 as int)
                &&& vstd::utf8::is_char_boundary(line.spec_bytes(), spans[k].1 as int)
            },
            forall|k: int| 0 <= k < i ==> (#[trigger] words[k])@ == word_at(line@, spans[k]),
        decreases spans.len() - i,
    {
        words.push(slice_word(line, spans[i]));
        i += 1;
    }
    assert(word_views(words@) =~= words_of(pattern.regex(), line@));
    words
}

impl<'a> MatchLine<'a> {
    /// The line numbered `row` that reads `content`, with the words found in it.
    pub fn new(row: usize, content: &'a str, match_words: Vec<MatchWord<'a>>) -> (line: Self)
        ensures
            line@ == (LineView { row: row as nat, content: content@, words: word_views(match_words@) }),
    {
        Self { row, content, match_words }
    }

    /// The number of the line.
    pub fn row(&self) -> (row: usize)
        ensures
            row == self@.row,
    {
        self.row
    }

    /// The line without its terminator.
    pub fn content(&self) -> (content: &'a str)
        ensures
            content@ == self@.content,
    {
        self.content
    }

    /// The words found in the line, from left to right.
    pub fn match_words(&self) -> (words: &Vec<MatchWord<'a>>)
        ensures
            word_views(words@) == self@.words,
    {
        &self.match_words
    }

    /// The matched texts, each once, in the order in which they first occur
    /// in the line.
    pub fn distinct_words(&self) -> (words: Vec<&'a str>)
        ensures
            words@.map_values(|w: &str| w@) == distinct(word_texts(self@.words)),
    {
        let ghost all = word_texts(self@.words);
        let mut words: Vec<&'a str> = Vec::new();
        let mut i: usize = 0;
        assert(all.take(0) =~= Seq::<Seq<char>>::empty());
        while i < self.match_words.len()
            invariant
                i <= self.match_words.len(),
                all == word_texts(self@.words),
                all.len() == self.match_words.len(),
                forall|k: int| 0 <= k < all.len() ==> all[k] == (#[trigger] self.match_words[k]).word@,
                words@.map_values(|w: &str| w@) == distinct(all.take(i as int)),
            decreases self.match_words.len() - i,
        {
            let candidate = self.match_words[i].word;
            let ghost seen = words@.map_values(|w: &str| w@);
            let mut known = false;
            let mut j: usize = 0;
            while j < words.len() && !known
                invariant
                    j <= words.len(),
                    seen == words@.map_values(|w: &str| w@),
                    known ==> seen.contains(candidate@),
                    !known ==> forall|k: int| 0 <= k < j ==> seen[k] != candidate@,
                decreases words.len() - j, (if known { 0int } else { 1int }),
            {
                if same_text(words[j], candidate) {
                    known = true;
                    assert(seen[j as int] == candidate@);
                } else {
                    j += 1;
                }
            }
            proof {
                let next = all.take(i + 1);
                assert(next.drop_last() =~= all.take(i as int));
                assert(next.last() == candidate@);
            }
            if !known {
                words.push(candidate);
                assert(words@.map_values(|w: &str| w@) =~= seen.push(candidate@));
            }
            i += 1;
        }
        assert(all.take(i as int) =~= all);
        words
    }

    /// Renders the line from pieces that are already emphasized: the number
    /// field as `number` and the distinct words as `painted`, in their order.
    /// Each matched word is replaced where it stands; the text between the
    /// words stays as it is.
    pub fn render_with(&self, number: &str, painted: &Vec<String>) -> (out: String)
        ensures
            out@ == line_layout(number@, rendered_content(self@, painted@.map_values(|p: String| p@))),
    {
        let keys = self.distinct_words();
        let ghost words = self@.words;
        let ghost all_painted = painted@.map_values(|p: String| p@);
        let mut spans: Vec<(usize, usize)> = Vec::new();
        let mut forms: Vec<String> = Vec::new();
        let mut i: usize = 0;
        while i < self.match_words.len()
            invariant
                i <= self.match_words.len(),
                words == self@.words,
                words.len() == self.match_words.len(),
                forall|k: int| 0 <= k < words.len() ==> words[k] == (#[trigger] self.match_words[k])@,
                all_painted == painted@.map_values(|p: String| p@),
                keys@.map_values(|w: &str| w@) == distinct(word_texts(words)),
                spans@ == word_spans(words).take(i as int),
                forms@.map_values(|f: String| f@) == word_forms(words, all_painted).take(i as int),
            decreases self.match_words.len() - i,
        {
            let word = &self.match_words[i];
            let ghost shown = forms@.map_values(|f: String| f@);
            let end = match word.col.checked_add(word.word.as_bytes().len()) {
                Some(end) => end,
                None => usize::MAX,
            };
            spans.push((word.col, end));
            forms.push(find_form(&keys, painted, word.word));
            assert(spans@ =~= word_spans(words).take(i + 1));
            assert(forms@.map_values(|f: String| f@) =~= shown.push(word_forms(words, all_painted)[i as int]));
            assert(forms@.map_values(|f: String| f@) =~= word_forms(words, all_painted).take(i + 1));
            i += 1;
        }
        assert(word_spans(words).take(i as int) =~= word_spans(words));
        assert(word_forms(words, all_painted).take(i as int) =~= word_forms(words, all_painted));
        let content = splice_with(self.content, &spans, &forms);
        layout_line(number, content.as_str())
    }

    /// Renders the line for display: the right-justified line number, a
    /// colon, and the content in which every matched word is replaced, where
    /// it stands, by its emphasized form. The `colored` crate decides whether
    /// the number and the words are emphasized or left plain.
    pub fn render(&self) -> (out: String)
        ensures
            is_line_rendering(self@, out@),
    {
        let number = paint_blue(line_number_field(self.row).as_str());
        let words = self.distinct_words();
        let ghost keys = distinct(word_texts(self@.words));
        let mut painted: Vec<String> = Vec::new();
        let mut i: usize = 0;
        while i < words.len()
            invariant
                i <= words.len(),
                painted.len() == i,
                words@.map_values(|w: &str| w@) == keys,
                forall|j: int| 0 <= j < i ==> is_emphasis_of(red_sequence(), keys[j], (#[trigger] painted[j])@),
            decreases words.len() - i,
        {
            assert(keys[i as int] == words[i as int]@);
            painted.push(paint_red(words[i]));
            i += 1;
        }
        let out = self.render_with(number.as_str(), &painted);
        proof {
            let forms = painted@.map_values(|p: String| p@);
            assert forall|j: int| 0 <= j < forms.len() implies is_emphasis_of(
                red_sequence(),
                keys[j],
                #[trigger] forms[j],
            ) by {
                assert(forms[j] == painted[j]@);
            }
            assert(out@ == line_layout(number@, rendered_content(self@, forms)));
        }
        out
    }
}

/// Searching a text for a pattern, line by line.
pub trait Matcher {
    /// The text that is searched.
    spec fn text(&self) -> Seq<char>;

    /// The lines of the text in which the pattern occurs, each with its
    /// number and the words found in it; `None` when it occurs in no line.
    fn match_pattern<'a>(&'a self, pattern: &Pattern) -> (found: Option<Vec<MatchLine<'a>>>)
        ensures
            found is Some <==> matching_lines(pattern.regex(), text_lines(self.text())).len() > 0,
            found matches Some(lines) ==> line_views(lines@) == matching_lines(
                pattern.regex(),
                text_lines(self.text()),
            ),
    ;

    /// The words of `content` that the pattern matches, from left to right;
    /// `None` when it does not match.
    fn match_pattern_line<'a>(content: &'a str, pattern: &Pattern) -> (found: Option<Vec<MatchWord<'a>>>)
        ensures
            found is Some <==> pattern.matches(content@),
            found is Some <==> words_of(pattern.regex(), content@).len() > 0,
            found matches Some(words) ==> word_views(words@) == words_of(pattern.regex(), content@),
    ;
}

impl Matcher for str {
    open spec fn text(&self) -> Seq<char> {
        self@
    }

    fn match_pattern<'a>(&'a self, pattern: &Pattern) -> (found: Option<Vec<MatchLine<'a>>>)
    {
        let lines = split_lines(self);
        let ghost all = text_lines(self@);
        let mut found: Vec<MatchLine<'a>> = Vec::new();
        let mut i: usize = 0;
        assert(all.take(0) =~= Seq::<Seq<char>>::empty());
        while i < lines.len()
            invariant
                i <= lines.len(),
                all == text_lines(self@),
                lines.len() == all.len(),
                forall|k: int| 0 <= k < lines.len() ==> (#[trigger] lines[k])@ == all[k],
                line_views(found@) == matching_lines(pattern.regex(), all.take(i as int)),
            decreases lines.len() - i,
        {
            proof {
                let next = all.take(i + 1);
                assert(next.drop_last() =~= all.take(i as int));
                assert(next.last() == lines[i as int]@);
            }
            let ghost before = line_views(found@);
            match Self::match_pattern_line(lines[i], pattern) {
                Some(words) => {
                    let line = MatchLine::new(i + 1, lines[i], words);
                    found.push(line);
                    assert(line_views(found@) =~= before.push(line@));
                },
                None => {},
            }
            i += 1;
        }
        assert(all.take(i as int) =~= all);
        if found.len() == 0 {
            None
        } else {
            Some(found)
        }
    }

    fn match_pattern_line<'a>(content: &'a str, pattern: &Pattern) -> (found: Option<Vec<MatchWord<'a>>>)
    {
        let words = extract_words(content, pattern);
        if words.len() == 0 {
            None
        } else {
            Some(words)
        }
    }
}

} // verus!
