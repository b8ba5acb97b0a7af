//! Rendering: line numbers, emphasis and the highlighting of matched words.
//!
//! Emphasis is left to the `colored` crate, which decides from its
//! surroundings whether to emphasize a text or to leave it plain. Either
//! way the text itself stays in place, and what the rendering does with the
//! pieces is stated here for both outcomes.

use vstd::prelude::*;
use vstd::string::{StringExecFns, StringSliceAdditionalSpecFns, StrSliceExecFns};
use vstd::utf8::{decode_utf8, encode_utf8, is_char_boundary, valid_utf8};
use colored::Colorize;

verus! {

/// The width to which line numbers are right-justified.
pub const LINE_NUMBER_WIDTH: usize = 6;

/// The text of one decimal digit.
pub open spec fn digit_text(d: int) -> Seq<char> {
    if d == 0 {
        "0"@
    } else if d == 1 {
        "1"@
    } else if d == 2 {
        "2"@
    } else if d == 3 {
        "3"@
    } else if d == 4 {
        "4"@
    } else if d == 5 {
        "5"@
    } else if d == 6 {
        "6"@
    } else if d == 7 {
        "7"@
    } else if d == 8 {
        "8"@
    } else {
        "9"@
    }
}

/// The decimal notation of a number, without leading zeros.
pub open spec fn decimal(n: nat) -> Seq<char>
    decreases n,
{
    if n < 10 {
        digit_text(n as int)
    } else {
        decimal(n / 10) + digit_text((n % 10) as int)
    }
}

/// `text` behind as many spaces as it takes to fill `width` characters; a
/// text that is already that wide stays as it is.
pub open spec fn right_justified(text: Seq<char>, width: nat) -> Seq<char> {
    if text.len() >= width {
        text
    } else {
        Seq::new((width - text.len()) as nat, |i: int| ' ') + text
    }
}

fn digit_str(d: usize) -> (text: &'static str)
    requires
        d < 10,
    ensures
        text@ == digit_text(d as int),
{
    if d == 0 {
        "0"
    } else if d == 1 {
        "1"
    } else if d == 2 {
        "2"
    } else if d == 3 {
        "3"
    } else if d == 4 {
        "4"
    } else if d == 5 {
        "5"
    } else if d == 6 {
        "6"
    } else if d == 7 {
        "7"
    } else if d == 8 {
        "8"
    } else {
        "9"
    }
}

/// Writes a number in decimal notation.
pub fn decimal_string(n: usize) -> (text: String)
    ensures
        text@ == decimal(n as nat),
    decreases n,
{
    if n < 10 {
        String::from_str(digit_str(n))
    } else {
        let mut text = decimal_string(n / 10);
        text.append(digit_str(n % 10));
        text
    }
}

/// Right-justifies `text` in a field of `width` characters.
pub fn right_justify(text: &str, width: usize) -> (padded: String)
    ensures
        padded@ == right_justified(text@, width as nat),
{
    let len = text.unicode_len();
    let mut padded = String::new();
    if len < width {
        let fill = width - len;
        let mut i: usize = 0;
        while i < fill
            invariant
                i <= fill,
                padded@ == Seq::new(i as nat, |k: int| ' '),
            decreases fill - i,
        {
            proof {
                reveal_strlit(" ");
            }
            padded.append(" ");
            i += 1;
            assert(padded@ =~= Seq::new(i as nat, |k: int| ' '));
        }
    }
    padded.append(text);
    assert(padded@ =~= right_justified(text@, width as nat));
    padded
}

/// The number of a line as it is shown before emphasis: in decimal,
/// right-justified in a field of `LINE_NUMBER_WIDTH` characters.
pub open spec fn number_field(row: nat) -> Seq<char> {
    right_justified(decimal(row), LINE_NUMBER_WIDTH as nat)
}

/// Writes the number of a line as it is shown before emphasis.
pub fn line_number_field(row: usize) -> (field: String)
    ensures
        field@ == number_field(row as nat),
{
    right_justify(decimal_string(row).as_str(), LINE_NUMBER_WIDTH)
}

/// The sequence that ends an emphasis.
pub open spec fn reset_sequence() -> Seq<char> {
    "\u{1b}[0m"@
}

/// The sequence that begins red text.
pub open spec fn red_sequence() -> Seq<char> {
    "\u{1b}[31m"@
}

/// The sequence that begins green text.
pub open spec fn green_sequence() -> Seq<char> {
    "\u{1b}[32m"@
}

/// The sequence that begins blue text.
pub open spec fn blue_sequence() -> Seq<char> {
    "\u{1b}[34m"@
}

/// The sequence that begins cyan text.
pub open spec fn cyan_sequence() -> Seq<char> {
    "\u{1b}[36m"@
}

/// `text` with every occurrence of `from` replaced by `to`, the occurrences
/// taken from left to right without overlap. An empty `from` occurs before
/// every character and at the end.
pub open spec fn replaced(text: Seq<char>, from: Seq<char>, to: Seq<char>) -> Seq<char>
    decreases text.len(),
{
    if from.len() == 0 {
        if text.len() == 0 {
            to
        } else {
            to + seq![text[0]] + replaced(text.skip(1), from, to)
        }
    } else if text.len() < from.len() {
        text
    } else if text.take(from.len() as int) == from {
        to + replaced(text.skip(from.len() as int), from, to)
    } else {
        seq![text[0]] + replaced(text.skip(1), from, to)
    }
}

/// `text` in the given style: between the style's sequence and the reset
/// sequence, with the style taken up again behind every reset sequence that
/// `text` itself holds.
pub open spec fn emphasized(style: Seq<char>, text: Seq<char>) -> Seq<char> {
    style + replaced(text, reset_sequence(), reset_sequence() + style) + reset_sequence()
}

/// Whether `painted` is `text` as it may be shown in the given style: left
/// plain, or emphasized.
pub open spec fn is_emphasis_of(style: Seq<char>, text: Seq<char>, painted: Seq<char>) -> bool {
    painted == text || painted == emphasized(style, text)
}

/// A text that does not hold the first character of `from` holds no
/// occurrence of `from`, and stays as it is.
pub proof fn lemma_replaced_without_occurrence(text: Seq<char>, from: Seq<char>, to: Seq<char>)
    requires
        from.len() > 0,
        !text.contains(from[0]),
    ensures
        replaced(text, from, to) == text,
    decreases text.len(),
{
    if text.len() >= from.len() {
        assert(text.contains(text[0]));
        assert(text.take(from.len() as int)[0] == text[0]);
        let rest = text.skip(1);
        assert forall|i: int| 0 <= i < rest.len() implies rest[i] != from[0] by {
            assert(text.contains(text[i + 1]));
        }
        lemma_replaced_without_occurrence(rest, from, to);
        assert(seq![text[0]] + rest =~= text);
    }
}

/// A text that holds no escape character is emphasized by putting it
/// between the style's sequence and the reset sequence, unchanged.
pub proof fn lemma_emphasized_unchanged(style: Seq<char>, text: Seq<char>)
    requires
        !text.contains('\u{1b}'),
    ensures
        emphasized(style, text) == style + text + reset_sequence(),
{
    reveal_strlit("\u{1b}[0m");
    lemma_replaced_without_occurrence(text, reset_sequence(), reset_sequence() + style);
}

/// `Colorize::red`, rendered to a string: the text, emphasized in red or
/// left plain as the `colored` crate sees fit in its surroundings.
#[verifier::external_body]
pub(crate) fn paint_red(text: &str) -> (painted: String)
    ensures
        is_emphasis_of(red_sequence(), text@, painted@),
{
    text.red().to_string()
}

/// `Colorize::cyan`, rendered to a string: the text, emphasized in cyan or
/// left plain.
#[verifier::external_body]
pub(crate) fn paint_cyan(text: &str) -> (painted: String)
    ensures
        is_emphasis_of(cyan_sequence(), text@, painted@),
{
    text.cyan().to_string()
}

/// `Colorize::green`, rendered to a string: the text, emphasized in green or
/// left plain.
#[verifier::external_body]
pub(crate) fn paint_green(text: &str) -> (painted: String)
    ensures
        is_emphasis_of(green_sequence(), text@, painted@),
{
    text.green().to_string()
}

/// `Colorize::blue`, rendered to a string: the text, emphasized in blue or
/// left plain.
#[verifier::external_body]
pub(crate) fn paint_blue(text: &str) -> (painted: String)
    ensures
        is_emphasis_of(blue_sequence(), text@, painted@),
{
    text.blue().to_string()
}

/// `str::replace`: every occurrence of `from` in `text`, from left to right
/// without overlap, is replaced by `to`.
#[verifier::external_body]
fn replace_text(text: &str, from: &str, to: &str) -> (out: String)
    ensures
        out@ == replaced(text@, from@, to@),
{
    text.replace(from, to)
}

/// The part of `text` that the bytes from offset `from` up to offset `to` of
/// its UTF-8 encoding hold.
pub open spec fn slice_of(text: Seq<char>, from: int, to: int) -> Seq<char> {
    decode_utf8(encode_utf8(text).subrange(from, to))
}

/// Whether both offsets lie in `bytes`, in order, where characters begin.
pub open spec fn is_slice(bytes: Seq<u8>, from: int, to: int) -> bool {
    &&& 0 <= from <= to <= bytes.len()
    &&& is_char_boundary(bytes, from)
    &&& is_char_boundary(bytes, to)
}

/// A slice of a text is a text, and a character that begins inside the
/// slice begins inside the text.
pub proof fn lemma_slice_is_text(bytes: Seq<u8>, from: int, mid: int, to: int)
    requires
        valid_utf8(bytes),
        is_slice(bytes, from, to),
        from <= mid <= to,
        is_char_boundary(bytes, mid),
    ensures
        valid_utf8(bytes.subrange(from, to)),
        is_char_boundary(bytes.subrange(from, to), mid - from),
{
    let head = bytes.subrange(0, to);
    vstd::utf8::valid_utf8_split(bytes, to);
    if from < to {
        vstd::utf8::is_char_boundary_iff_not_is_continuation_byte(bytes, from);
        vstd::utf8::is_char_boundary_iff_not_is_continuation_byte(head, from);
    } else {
        vstd::utf8::is_char_boundary_start_end_of_seq(head);
    }
    vstd::utf8::valid_utf8_split(head, from);
    let part = bytes.subrange(from, to);
    assert(head.subrange(from, head.len() as int) =~= part);
    if mid < to {
        vstd::utf8::is_char_boundary_iff_not_is_continuation_byte(bytes, mid);
        vstd::utf8::is_char_boundary_iff_not_is_continuation_byte(part, mid - from);
    } else {
        vstd::utf8::is_char_boundary_start_end_of_seq(part);
    }
}

/// Two slices that meet make one slice.
pub proof fn lemma_slices_join(text: Seq<char>, from: int, mid: int, to: int)
    requires
        is_slice(encode_utf8(text), from, to),
        from <= mid <= to,
        is_char_boundary(encode_utf8(text), mid),
    ensures
        slice_of(text, from, mid) + slice_of(text, mid, to) == slice_of(text, from, to),
{
    let bytes = encode_utf8(text);
    vstd::utf8::encode_utf8_valid_utf8(text);
    lemma_slice_is_text(bytes, from, mid, to);
    let part = bytes.subrange(from, to);
    vstd::utf8::decode_utf8_split(part, mid - from);
    assert(part.subrange(0, mid - from) =~= bytes.subrange(from, mid));
    assert(part.subrange(mid - from, part.len() as int) =~= bytes.subrange(mid, to));
}

/// A slice takes as many bytes as it spans.
pub proof fn lemma_slice_len(text: Seq<char>, from: int, to: int)
    requires
        is_slice(encode_utf8(text), from, to),
    ensures
        encode_utf8(slice_of(text, from, to)) == encode_utf8(text).subrange(from, to),
        encode_utf8(slice_of(text, from, to)).len() == to - from,
{
    let bytes = encode_utf8(text);
    vstd::utf8::encode_utf8_valid_utf8(text);
    lemma_slice_is_text(bytes, from, from, to);
    vstd::utf8::decode_utf8_encode_utf8(bytes.subrange(from, to));
}

/// The whole of a text is a slice of it.
pub proof fn lemma_whole_slice(text: Seq<char>)
    ensures
        slice_of(text, 0, encode_utf8(text).len() as int) == text,
        is_slice(encode_utf8(text), 0, encode_utf8(text).len() as int),
{
    let bytes = encode_utf8(text);
    vstd::utf8::encode_utf8_valid_utf8(text);
    vstd::utf8::encode_utf8_decode_utf8(text);
    vstd::utf8::is_char_boundary_start_end_of_seq(bytes);
    assert(bytes.subrange(0, bytes.len() as int) =~= bytes);
}

/// Slices the bytes from `from` up to `to` out of `text`.
pub(crate) fn slice_text<'a>(text: &'a str, from: usize, to: usize) -> (part: &'a str)
    requires
        is_slice(text.spec_bytes(), from as int, to as int),
    ensures
        part@ == slice_of(text@, from as int, to as int),
{
    let (head, _) = text.split_at(to);
    proof {
        vstd::utf8::encode_utf8_valid_utf8(text@);
        vstd::utf8::encode_utf8_valid_utf8(head@);
        if from < to {
            vstd::utf8::is_char_boundary_iff_not_is_continuation_byte(text.spec_bytes(), from as int);
            vstd::utf8::is_char_boundary_iff_not_is_continuation_byte(head.spec_bytes(), from as int);
        } else {
            vstd::utf8::is_char_boundary_start_end_of_seq(head.spec_bytes());
        }
    }
    let (_, part) = head.split_at(from);
    proof {
        assert(part.spec_bytes() =~= text.spec_bytes().subrange(from as int, to as int));
        vstd::utf8::encode_utf8_decode_utf8(part@);
    }
    part
}

/// Whether the splicing, having come as far as `cursor`, can put something
/// in place of `span`: the span begins at the cursor or behind it and is a
/// slice of the text.
pub open spec fn span_usable(text: Seq<char>, cursor: int, span: (usize, usize)) -> bool {
    cursor <= span.0 && is_slice(encode_utf8(text), span.0 as int, span.1 as int)
}

/// `text` from `cursor` on, with each span replaced by the form that stands
/// at its place in `forms`. The text between the spans stays as it is. A
/// span that is not usable, or that has no form, is left alone.
pub open spec fn spliced(text: Seq<char>, cursor: int, spans: Seq<(usize, usize)>, forms: Seq<Seq<char>>) -> Seq<char>
    decreases spans.len(),
{
    if spans.len() == 0 || forms.len() == 0 {
        slice_of(text, cursor, encode_utf8(text).len() as int)
    } else if span_usable(text, cursor, spans[0]) {
        slice_of(text, cursor, spans[0].0 as int) + forms[0] + spliced(
            text,
            spans[0].1 as int,
            spans.skip(1),
            forms.skip(1),
        )
    } else {
        spliced(text, cursor, spans.skip(1), forms.skip(1))
    }
}

/// Splicing the text's own slices into the text gives back the text: when
/// every form is what its span holds, the result is the text from the
/// cursor on.
pub proof fn lemma_spliced_plain(text: Seq<char>, cursor: int, spans: Seq<(usize, usize)>, forms: Seq<Seq<char>>)
    requires
        is_slice(encode_utf8(text), cursor, encode_utf8(text).len() as int),
        forall|i: int|
            0 <= i < spans.len() && i < forms.len() ==> #[trigger] forms[i] == slice_of(
                text,
                spans[i].0 as int,
                spans[i].1 as int,
            ),
    ensures
        spliced(text, cursor, spans, forms) == slice_of(text, cursor, encode_utf8(text).len() as int),
    decreases spans.len(),
{
    let len = encode_utf8(text).len() as int;
    if spans.len() == 0 || forms.len() == 0 {
    } else {
        let rest_spans = spans.skip(1);
        let rest_forms = forms.skip(1);
        assert forall|i: int| 0 <= i < rest_spans.len() && i < rest_forms.len() implies #[trigger] rest_forms[i]
            == slice_of(text, rest_spans[i].0 as int, rest_spans[i].1 as int) by {
            assert(rest_forms[i] == forms[i + 1]);
            assert(rest_spans[i] == spans[i + 1]);
        }
        if span_usable(text, cursor, spans[0]) {
            let from = spans[0].0 as int;
            let to = spans[0].1 as int;
            lemma_spliced_plain(text, to, rest_spans, rest_forms);
            assert(forms[0] == slice_of(text, from, to));
            lemma_slices_join(text, cursor, from, to);
            lemma_slices_join(text, cursor, to, len);
        } else {
            lemma_spliced_plain(text, cursor, rest_spans, rest_forms);
        }
    }
}

/// Puts each form in place of its span in `text` and leaves the rest of the
/// text as it is. Spans are taken from left to right; one that begins before
/// the end of a span already replaced, or that is no slice of the text, is
/// left alone.
pub fn splice_with(text: &str, spans: &Vec<(usize, usize)>, forms: &Vec<String>) -> (out: String)
    ensures
        out@ == spliced(text@, 0, spans@, forms@.map_values(|f: String| f@)),
{
    let ghost all_forms = forms@.map_values(|f: String| f@);
    let len = text.as_bytes().len();
    let mut out = String::new();
    let mut cursor: usize = 0;
    let mut i: usize = 0;
    proof {
        lemma_whole_slice(text@);
        assert(spans@.skip(0) =~= spans@);
        assert(all_forms.skip(0) =~= all_forms);
    }
    while i < spans.len() && i < forms.len()
        invariant
            i <= spans.len(),
            i <= forms.len(),
            len == text.spec_bytes().len(),
            all_forms == forms@.map_values(|f: String| f@),
            is_slice(text.spec_bytes(), cursor as int, len as int),
            out@ + spliced(text@, cursor as int, spans@.skip(i as int), all_forms.skip(i as int)) == spliced(
                text@,
                0,
                spans@,
                all_forms,
            ),
        decreases spans.len() - i,
    {
        let ghost rest_spans = spans@.skip(i as int);
        let ghost rest_forms = all_forms.skip(i as int);
        let ghost before = out@;
        proof {
            assert(rest_spans[0] == spans[i as int]);
            assert(rest_forms[0] == forms[i as int]@);
            assert(rest_spans.skip(1) =~= spans@.skip(i + 1));
            assert(rest_forms.skip(1) =~= all_forms.skip(i + 1));
        }
        let (from, to) = spans[i];
        let ghost start = cursor as int;
        if cursor <= from && from <= to && to <= len && text.is_char_boundary(from) && text.is_char_boundary(to) {
            out.append(slice_text(text, cursor, from));
            out.append(forms[i].as_str());
            cursor = to;
            assert(out@ =~= before + (slice_of(text@, start, from as int) + forms[i as int]@));
        }
        i += 1;
    }
    out.append(slice_text(text, cursor, len));
    out
}

/// The form that stands for `word`: the one at the place where `word` first
/// stands among `keys`, or `word` itself when it has none.
pub open spec fn form_of(keys: Seq<Seq<char>>, forms: Seq<Seq<char>>, word: Seq<char>) -> Seq<char>
    decreases keys.len(),
{
    if keys.len() == 0 || forms.len() == 0 {
        word
    } else if keys[0] == word {
        forms[0]
    } else {
        form_of(keys.skip(1), forms.skip(1), word)
    }
}

/// Words that stand for themselves: every word's form is the word.
pub proof fn lemma_form_of_itself(keys: Seq<Seq<char>>, word: Seq<char>)
    ensures
        form_of(keys, keys, word) == word,
    decreases keys.len(),
{
    if keys.len() > 0 && keys[0] != word {
        lemma_form_of_itself(keys.skip(1), word);
    }
}

/// Looks up the form that stands for `word`.
pub fn find_form(keys: &Vec<&str>, forms: &Vec<String>, word: &str) -> (form: String)
    ensures
        form@ == form_of(keys@.map_values(|k: &str| k@), forms@.map_values(|f: String| f@), word@),
{
    let ghost all_keys = keys@.map_values(|k: &str| k@);
    let ghost all_forms = forms@.map_values(|f: String| f@);
    let mut i: usize = 0;
    proof {
        assert(all_keys.skip(0) =~= all_keys);
        assert(all_forms.skip(0) =~= all_forms);
    }
    while i < keys.len() && i < forms.len()
        invariant
            i <= keys.len(),
            i <= forms.len(),
            all_keys == keys@.map_values(|k: &str| k@),
            all_forms == forms@.map_values(|f: String| f@),
            form_of(all_keys.skip(i as int), all_forms.skip(i as int), word@) == form_of(all_keys, all_forms, word@),
        decreases keys.len() - i,
    {
        proof {
            assert(all_keys.skip(i as int)[0] == keys[i as int]@);
            assert(all_forms.skip(i as int)[0] == forms[i as int]@);
            assert(all_keys.skip(i as int).skip(1) =~= all_keys.skip(i + 1));
            assert(all_forms.skip(i as int).skip(1) =~= all_forms.skip(i + 1));
        }
        if same_text(keys[i], word) {
            return forms[i].clone();
        }
        i += 1;
    }
    String::from_str(word)
}

/// Whether two texts are the same, character for character.
pub fn same_text(a: &str, b: &str) -> (same: bool)
    ensures
        same == (a@ == b@),
{
    let x = a.as_bytes();
    let y = b.as_bytes();
    proof {
        vstd::utf8::encode_utf8_decode_utf8(a@);
        vstd::utf8::encode_utf8_decode_utf8(b@);
    }
    if x.len() != y.len() {
        return false;
    }
    let mut i: usize = 0;
    while i < x.len()
        invariant
            i <= x.len(),
            x@.len() == y@.len(),
            forall|k: int| 0 <= k < i ==> x@[k] == y@[k],
            x@ == a.spec_bytes(),
            y@ == b.spec_bytes(),
            vstd::utf8::decode_utf8(a.spec_bytes()) == a@,
            vstd::utf8::decode_utf8(b.spec_bytes()) == b@,
        decreases x.len() - i,
    {
        if x[i] != y[i] {
            return false;
        }
        i += 1;
    }
    assert(x@ =~= y@);
    true
}

/// The words of `words`, each once, in the order in which they first occur.
pub open spec fn distinct(words: Seq<Seq<char>>) -> Seq<Seq<char>>
    decreases words.len(),
{
    if words.len() == 0 {
        Seq::empty()
    } else {
        let before = distinct(words.drop_last());
        if before.contains(words.last()) {
            before
        } else {
            before.push(words.last())
        }
    }
}

/// No word occurs twice among the distinct words, and they are the words
/// that occur at all.
pub proof fn lemma_distinct(words: Seq<Seq<char>>)
    ensures
        distinct(words).no_duplicates(),
        forall|w: Seq<char>| distinct(words).contains(w) <==> words.contains(w),
        distinct(words).len() <= words.len(),
    decreases words.len(),
{
    if words.len() > 0 {
        let init = words.drop_last();
        lemma_distinct(init);
        let before = distinct(init);
        assert forall|w: Seq<char>| distinct(words).contains(w) <==> words.contains(w) by {
            if words.contains(w) {
                let i = choose|i: int| 0 <= i < words.len() && words[i] == w;
                if i < words.len() - 1 {
                    assert(init[i] == w);
                    assert(init.contains(w));
                    assert(before.contains(w));
                    if !before.contains(words.last()) {
                        let j = choose|j: int| 0 <= j < before.len() && before[j] == w;
                        assert(before.push(words.last())[j] == w);
                    }
                } else {
                    if !before.contains(words.last()) {
                        assert(before.push(words.last())[before.len() as int] == w);
                    }
                }
            }
            if distinct(words).contains(w) {
                let j = choose|j: int| 0 <= j < distinct(words).len() && distinct(words)[j] == w;
                if j < before.len() {
                    assert(before[j] == w);
                    assert(init.contains(w));
                    let i = choose|i: int| 0 <= i < init.len() && init[i] == w;
                    assert(words[i] == w);
                } else {
                    assert(words[words.len() - 1] == w);
                }
            }
        }
    }
}

/// `content` after the words have been replaced, one after the other, each
/// by its emphasized form. Words without an emphasized form stay as they are.
pub open spec fn highlighted(content: Seq<char>, words: Seq<Seq<char>>, painted: Seq<Seq<char>>) -> Seq<char>
    decreases words.len(),
{
    if words.len() == 0 || painted.len() == 0 {
        content
    } else {
        highlighted(replaced(content, words[0], painted[0]), words.skip(1), painted.skip(1))
    }
}

/// Replaces every occurrence of each word in `content` by the emphasized
/// form that stands at the word's place in `painted`. The replacement goes
/// by text and over the whole content, one word after the other: it reaches
/// a word inside a longer word, and inside a form put in for an earlier
/// word. To replace only where a match stands, use [`splice_with`].
pub fn highlight_with(content: &str, words: &Vec<&str>, painted: &Vec<String>) -> (out: String)
    ensures
        out@ == highlighted(content@, words@.map_values(|w: &str| w@), painted@.map_values(|p: String| p@)),
{
    let ghost all_words = words@.map_values(|w: &str| w@);
    let ghost all_painted = painted@.map_values(|p: String| p@);
    let mut out = String::from_str(content);
    let mut i: usize = 0;
    assert(all_words.skip(0) =~= all_words);
    assert(all_painted.skip(0) =~= all_painted);
    while i < words.len() && i < painted.len()
        invariant
            i <= words.len(),
            i <= painted.len(),
            all_words == words@.map_values(|w: &str| w@),
            all_painted == painted@.map_values(|p: String| p@),
            highlighted(out@, all_words.skip(i as int), all_painted.skip(i as int)) == highlighted(
                content@,
                all_words,
                all_painted,
            ),
        decreases words.len() - i,
    {
        let ghost rest_words = all_words.skip(i as int);
        let ghost rest_painted = all_painted.skip(i as int);
        assert(rest_words[0] == words[i as int]@);
        assert(rest_painted[0] == painted[i as int]@);
        assert(rest_words.skip(1) =~= all_words.skip(i + 1));
        assert(rest_painted.skip(1) =~= all_painted.skip(i + 1));
        out = replace_text(out.as_str(), words[i], painted[i].as_str());
        i += 1;
    }
    out
}

} // verus!
