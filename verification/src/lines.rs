//! Splitting a text into lines.
//!
//! A line ends at a line feed, or at the end of the text. A carriage return
//! directly before the line feed belongs to the terminator. Terminators are
//! not part of the lines, and a terminator at the very end of the text does
//! not open another, empty line.

use vstd::prelude::*;
use vstd::string::StringSliceAdditionalSpecFns;
use vstd::utf8::{decode_utf8, encode_utf8, is_char_boundary, valid_utf8};

verus! {

/// The byte value of a line feed.
pub const LINE_FEED: u8 = 10;

/// The byte value of a carriage return.
pub const CARRIAGE_RETURN: u8 = 13;

/// The offset of the first line feed in `bytes`, or the length of `bytes`
/// when it holds none.
pub open spec fn first_line_feed(bytes: Seq<u8>) -> nat
    decreases bytes.len(),
{
    if bytes.len() == 0 || bytes[0] == LINE_FEED {
        0
    } else {
        1 + first_line_feed(bytes.skip(1))
    }
}

/// `line` without the carriage return at its end, if it has one.
pub open spec fn without_carriage_return(line: Seq<u8>) -> Seq<u8> {
    if line.len() > 0 && line.last() == CARRIAGE_RETURN {
        line.drop_last()
    } else {
        line
    }
}

/// The lines of a text given as bytes.
pub open spec fn byte_lines(bytes: Seq<u8>) -> Seq<Seq<u8>>
    decreases bytes.len(),
{
    let end = first_line_feed(bytes) as int;
    if bytes.len() == 0 {
        Seq::empty()
    } else if end >= bytes.len() {
        seq![bytes]
    } else {
        seq![without_carriage_return(bytes.take(end))] + byte_lines(bytes.skip(end + 1))
    }
}

/// The lines of a text: those of its UTF-8 encoding, read back as characters.
pub open spec fn text_lines(text: Seq<char>) -> Seq<Seq<char>> {
    byte_lines(encode_utf8(text)).map_values(|line: Seq<u8>| decode_utf8(line))
}

/// The first line feed is the one before which there is none.
pub proof fn lemma_first_line_feed(bytes: Seq<u8>, end: int)
    requires
        0 <= end <= bytes.len(),
        forall|i: int| 0 <= i < end ==> bytes[i] != LINE_FEED,
        end < bytes.len() ==> bytes[end] == LINE_FEED,
    ensures
        first_line_feed(bytes) == end,
    decreases end,
{
    if end > 0 {
        let rest = bytes.skip(1);
        assert forall|i: int| 0 <= i < end - 1 implies rest[i] != LINE_FEED by {
            assert(rest[i] == bytes[i + 1]);
        }
        lemma_first_line_feed(rest, end - 1);
    }
}

/// Where the first line feed is: inside the text or at its end, behind bytes
/// that are no line feeds, and at a line feed if inside.
pub proof fn lemma_first_line_feed_found(bytes: Seq<u8>)
    ensures
        first_line_feed(bytes) <= bytes.len(),
        forall|i: int| 0 <= i < first_line_feed(bytes) ==> bytes[i] != LINE_FEED,
        first_line_feed(bytes) < bytes.len() ==> bytes[first_line_feed(bytes) as int] == LINE_FEED,
    decreases bytes.len(),
{
    if bytes.len() != 0 && bytes[0] != LINE_FEED {
        let rest = bytes.skip(1);
        lemma_first_line_feed_found(rest);
        assert forall|i: int| 0 <= i < first_line_feed(bytes) implies bytes[i] != LINE_FEED by {
            if i > 0 {
                assert(bytes[i] == rest[i - 1]);
            }
        }
    }
}

/// A terminator at the very end of a text opens no further line: a text
/// whose last line is not terminated has the same lines when a line feed is
/// put behind it.
pub proof fn lemma_final_line_feed(bytes: Seq<u8>)
    requires
        bytes.len() > 0,
        bytes.last() != LINE_FEED,
        bytes.last() != CARRIAGE_RETURN,
    ensures
        byte_lines(bytes.push(LINE_FEED)) == byte_lines(bytes),
    decreases bytes.len(),
{
    let longer = bytes.push(LINE_FEED);
    let end = first_line_feed(bytes) as int;
    lemma_first_line_feed_found(bytes);
    assert forall|i: int| 0 <= i < end implies longer[i] != LINE_FEED by {
        assert(longer[i] == bytes[i]);
    }
    lemma_first_line_feed(longer, end);
    assert(longer.take(end) =~= bytes.take(end));
    if end == bytes.len() {
        assert(bytes.take(end) =~= bytes);
        assert(longer.skip(end + 1) =~= Seq::<u8>::empty());
        assert(byte_lines(longer.skip(end + 1)) =~= Seq::<Seq<u8>>::empty());
        assert(byte_lines(longer) =~= byte_lines(bytes));
    } else {
        let rest = bytes.skip(end + 1);
        assert(longer.skip(end + 1) =~= rest.push(LINE_FEED));
        assert(rest.last() == bytes.last());
        lemma_final_line_feed(rest);
    }
}

/// The same holds of a carriage return and a line feed put behind the text.
pub proof fn lemma_final_carriage_return_line_feed(bytes: Seq<u8>)
    requires
        bytes.len() > 0,
        bytes.last() != LINE_FEED,
    ensures
        byte_lines(bytes.push(CARRIAGE_RETURN).push(LINE_FEED)) == byte_lines(bytes),
    decreases bytes.len(),
{
    let longer = bytes.push(CARRIAGE_RETURN).push(LINE_FEED);
    let end = first_line_feed(bytes) as int;
    lemma_first_line_feed_found(bytes);
    if end == bytes.len() {
        assert forall|i: int| 0 <= i < end + 1 implies longer[i] != LINE_FEED by {
            if i < end {
                assert(longer[i] == bytes[i]);
            }
        }
        lemma_first_line_feed(longer, end + 1);
        assert(longer.take(end + 1) =~= bytes.push(CARRIAGE_RETURN));
        assert(bytes.push(CARRIAGE_RETURN).drop_last() =~= bytes);
        assert(bytes.take(end) =~= bytes);
        assert(longer.skip(end + 2) =~= Seq::<u8>::empty());
        assert(byte_lines(longer.skip(end + 2)) =~= Seq::<Seq<u8>>::empty());
        assert(byte_lines(longer) =~= byte_lines(bytes));
    } else {
        assert forall|i: int| 0 <= i < end implies longer[i] != LINE_FEED by {
            assert(longer[i] == bytes[i]);
        }
        lemma_first_line_feed(longer, end);
        assert(longer.take(end) =~= bytes.take(end));
        let rest = bytes.skip(end + 1);
        assert(longer.skip(end + 1) =~= rest.push(CARRIAGE_RETURN).push(LINE_FEED));
        assert(rest.last() == bytes.last());
        lemma_final_carriage_return_line_feed(rest);
    }
}

/// The byte after a line feed begins a character.
proof fn lemma_boundary_after_line_feed(bytes: Seq<u8>)
    requires
        valid_utf8(bytes),
        bytes.len() > 0,
        bytes[0] == LINE_FEED,
    ensures
        is_char_boundary(bytes, 1),
{
    reveal_with_fuel(is_char_boundary, 2);
}

/// Splits `text` into its lines, each a slice of `text`.
pub fn split_lines<'a>(text: &'a str) -> (lines: Vec<&'a str>)
    ensures
        lines.len() == text_lines(text@).len(),
        forall|i: int| 0 <= i < lines.len() ==> (#[trigger] lines[i])@ == text_lines(text@)[i],
{
    let ghost all = byte_lines(text.spec_bytes());
    let mut lines: Vec<&'a str> = Vec::new();
    let mut rest: &'a str = text;
    let mut remaining: usize = rest.as_bytes().len();
    while remaining > 0
        invariant
            remaining == rest.spec_bytes().len(),
            all == byte_lines(text.spec_bytes()),
            lines.len() + byte_lines(rest.spec_bytes()).len() == all.len(),
            forall|i: int| 0 <= i < lines.len() ==> (#[trigger] lines[i]).spec_bytes() == all[i],
            forall|i: int| 0 <= i < byte_lines(rest.spec_bytes()).len() ==> #[trigger] byte_lines(rest.spec_bytes())[i] == all[lines.len() + i],
        decreases remaining,
    {
        let bytes = rest.as_bytes();
        let mut end: usize = 0;
        while end < remaining && bytes[end] != LINE_FEED
            invariant
                end <= remaining,
                remaining == bytes@.len(),
                forall|i: int| 0 <= i < end ==> bytes@[i] != LINE_FEED,
            decreases remaining - end,
        {
            end += 1;
        }
        proof {
            lemma_first_line_feed(bytes@, end as int);
            vstd::utf8::encode_utf8_valid_utf8(rest@);
        }
        let ghost before = byte_lines(rest.spec_bytes());
        let ghost count = lines.len() as int;
        assert(before.len() > 0 && before[0] == all[count + 0]);
        if end == remaining {
            assert(before[0] == rest.spec_bytes());
            lines.push(rest);
            proof {
                vstd::utf8::is_char_boundary_start_end_of_seq(rest.spec_bytes());
            }
            let (_, tail) = rest.split_at(remaining);
            rest = tail;
            remaining = 0;
            assert(rest.spec_bytes() =~= Seq::<u8>::empty());
        } else {
            proof {
                vstd::utf8::is_char_boundary_iff_not_is_continuation_byte(bytes@, end as int);
            }
            let (head, tail) = rest.split_at(end);
            proof {
                vstd::utf8::encode_utf8_valid_utf8(tail@);
                lemma_boundary_after_line_feed(tail.spec_bytes());
            }
            let (_, next) = tail.split_at(1);
            let head_bytes = head.as_bytes();
            let line = if end > 0 && head_bytes[end - 1] == CARRIAGE_RETURN {
                proof {
                    vstd::utf8::encode_utf8_valid_utf8(head@);
                    vstd::utf8::is_char_boundary_iff_not_is_continuation_byte(head_bytes@, end - 1);
                }
                let (stripped, _) = head.split_at(end - 1);
                stripped
            } else {
                head
            };
            assert(line.spec_bytes() =~= without_carriage_return(bytes@.take(end as int)));
            assert(next.spec_bytes() =~= bytes@.skip(end + 1));
            assert(before[0] == line.spec_bytes());
            lines.push(line);
            rest = next;
            remaining = remaining - end - 1;
            assert(before == seq![line.spec_bytes()] + byte_lines(rest.spec_bytes()));
            assert forall|i: int| 0 <= i < byte_lines(rest.spec_bytes()).len() implies #[trigger] byte_lines(rest.spec_bytes())[i] == all[lines.len() + i] by {
                assert(byte_lines(rest.spec_bytes())[i] == before[i + 1]);
            }
        }
    }
    assert forall|i: int| 0 <= i < lines.len() implies (#[trigger] lines[i])@ == text_lines(text@)[i] by {
        vstd::utf8::encode_utf8_decode_utf8(lines[i]@);
    }
    lines
}

} // verus!
