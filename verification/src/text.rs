//! Lines, fields and decimal numbers in delimited text, as bytes.
//!
//! A text is cut into lines at each line feed; a carriage return directly
//! before the line feed belongs to the line ending. A line is cut into fields
//! at each comma that a space follows. Nothing is quoted or escaped.

use vstd::prelude::*;
use vstd::slice::slice_subrange;
use vstd::string::StringSliceAdditionalSpecFns;
use vstd::utf8::*;

verus! {

pub const LINE_FEED: u8 = 0x0a;

pub const CARRIAGE_RETURN: u8 = 0x0d;

pub const COMMA: u8 = 0x2c;

pub const SPACE: u8 = 0x20;

pub const PLUS: u8 = 0x2b;

pub const DIGIT_ZERO: u8 = 0x30;

pub const DIGIT_NINE: u8 = 0x39;

/// The position of the first line feed at or after `from`, or the length of
/// the text where there is none.
pub open spec fn line_end(text: Seq<u8>, from: int) -> int
    decreases text.len() - from,
{
    if from >= text.len() {
        text.len() as int
    } else if text[from] == LINE_FEED {
        from
    } else {
        line_end(text, from + 1)
    }
}

/// Where the content of the line ends that starts at `from` and whose line
/// feed, if it has one, stands at `end`: before a carriage return that the
/// line feed follows, else at `end`.
pub open spec fn content_end(text: Seq<u8>, from: int, end: int) -> int {
    if from < end < text.len() && text[end - 1] == CARRIAGE_RETURN {
        end - 1
    } else {
        end
    }
}

/// The lines of the text from position `from` on, without their line endings.
/// A text that ends in a line ending has no empty line after it.
pub open spec fn lines_from(text: Seq<u8>, from: int) -> Seq<Seq<u8>>
    decreases text.len() - from,
{
    if 0 <= from < text.len() {
        let end = line_end(text, from);
        proof {
            lemma_line_end(text, from);
        }
        let rest = if end < text.len() {
            lines_from(text, end + 1)
        } else {
            Seq::empty()
        };
        seq![text.subrange(from, content_end(text, from, end))] + rest
    } else {
        Seq::empty()
    }
}

/// The lines of a text.
pub open spec fn lines(text: Seq<u8>) -> Seq<Seq<u8>> {
    lines_from(text, 0)
}

/// Whether a field delimiter, a comma and then a space, stands at `at`.
pub open spec fn delimiter_at(line: Seq<u8>, at: int) -> bool {
    0 <= at && at + 1 < line.len() && line[at] == COMMA && line[at + 1] == SPACE
}

/// The position of the first delimiter at or after `from`, or the length of
/// the line where there is none.
pub open spec fn field_end(line: Seq<u8>, from: int) -> int
    decreases line.len() - from,
{
    if from >= line.len() {
        line.len() as int
    } else if delimiter_at(line, from) {
        from
    } else {
        field_end(line, from + 1)
    }
}

/// The fields of the line from position `from` on. There is always at least
/// one: a line that ends in a delimiter has an empty last field.
pub open spec fn fields_from(line: Seq<u8>, from: int) -> Seq<Seq<u8>>
    decreases line.len() - from,
{
    let end = field_end(line, from);
    if 0 <= from <= end < line.len() {
        proof {
            lemma_field_end(line, from);
        }
        seq![line.subrange(from, end)] + fields_from(line, end + 2)
    } else {
        seq![line.subrange(from, line.len() as int)]
    }
}

/// The fields of a line.
pub open spec fn fields(line: Seq<u8>) -> Seq<Seq<u8>> {
    fields_from(line, 0)
}

/// Whether every byte is a decimal digit.
pub open spec fn all_digits(digits: Seq<u8>) -> bool {
    forall|i: int| 0 <= i < digits.len() ==> DIGIT_ZERO <= #[trigger] digits[i] <= DIGIT_NINE
}

/// The number that a run of decimal digits writes, most significant first.
pub open spec fn digits_value(digits: Seq<u8>) -> nat
    decreases digits.len(),
{
    if digits.len() == 0 {
        0
    } else {
        digits_value(digits.drop_last()) * 10 + (digits.last() - DIGIT_ZERO) as nat
    }
}

/// The digits of a field: the field without a leading plus sign.
pub open spec fn unsigned_part(field: Seq<u8>) -> Seq<u8> {
    if field.len() > 0 && field[0] == PLUS {
        field.subrange(1, field.len() as int)
    } else {
        field
    }
}

/// The unsigned 64-bit number that a field writes: an optional plus sign,
/// then one or more decimal digits and nothing else, with a value that fits.
pub open spec fn decimal(field: Seq<u8>) -> Option<u64> {
    let digits = unsigned_part(field);
    if digits.len() > 0 && all_digits(digits) && digits_value(digits) <= u64::MAX {
        Some(digits_value(digits) as u64)
    } else {
        None
    }
}

/// A line ends at or after its start and within the text, on a line feed if
/// it ends before the text does, and holds no line feed before that.
pub proof fn lemma_line_end(text: Seq<u8>, from: int)
    requires
        0 <= from <= text.len(),
    ensures
        from <= line_end(text, from) <= text.len(),
        line_end(text, from) < text.len() ==> text[line_end(text, from)] == LINE_FEED,
        forall|k: int| from <= k < line_end(text, from) ==> text[k] != LINE_FEED,
    decreases text.len() - from,
{
    if from < text.len() && text[from] != LINE_FEED {
        lemma_line_end(text, from + 1);
    }
}

/// A field ends at or after its start and within the line, on a delimiter if
/// it ends before the line does, and no delimiter starts inside it.
pub proof fn lemma_field_end(line: Seq<u8>, from: int)
    requires
        0 <= from <= line.len(),
    ensures
        from <= field_end(line, from) <= line.len(),
        field_end(line, from) < line.len() ==> delimiter_at(line, field_end(line, from)),
        forall|k: int| from <= k < field_end(line, from) ==> !delimiter_at(line, k),
    decreases line.len() - from,
{
    if from < line.len() && !delimiter_at(line, from) {
        lemma_field_end(line, from + 1);
    }
}

/// How the lines of a text unfold where a line starts: the first of them
/// runs up to the next line ending, and the others are the lines behind it.
pub proof fn lemma_lines_from(text: Seq<u8>, from: int)
    requires
        0 <= from < text.len(),
    ensures
        from <= line_end(text, from) <= text.len(),
        line_end(text, from) < text.len() ==> text[line_end(text, from)] == LINE_FEED,
        lines_from(text, from).len() >= 1,
        lines_from(text, from)[0] == text.subrange(
            from,
            content_end(text, from, line_end(text, from)),
        ),
        line_end(text, from) < text.len() ==> lines_from(text, from).skip(1) == lines_from(
            text,
            line_end(text, from) + 1,
        ),
        line_end(text, from) == text.len() ==> lines_from(text, from).len() == 1,
{
    lemma_line_end(text, from);
    let end = line_end(text, from);
    let first = seq![text.subrange(from, content_end(text, from, end))];
    if end < text.len() {
        assert((first + lines_from(text, end + 1)).skip(1) =~= lines_from(text, end + 1));
    } else {
        assert(first + Seq::<Seq<u8>>::empty() =~= first);
    }
}

/// How the fields of a line unfold where a field starts: the first of them
/// runs up to the next delimiter, and the others are the fields behind it.
pub proof fn lemma_fields_from(line: Seq<u8>, from: int)
    requires
        0 <= from <= line.len(),
    ensures
        from <= field_end(line, from) <= line.len(),
        fields_from(line, from).len() >= 1,
        fields_from(line, from)[0] == line.subrange(from, field_end(line, from)),
        field_end(line, from) < line.len() ==> delimiter_at(line, field_end(line, from))
            && fields_from(line, from).skip(1) == fields_from(line, field_end(line, from) + 2),
        field_end(line, from) == line.len() ==> fields_from(line, from).len() == 1,
{
    lemma_field_end(line, from);
    let end = field_end(line, from);
    if end < line.len() {
        let first = seq![line.subrange(from, end)];
        assert((first + fields_from(line, end + 2)).skip(1) =~= fields_from(line, end + 2));
    }
}

/// The parts put together, with a delimiter between each two of them.
pub open spec fn joined(parts: Seq<Seq<u8>>) -> Seq<u8>
    decreases parts.len(),
{
    if parts.len() == 0 {
        Seq::empty()
    } else if parts.len() == 1 {
        parts[0]
    } else {
        parts[0] + seq![COMMA, SPACE] + joined(parts.drop_first())
    }
}

/// The fields from a position on, put together again, are the line from
/// there on.
pub proof fn lemma_fields_joined(line: Seq<u8>, from: int)
    requires
        0 <= from <= line.len(),
    ensures
        joined(fields_from(line, from)) == line.subrange(from, line.len() as int),
    decreases line.len() - from,
{
    lemma_fields_from(line, from);
    let end = field_end(line, from);
    let parts = fields_from(line, from);
    if end < line.len() {
        lemma_fields_joined(line, end + 2);
        lemma_fields_from(line, end + 2);
        assert(parts.drop_first() =~= parts.skip(1));
        assert(line.subrange(from, end) + seq![COMMA, SPACE] + line.subrange(
            end + 2,
            line.len() as int,
        ) =~= line.subrange(from, line.len() as int));
    }
}

/// No delimiter stands inside a field.
pub proof fn lemma_fields_hold_no_delimiter(line: Seq<u8>, from: int)
    requires
        0 <= from <= line.len(),
    ensures
        forall|i: int, at: int|
            0 <= i < fields_from(line, from).len() ==> !#[trigger] delimiter_at(
                fields_from(line, from)[i],
                at,
            ),
    decreases line.len() - from,
{
    lemma_fields_from(line, from);
    let end = field_end(line, from);
    let parts = fields_from(line, from);
    if end < line.len() {
        lemma_fields_hold_no_delimiter(line, end + 2);
    }
    assert forall|i: int, at: int| 0 <= i < parts.len() implies !#[trigger] delimiter_at(
        parts[i],
        at,
    ) by {
        if i == 0 {
            if delimiter_at(parts[0], at) {
                lemma_field_end(line, from);
                assert(delimiter_at(line, from + at));
            }
        } else {
            assert(parts[i] == parts.skip(1)[i - 1]);
        }
    }
}

/// No line feed stands inside a line.
pub proof fn lemma_lines_hold_no_line_feed(text: Seq<u8>, from: int)
    requires
        0 <= from <= text.len(),
    ensures
        forall|i: int, at: int|
            0 <= i < lines_from(text, from).len() && 0 <= at < lines_from(text, from)[i].len()
                ==> #[trigger] lines_from(text, from)[i][at] != LINE_FEED,
    decreases text.len() - from,
{
    if from < text.len() {
        lemma_lines_from(text, from);
        lemma_line_end(text, from);
        let end = line_end(text, from);
        let found = lines_from(text, from);
        if end < text.len() {
            lemma_lines_hold_no_line_feed(text, end + 1);
        }
        assert forall|i: int, at: int| 0 <= i < found.len() && 0 <= at < found[i].len() implies
            #[trigger] found[i][at] != LINE_FEED by {
            if i == 0 {
                assert(found[0][at] == text[from + at]);
            } else {
                assert(found[i] == found.skip(1)[i - 1]);
            }
        }
    }
}

/// Finds where the line that starts at `from` ends.
pub fn find_line_end(text: &[u8], from: usize) -> (end: usize)
    requires
        from <= text@.len(),
    ensures
        end == line_end(text@, from as int),
        from <= end <= text@.len(),
{
    let mut at: usize = from;
    while at < text.len() && text[at] != LINE_FEED
        invariant
            from <= at <= text@.len(),
            line_end(text@, from as int) == line_end(text@, at as int),
        decreases text@.len() - at,
    {
        at += 1;
    }
    at
}

/// Finds where the field that starts at `from` ends.
pub fn find_field_end(line: &[u8], from: usize) -> (end: usize)
    requires
        from <= line@.len(),
    ensures
        end == field_end(line@, from as int),
        from <= end <= line@.len(),
{
    let mut at: usize = from;
    while at < line.len() && !(line[at] == COMMA && at + 1 < line.len() && line[at + 1] == SPACE)
        invariant
            from <= at <= line@.len(),
            field_end(line@, from as int) == field_end(line@, at as int),
        decreases line@.len() - at,
    {
        at += 1;
    }
    at
}

/// A run of digits is worth at least as much as any of its prefixes.
pub proof fn lemma_digits_value_prefix(digits: Seq<u8>, k: int)
    requires
        0 <= k <= digits.len(),
    ensures
        digits_value(digits.take(k)) <= digits_value(digits),
    decreases digits.len(),
{
    if k == digits.len() {
        assert(digits.take(k) =~= digits);
    } else {
        lemma_digits_value_prefix(digits.drop_last(), k);
        assert(digits.drop_last().take(k) =~= digits.take(k));
    }
}

/// Reads the unsigned 64-bit number that a field writes, if it writes one.
pub fn parse_number(field: &[u8]) -> (number: Option<u64>)
    ensures
        number == decimal(field@),
{
    let start: usize = if field.len() > 0 && field[0] == PLUS {
        1
    } else {
        0
    };
    let digits = slice_subrange(field, start, field.len());
    assert(digits@ == unsigned_part(field@));
    if digits.len() == 0 {
        return None;
    }
    let mut value: u64 = 0;
    let mut at: usize = 0;
    while at < digits.len()
        invariant
            at <= digits@.len(),
            digits@ == unsigned_part(field@),
            all_digits(digits@.take(at as int)),
            value == digits_value(digits@.take(at as int)),
        decreases digits@.len() - at,
    {
        let byte: u8 = digits[at];
        proof {
            assert(digits@.take(at + 1).drop_last() =~= digits@.take(at as int));
            assert(digits@.take(at + 1).last() == byte);
        }
        if byte < DIGIT_ZERO || byte > DIGIT_NINE {
            return None;
        }
        let digit: u64 = (byte - DIGIT_ZERO) as u64;
        let next: Option<u64> = match value.checked_mul(10) {
            Some(tens) => tens.checked_add(digit),
            None => None,
        };
        match next {
            Some(sum) => {
                value = sum;
            },
            None => {
                proof {
                    lemma_digits_value_prefix(digits@, at + 1);
                }
                return None;
            },
        }
        at += 1;
    }
    assert(digits@.take(at as int) =~= digits@);
    Some(value)
}

/// Whether a text can be cut at `at` without splitting a character: `at` is
/// the end of the text, or the byte there does not continue a character.
pub open spec fn cut_point(text: Seq<u8>, at: int) -> bool {
    0 <= at <= text.len() && (at < text.len() ==> !is_continuation_byte(text[at]))
}

/// Well-formed text can be cut directly behind a byte that is a character of
/// its own.
pub proof fn lemma_cut_after_single_byte(text: Seq<u8>, at: int)
    requires
        valid_utf8(text),
        0 < at <= text.len(),
        text[at - 1] <= 0x7f,
    ensures
        cut_point(text, at),
{
    if at < text.len() {
        let tail = text.subrange(at - 1, text.len() as int);
        is_char_boundary_iff_not_is_continuation_byte(text, at - 1);
        valid_utf8_split(text, at - 1);
        assert(tail[0] == text[at - 1]);
        assert(length_of_first_scalar(tail) == 1);
        assert(valid_utf8(pop_first_scalar(tail)));
        assert(is_char_boundary(pop_first_scalar(tail), 0));
        assert(is_char_boundary(tail, 1));
        is_char_boundary_iff_not_is_continuation_byte(tail, 1);
        assert(tail[1] == text[at]);
    }
}

/// The part of a text between two cut points.
pub fn piece<'a>(text: &'a str, from: usize, to: usize) -> (part: &'a str)
    requires
        from <= to,
        cut_point(text.spec_bytes(), from as int),
        cut_point(text.spec_bytes(), to as int),
    ensures
        part.spec_bytes() == text.spec_bytes().subrange(from as int, to as int),
        part@ == decode_utf8(text.spec_bytes().subrange(from as int, to as int)),
{
    let ghost bytes = text.spec_bytes();
    proof {
        encode_utf8_valid_utf8(text@);
        if to < bytes.len() {
            is_char_boundary_iff_not_is_continuation_byte(bytes, to as int);
        } else {
            is_char_boundary_start_end_of_seq(bytes);
        }
    }
    let (head, _) = text.split_at(to);
    proof {
        encode_utf8_valid_utf8(head@);
        if from < to {
            is_char_boundary_iff_not_is_continuation_byte(head.spec_bytes(), from as int);
        } else {
            is_char_boundary_start_end_of_seq(head.spec_bytes());
        }
    }
    let (_, part) = head.split_at(from);
    proof {
        assert(part.spec_bytes() =~= bytes.subrange(from as int, to as int));
        encode_utf8_decode_utf8(part@);
    }
    part
}

} // verus!
