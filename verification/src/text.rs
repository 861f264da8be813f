//! Text as a sequence of characters: comparing, trimming and collecting.

use crate::bytes::{bytes_equal, decimal_bytes, decimal_digits};
use vstd::prelude::*;

verus! {

/// `String::push` appends the character.
pub assume_specification[ std::string::String::push ](string: &mut std::string::String, ch: char)
    ensures
        final(string)@ == old(string)@.push(ch),
;

/// `String::push_str` appends the text.
pub assume_specification[ std::string::String::push_str ](
    target: &mut std::string::String,
    string: &str,
)
    ensures
        final(target)@ == old(target)@ + string@,
;

pub fn text_equal(left: &str, right: &str) -> (equal: bool)
    ensures
        equal == (left@ == right@),
{
    proof {
        vstd::utf8::encode_utf8_decode_utf8(left@);
        vstd::utf8::encode_utf8_decode_utf8(right@);
    }
    bytes_equal(left.as_bytes(), right.as_bytes())
}

/// The characters of a text.
pub fn chars_of(text: &str) -> (characters: Vec<char>)
    ensures
        characters@ == text@,
{
    let mut characters: Vec<char> = Vec::new();
    for character in iter: text.chars()
        invariant
            iter.seq() == text@,
            characters@ == text@.take(iter.index()),
    {
        characters.push(character);
    }
    characters
}

/// The text that the characters from `from` up to `to` make.
pub fn text_between(characters: &Vec<char>, from: usize, to: usize) -> (text: String)
    requires
        from <= to <= characters@.len(),
    ensures
        text@ == characters@.subrange(from as int, to as int),
{
    let mut text = String::new();
    let mut index: usize = from;
    while index < to
        invariant
            from <= index <= to <= characters@.len(),
            text@ == characters@.subrange(from as int, index as int),
        decreases to - index,
    {
        text.push(characters[index]);
        index = index + 1;
    }
    text
}

/// The characters with the Unicode property White_Space.
pub open spec fn is_whitespace(character: char) -> bool {
    let code = character as u32;
    ||| 0x9 <= code <= 0xd
    ||| code == 0x20
    ||| code == 0x85
    ||| code == 0xa0
    ||| code == 0x1680
    ||| 0x2000 <= code <= 0x200a
    ||| code == 0x2028
    ||| code == 0x2029
    ||| code == 0x202f
    ||| code == 0x205f
    ||| code == 0x3000
}

pub fn whitespace(character: char) -> (space: bool)
    ensures
        space == is_whitespace(character),
{
    let code: u32 = character as u32;
    (0x9 <= code && code <= 0xd) || code == 0x20 || code == 0x85 || code == 0xa0 || code == 0x1680
        || (0x2000 <= code && code <= 0x200a) || code == 0x2028 || code == 0x2029 || code == 0x202f
        || code == 0x205f || code == 0x3000
}

/// The characters of the Unicode category Control.
pub open spec fn is_control(character: char) -> bool {
    (character as u32) < 0x20 || 0x7f <= character as u32 <= 0x9f
}

pub fn control(character: char) -> (control: bool)
    ensures
        control == is_control(character),
{
    let code: u32 = character as u32;
    code < 0x20 || (0x7f <= code && code <= 0x9f)
}

pub open spec fn trim_start(s: Seq<char>) -> Seq<char>
    decreases s.len(),
{
    if s.len() > 0 && is_whitespace(s[0]) {
        trim_start(s.subrange(1, s.len() as int))
    } else {
        s
    }
}

pub open spec fn trim_end(s: Seq<char>) -> Seq<char>
    decreases s.len(),
{
    if s.len() > 0 && is_whitespace(s.last()) {
        trim_end(s.drop_last())
    } else {
        s
    }
}

/// The text without the whitespace at its two ends.
pub open spec fn trimmed(s: Seq<char>) -> Seq<char> {
    trim_end(trim_start(s))
}

pub fn trim_text(text: &str) -> (result: String)
    ensures
        result@ == trimmed(text@),
{
    let characters = chars_of(text);
    let mut start: usize = 0;
    assert(characters@.subrange(0, characters@.len() as int) =~= text@);
    while start < characters.len() && whitespace(characters[start])
        invariant
            start <= characters.len(),
            characters@ == text@,
            trim_start(characters@.subrange(start as int, characters@.len() as int)) == trim_start(
                text@,
            ),
        decreases characters.len() - start,
    {
        proof {
            let s = characters@.subrange(start as int, characters@.len() as int);
            assert(s.subrange(1, s.len() as int) =~= characters@.subrange(
                start + 1,
                characters@.len() as int,
            ));
        }
        start = start + 1;
    }
    let mut end: usize = characters.len();
    assert(trim_start(characters@.subrange(start as int, characters@.len() as int))
        == characters@.subrange(start as int, characters@.len() as int));
    while start < end && whitespace(characters[end - 1])
        invariant
            start <= end <= characters.len(),
            trim_end(characters@.subrange(start as int, end as int)) == trimmed(text@),
        decreases end,
    {
        proof {
            let s = characters@.subrange(start as int, end as int);
            assert(s.drop_last() =~= characters@.subrange(start as int, end - 1));
        }
        end = end - 1;
    }
    assert(trim_end(characters@.subrange(start as int, end as int)) == characters@.subrange(
        start as int,
        end as int,
    ));
    text_between(&characters, start, end)
}

pub fn copy_text(text: &str) -> (copy: String)
    ensures
        copy@ == text@,
{
    text.to_owned()
}

/// The text between two byte offsets, or none if they leave nothing between
/// them, pass the end or cut a character.
pub open spec fn slice_at(bytes: Seq<u8>, start: int, end: int) -> Option<Seq<char>> {
    if start >= end || end > bytes.len() || !vstd::utf8::is_char_boundary(bytes, start)
        || !vstd::utf8::is_char_boundary(bytes, end) {
        None
    } else {
        Some(vstd::utf8::decode_utf8(bytes.subrange(start, end)))
    }
}

pub fn slice_text(source: &str, start: usize, end: usize) -> (slice: Option<String>)
    ensures
        match slice_at(crate::bytes::text(source), start as int, end as int) {
            None => slice is None,
            Some(expected) => slice matches Some(found) && found@ == expected,
        },
{
    if start >= end || end > source.as_bytes().len() || !source.is_char_boundary(start)
        || !source.is_char_boundary(end) {
        return None;
    }
    let (front, _) = source.split_at(end);
    proof {
        broadcast use vstd::utf8::group_utf8_lib;

        let whole = crate::bytes::text(source);
        let bytes = crate::bytes::text(front);
        assert(bytes =~= whole.subrange(0, end as int));
        vstd::utf8::encode_utf8_valid_utf8(source@);
        vstd::utf8::encode_utf8_valid_utf8(front@);
        vstd::utf8::is_char_boundary_iff_not_is_continuation_byte(whole, start as int);
        vstd::utf8::is_char_boundary_iff_not_is_continuation_byte(bytes, start as int);
        assert(bytes[start as int] == whole[start as int]);
    }
    let (_, middle) = front.split_at(start);
    proof {
        let whole = crate::bytes::text(source);
        let bytes = crate::bytes::text(front);
        assert(bytes.subrange(start as int, bytes.len() as int) =~= whole.subrange(
            start as int,
            end as int,
        ));
        vstd::utf8::encode_utf8_decode_utf8(middle@);
    }
    Some(middle.to_owned())
}

/// The decimal digits of a number as text.
pub open spec fn number_text(value: nat) -> Seq<char> {
    Seq::new(decimal_digits(value).len(), |i: int| decimal_digits(value)[i] as char)
}

pub fn push_number(target: &mut String, value: u64)
    ensures
        final(target)@ == old(target)@ + number_text(value as nat),
{
    let digits = decimal_bytes(value);
    let mut index: usize = 0;
    let ghost before = target@;
    while index < digits.len()
        invariant
            index <= digits@.len(),
            digits@ == decimal_digits(value as nat),
            target@ == before + number_text(value as nat).subrange(0, index as int),
        decreases digits@.len() - index,
    {
        target.push(digits[index] as char);
        assert(target@ =~= before + number_text(value as nat).subrange(0, index + 1));
        index = index + 1;
    }
    assert(number_text(value as nat).subrange(0, digits@.len() as int) =~= number_text(
        value as nat,
    ));
}

/// The place of the first line feed.
pub open spec fn line_end(s: Seq<char>, from: int) -> int
    decreases s.len() - from,
{
    if 0 <= from < s.len() && s[from] != '\n' {
        line_end(s, from + 1)
    } else {
        from
    }
}

pub proof fn lemma_line_end(s: Seq<char>, from: int)
    requires
        0 <= from <= s.len(),
    ensures
        from <= line_end(s, from) <= s.len(),
    decreases s.len() - from,
{
    if from < s.len() && s[from] != '\n' {
        lemma_line_end(s, from + 1);
    }
}

/// The lines of a text. A line ends with a line feed, or with a carriage return
/// and a line feed; text behind the last one is a line too.
pub open spec fn text_lines(s: Seq<char>) -> Seq<Seq<char>>
    decreases s.len(),
{
    if s.len() == 0 {
        Seq::empty()
    } else {
        let end = line_end(s, 0);
        proof {
            lemma_line_end(s, 0);
        }
        if end >= s.len() {
            seq![s]
        } else {
            seq![
                if end > 0 && s[end - 1] == '\r' {
                    s.subrange(0, end - 1)
                } else {
                    s.subrange(0, end)
                },
            ] + text_lines(s.subrange(end + 1, s.len() as int))
        }
    }
}

/// The views of strings.
pub open spec fn string_views(strings: Seq<String>) -> Seq<Seq<char>> {
    Seq::new(strings.len(), |i: int| strings[i]@)
}

proof fn lemma_line_end_shift(s: Seq<char>, from: int, start: int)
    requires
        0 <= start <= from <= s.len(),
    ensures
        line_end(s.subrange(start, s.len() as int), from - start) == line_end(s, from) - start,
    decreases s.len() - from,
{
    let rest = s.subrange(start, s.len() as int);
    if from < s.len() {
        assert(rest[from - start] == s[from]);
        if s[from] != '\n' {
            lemma_line_end_shift(s, from + 1, start);
        }
    }
}

pub fn lines_of(text: &str) -> (lines: Vec<String>)
    ensures
        string_views(lines@) == text_lines(text@),
{
    let characters = chars_of(text);
    let mut lines: Vec<String> = Vec::new();
    let mut start: usize = 0;
    assert(text@.subrange(0, text@.len() as int) =~= text@);
    assert(string_views(lines@) + text_lines(text@) =~= text_lines(text@));
    while start < characters.len()
        invariant
            start <= characters@.len(),
            characters@ == text@,
            string_views(lines@) + text_lines(text@.subrange(start as int, text@.len() as int))
                == text_lines(text@),
        decreases characters@.len() - start,
    {
        let ghost rest = text@.subrange(start as int, text@.len() as int);
        let ghost before = lines@;
        let mut end: usize = start;
        while end < characters.len() && characters[end] != '\n'
            invariant
                start <= end <= characters@.len(),
                characters@ == text@,
                line_end(text@, end as int) == line_end(text@, start as int),
            decreases characters@.len() - end,
        {
            end = end + 1;
        }
        proof {
            lemma_line_end_shift(text@, start as int, start as int);
            assert(line_end(rest, 0) == end - start);
        }
        if end >= characters.len() {
            lines.push(text_between(&characters, start, end));
            proof {
                assert(lines@.last()@ =~= rest);
                assert(string_views(lines@) =~= string_views(before) + seq![rest]);
                assert(text@.subrange(end as int, text@.len() as int) =~= Seq::<char>::empty());
                assert(string_views(lines@) + Seq::<Seq<char>>::empty() =~= string_views(lines@));
            }
            start = end;
        } else {
            let cut: usize = if end > start && characters[end - 1] == '\r' {
                end - 1
            } else {
                end
            };
            lines.push(text_between(&characters, start, cut));
            proof {
                let line = lines@.last()@;
                assert(line =~= rest.subrange(0, cut - start));
                assert(rest.subrange(end - start + 1, rest.len() as int) =~= text@.subrange(
                    end + 1,
                    text@.len() as int,
                ));
                assert(string_views(lines@) =~= string_views(before) + seq![line]);
                assert((string_views(before) + seq![line]) + text_lines(
                    text@.subrange(end + 1, text@.len() as int),
                ) =~= string_views(before) + (seq![line] + text_lines(
                    text@.subrange(end + 1, text@.len() as int),
                )));
            }
            start = end + 1;
        }
    }
    assert(text@.subrange(start as int, text@.len() as int) =~= Seq::<char>::empty());
    assert(string_views(lines@) + Seq::<Seq<char>>::empty() =~= string_views(lines@));
    lines
}

/// The text that `String::from_utf8_lossy` reads out of bytes.
pub uninterp spec fn lossy(bytes: Seq<u8>) -> Seq<char>;

/// `String::from_utf8_lossy` reads valid UTF-8 as it is. How it replaces what is
/// not valid has only a name here.
#[verifier::external_body]
pub(crate) fn lossy_text(bytes: &[u8]) -> (text: String)
    ensures
        text@ == lossy(bytes@),
        vstd::utf8::valid_utf8(bytes@) ==> text@ == vstd::utf8::decode_utf8(bytes@),
{
    String::from_utf8_lossy(bytes).into_owned()
}

/// `std::str::from_utf8` takes exactly the bytes that are valid UTF-8.
#[verifier::external_body]
pub(crate) fn utf8_text(bytes: &[u8]) -> (text: Option<&str>)
    ensures
        text is Some <==> vstd::utf8::valid_utf8(bytes@),
        text matches Some(found) ==> vstd::utf8::encode_utf8(found@) == bytes@,
{
    std::str::from_utf8(bytes).ok()
}

/// Lines with an end behind each.
pub open spec fn ended(lines: Seq<Seq<char>>, end: Seq<char>) -> Seq<char>
    decreases lines.len(),
{
    if lines.len() == 0 {
        Seq::empty()
    } else {
        lines[0] + end + ended(lines.drop_first(), end)
    }
}

proof fn lemma_line_end_found(s: Seq<char>, from: int, at: int)
    requires
        0 <= from <= at < s.len(),
        s[at] == '\n',
        forall|i: int| from <= i < at ==> s[i] != '\n',
    ensures
        line_end(s, from) == at,
    decreases at - from,
{
    if from < at {
        lemma_line_end_found(s, from + 1, at);
    }
}

/// Lines that were written with a line feed behind each, or with a carriage return and a
/// line feed, are read back as they were.
pub proof fn law_ended_lines_are_read_back(lines: Seq<Seq<char>>, returned: bool)
    requires
        forall|i: int|
            0 <= i < lines.len() ==> !(#[trigger] lines[i]).contains('\n') && (lines[i].len() > 0
                ==> lines[i].last() != '\r'),
    ensures
        text_lines(
            ended(
                lines,
                if returned {
                    seq!['\r', '\n']
                } else {
                    seq!['\n']
                },
            ),
        ) == lines,
    decreases lines.len(),
{
    let end = if returned {
        seq!['\r', '\n']
    } else {
        seq!['\n']
    };
    let s = ended(lines, end);
    if lines.len() == 0 {
        assert(lines =~= Seq::<Seq<char>>::empty());
    } else {
        let first = lines[0];
        let rest = lines.drop_first();
        assert forall|i: int| 0 <= i < rest.len() implies !(#[trigger] rest[i]).contains('\n') && (
        rest[i].len() > 0 ==> rest[i].last() != '\r') by {
            assert(rest[i] == lines[i + 1]);
        }
        law_ended_lines_are_read_back(rest, returned);
        let at = first.len() + end.len() - 1;
        assert(s[at] == '\n');
        assert forall|i: int| 0 <= i < at implies s[i] != '\n' by {
            if i < first.len() {
                assert(first.contains(first[i]));
            }
        }
        lemma_line_end_found(s, 0, at);
        assert(s.subrange(at + 1, s.len() as int) =~= ended(rest, end));
        if returned {
            assert(s[at - 1] == '\r');
            assert(s.subrange(0, at - 1) =~= first);
        } else {
            if at > 0 {
                assert(s[at - 1] == first.last());
            }
            assert(s.subrange(0, at) =~= first);
        }
        assert(seq![first] + rest =~= lines);
    }
}

/// Trimming takes blanks from the two ends until none is left there, and nothing else.
pub proof fn law_trimming_takes_only_blanks(s: Seq<char>)
    ensures
        exists|from: int, to: int|
            {
                &&& 0 <= from <= to <= s.len()
                &&& trimmed(s) == #[trigger] s.subrange(from, to)
                &&& forall|i: int| 0 <= i < from || to <= i < s.len() ==> is_whitespace(#[trigger] s[i])
                &&& from < to ==> !is_whitespace(s[from]) && !is_whitespace(s[to - 1])
            },
{
    let from = lemma_trim_start(s);
    let front = s.subrange(from, s.len() as int);
    let length = lemma_trim_end(front);
    let to = from + length;
    assert(front.subrange(0, length) =~= s.subrange(from, to));
    assert forall|i: int| 0 <= i < from || to <= i < s.len() implies is_whitespace(
        #[trigger] s[i],
    ) by {
        if i >= to {
            assert(front[i - from] == s[i]);
        }
    }
    if from < to {
        assert(front[length - 1] == s[to - 1]);
        assert(front[0] == s[from]);
    }
    assert(trimmed(s) == s.subrange(from, to));
}

proof fn lemma_trim_start(s: Seq<char>) -> (from: int)
    ensures
        0 <= from <= s.len(),
        trim_start(s) == s.subrange(from, s.len() as int),
        forall|i: int| 0 <= i < from ==> is_whitespace(#[trigger] s[i]),
        from < s.len() ==> !is_whitespace(s[from]),
    decreases s.len(),
{
    if s.len() > 0 && is_whitespace(s[0]) {
        let rest = s.subrange(1, s.len() as int);
        let from = lemma_trim_start(rest);
        assert(rest.subrange(from, rest.len() as int) =~= s.subrange(from + 1, s.len() as int));
        assert forall|i: int| 0 <= i < from + 1 implies is_whitespace(#[trigger] s[i]) by {
            if i > 0 {
                assert(rest[i - 1] == s[i]);
            }
        }
        if from < rest.len() {
            assert(rest[from] == s[from + 1]);
        }
        from + 1
    } else {
        assert(s.subrange(0, s.len() as int) =~= s);
        0
    }
}

proof fn lemma_trim_end(s: Seq<char>) -> (to: int)
    ensures
        0 <= to <= s.len(),
        trim_end(s) == s.subrange(0, to),
        forall|i: int| to <= i < s.len() ==> is_whitespace(#[trigger] s[i]),
        to > 0 ==> !is_whitespace(s[to - 1]),
    decreases s.len(),
{
    if s.len() > 0 && is_whitespace(s.last()) {
        let rest = s.drop_last();
        let to = lemma_trim_end(rest);
        assert(rest.subrange(0, to) =~= s.subrange(0, to));
        assert forall|i: int| to <= i < s.len() implies is_whitespace(#[trigger] s[i]) by {
            if i < rest.len() {
                assert(rest[i] == s[i]);
            }
        }
        to
    } else {
        assert(s.subrange(0, s.len() as int) =~= s);
        s.len() as int
    }
}

/// A number is written in decimal digits that have its value, without a zero in front.
pub proof fn law_numbers_are_written_in_digits(value: nat)
    ensures
        number_text(value).len() > 0,
        crate::values::digits_value(number_text(value)) == value,
        forall|i: int| 0 <= i < number_text(value).len() ==> '0' <= #[trigger] number_text(value)[i]
            <= '9',
        value > 0 ==> number_text(value)[0] != '0',
    decreases value,
{
    crate::values::lemma_number_digits(value);
    if value >= 10 {
        law_numbers_are_written_in_digits(value / 10);
    }
}

} // verus!
