//! Positions of the protocol, which counts UTF-16 code units, and positions of
//! the source, which counts bytes.

use crate::source::{SourcePosition, SourceRange};
use crate::text::{chars_of, line_end, lemma_line_end, string_views, text_between};
use vstd::prelude::*;
use vstd::utf8::{encode_scalar, encode_utf8};

verus! {

pub const MAX_NAVIGATION_TEXT_BYTES: usize = 512 * 1024;

pub const MAX_NAVIGATION_LINES: usize = 2_000;

/// A zero-based line and a UTF-16 offset into it.
#[derive(Clone, Copy, Debug, PartialEq, Eq, PartialOrd, Ord, Structural)]
pub struct Position {
    pub line: u32,
    pub character: u32,
}

/// A range of the protocol without its end.
#[derive(Clone, Copy, Debug, PartialEq, Eq, Structural)]
pub struct Range {
    pub start: Position,
    pub end: Position,
}

#[derive(Clone, Copy, Debug, PartialEq, Eq, Structural)]
pub enum PositionError {
    TextTooLong,
    TooManyLines,
    OutsideDocument,
    NotABoundary,
    InsideSurrogatePair,
    BeyondLineEnd,
    Reversed,
}

impl PositionError {
    pub open spec fn text(self) -> Seq<char> {
        match self {
            PositionError::TextTooLong => "navigation document exceeds 524288 bytes"@,
            PositionError::TooManyLines => "navigation document exceeds 2000 lines"@,
            PositionError::OutsideDocument => "line index is outside the document"@,
            PositionError::NotABoundary =>
                "source byte is outside the line or not a UTF-8 boundary"@,
            PositionError::InsideSurrogatePair => "UTF-16 character points into a surrogate pair"@,
            PositionError::BeyondLineEnd => "UTF-16 character is beyond the line end"@,
            PositionError::Reversed => "LSP range ends before it starts"@,
        }
    }

    pub fn message(&self) -> (text: &'static str)
        ensures
            text@ == self.text(),
    {
        match self {
            PositionError::TextTooLong => "navigation document exceeds 524288 bytes",
            PositionError::TooManyLines => "navigation document exceeds 2000 lines",
            PositionError::OutsideDocument => "line index is outside the document",
            PositionError::NotABoundary =>
                "source byte is outside the line or not a UTF-8 boundary",
            PositionError::InsideSurrogatePair => "UTF-16 character points into a surrogate pair",
            PositionError::BeyondLineEnd => "UTF-16 character is beyond the line end",
            PositionError::Reversed => "LSP range ends before it starts",
        }
    }
}

/// A line without the carriage return at its end.
pub open spec fn without_return(line: Seq<char>) -> Seq<char> {
    if line.len() > 0 && line.last() == '\r' {
        line.drop_last()
    } else {
        line
    }
}

/// The lines of a text as the protocol counts them: one more than there are
/// line feeds, without their ends.
pub open spec fn protocol_lines(s: Seq<char>) -> Seq<Seq<char>>
    decreases s.len(),
{
    let end = line_end(s, 0);
    if 0 <= end < s.len() {
        seq![without_return(s.subrange(0, end))] + protocol_lines(
            s.subrange(end + 1, s.len() as int),
        )
    } else {
        seq![without_return(s)]
    }
}

/// How many bytes the first `count` characters of a line take.
pub open spec fn byte_offset(line: Seq<char>, count: int) -> int {
    encode_utf8(line.subrange(0, count)).len() as int
}

/// How many UTF-16 code units a character takes.
pub open spec fn unit_width(character: char) -> int {
    if (character as u32) < 0x10000 {
        1
    } else {
        2
    }
}

/// How many UTF-16 code units the first `count` characters of a line take.
pub open spec fn unit_offset(line: Seq<char>, count: int) -> int
    decreases count,
{
    if count <= 0 {
        0
    } else {
        unit_offset(line, count - 1) + unit_width(line[count - 1])
    }
}

/// The number of characters, at least `from`, that take this many bytes.
pub open spec fn count_of_byte(line: Seq<char>, byte: int, from: int) -> Option<int>
    decreases line.len() - from + 1,
{
    if from > line.len() {
        None
    } else if byte_offset(line, from) == byte {
        Some(from)
    } else {
        count_of_byte(line, byte, from + 1)
    }
}

/// The number of characters, at least `from`, that take this many units.
pub open spec fn count_of_unit(line: Seq<char>, unit: int, from: int) -> Option<int>
    decreases line.len() - from + 1,
{
    if from > line.len() {
        None
    } else if unit_offset(line, from) == unit {
        Some(from)
    } else {
        count_of_unit(line, unit, from + 1)
    }
}

/// The protocol's position of a source position.
pub open spec fn protocol_position(lines: Seq<Seq<char>>, position: SourcePosition) -> Result<
    Position,
    PositionError,
> {
    if position.line >= lines.len() {
        Err(PositionError::OutsideDocument)
    } else {
        let line = lines[position.line as int];
        match count_of_byte(line, position.byte as int, 0) {
            None => Err(PositionError::NotABoundary),
            Some(count) => Ok(
                Position {
                    line: position.line as u32,
                    character: unit_offset(line, count) as u32,
                },
            ),
        }
    }
}

/// The source position of a position of the protocol.
pub open spec fn source_of(lines: Seq<Seq<char>>, position: Position) -> Result<
    SourcePosition,
    PositionError,
> {
    if position.line >= lines.len() {
        Err(PositionError::OutsideDocument)
    } else {
        let line = lines[position.line as int];
        match count_of_unit(line, position.character as int, 0) {
            Some(count) => Ok(
                SourcePosition {
                    line: position.line as usize,
                    byte: byte_offset(line, count) as usize,
                },
            ),
            None => if position.character > unit_offset(line, line.len() as int) {
                Err(PositionError::BeyondLineEnd)
            } else {
                Err(PositionError::InsideSurrogatePair)
            },
        }
    }
}

/// The source range of a range of the protocol.
pub open spec fn source_range_of(lines: Seq<Seq<char>>, range: Range) -> Result<
    SourceRange,
    PositionError,
> {
    match source_of(lines, range.start) {
        Err(error) => Err(error),
        Ok(start) => match source_of(lines, range.end) {
            Err(error) => Err(error),
            Ok(end) => if end.before(start) {
                Err(PositionError::Reversed)
            } else {
                Ok(SourceRange { start, end })
            },
        },
    }
}

/// What the lines of a text that was let in keep to.
pub open spec fn are_small(lines: Seq<Seq<char>>) -> bool {
    &&& 0 < lines.len() <= MAX_NAVIGATION_LINES + 1
    &&& forall|i: int|
        0 <= i < lines.len() ==> encode_utf8(#[trigger] lines[i]).len() <= MAX_NAVIGATION_TEXT_BYTES
}

pub proof fn lemma_encode_append(front: Seq<char>, back: Seq<char>)
    ensures
        encode_utf8(front + back) == encode_utf8(front) + encode_utf8(back),
    decreases front.len(),
{
    if front.len() == 0 {
        assert(front + back =~= back);
        assert(encode_utf8(front) + encode_utf8(back) =~= encode_utf8(back));
    } else {
        assert((front + back).drop_first() =~= front.drop_first() + back);
        lemma_encode_append(front.drop_first(), back);
        assert(encode_scalar(front[0] as u32) + (encode_utf8(front.drop_first()) + encode_utf8(
            back,
        )) =~= encode_utf8(front) + encode_utf8(back));
    }
}

/// How many bytes a character takes.
pub open spec fn byte_width(character: char) -> int {
    if (character as u32) < 0x80 {
        1
    } else if (character as u32) < 0x800 {
        2
    } else if (character as u32) < 0x10000 {
        3
    } else {
        4
    }
}

pub proof fn lemma_byte_step(line: Seq<char>, count: int)
    requires
        0 <= count < line.len(),
    ensures
        byte_offset(line, count + 1) == byte_offset(line, count) + byte_width(line[count]),
{
    let last = line[count];
    let front = line.subrange(0, count);
    lemma_encode_append(front, seq![last]);
    assert(line.subrange(0, count + 1) =~= front + seq![last]);
    vstd::utf8::char_is_scalar(last);
    assert(seq![last].drop_first() =~= Seq::<char>::empty());
    assert(encode_utf8(Seq::<char>::empty()).len() == 0);
    assert(encode_utf8(seq![last]) =~= encode_scalar(last as u32));
}

pub proof fn lemma_bytes_ascend(line: Seq<char>, low: int, high: int)
    requires
        0 <= low <= high <= line.len(),
    ensures
        byte_offset(line, low) + (high - low) <= byte_offset(line, high),
    decreases high - low,
{
    if low < high {
        lemma_bytes_ascend(line, low, high - 1);
        lemma_byte_step(line, high - 1);
    }
}

pub proof fn lemma_units_ascend(line: Seq<char>, low: int, high: int)
    requires
        0 <= low <= high,
    ensures
        unit_offset(line, low) + (high - low) <= unit_offset(line, high),
    decreases high - low,
{
    if low < high {
        lemma_units_ascend(line, low, high - 1);
    }
}

pub proof fn lemma_units_at_most_bytes(line: Seq<char>, count: int)
    requires
        0 <= count <= line.len(),
    ensures
        0 <= unit_offset(line, count) <= byte_offset(line, count),
    decreases count,
{
    if count > 0 {
        lemma_units_at_most_bytes(line, count - 1);
        lemma_byte_step(line, count - 1);
    }
}

proof fn lemma_found_byte(line: Seq<char>, count: int, from: int)
    requires
        0 <= from <= count <= line.len(),
    ensures
        count_of_byte(line, byte_offset(line, count), from) == Some(count),
    decreases count - from,
{
    if from < count {
        lemma_bytes_ascend(line, from, count);
        lemma_found_byte(line, count, from + 1);
    }
}

proof fn lemma_found_unit(line: Seq<char>, count: int, from: int)
    requires
        0 <= from <= count <= line.len(),
    ensures
        count_of_unit(line, unit_offset(line, count), from) == Some(count),
    decreases count - from,
{
    if from < count {
        lemma_units_ascend(line, from, count);
        lemma_found_unit(line, count, from + 1);
    }
}

proof fn lemma_byte_count(line: Seq<char>, byte: int, from: int)
    requires
        0 <= from,
    ensures
        count_of_byte(line, byte, from) matches Some(count) ==> from <= count <= line.len()
            && byte_offset(line, count) == byte,
    decreases line.len() - from + 1,
{
    if from <= line.len() && byte_offset(line, from) != byte {
        lemma_byte_count(line, byte, from + 1);
    }
}

proof fn lemma_unit_count(line: Seq<char>, unit: int, from: int)
    requires
        0 <= from,
    ensures
        count_of_unit(line, unit, from) matches Some(count) ==> from <= count <= line.len()
            && unit_offset(line, count) == unit,
    decreases line.len() - from + 1,
{
    if from <= line.len() && unit_offset(line, from) != unit {
        lemma_unit_count(line, unit, from + 1);
    }
}

proof fn lemma_no_byte(line: Seq<char>, byte: int, from: int)
    requires
        0 <= from,
        from <= line.len() ==> byte_offset(line, from) > byte,
    ensures
        count_of_byte(line, byte, from) is None,
    decreases line.len() - from + 1,
{
    if from < line.len() {
        lemma_byte_step(line, from);
        lemma_no_byte(line, byte, from + 1);
    } else if from == line.len() {
        lemma_no_byte(line, byte, from + 1);
    }
}

proof fn lemma_no_unit(line: Seq<char>, unit: int, from: int)
    requires
        0 <= from,
        from <= line.len() ==> unit_offset(line, from) > unit,
    ensures
        count_of_unit(line, unit, from) is None,
    decreases line.len() - from + 1,
{
    if from <= line.len() {
        assert(unit_offset(line, from + 1) > unit_offset(line, from));
        lemma_no_unit(line, unit, from + 1);
    }
}

/// A source position at a character of the text survives the way to the
/// protocol and back.
pub proof fn law_source_positions_round_trip(lines: Seq<Seq<char>>, position: SourcePosition)
    requires
        are_small(lines),
        protocol_position(lines, position) is Ok,
    ensures
        source_of(lines, protocol_position(lines, position)->Ok_0) == Ok::<_, PositionError>(
            position,
        ),
{
    let line = lines[position.line as int];
    lemma_byte_count(line, position.byte as int, 0);
    let count = count_of_byte(line, position.byte as int, 0)->0;
    lemma_units_at_most_bytes(line, count);
    lemma_whole_line(line, count);
    lemma_found_unit(line, count, 0);
}

/// A position of the protocol that falls on a character survives the way to
/// the source and back.
pub proof fn law_protocol_positions_round_trip(lines: Seq<Seq<char>>, position: Position)
    requires
        are_small(lines),
        source_of(lines, position) is Ok,
    ensures
        protocol_position(lines, source_of(lines, position)->Ok_0) == Ok::<_, PositionError>(
            position,
        ),
{
    let line = lines[position.line as int];
    lemma_unit_count(line, position.character as int, 0);
    let count = count_of_unit(line, position.character as int, 0)->0;
    lemma_whole_line(line, count);
    lemma_found_byte(line, count, 0);
}

proof fn lemma_whole_line(line: Seq<char>, count: int)
    requires
        0 <= count <= line.len(),
    ensures
        byte_offset(line, count) <= encode_utf8(line).len(),
{
    lemma_bytes_ascend(line, count, line.len() as int);
    assert(line.subrange(0, line.len() as int) =~= line);
}

fn width_in_bytes(character: char) -> (width: usize)
    ensures
        width == byte_width(character),
{
    let scalar = character as u32;
    if scalar < 0x80 {
        1
    } else if scalar < 0x800 {
        2
    } else if scalar < 0x10000 {
        3
    } else {
        4
    }
}

fn width_in_units(character: char) -> (width: u32)
    ensures
        width == unit_width(character),
{
    if (character as u32) < 0x10000 {
        1
    } else {
        2
    }
}

/// The lines of the exact text that was sent to a server.
#[derive(Debug)]
pub struct LineIndex {
    pub lines: Vec<String>,
}

impl View for LineIndex {
    type V = Seq<Seq<char>>;

    open spec fn view(&self) -> Seq<Seq<char>> {
        string_views(self.lines@)
    }
}

proof fn lemma_lines_are_small(s: Seq<char>)
    ensures
        protocol_lines(s).len() > 0,
        forall|i: int|
            0 <= i < protocol_lines(s).len() ==> encode_utf8(
                #[trigger] protocol_lines(s)[i],
            ).len() <= encode_utf8(s).len(),
    decreases s.len(),
{
    let end = line_end(s, 0);
    lemma_line_end(s, 0);
    if end < s.len() {
        let line = s.subrange(0, end);
        let rest = s.subrange(end + 1, s.len() as int);
        lemma_lines_are_small(rest);
        lemma_encode_append(line, s.subrange(end, s.len() as int));
        assert(line + s.subrange(end, s.len() as int) =~= s);
        lemma_encode_append(s.subrange(0, end + 1), rest);
        assert(s.subrange(0, end + 1) + rest =~= s);
        lemma_stripped(line);
        let all = protocol_lines(s);
        assert(all =~= seq![without_return(line)] + protocol_lines(rest));
        assert forall|i: int| 0 <= i < all.len() implies encode_utf8(#[trigger] all[i]).len()
            <= encode_utf8(s).len() by {
            if i > 0 {
                assert(all[i] == protocol_lines(rest)[i - 1]);
            }
        }
    } else {
        lemma_stripped(s);
    }
}

proof fn lemma_stripped(line: Seq<char>)
    ensures
        encode_utf8(without_return(line)).len() <= encode_utf8(line).len(),
{
    if line.len() > 0 {
        lemma_encode_append(line.drop_last(), seq![line.last()]);
        assert(line.drop_last() + seq![line.last()] =~= line);
    }
}

impl LineIndex {
    pub open spec fn well_formed(&self) -> bool {
        are_small(self@)
    }

    /// The lines of a text that is not too large for navigation.
    pub fn new(source: &str) -> (result: Result<Self, PositionError>)
        ensures
            match result {
                Ok(index) => index@ == protocol_lines(source@) && index.well_formed(),
                Err(_) => true,
            },
            (result == Err::<Self, _>(PositionError::TextTooLong)) == (encode_utf8(source@).len()
                > MAX_NAVIGATION_TEXT_BYTES),
            (result == Err::<Self, _>(PositionError::TooManyLines)) == (encode_utf8(source@).len()
                <= MAX_NAVIGATION_TEXT_BYTES && protocol_lines(source@).len() > MAX_NAVIGATION_LINES
                + 1),
            result is Err ==> (result->Err_0 == PositionError::TextTooLong || result->Err_0
                == PositionError::TooManyLines),
    {
        if source.as_bytes().len() > MAX_NAVIGATION_TEXT_BYTES {
            return Err(PositionError::TextTooLong);
        }
        let characters = chars_of(source);
        let mut lines: Vec<String> = Vec::new();
        let mut start: usize = 0;
        let mut index: usize = 0;
        let ghost all = characters@;
        proof {
            assert(all.subrange(0, all.len() as int) =~= all);
            assert(string_views(lines@) + protocol_lines(all) =~= protocol_lines(all));
            lemma_lines_are_small(all);
        }
        while index < characters.len()
            invariant
                start <= index <= characters@.len(),
                all == characters@,
                forall|i: int| start <= i < index ==> #[trigger] all[i] != '\n',
                string_views(lines@) + protocol_lines(
                    all.subrange(start as int, all.len() as int),
                ) == protocol_lines(all),
            decreases characters@.len() - index,
        {
            if characters[index] == '\n' {
                let ghost rest = all.subrange(start as int, all.len() as int);
                let ghost before = lines@;
                let line = bare_line(&characters, start, index);
                proof {
                    lemma_feed_at(rest, 0, index - start);
                    assert(rest.subrange(0, index - start) =~= all.subrange(
                        start as int,
                        index as int,
                    ));
                    assert(rest.subrange(index - start + 1, rest.len() as int) =~= all.subrange(
                        index + 1,
                        all.len() as int,
                    ));
                }
                let ghost said = line@;
                lines.push(line);
                proof {
                    assert(string_views(lines@) =~= string_views(before) + seq![said]);
                    assert(string_views(before) + (seq![said] + protocol_lines(
                        all.subrange(index + 1, all.len() as int),
                    )) =~= string_views(lines@) + protocol_lines(
                        all.subrange(index + 1, all.len() as int),
                    ));
                }
                start = index + 1;
            }
            index = index + 1;
        }
        let ghost rest = all.subrange(start as int, all.len() as int);
        let ghost before = lines@;
        let line = bare_line(&characters, start, index);
        proof {
            lemma_no_feed(rest, 0);
        }
        let ghost said = line@;
        lines.push(line);
        assert(string_views(lines@) =~= string_views(before) + seq![said]);
        assert(string_views(lines@) == protocol_lines(all));
        if lines.len() > MAX_NAVIGATION_LINES + 1 {
            return Err(PositionError::TooManyLines);
        }
        Ok(LineIndex { lines })
    }

    pub fn line_count(&self) -> (count: usize)
        ensures
            count == self@.len(),
    {
        self.lines.len()
    }

    /// The position behind the last character.
    pub fn end_position(&self) -> (position: SourcePosition)
        requires
            self.well_formed(),
        ensures
            position.line == self@.len() - 1,
            position.byte == encode_utf8(self@.last()).len(),
    {
        let line: usize = self.lines.len() - 1;
        assert(self@[line as int] == self.lines@[line as int]@);
        SourcePosition { line, byte: self.lines[line].as_str().as_bytes().len() }
    }

    pub fn to_utf16(&self, position: SourcePosition) -> (result: Result<Position, PositionError>)
        requires
            self.well_formed(),
        ensures
            result == protocol_position(self@, position),
    {
        if position.line >= self.lines.len() {
            return Err(PositionError::OutsideDocument);
        }
        let characters = chars_of(self.lines[position.line].as_str());
        let ghost line = self@[position.line as int];
        let mut index: usize = 0;
        let mut byte: usize = 0;
        let mut character: u32 = 0;
        assert(line.subrange(0, 0) =~= Seq::<char>::empty());
        assert(encode_utf8(Seq::<char>::empty()).len() == 0);
        while index < characters.len() && byte < position.byte
            invariant
                index <= characters@.len(),
                characters@ == line,
                encode_utf8(line).len() <= MAX_NAVIGATION_TEXT_BYTES,
                byte == byte_offset(line, index as int),
                character == unit_offset(line, index as int),
                count_of_byte(line, position.byte as int, 0) == count_of_byte(
                    line,
                    position.byte as int,
                    index as int,
                ),
            decreases characters@.len() - index,
        {
            proof {
                lemma_byte_step(line, index as int);
                lemma_whole_line(line, index + 1);
                lemma_units_at_most_bytes(line, index + 1);
            }
            byte = byte + width_in_bytes(characters[index]);
            character = character + width_in_units(characters[index]);
            index = index + 1;
        }
        if byte == position.byte {
            Ok(Position { line: position.line as u32, character })
        } else {
            proof {
                if byte > position.byte {
                    lemma_no_byte(line, position.byte as int, index as int);
                } else {
                    assert(count_of_byte(line, position.byte as int, index + 1) is None);
                }
            }
            Err(PositionError::NotABoundary)
        }
    }

    pub fn source_position_for_utf16(&self, position: Position) -> (result: Result<
        SourcePosition,
        PositionError,
    >)
        requires
            self.well_formed(),
        ensures
            result == source_of(self@, position),
    {
        let line_index = position.line as usize;
        if line_index >= self.lines.len() {
            return Err(PositionError::OutsideDocument);
        }
        let characters = chars_of(self.lines[line_index].as_str());
        let ghost line = self@[line_index as int];
        let mut index: usize = 0;
        let mut byte: usize = 0;
        let mut units: u32 = 0;
        assert(line.subrange(0, 0) =~= Seq::<char>::empty());
        assert(encode_utf8(Seq::<char>::empty()).len() == 0);
        while index < characters.len() && units < position.character
            invariant
                index <= characters@.len(),
                characters@ == line,
                encode_utf8(line).len() <= MAX_NAVIGATION_TEXT_BYTES,
                byte == byte_offset(line, index as int),
                units == unit_offset(line, index as int),
                count_of_unit(line, position.character as int, 0) == count_of_unit(
                    line,
                    position.character as int,
                    index as int,
                ),
            decreases characters@.len() - index,
        {
            proof {
                lemma_byte_step(line, index as int);
                lemma_whole_line(line, index + 1);
                lemma_units_at_most_bytes(line, index + 1);
            }
            byte = byte + width_in_bytes(characters[index]);
            units = units + width_in_units(characters[index]);
            index = index + 1;
        }
        if units == position.character {
            Ok(SourcePosition { line: line_index, byte })
        } else if units > position.character {
            proof {
                lemma_no_unit(line, position.character as int, index as int);
                lemma_units_ascend(line, index as int, line.len() as int);
            }
            Err(PositionError::InsideSurrogatePair)
        } else {
            assert(count_of_unit(line, position.character as int, index + 1) is None);
            Err(PositionError::BeyondLineEnd)
        }
    }

    pub fn range_from_utf16(&self, range: Range) -> (result: Result<SourceRange, PositionError>)
        requires
            self.well_formed(),
        ensures
            result == source_range_of(self@, range),
    {
        let start = match self.source_position_for_utf16(range.start) {
            Err(error) => {
                return Err(error);
            },
            Ok(start) => start,
        };
        let end = match self.source_position_for_utf16(range.end) {
            Err(error) => {
                return Err(error);
            },
            Ok(end) => end,
        };
        if end.is_before(start) {
            return Err(PositionError::Reversed);
        }
        Ok(SourceRange { start, end })
    }
}

fn bare_line(characters: &Vec<char>, start: usize, end: usize) -> (line: String)
    requires
        start <= end <= characters@.len(),
    ensures
        line@ == without_return(characters@.subrange(start as int, end as int)),
{
    let ghost whole = characters@.subrange(start as int, end as int);
    if start < end && characters[end - 1] == '\r' {
        assert(whole.drop_last() =~= characters@.subrange(start as int, end - 1));
        text_between(characters, start, end - 1)
    } else {
        text_between(characters, start, end)
    }
}

proof fn lemma_feed_at(s: Seq<char>, from: int, end: int)
    requires
        0 <= from <= end < s.len(),
        s[end] == '\n',
        forall|i: int| from <= i < end ==> #[trigger] s[i] != '\n',
    ensures
        line_end(s, from) == end,
    decreases end - from,
{
    if from < end {
        lemma_feed_at(s, from + 1, end);
    }
}

proof fn lemma_no_feed(s: Seq<char>, from: int)
    requires
        0 <= from <= s.len(),
        forall|i: int| from <= i < s.len() ==> #[trigger] s[i] != '\n',
    ensures
        line_end(s, from) == s.len(),
    decreases s.len() - from,
{
    if from < s.len() {
        lemma_no_feed(s, from + 1);
    }
}

/// How many of the first characters of a line lie beyond the basic plane. UTF-16 writes
/// each of these with two units, and every other character with one.
pub open spec fn pairs_among(line: Seq<char>, count: int) -> int
    decreases count,
{
    if count <= 0 {
        0
    } else {
        pairs_among(line, count - 1) + (if line[count - 1] as u32 > 0xffff {
            1int
        } else {
            0
        })
    }
}

proof fn lemma_units_counted(line: Seq<char>, count: int)
    requires
        0 <= count,
    ensures
        unit_offset(line, count) == count + pairs_among(line, count),
        0 <= pairs_among(line, count),
    decreases count,
{
    if count > 0 {
        lemma_units_counted(line, count - 1);
    }
}

/// The place behind some characters of a line is told in bytes by the source and in UTF-16
/// units by the protocol, and each leads to the other.
pub proof fn law_places_count_bytes_and_units(lines: Seq<Seq<char>>, line: int, count: int)
    requires
        are_small(lines),
        0 <= line < lines.len(),
        0 <= count <= lines[line].len(),
    ensures
        ({
            let source = SourcePosition {
                line: line as usize,
                byte: encode_utf8(lines[line].take(count)).len() as usize,
            };
            let place = Position {
                line: line as u32,
                character: (count + pairs_among(lines[line], count)) as u32,
            };
            &&& protocol_position(lines, source) == Ok::<_, PositionError>(place)
            &&& source_of(lines, place) == Ok::<_, PositionError>(source)
        }),
{
    let words = lines[line];
    assert(words.take(count) =~= words.subrange(0, count));
    lemma_units_counted(words, count);
    lemma_units_at_most_bytes(words, count);
    lemma_whole_line(words, count);
    lemma_found_byte(words, count, 0);
    lemma_found_unit(words, count, 0);
}

/// Lines with a line feed between each two.
pub open spec fn fed(lines: Seq<Seq<char>>) -> Seq<char>
    decreases lines.len(),
{
    if lines.len() == 0 {
        Seq::empty()
    } else if lines.len() == 1 {
        lines[0]
    } else {
        lines[0] + seq!['\n'] + fed(lines.drop_first())
    }
}

proof fn lemma_feed_found(s: Seq<char>, from: int, at: int)
    requires
        0 <= from <= at <= s.len(),
        at < s.len() ==> s[at] == '\n',
        forall|i: int| from <= i < at ==> s[i] != '\n',
    ensures
        line_end(s, from) == at,
    decreases at - from,
{
    if from < at {
        lemma_feed_found(s, from + 1, at);
    }
}

/// A document has the lines that it was put together from.
pub proof fn law_lines_of_a_document(lines: Seq<Seq<char>>)
    requires
        lines.len() > 0,
        forall|i: int|
            0 <= i < lines.len() ==> !(#[trigger] lines[i]).contains('\n') && (lines[i].len() > 0
                ==> lines[i].last() != '\r'),
    ensures
        protocol_lines(fed(lines)) == lines,
    decreases lines.len(),
{
    let s = fed(lines);
    let first = lines[0];
    let at = first.len() as int;
    assert forall|i: int| 0 <= i < at implies s[i] != '\n' by {
        assert(first.contains(first[i]));
    }
    lemma_feed_found(s, 0, at);
    if lines.len() == 1 {
        assert(lines =~= seq![first]);
    } else {
        let rest = lines.drop_first();
        assert forall|i: int| 0 <= i < rest.len() implies !(#[trigger] rest[i]).contains('\n') && (
        rest[i].len() > 0 ==> rest[i].last() != '\r') by {
            assert(rest[i] == lines[i + 1]);
        }
        law_lines_of_a_document(rest);
        assert(s[at] == '\n');
        assert(s.subrange(0, at) =~= first);
        assert(s.subrange(at + 1, s.len() as int) =~= fed(rest));
        assert(seq![first] + rest =~= lines);
    }
}

} // verus!
