//! Places in a source text: lines, bytes within a line, and ranges of them.

use crate::bytes::text;
use vstd::prelude::*;
use vstd::utf8::is_char_boundary;

verus! {

/// A zero-based line and a byte offset into it.
#[derive(Clone, Copy, Debug, PartialEq, Eq, PartialOrd, Ord, Structural)]
pub struct SourcePosition {
    pub line: usize,
    pub byte: usize,
}

impl SourcePosition {
    /// Positions are ordered by line, then by byte.
    pub open spec fn before(self, other: SourcePosition) -> bool {
        self.line < other.line || (self.line == other.line && self.byte < other.byte)
    }

    pub open spec fn at_most(self, other: SourcePosition) -> bool {
        self.before(other) || self == other
    }

    pub fn is_before(self, other: SourcePosition) -> (before: bool)
        ensures
            before == self.before(other),
    {
        self.line < other.line || (self.line == other.line && self.byte < other.byte)
    }

    pub fn is_at_most(self, other: SourcePosition) -> (at_most: bool)
        ensures
            at_most == self.at_most(other),
    {
        self.line < other.line || (self.line == other.line && self.byte <= other.byte)
    }
}

/// A range of positions without its end.
#[derive(Clone, Copy, Debug, PartialEq, Eq, Structural)]
pub struct SourceRange {
    pub start: SourcePosition,
    pub end: SourcePosition,
}

impl SourceRange {
    pub open spec fn holds(self, point: SourcePosition) -> bool {
        self.start.at_most(point) && point.before(self.end)
    }

    /// The range lies inside `other`.
    pub open spec fn within(self, other: SourceRange) -> bool {
        other.start.at_most(self.start) && self.end.at_most(other.end)
    }

    pub fn is_empty(self) -> (empty: bool)
        ensures
            empty <==> forall|point: SourcePosition| !#[trigger] self.holds(point),
    {
        let empty = self.end.is_at_most(self.start);
        proof {
            if !empty {
                assert(self.holds(self.start));
            }
        }
        empty
    }

    pub fn contains(self, point: SourcePosition) -> (contains: bool)
        ensures
            contains == self.holds(point),
    {
        self.start.is_at_most(point) && point.is_before(self.end)
    }

    pub fn lies_within(self, other: SourceRange) -> (within: bool)
        ensures
            within == self.within(other),
    {
        other.start.is_at_most(self.start) && self.end.is_at_most(other.end)
    }
}

/// The offsets behind the line feeds from `from` on.
pub open spec fn starts_after(bytes: Seq<u8>, from: int) -> Seq<int>
    decreases bytes.len() - from,
{
    if from < 0 || from >= bytes.len() {
        Seq::empty()
    } else if bytes[from] == 10 {
        seq![from + 1] + starts_after(bytes, from + 1)
    } else {
        starts_after(bytes, from + 1)
    }
}

/// The offsets at which the lines of a text start.
pub open spec fn line_offsets(bytes: Seq<u8>) -> Seq<int> {
    seq![0] + starts_after(bytes, 0)
}

/// Machine integers as mathematical ones.
pub open spec fn as_ints(values: Seq<usize>) -> Seq<int> {
    Seq::new(values.len(), |i: int| values[i] as int)
}

pub open spec fn ascending(values: Seq<usize>) -> bool {
    forall|i: int, j: int| 0 <= i < j < values.len() ==> values[i] < values[j]
}

/// What line offsets always are: they begin with zero, ascend and stay in the text.
pub open spec fn line_starts_of(starts: Seq<usize>, bytes: Seq<u8>) -> bool {
    &&& as_ints(starts) == line_offsets(bytes)
    &&& ascending(starts)
    &&& starts.len() > 0
    &&& starts[0] == 0
    &&& forall|i: int| 0 <= i < starts.len() ==> #[trigger] starts[i] <= bytes.len()
}

/// The offsets at which the lines start.
pub fn line_starts(bytes: &[u8]) -> (starts: Vec<usize>)
    ensures
        line_starts_of(starts@, bytes@),
{
    let mut starts: Vec<usize> = Vec::new();
    starts.push(0);
    let mut index: usize = 0;
    assert(as_ints(starts@) + starts_after(bytes@, 0) =~= line_offsets(bytes@));
    while index < bytes.len()
        invariant
            index <= bytes.len(),
            as_ints(starts@) + starts_after(bytes@, index as int) == line_offsets(bytes@),
            ascending(starts@),
            starts@.len() > 0,
            starts@[0] == 0,
            forall|i: int| 0 <= i < starts@.len() ==> #[trigger] starts@[i] <= index,
        decreases bytes.len() - index,
    {
        let ghost before = starts@;
        if bytes[index] == 10 {
            starts.push(index + 1);
            proof {
                assert(as_ints(starts@) =~= as_ints(before) + seq![index + 1]);
                assert(as_ints(before) + (seq![index + 1] + starts_after(bytes@, index + 1))
                    =~= as_ints(starts@) + starts_after(bytes@, index + 1));
            }
        }
        index = index + 1;
    }
    assert(as_ints(starts@) + Seq::<int>::empty() =~= as_ints(starts@));
    starts
}

/// How many of the leading offsets are at most `byte`.
pub open spec fn leading_at_most(starts: Seq<usize>, byte: int) -> int
    decreases starts.len(),
{
    if starts.len() > 0 && starts[0] <= byte {
        1 + leading_at_most(starts.subrange(1, starts.len() as int), byte)
    } else {
        0
    }
}

proof fn lemma_leading_at_most(starts: Seq<usize>, byte: int, count: int)
    requires
        0 <= count <= starts.len(),
        forall|i: int| 0 <= i < count ==> #[trigger] starts[i] <= byte,
        count < starts.len() ==> starts[count] > byte,
    ensures
        leading_at_most(starts, byte) == count,
    decreases count,
{
    if count > 0 {
        let rest = starts.subrange(1, starts.len() as int);
        assert forall|i: int| 0 <= i < count - 1 implies #[trigger] rest[i] <= byte by {
            assert(rest[i] == starts[i + 1]);
        }
        lemma_leading_at_most(rest, byte, count - 1);
    }
}

/// How many offsets are at most `byte`, by bisection.
pub fn count_at_most(starts: &[usize], byte: usize) -> (count: usize)
    requires
        ascending(starts@),
    ensures
        count == leading_at_most(starts@, byte as int),
        count <= starts@.len(),
        forall|i: int| 0 <= i < count ==> #[trigger] starts@[i] <= byte,
        forall|i: int| count <= i < starts@.len() ==> #[trigger] starts@[i] > byte,
{
    let mut low: usize = 0;
    let mut high: usize = starts.len();
    while low < high
        invariant
            low <= high <= starts@.len(),
            ascending(starts@),
            forall|i: int| 0 <= i < low ==> #[trigger] starts@[i] <= byte,
            forall|i: int| high <= i < starts@.len() ==> #[trigger] starts@[i] > byte,
        decreases high - low,
    {
        let middle: usize = low + (high - low) / 2;
        if starts[middle] <= byte {
            low = middle + 1;
        } else {
            high = middle;
        }
    }
    proof {
        lemma_leading_at_most(starts@, byte as int, low as int);
    }
    low
}

/// The line that holds a byte of the text.
pub open spec fn line_at(starts: Seq<usize>, byte: int) -> int {
    let count = leading_at_most(starts, byte);
    if count > 0 {
        count - 1
    } else {
        0
    }
}

pub fn line_of(starts: &[usize], byte: usize) -> (line: usize)
    requires
        ascending(starts@),
        starts@.len() > 0,
        starts@[0] == 0,
    ensures
        line == line_at(starts@, byte as int),
        line < starts@.len(),
        starts@[line as int] <= byte,
{
    let count = count_at_most(starts, byte);
    assert(starts@[0] <= byte);
    count - 1
}

/// The position of a byte offset, or none if it lies outside the text or
/// inside a character.
pub open spec fn position_at(source: Seq<u8>, starts: Seq<usize>, byte: int) -> Option<
    SourcePosition,
> {
    if byte > source.len() || !is_char_boundary(source, byte) {
        None
    } else {
        let line = line_at(starts, byte);
        Some(SourcePosition { line: line as usize, byte: (byte - starts[line]) as usize })
    }
}

pub fn source_position(source: &str, starts: &[usize], byte: usize) -> (position: Option<
    SourcePosition,
>)
    requires
        line_starts_of(starts@, text(source)),
    ensures
        position == position_at(text(source), starts@, byte as int),
{
    if byte > source.as_bytes().len() || !source.is_char_boundary(byte) {
        return None;
    }
    let line = line_of(starts, byte);
    Some(SourcePosition { line, byte: byte - starts[line] })
}

/// The range between two byte offsets, or none if it is empty or badly cut.
pub open spec fn range_at(source: Seq<u8>, starts: Seq<usize>, start: int, end: int) -> Option<
    SourceRange,
> {
    if start >= end {
        None
    } else {
        match (position_at(source, starts, start), position_at(source, starts, end)) {
            (Some(first), Some(last)) => Some(SourceRange { start: first, end: last }),
            _ => None,
        }
    }
}

pub fn source_range(source: &str, starts: &[usize], start: usize, end: usize) -> (range: Option<
    SourceRange,
>)
    requires
        line_starts_of(starts@, text(source)),
    ensures
        range == range_at(text(source), starts@, start as int, end as int),
{
    if start >= end {
        return None;
    }
    match source_position(source, starts, start) {
        None => None,
        Some(first) => match source_position(source, starts, end) {
            None => None,
            Some(last) => Some(SourceRange { start: first, end: last }),
        },
    }
}

/// The first and last line of a byte range, if it spans more than one. The end
/// is exclusive: a range that ends at the start of a line does not reach it.
pub open spec fn lines_of(start: int, end: int, source_len: int, starts: Seq<usize>) -> Option<
    (int, int),
> {
    let first = line_at(starts, start);
    let last = line_at(starts, end - 1);
    if start >= end || end > source_len || first >= last {
        None
    } else {
        Some((first, last))
    }
}

pub fn byte_range_to_lines(
    start: usize,
    end: usize,
    source_len: usize,
    starts: &[usize],
) -> (lines: Option<(usize, usize)>)
    requires
        ascending(starts@),
        starts@.len() > 0,
        starts@[0] == 0,
    ensures
        match lines_of(start as int, end as int, source_len as int, starts@) {
            None => lines is None,
            Some((first, last)) => lines matches Some((a, b)) && a == first && b == last,
        },
{
    if start >= end || end > source_len {
        return None;
    }
    let first = line_of(starts, start);
    let last = line_of(starts, end - 1);
    if first < last {
        Some((first, last))
    } else {
        None
    }
}

/// The lines with a line feed between each two.
pub open spec fn joined(lines: Seq<String>) -> Seq<char>
    decreases lines.len(),
{
    if lines.len() == 0 {
        Seq::empty()
    } else if lines.len() == 1 {
        lines[0]@
    } else {
        joined(lines.drop_last()) + seq!['\n'] + lines.last()@
    }
}

pub fn join_lines(lines: &Vec<String>) -> (text: String)
    ensures
        text@ == joined(lines@),
{
    let mut text = String::new();
    let mut index: usize = 0;
    while index < lines.len()
        invariant
            index <= lines.len(),
            text@ == joined(lines@.subrange(0, index as int)),
        decreases lines.len() - index,
    {
        if index > 0 {
            text.push('\n');
        }
        text.push_str(lines[index].as_str());
        proof {
            let next = lines@.subrange(0, index + 1);
            assert(next.drop_last() =~= lines@.subrange(0, index as int));
            assert(text@ =~= joined(next));
        }
        index = index + 1;
    }
    assert(lines@.subrange(0, lines@.len() as int) =~= lines@);
    text
}

// Lines -----------------------------------------------------------------------------------

/// The byte at this offset stands on the line: at or behind its start, and before the
/// start of the next line.
pub open spec fn holds_byte(starts: Seq<usize>, line: int, byte: int) -> bool {
    &&& 0 <= line < starts.len()
    &&& starts[line] <= byte
    &&& line + 1 < starts.len() ==> byte < starts[line + 1]
}

proof fn lemma_count_of_leading(starts: Seq<usize>, byte: int)
    ensures
        0 <= leading_at_most(starts, byte) <= starts.len(),
        forall|i: int|
            0 <= i < leading_at_most(starts, byte) ==> #[trigger] starts[i] <= byte,
        leading_at_most(starts, byte) < starts.len() ==> starts[leading_at_most(starts, byte)]
            > byte,
    decreases starts.len(),
{
    if starts.len() > 0 && starts[0] <= byte {
        let rest = starts.subrange(1, starts.len() as int);
        lemma_count_of_leading(rest, byte);
        assert forall|i: int| 0 <= i < leading_at_most(starts, byte) implies #[trigger] starts[i]
            <= byte by {
            if i > 0 {
                assert(rest[i - 1] == starts[i]);
            }
        }
    }
}

/// A byte stands on one line only, the one that is found for it.
pub proof fn law_each_byte_has_one_line(starts: Seq<usize>, byte: int)
    requires
        ascending(starts),
        starts.len() > 0,
        starts[0] == 0,
        byte >= 0,
    ensures
        holds_byte(starts, line_at(starts, byte), byte),
        forall|line: int| #[trigger] holds_byte(starts, line, byte) ==> line == line_at(starts, byte),
{
    lemma_count_of_leading(starts, byte);
    let found = line_at(starts, byte);
    assert(starts[0] <= byte);
    assert(leading_at_most(starts, byte) > 0);
    assert forall|line: int| #[trigger] holds_byte(starts, line, byte) implies line == found by {
        if line < found {
            assert(starts[line + 1] <= byte);
        } else if line > found {
            assert(found + 1 <= line);
            assert(starts[found + 1] > byte);
        }
    }
}

proof fn lemma_starts_after(bytes: Seq<u8>, from: int, offset: int)
    requires
        0 <= from,
    ensures
        starts_after(bytes, from).contains(offset) <==> from < offset <= bytes.len() && bytes[offset
            - 1] == 10,
    decreases bytes.len() - from,
{
    if from < bytes.len() {
        let rest = starts_after(bytes, from + 1);
        lemma_starts_after(bytes, from + 1, offset);
        if bytes[from] == 10 {
            let all = starts_after(bytes, from);
            assert(all =~= seq![from + 1] + rest);
            if rest.contains(offset) {
                let i = choose|i: int| 0 <= i < rest.len() && rest[i] == offset;
                assert(all[i + 1] == offset);
            }
            if all.contains(offset) {
                let i = choose|i: int| 0 <= i < all.len() && all[i] == offset;
                if i > 0 {
                    assert(rest[i - 1] == offset);
                }
            }
            assert(all[0] == from + 1);
        }
    }
}

/// A line starts at the beginning of a text and behind each line feed, and nowhere else.
pub proof fn law_lines_start_behind_line_feeds(bytes: Seq<u8>, offset: int)
    ensures
        line_offsets(bytes).contains(offset) <==> offset == 0 || (0 < offset <= bytes.len()
            && bytes[offset - 1] == 10),
{
    lemma_starts_after(bytes, 0, offset);
    let all = line_offsets(bytes);
    let rest = starts_after(bytes, 0);
    assert(all[0] == 0);
    if rest.contains(offset) {
        let i = choose|i: int| 0 <= i < rest.len() && rest[i] == offset;
        assert(all[i + 1] == offset);
    }
    if all.contains(offset) {
        let i = choose|i: int| 0 <= i < all.len() && all[i] == offset;
        if i > 0 {
            assert(rest[i - 1] == offset);
        }
    }
}

/// A position counts the bytes from the start of its line: both together lead back to the
/// byte that they stand for.
pub proof fn law_positions_lead_back_to_their_byte(source: Seq<u8>, starts: Seq<usize>, byte: int)
    requires
        line_starts_of(starts, source),
        0 <= byte <= usize::MAX,
    ensures
        position_at(source, starts, byte) is Some <==> byte <= source.len() && is_char_boundary(
            source,
            byte,
        ),
        position_at(source, starts, byte) matches Some(position) ==> holds_byte(
            starts,
            position.line as int,
            byte,
        ) && starts[position.line as int] + position.byte == byte,
{
    if byte <= source.len() {
        law_each_byte_has_one_line(starts, byte);
        lemma_no_fewer_bytes(starts, line_at(starts, byte));
    }
}

proof fn lemma_no_fewer_bytes(starts: Seq<usize>, line: int)
    requires
        ascending(starts),
        0 <= line < starts.len(),
    ensures
        line <= starts[line],
    decreases line,
{
    if line > 0 {
        lemma_no_fewer_bytes(starts, line - 1);
        assert(starts[line - 1] < starts[line]);
    }
}

/// The lines of a range of bytes are those of its first and of its last byte.
pub proof fn law_ranges_span_the_lines_of_their_ends(
    start: int,
    end: int,
    source_len: int,
    starts: Seq<usize>,
)
    requires
        ascending(starts),
        starts.len() > 0,
        starts[0] == 0,
        start >= 0,
    ensures
        lines_of(start, end, source_len, starts) matches Some((first, last)) ==> {
            &&& start < end <= source_len
            &&& first < last
            &&& holds_byte(starts, first, start)
            &&& holds_byte(starts, last, end - 1)
        },
        forall|first: int, last: int|
            #![trigger holds_byte(starts, first, start), holds_byte(starts, last, end - 1)]
            start < end <= source_len && first < last && holds_byte(starts, first, start)
                && holds_byte(starts, last, end - 1) ==> lines_of(start, end, source_len, starts)
                == Some((first, last)),
{
    law_each_byte_has_one_line(starts, start);
    if start < end {
        law_each_byte_has_one_line(starts, end - 1);
    }
}

} // verus!
