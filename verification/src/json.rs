//! Byte-level passes over JSON text: resource limits before a parse, and the
//! comments and trailing commas that configuration files may hold.

use vstd::prelude::*;

verus! {

pub const MAX_JSON_DEPTH: usize = 128;

pub const MAX_JSON_NUMBER_BYTES: usize = 128;

#[derive(Clone, Copy, Debug, PartialEq, Eq, Structural)]
pub enum JsonLimit {
    Depth,
    NumberLength,
}

impl JsonLimit {
    pub open spec fn text(self) -> Seq<char> {
        match self {
            JsonLimit::Depth => "JSON nesting exceeds 128"@,
            JsonLimit::NumberLength => "JSON number token exceeds 128 bytes"@,
        }
    }

    pub fn message(&self) -> (text: &'static str)
        ensures
            text@ == self.text(),
    {
        match self {
            JsonLimit::Depth => "JSON nesting exceeds 128",
            JsonLimit::NumberLength => "JSON number token exceeds 128 bytes",
        }
    }
}

/// Where a byte stands: outside strings, inside one, or behind a backslash in one.
#[derive(Clone, Copy, Debug, PartialEq, Eq, Structural)]
pub enum Place {
    Code,
    Text,
    Escaped,
}

/// The place behind a byte of a string.
pub open spec fn inside_string(place: Place, byte: u8) -> Place {
    if place is Escaped {
        Place::Text
    } else if byte == 92 {
        Place::Escaped
    } else if byte == 34 {
        Place::Code
    } else {
        Place::Text
    }
}

fn step_inside_string(place: Place, byte: u8) -> (next: Place)
    ensures
        next == inside_string(place, byte),
{
    match place {
        Place::Escaped => Place::Text,
        _ => {
            if byte == 92 {
                Place::Escaped
            } else if byte == 34 {
                Place::Code
            } else {
                Place::Text
            }
        },
    }
}

pub open spec fn starts_number(byte: u8) -> bool {
    byte == 45 || 48 <= byte <= 57
}

pub open spec fn continues_number(byte: u8) -> bool {
    48 <= byte <= 57 || byte == 43 || byte == 45 || byte == 46 || byte == 69 || byte == 101
}

fn byte_continues_number(byte: u8) -> (continues: bool)
    ensures
        continues == continues_number(byte),
{
    (48 <= byte && byte <= 57) || byte == 43 || byte == 45 || byte == 46 || byte == 69 || byte
        == 101
}

/// The end of the run of number bytes that `from` stands in.
pub open spec fn number_end(s: Seq<u8>, from: int) -> int
    decreases s.len() - from,
{
    if 0 <= from < s.len() && continues_number(s[from]) {
        number_end(s, from + 1)
    } else {
        from
    }
}

pub proof fn lemma_number_end(s: Seq<u8>, from: int)
    ensures
        from <= number_end(s, from),
        0 <= from <= s.len() ==> number_end(s, from) <= s.len(),
    decreases s.len() - from,
{
    if 0 <= from < s.len() && continues_number(s[from]) {
        lemma_number_end(s, from + 1);
    }
}

/// The limit that the text breaks from `at` on, if it breaks one. Brackets in
/// strings do not count, and neither do digits in strings.
pub open spec fn broken_limit(s: Seq<u8>, at: int, depth: int, place: Place) -> Option<JsonLimit>
    decreases s.len() - at,
{
    if at < 0 || at >= s.len() {
        None
    } else {
        let byte = s[at];
        if !(place is Code) {
            broken_limit(s, at + 1, depth, inside_string(place, byte))
        } else if byte == 34 {
            broken_limit(s, at + 1, depth, Place::Text)
        } else if byte == 123 || byte == 91 {
            if depth + 1 > MAX_JSON_DEPTH {
                Some(JsonLimit::Depth)
            } else {
                broken_limit(s, at + 1, depth + 1, Place::Code)
            }
        } else if byte == 125 || byte == 93 {
            broken_limit(
                s,
                at + 1,
                if depth > 0 {
                    depth - 1
                } else {
                    0
                },
                Place::Code,
            )
        } else if starts_number(byte) {
            let end = number_end(s, at + 1);
            proof {
                lemma_number_end(s, at + 1);
            }
            if end - at > MAX_JSON_NUMBER_BYTES {
                Some(JsonLimit::NumberLength)
            } else {
                broken_limit(s, end, depth, Place::Code)
            }
        } else {
            broken_limit(s, at + 1, depth, Place::Code)
        }
    }
}

/// Checks nesting and number length without allocating. Whether the text is
/// JSON at all is left to the parser.
pub fn json_preflight(bytes: &[u8]) -> (result: Result<(), JsonLimit>)
    ensures
        result == (match broken_limit(bytes@, 0, 0, Place::Code) {
            None => Ok::<(), JsonLimit>(()),
            Some(limit) => Err::<(), JsonLimit>(limit),
        }),
{
    let mut depth: usize = 0;
    let mut place = Place::Code;
    let mut index: usize = 0;
    while index < bytes.len()
        invariant
            index <= bytes.len(),
            depth <= MAX_JSON_DEPTH,
            broken_limit(bytes@, index as int, depth as int, place) == broken_limit(
                bytes@,
                0,
                0,
                Place::Code,
            ),
        decreases bytes.len() - index,
    {
        let byte = bytes[index];
        if place != Place::Code {
            place = step_inside_string(place, byte);
            index = index + 1;
        } else if byte == 34 {
            place = Place::Text;
            index = index + 1;
        } else if byte == 123 || byte == 91 {
            if depth == MAX_JSON_DEPTH {
                return Err(JsonLimit::Depth);
            }
            depth = depth + 1;
            index = index + 1;
        } else if byte == 125 || byte == 93 {
            if depth > 0 {
                depth = depth - 1;
            }
            index = index + 1;
        } else if byte == 45 || (48 <= byte && byte <= 57) {
            let start = index;
            index = index + 1;
            while index < bytes.len() && byte_continues_number(bytes[index])
                invariant
                    start < index <= bytes.len(),
                    number_end(bytes@, index as int) == number_end(bytes@, start + 1),
                decreases bytes.len() - index,
            {
                index = index + 1;
            }
            assert(index == number_end(bytes@, start + 1));
            if index - start > MAX_JSON_NUMBER_BYTES {
                return Err(JsonLimit::NumberLength);
            }
        } else {
            index = index + 1;
        }
    }
    Ok(())
}

/// Where a byte of a commented text stands.
#[derive(Clone, Copy, Debug, PartialEq, Eq, Structural)]
pub enum Region {
    Code,
    Text,
    Escaped,
    LineComment,
    BlockComment,
}

pub open spec fn is_line_break(byte: u8) -> bool {
    byte == 10 || byte == 13
}

/// The next two bytes are `first` and `second`.
pub open spec fn pair_at(s: Seq<u8>, at: int, first: u8, second: u8) -> bool {
    at + 1 < s.len() && s[at] == first && s[at + 1] == second
}

/// How many bytes the step at `at` takes.
pub open spec fn comment_step(s: Seq<u8>, at: int, region: Region) -> int {
    if (region is Code && (pair_at(s, at, 47, 47) || pair_at(s, at, 47, 42))) || (
    region is BlockComment && pair_at(s, at, 42, 47)) {
        2
    } else {
        1
    }
}

/// The region behind the step at `at`.
pub open spec fn next_region(s: Seq<u8>, at: int, region: Region) -> Region {
    let byte = s[at];
    match region {
        Region::Text => if byte == 92 {
            Region::Escaped
        } else if byte == 34 {
            Region::Code
        } else {
            Region::Text
        },
        Region::Escaped => Region::Text,
        Region::Code => if byte == 34 {
            Region::Text
        } else if pair_at(s, at, 47, 47) {
            Region::LineComment
        } else if pair_at(s, at, 47, 42) {
            Region::BlockComment
        } else {
            Region::Code
        },
        Region::LineComment => if is_line_break(byte) {
            Region::Code
        } else {
            Region::LineComment
        },
        Region::BlockComment => if pair_at(s, at, 42, 47) {
            Region::Code
        } else {
            Region::BlockComment
        },
    }
}

/// The step at `at` belongs to a comment.
pub open spec fn in_comment(s: Seq<u8>, at: int, region: Region) -> bool {
    ||| region is LineComment
    ||| region is BlockComment
    ||| comment_step(s, at, region) == 2
}

/// What stands for the bytes of the step at `at`: spaces for those of a comment,
/// except line breaks.
pub open spec fn blanked_step(s: Seq<u8>, at: int, region: Region) -> Seq<u8> {
    if comment_step(s, at, region) == 2 {
        seq![32u8, 32u8]
    } else if in_comment(s, at, region) && !is_line_break(s[at]) {
        seq![32u8]
    } else {
        seq![s[at]]
    }
}

/// The text from `at` on with its comments blanked, or none if a block comment
/// is not closed.
pub open spec fn without_comments(s: Seq<u8>, at: int, region: Region) -> Option<Seq<u8>>
    decreases s.len() - at,
{
    if at < 0 || at >= s.len() {
        if region is BlockComment {
            None
        } else {
            Some(Seq::empty())
        }
    } else {
        match without_comments(
            s,
            at + comment_step(s, at, region),
            next_region(s, at, region),
        ) {
            None => None,
            Some(rest) => Some(blanked_step(s, at, region) + rest),
        }
    }
}

/// Puts `prefix` in front of a blanked text.
pub open spec fn prefixed(prefix: Seq<u8>, rest: Option<Seq<u8>>) -> Option<Seq<u8>> {
    match rest {
        None => None,
        Some(bytes) => Some(prefix + bytes),
    }
}

fn pair_follows(bytes: &[u8], at: usize, first: u8, second: u8) -> (follows: bool)
    requires
        at < bytes@.len(),
    ensures
        follows == pair_at(bytes@, at as int, first, second),
{
    bytes.len() - at > 1 && bytes[at] == first && bytes[at + 1] == second
}

fn blank_comments(bytes: &[u8]) -> (result: Option<Vec<u8>>)
    ensures
        match without_comments(bytes@, 0, Region::Code) {
            None => result is None,
            Some(blanked) => result matches Some(found) && found@ == blanked,
        },
{
    let mut blanked: Vec<u8> = Vec::new();
    let mut index: usize = 0;
    let mut region = Region::Code;
    proof {
        let whole = without_comments(bytes@, 0, Region::Code);
        if whole is Some {
            assert(Seq::<u8>::empty() + whole->0 =~= whole->0);
        }
    }
    while index < bytes.len()
        invariant
            index <= bytes.len(),
            prefixed(blanked@, without_comments(bytes@, index as int, region)) == without_comments(
                bytes@,
                0,
                Region::Code,
            ),
        decreases bytes.len() - index,
    {
        let byte = bytes[index];
        let ghost before = blanked@;
        let ghost at = index as int;
        let ghost place = region;
        match region {
            Region::Text => {
                if byte == 92 {
                    region = Region::Escaped;
                } else if byte == 34 {
                    region = Region::Code;
                }
                blanked.push(byte);
                index = index + 1;
            },
            Region::Escaped => {
                region = Region::Text;
                blanked.push(byte);
                index = index + 1;
            },
            Region::Code => {
                if byte == 34 {
                    region = Region::Text;
                    blanked.push(byte);
                    index = index + 1;
                } else if pair_follows(bytes, index, 47, 47) {
                    region = Region::LineComment;
                    blanked.push(32);
                    blanked.push(32);
                    index = index + 2;
                } else if pair_follows(bytes, index, 47, 42) {
                    region = Region::BlockComment;
                    blanked.push(32);
                    blanked.push(32);
                    index = index + 2;
                } else {
                    blanked.push(byte);
                    index = index + 1;
                }
            },
            Region::LineComment => {
                if byte == 10 || byte == 13 {
                    region = Region::Code;
                    blanked.push(byte);
                } else {
                    blanked.push(32);
                }
                index = index + 1;
            },
            Region::BlockComment => {
                if pair_follows(bytes, index, 42, 47) {
                    region = Region::Code;
                    blanked.push(32);
                    blanked.push(32);
                    index = index + 2;
                } else {
                    if byte == 10 || byte == 13 {
                        blanked.push(byte);
                    } else {
                        blanked.push(32);
                    }
                    index = index + 1;
                }
            },
        }
        proof {
            assert(index == at + comment_step(bytes@, at, place));
            assert(region == next_region(bytes@, at, place));
            assert(blanked@ =~= before + blanked_step(bytes@, at, place));
            match without_comments(bytes@, index as int, region) {
                None => {},
                Some(rest) => {
                    assert(before + (blanked_step(bytes@, at, place) + rest) =~= blanked@ + rest);
                },
            }
        }
    }
    if region == Region::BlockComment {
        None
    } else {
        assert(blanked@ + Seq::<u8>::empty() =~= blanked@);
        Some(blanked)
    }
}

/// The ASCII whitespace of HTML: space, tab, line feed, form feed, carriage return.
pub open spec fn is_blank(byte: u8) -> bool {
    byte == 32 || byte == 9 || byte == 10 || byte == 12 || byte == 13
}

/// The first place from `at` on that is not whitespace.
pub open spec fn next_significant(s: Seq<u8>, at: int) -> int
    decreases s.len() - at,
{
    if 0 <= at < s.len() && is_blank(s[at]) {
        next_significant(s, at + 1)
    } else {
        at
    }
}

/// The comma at `at` has nothing but whitespace between it and a closing bracket.
pub open spec fn is_trailing_comma(s: Seq<u8>, at: int) -> bool {
    let next = next_significant(s, at + 1);
    s[at] == 44 && next < s.len() && (s[next] == 125 || s[next] == 93)
}

pub open spec fn next_place(place: Place, byte: u8) -> Place {
    if place is Code {
        if byte == 34 {
            Place::Text
        } else {
            Place::Code
        }
    } else {
        inside_string(place, byte)
    }
}

/// The text from `at` on with a space for each trailing comma outside strings.
pub open spec fn without_trailing_commas(s: Seq<u8>, at: int, place: Place) -> Seq<u8>
    decreases s.len() - at,
{
    if at < 0 || at >= s.len() {
        Seq::empty()
    } else {
        seq![
            if place is Code && is_trailing_comma(s, at) {
                32u8
            } else {
                s[at]
            },
        ] + without_trailing_commas(s, at + 1, next_place(place, s[at]))
    }
}

fn comma_is_trailing(bytes: &[u8], at: usize) -> (trailing: bool)
    requires
        at < bytes@.len(),
    ensures
        trailing == is_trailing_comma(bytes@, at as int),
{
    if bytes[at] != 44 {
        return false;
    }
    let mut next: usize = at + 1;
    while next < bytes.len() && (bytes[next] == 32 || bytes[next] == 9 || bytes[next] == 10
        || bytes[next] == 12 || bytes[next] == 13)
        invariant
            at < next <= bytes.len(),
            next_significant(bytes@, next as int) == next_significant(bytes@, at + 1),
        decreases bytes.len() - next,
    {
        next = next + 1;
    }
    next < bytes.len() && (bytes[next] == 125 || bytes[next] == 93)
}

fn blank_trailing_commas(bytes: &[u8]) -> (blanked: Vec<u8>)
    ensures
        blanked@ == without_trailing_commas(bytes@, 0, Place::Code),
{
    let mut blanked: Vec<u8> = Vec::new();
    let mut index: usize = 0;
    let mut place = Place::Code;
    assert(blanked@ + without_trailing_commas(bytes@, 0, Place::Code)
        =~= without_trailing_commas(bytes@, 0, Place::Code));
    while index < bytes.len()
        invariant
            index <= bytes.len(),
            blanked@ + without_trailing_commas(bytes@, index as int, place)
                == without_trailing_commas(bytes@, 0, Place::Code),
        decreases bytes.len() - index,
    {
        let byte = bytes[index];
        let ghost before = blanked@;
        let ghost rest = without_trailing_commas(bytes@, index + 1, next_place(place, byte));
        if place == Place::Code {
            if comma_is_trailing(bytes, index) {
                blanked.push(32);
            } else {
                blanked.push(byte);
            }
            if byte == 34 {
                place = Place::Text;
            }
        } else {
            blanked.push(byte);
            place = step_inside_string(place, byte);
        }
        assert(before + (seq![blanked@.last()] + rest) =~= blanked@ + rest);
        index = index + 1;
    }
    assert(blanked@ + Seq::<u8>::empty() =~= blanked@);
    blanked
}

/// The text with comments and trailing commas blanked, or none if a block
/// comment is not closed.
pub open spec fn plain_json(s: Seq<u8>) -> Option<Seq<u8>> {
    match without_comments(s, 0, Region::Code) {
        None => None,
        Some(blanked) => Some(without_trailing_commas(blanked, 0, Place::Code)),
    }
}

#[derive(Clone, Copy, Debug, PartialEq, Eq, Structural)]
pub enum JsoncError {
    UnterminatedComment,
}

/// Turns JSON with comments and trailing commas into plain JSON of the same length.
pub fn normalize_jsonc(bytes: &[u8]) -> (result: Result<Vec<u8>, JsoncError>)
    ensures
        match plain_json(bytes@) {
            None => result == Err::<Vec<u8>, JsoncError>(JsoncError::UnterminatedComment),
            Some(plain) => result matches Ok(found) && found@ == plain,
        },
{
    match blank_comments(bytes) {
        None => Err(JsoncError::UnterminatedComment),
        Some(blanked) => Ok(blank_trailing_commas(blanked.as_slice())),
    }
}

/// The region that byte `i` of a text is read in, from `at` on.
pub open spec fn region_of(s: Seq<u8>, at: int, region: Region, i: int) -> Region
    decreases s.len() - at,
{
    if at < 0 || at >= s.len() || i < at + comment_step(s, at, region) {
        region
    } else {
        region_of(s, at + comment_step(s, at, region), next_region(s, at, region), i)
    }
}

pub open spec fn is_string_region(region: Region) -> bool {
    region is Text || region is Escaped
}

/// Outside strings a blanked comment reads as code.
spec fn place_of(region: Region) -> Place {
    match region {
        Region::Text => Place::Text,
        Region::Escaped => Place::Escaped,
        _ => Place::Code,
    }
}

proof fn lemma_blanked_comments(s: Seq<u8>, at: int, region: Region)
    requires
        0 <= at <= s.len(),
    ensures
        without_comments(s, at, region) matches Some(blanked) ==> {
            &&& blanked.len() == s.len() - at
            &&& forall|i: int|
                at <= i < s.len() ==> #[trigger] s[i] == blanked[i - at] || (blanked[i - at] == 32
                    && !is_line_break(s[i]))
            &&& forall|i: int|
                at <= i < s.len() && is_string_region(#[trigger] region_of(s, at, region, i))
                    ==> blanked[i - at] == s[i]
        },
    decreases s.len() - at,
{
    if at < s.len() && without_comments(s, at, region) is Some {
        let step = comment_step(s, at, region);
        let next = next_region(s, at, region);
        lemma_blanked_comments(s, at + step, next);
        let rest = without_comments(s, at + step, next)->0;
        let blanked = without_comments(s, at, region)->0;
        assert forall|i: int| at <= i < s.len() implies #[trigger] s[i] == blanked[i - at] || (
        blanked[i - at] == 32 && !is_line_break(s[i])) by {
            if i >= at + step {
                assert(blanked[i - at] == rest[i - (at + step)]);
            }
        }
        assert forall|i: int|
            at <= i < s.len() && is_string_region(
                #[trigger] region_of(s, at, region, i),
            ) implies blanked[i - at] == s[i] by {
            if i >= at + step {
                assert(blanked[i - at] == rest[i - (at + step)]);
                assert(is_string_region(region_of(s, at + step, next, i)));
            }
        }
    }
}

proof fn lemma_trailing_commas(s: Seq<u8>, at: int, place: Place)
    requires
        0 <= at <= s.len(),
    ensures
        ({
            let blanked = without_trailing_commas(s, at, place);
            &&& blanked.len() == s.len() - at
            &&& forall|i: int|
                at <= i < s.len() ==> #[trigger] s[i] == blanked[i - at] || (blanked[i - at] == 32
                    && s[i] == 44)
        }),
    decreases s.len() - at,
{
    if at < s.len() {
        lemma_trailing_commas(s, at + 1, next_place(place, s[at]));
        let rest = without_trailing_commas(s, at + 1, next_place(place, s[at]));
        let blanked = without_trailing_commas(s, at, place);
        assert forall|i: int| at <= i < s.len() implies #[trigger] s[i] == blanked[i - at] || (
        blanked[i - at] == 32 && s[i] == 44) by {
            if i > at {
                assert(blanked[i - at] == rest[i - (at + 1)]);
            }
        }
    }
}

/// The text with blanked comments is read in the same places as the original,
/// so a comma inside a string stays.
proof fn lemma_strings_survive_both_passes(s: Seq<u8>, q: Seq<u8>, at: int, region: Region)
    requires
        0 <= at <= s.len(),
        q.len() == s.len(),
        without_comments(s, at, region) == Some(q.subrange(at, q.len() as int)),
    ensures
        forall|i: int|
            at <= i < s.len() && is_string_region(#[trigger] region_of(s, at, region, i))
                ==> without_trailing_commas(q, at, place_of(region))[i - at] == s[i],
    decreases s.len() - at,
{
    if at < s.len() {
        let step = comment_step(s, at, region);
        let next = next_region(s, at, region);
        let rest = without_comments(s, at + step, next)->0;
        let tail = q.subrange(at, q.len() as int);
        assert(tail == blanked_step(s, at, region) + rest);
        assert(q[at] == tail[0]);
        lemma_blanked_comments(s, at + step, next);
        assert(rest =~= q.subrange(at + step, q.len() as int)) by {
            assert forall|k: int| 0 <= k < rest.len() implies rest[k] == q.subrange(
                at + step,
                q.len() as int,
            )[k] by {
                assert(tail[k + step] == rest[k]);
            }
        }
        lemma_strings_survive_both_passes(s, q, at + step, next);
        let here = place_of(region);
        let out = without_trailing_commas(q, at, here);
        lemma_trailing_commas(q, at, here);
        if step == 2 {
            assert(q[at + 1] == tail[1]);
            reveal_with_fuel(without_trailing_commas, 3);
            assert(next_place(next_place(here, q[at]), q[at + 1]) == place_of(next));
        } else {
            assert(next_place(here, q[at]) == place_of(next));
        }
        let after = without_trailing_commas(q, at + step, place_of(next));
        assert forall|i: int|
            at <= i < s.len() && is_string_region(
                #[trigger] region_of(s, at, region, i),
            ) implies out[i - at] == s[i] by {
            if i >= at + step {
                assert(is_string_region(region_of(s, at + step, next, i)));
                assert(out[i - at] == after[i - (at + step)]);
            }
        }
    }
}

/// Plain JSON has the length of its source, keeps every line break, and differs
/// from it only by spaces.
pub proof fn law_plain_json_keeps_the_layout(s: Seq<u8>)
    ensures
        plain_json(s) matches Some(plain) ==> {
            &&& plain.len() == s.len()
            &&& forall|i: int|
                0 <= i < s.len() ==> #[trigger] plain[i] == s[i] || (plain[i] == 32
                    && !is_line_break(s[i]))
        },
{
    lemma_blanked_comments(s, 0, Region::Code);
    if without_comments(s, 0, Region::Code) is Some {
        let blanked = without_comments(s, 0, Region::Code)->0;
        lemma_trailing_commas(blanked, 0, Place::Code);
        let plain = plain_json(s)->0;
        assert forall|i: int| 0 <= i < s.len() implies #[trigger] plain[i] == s[i] || (plain[i]
            == 32 && !is_line_break(s[i])) by {
            assert(s[i] == blanked[i - 0] || blanked[i - 0] == 32);
            assert(blanked[i] == plain[i - 0] || plain[i - 0] == 32);
        }
    }
}

/// What stands inside a string is not touched, whatever it looks like.
pub proof fn law_plain_json_keeps_strings(s: Seq<u8>, i: int)
    requires
        0 <= i < s.len(),
        is_string_region(region_of(s, 0, Region::Code, i)),
    ensures
        plain_json(s) matches Some(plain) ==> plain[i] == s[i],
{
    lemma_blanked_comments(s, 0, Region::Code);
    if without_comments(s, 0, Region::Code) is Some {
        let blanked = without_comments(s, 0, Region::Code)->0;
        assert(blanked =~= blanked.subrange(0, blanked.len() as int));
        lemma_strings_survive_both_passes(s, blanked, 0, Region::Code);
    }
}

// What is read of JSON --------------------------------------------------------------------

proof fn lemma_brackets(count: nat, at: int)
    requires
        0 <= at <= count,
        at <= 128,
    ensures
        broken_limit(Seq::new(count, |i: int| 91u8), at, at, Place::Code) == (if count > 128 {
            Some(JsonLimit::Depth)
        } else {
            None
        }),
    decreases count - at,
{
    if at < count && at < 128 {
        lemma_brackets(count, at + 1);
    }
}

/// Lists may stand in each other a hundred and twenty-eight deep, and no deeper.
pub proof fn law_nesting_is_limited(count: nat)
    ensures
        broken_limit(Seq::new(count, |i: int| 91u8), 0, 0, Place::Code) is Some <==> count > 128,
{
    lemma_brackets(count, 0);
}

proof fn lemma_all_digits(count: nat, from: int)
    requires
        0 <= from <= count,
    ensures
        number_end(Seq::new(count, |i: int| 49u8), from) == count,
    decreases count - from,
{
    if from < count {
        lemma_all_digits(count, from + 1);
    }
}

/// A number may have a hundred and twenty-eight digits, and no more.
pub proof fn law_numbers_are_limited(count: nat)
    requires
        count > 0,
    ensures
        broken_limit(Seq::new(count, |i: int| 49u8), 0, 0, Place::Code) is Some <==> count > 128,
{
    let s = Seq::new(count, |i: int| 49u8);
    lemma_all_digits(count, 1);
    assert(broken_limit(s, count as int, 0, Place::Code) is None);
}

/// Nothing in a string counts towards a limit.
pub proof fn law_strings_break_no_limit(s: Seq<u8>, from: int, to: int, depth: int)
    requires
        0 <= from < to < s.len(),
        s[from] == 34,
        s[to] == 34,
        forall|i: int| from < i < to ==> #[trigger] s[i] != 34 && s[i] != 92,
    ensures
        broken_limit(s, from, depth, Place::Code) == broken_limit(s, to + 1, depth, Place::Code),
{
    lemma_through_string(s, from + 1, to, depth);
}

proof fn lemma_through_string(s: Seq<u8>, from: int, to: int, depth: int)
    requires
        0 <= from <= to < s.len(),
        s[to] == 34,
        forall|i: int| from <= i < to ==> #[trigger] s[i] != 34 && s[i] != 92,
    ensures
        broken_limit(s, from, depth, Place::Text) == broken_limit(s, to + 1, depth, Place::Code),
    decreases to - from,
{
    if from < to {
        lemma_through_string(s, from + 1, to, depth);
    }
}

proof fn lemma_line_comment(s: Seq<u8>, at: int)
    requires
        0 <= at <= s.len(),
        forall|i: int| at <= i < s.len() ==> #[trigger] s[i] != 10 && s[i] != 13,
    ensures
        without_comments(s, at, Region::LineComment) == Some(
            Seq::new((s.len() - at) as nat, |i: int| 32u8),
        ),
    decreases s.len() - at,
{
    if at < s.len() {
        lemma_line_comment(s, at + 1);
        assert(seq![32u8] + Seq::new((s.len() - at - 1) as nat, |i: int| 32u8) =~= Seq::new(
            (s.len() - at) as nat,
            |i: int| 32u8,
        ));
    } else {
        assert(Seq::new(0, |i: int| 32u8) =~= Seq::<u8>::empty());
    }
}

/// A comment to the end of a line becomes blanks.
pub proof fn law_line_comments_become_blanks(words: Seq<u8>)
    requires
        !words.contains(10),
        !words.contains(13),
    ensures
        without_comments(seq![47u8, 47u8] + words, 0, Region::Code) == Some(
            Seq::new(words.len() + 2, |i: int| 32u8),
        ),
{
    let s = seq![47u8, 47u8] + words;
    assert forall|i: int| 2 <= i < s.len() implies #[trigger] s[i] != 10 && s[i] != 13 by {
        assert(s[i] == words[i - 2]);
        assert(words.contains(words[i - 2]));
    }
    lemma_line_comment(s, 2);
    assert(seq![32u8, 32u8] + Seq::new((s.len() - 2) as nat, |i: int| 32u8) =~= Seq::new(
        words.len() + 2,
        |i: int| 32u8,
    ));
}

proof fn lemma_block_comment(s: Seq<u8>, at: int)
    requires
        0 <= at <= s.len() - 2,
        s[s.len() - 2] == 42,
        s[s.len() - 1] == 47,
        forall|i: int| at <= i < s.len() - 2 ==> #[trigger] s[i] != 42,
    ensures
        without_comments(s, at, Region::BlockComment) == Some(
            Seq::new(
                (s.len() - at) as nat,
                |i: int|
                    if s[at + i] == 10 || s[at + i] == 13 {
                        s[at + i]
                    } else {
                        32u8
                    },
            ),
        ),
    decreases s.len() - at,
{
    let shown = Seq::new(
        (s.len() - at) as nat,
        |i: int|
            if s[at + i] == 10 || s[at + i] == 13 {
                s[at + i]
            } else {
                32u8
            },
    );
    if at < s.len() - 2 {
        lemma_block_comment(s, at + 1);
        let rest = Seq::new(
            (s.len() - (at + 1)) as nat,
            |i: int|
                if s[at + 1 + i] == 10 || s[at + 1 + i] == 13 {
                    s[at + 1 + i]
                } else {
                    32u8
                },
        );
        assert(blanked_step(s, at, Region::BlockComment) + rest =~= shown);
    } else {
        assert(without_comments(s, at + 2, Region::Code) == Some(Seq::<u8>::empty()));
        assert(seq![32u8, 32u8] + Seq::<u8>::empty() =~= shown);
    }
}

/// A comment between its marks becomes blanks, and its line breaks stay; one without an end
/// is a fault.
pub proof fn law_block_comments_become_blanks(words: Seq<u8>)
    requires
        !words.contains(42),
    ensures
        ({
            let s = seq![47u8, 42u8] + words + seq![42u8, 47u8];
            without_comments(s, 0, Region::Code) == Some(
                Seq::new(
                    s.len(),
                    |i: int|
                        if s[i] == 10 || s[i] == 13 {
                            s[i]
                        } else {
                            32u8
                        },
                ),
            )
        }),
        without_comments(seq![47u8, 42u8] + words, 0, Region::Code) is None,
{
    let s = seq![47u8, 42u8] + words + seq![42u8, 47u8];
    assert forall|i: int| 2 <= i < s.len() - 2 implies #[trigger] s[i] != 42 by {
        assert(s[i] == words[i - 2]);
        assert(words.contains(words[i - 2]));
    }
    lemma_block_comment(s, 2);
    let rest = Seq::new(
        (s.len() - 2) as nat,
        |i: int|
            if s[2 + i] == 10 || s[2 + i] == 13 {
                s[2 + i]
            } else {
                32u8
            },
    );
    assert(seq![32u8, 32u8] + rest =~= Seq::new(
        s.len(),
        |i: int|
            if s[i] == 10 || s[i] == 13 {
                s[i]
            } else {
                32u8
            },
    ));
    let t = seq![47u8, 42u8] + words;
    assert forall|i: int| 2 <= i < t.len() implies #[trigger] t[i] != 42 by {
        assert(t[i] == words[i - 2]);
        assert(words.contains(words[i - 2]));
    }
    lemma_open_comment(t, 2);
}

proof fn lemma_open_comment(s: Seq<u8>, at: int)
    requires
        0 <= at <= s.len(),
        forall|i: int| at <= i < s.len() ==> #[trigger] s[i] != 42,
    ensures
        without_comments(s, at, Region::BlockComment) is None,
    decreases s.len() - at,
{
    if at < s.len() {
        lemma_open_comment(s, at + 1);
    }
}

/// A comma is taken out exactly if, past blanks, a bracket or a brace closes behind it.
pub proof fn law_only_trailing_commas_are_taken_out(s: Seq<u8>, at: int, next: int)
    requires
        0 <= at < next <= s.len(),
        s[at] == 44,
        forall|i: int| at < i < next ==> (#[trigger] s[i] == 32 || s[i] == 9 || s[i] == 10 || s[i]
            == 12 || s[i] == 13),
        next < s.len() ==> s[next] != 32 && s[next] != 9 && s[next] != 10 && s[next] != 12
            && s[next] != 13,
    ensures
        ({
            let shown = without_trailing_commas(s, at, Place::Code);
            &&& shown.len() > 0
            &&& shown[0] == 32 <==> next < s.len() && (s[next] == 125 || s[next] == 93)
            &&& shown[0] != 32 ==> shown[0] == 44
        }),
{
    lemma_past_blanks(s, at + 1, next);
}

proof fn lemma_past_blanks(s: Seq<u8>, from: int, next: int)
    requires
        0 <= from <= next <= s.len(),
        forall|i: int| from <= i < next ==> (#[trigger] s[i] == 32 || s[i] == 9 || s[i] == 10
            || s[i] == 12 || s[i] == 13),
        next < s.len() ==> s[next] != 32 && s[next] != 9 && s[next] != 10 && s[next] != 12
            && s[next] != 13,
    ensures
        next_significant(s, from) == next,
    decreases next - from,
{
    if from < next {
        lemma_past_blanks(s, from + 1, next);
    }
}

} // verus!
