//! Texts that are cut off.

use crate::paths::PathStyle;
use crate::preview::{
    first_lines, is_cut_character, is_cut_text, is_text_preview, looked_at, may_follow, shown_text,
    PreviewContent, PreviewRequest,
};
use crate::positions::protocol_lines;
use crate::text::{line_end, string_views, text_lines};
use vstd::prelude::*;
use vstd::utf8::{
    length_of_first_scalar, pop_first_scalar, valid_first_scalar, valid_utf8,
};

verus! {

proof fn lemma_two_bytes(a: u8, b: u8)
    requires
        0xc0 <= a <= 0xdf,
        vstd::utf8::codepoint_width_2(a, b) >= 0x80,
    ensures
        a >= 0xc2,
{
    assert(a >= 0xc2) by (bit_vector)
        requires
            0xc0 <= a <= 0xdf,
            ((((a & 0x1f) as u32) << 6) | ((b & 0x3f) as u32)) >= 0x80,
    ;
}

proof fn lemma_three_bytes(a: u8, b: u8, c: u8)
    requires
        0xe0 <= a <= 0xef,
        0x80 <= b <= 0xbf,
        vstd::utf8::codepoint_width_3(a, b, c) >= 0x800,
        !(0xd800 <= vstd::utf8::codepoint_width_3(a, b, c) <= 0xdfff),
    ensures
        may_follow(a, b),
{
    let point = vstd::utf8::codepoint_width_3(a, b, c);
    if a == 0xe0 {
        assert(b >= 0xa0) by (bit_vector)
            requires
                a == 0xe0,
                0x80 <= b <= 0xbf,
                ((((a & 0x0f) as u32) << 12) | (((b & 0x3f) as u32) << 6) | ((c & 0x3f) as u32))
                    >= 0x800,
        ;
    }
    if a == 0xed {
        assert(b <= 0x9f) by (bit_vector)
            requires
                a == 0xed,
                0x80 <= b <= 0xbf,
                !(0xd800 <= ((((a & 0x0f) as u32) << 12) | (((b & 0x3f) as u32) << 6) | ((c
                    & 0x3f) as u32)) <= 0xdfff),
        ;
    }
}

proof fn lemma_four_bytes(a: u8, b: u8, c: u8, d: u8)
    requires
        0xf0 <= a <= 0xf7,
        0x80 <= b <= 0xbf,
        0x10000 <= vstd::utf8::codepoint_width_4(a, b, c, d) <= 0x10ffff,
    ensures
        a <= 0xf4,
        may_follow(a, b),
{
    assert(a <= 0xf4) by (bit_vector)
        requires
            0xf0 <= a <= 0xf7,
            ((((a & 0x07) as u32) << 18) | (((b & 0x3f) as u32) << 12) | (((c & 0x3f) as u32) << 6)
                | ((d & 0x3f) as u32)) <= 0x10ffff,
    ;
    if a == 0xf0 {
        assert(b >= 0x90) by (bit_vector)
            requires
                a == 0xf0,
                0x80 <= b <= 0xbf,
                ((((a & 0x07) as u32) << 18) | (((b & 0x3f) as u32) << 12) | (((c & 0x3f) as u32)
                    << 6) | ((d & 0x3f) as u32)) >= 0x10000,
        ;
    }
    if a == 0xf4 {
        assert(b <= 0x8f) by (bit_vector)
            requires
                a == 0xf4,
                0x80 <= b <= 0xbf,
                ((((a & 0x07) as u32) << 18) | (((b & 0x3f) as u32) << 12) | (((c & 0x3f) as u32)
                    << 6) | ((d & 0x3f) as u32)) <= 0x10ffff,
        ;
    }
}

proof fn lemma_cut_scalar(bytes: Seq<u8>, count: int)
    requires
        bytes.len() > 0,
        valid_first_scalar(bytes),
        1 <= count < length_of_first_scalar(bytes),
    ensures
        is_cut_character(bytes.subrange(0, count)),
{
    let front = bytes.subrange(0, count);
    assert(front[0] == bytes[0]);
    if 0xc0 <= bytes[0] <= 0xdf {
        lemma_two_bytes(bytes[0], bytes[1]);
    } else if 0xe0 <= bytes[0] <= 0xef {
        lemma_three_bytes(bytes[0], bytes[1], bytes[2]);
    } else {
        lemma_four_bytes(bytes[0], bytes[1], bytes[2], bytes[3]);
    }
}

proof fn lemma_cut(bytes: Seq<u8>, count: int) -> (cut: int)
    requires
        valid_utf8(bytes),
        0 <= count <= bytes.len(),
    ensures
        0 <= cut <= 3,
        cut <= count,
        valid_utf8(bytes.subrange(0, count - cut)),
        cut > 0 ==> is_cut_character(bytes.subrange(count - cut, count)),
    decreases bytes.len(),
{
    if count == 0 {
        0
    } else {
        let length = length_of_first_scalar(bytes);
        if count < length {
            lemma_cut_scalar(bytes, count);
            assert(bytes.subrange(0, 0).len() == 0);
            count
        } else {
            let rest = pop_first_scalar(bytes);
            let cut = lemma_cut(rest, count - length);
            let front = bytes.subrange(0, count - cut);
            assert(front.len() >= length);
            assert(forall|i: int| 0 <= i < length ==> front[i] == bytes[i]);
            assert(valid_first_scalar(front));
            assert(pop_first_scalar(front) =~= rest.subrange(0, count - length - cut));
            assert(bytes.subrange(count - cut, count) =~= rest.subrange(
                count - length - cut,
                count - length,
            ));
            cut
        }
    }
}

/// A text is shown however long it is and wherever the limit cuts it.
pub proof fn law_texts_are_shown_wherever_they_are_cut(content: Seq<u8>, max_bytes: usize)
    requires
        valid_utf8(content),
        !content.contains(0),
    ensures
        shown_text(content, max_bytes) is Some,
{
    if content.len() > max_bytes {
        let kept = content.subrange(0, max_bytes as int);
        let cut = lemma_cut(content, max_bytes as int);
        if cut == 0 {
            assert(valid_utf8(kept));
        } else {
            assert(kept.subrange(0, kept.len() - cut) =~= content.subrange(0, max_bytes - cut));
            assert(kept.subrange(kept.len() - cut, kept.len() as int) =~= content.subrange(
                max_bytes - cut,
                max_bytes as int,
            ));
            assert(is_cut_text(kept, cut));
        }
    }
}

/// The first lines of a text are shown, and the preview says whether that is all.
pub proof fn law_previews_say_whether_they_are_cut(
    preview: PreviewContent,
    style: PathStyle,
    path: Seq<u8>,
    words: Seq<char>,
    cut_off: bool,
    max_lines: usize,
)
    requires
        is_text_preview(preview, style, path, words, cut_off, max_lines),
    ensures
        preview.show_line_numbers,
        preview.truncated <==> cut_off || text_lines(words).len() > max_lines,
        text_lines(words).len() <= max_lines ==> string_views(preview.lines@) == text_lines(words),
        text_lines(words).len() > max_lines ==> string_views(preview.lines@) == text_lines(
            words,
        ).take(max_lines as int),
        preview.highlights@.len() == preview.lines@.len(),
{
    let lines = first_lines(text_lines(words), max_lines);
    assert(string_views(preview.lines@).len() == lines.len());
    let ground = choose|ground: syntect::parsing::ScopeStack|
        #![trigger crate::highlight::highlighted(style, path, lines, ground)]
        crate::highlight::no_scopes(ground) && crate::highlight::line_records(preview.highlights@)
            == (match crate::highlight::highlighted(style, path, lines, ground) {
            Some(spans) => spans,
            None => crate::preview::bare_lines(lines.len()),
        });
    crate::highlight::law_syntaxes_go_by_extension_first(style, path, lines, ground);
    assert(crate::highlight::line_records(preview.highlights@).len() == lines.len());
}

/// Of a file one byte more is looked at than is shown, so that a longer one is known.
pub proof fn law_one_byte_more_is_looked_at(content: Seq<u8>, request: PreviewRequest<'_>)
    requires
        request.max_bytes < usize::MAX,
    ensures
        looked_at(content, request).len() > request.max_bytes <==> content.len()
            > request.max_bytes,
        looked_at(content, request).len() <= request.max_bytes + 1,
        looked_at(content, request) == content.take(looked_at(content, request).len() as int),
{
    assert(looked_at(content, request) =~= content.take(
        looked_at(content, request).len() as int,
    ));
}

/// A line may end in a line feed or in a carriage return and a line feed, and neither belongs
/// to it.
pub proof fn law_line_ends_belong_to_no_line(front: Seq<char>, rest: Seq<char>)
    requires
        !front.contains('\n'),
        front.len() > 0 ==> front.last() != '\r',
    ensures
        protocol_lines(front + seq!['\n'] + rest) == seq![front] + protocol_lines(rest),
        protocol_lines(front + seq!['\r', '\n'] + rest) == seq![front] + protocol_lines(rest),
        protocol_lines(front) == seq![front],
{
    lemma_line_taken(front, seq!['\n'], rest);
    lemma_line_taken(front, seq!['\r', '\n'], rest);
    assert forall|i: int| 0 <= i < front.len() implies #[trigger] front[i] != '\n' by {
        assert(front.contains(front[i]));
    }
    lemma_end_of_line(front, 0, front.len() as int);
}

proof fn lemma_end_of_line(s: Seq<char>, from: int, at: int)
    requires
        0 <= from <= at <= s.len(),
        at < s.len() ==> s[at] == '\n',
        forall|i: int| from <= i < at ==> #[trigger] s[i] != '\n',
    ensures
        line_end(s, from) == at,
    decreases at - from,
{
    if from < at {
        lemma_end_of_line(s, from + 1, at);
    }
}

proof fn lemma_line_taken(front: Seq<char>, end: Seq<char>, rest: Seq<char>)
    requires
        !front.contains('\n'),
        front.len() > 0 ==> front.last() != '\r',
        end == seq!['\n'] || end == seq!['\r', '\n'],
    ensures
        protocol_lines(front + end + rest) == seq![front] + protocol_lines(rest),
{
    let s = front + end + rest;
    let at = front.len() + end.len() - 1;
    assert forall|i: int| 0 <= i < at implies #[trigger] s[i] != '\n' by {
        if i < front.len() {
            assert(front.contains(front[i]));
        }
    }
    assert(s[at] == '\n');
    lemma_end_of_line(s, 0, at);
    let line = s.subrange(0, at);
    if end == seq!['\n'] {
        assert(line =~= front);
    } else {
        assert(line.last() == '\r');
        assert(line.drop_last() =~= front);
    }
    assert(s.subrange(at + 1, s.len() as int) =~= rest);
}

} // verus!
