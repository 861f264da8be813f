//! Message framing: a header block with a body length, an empty line and the body.

use crate::bytes::{
    all_digit_bytes, all_digits, decimal_bytes, decimal_digits, decimal_value, equal_ignoring_case,
    find, find_bytes, lemma_decimal_round_trip, lemma_find_from_is_first, lemma_find_in_extension,
    lemma_first_is_found, occurs_at, parse_decimal, same_letters, split, split_bytes, text, trim,
    trim_bytes, views,
};
use crate::payload::{GlobalPayloadBudget, PayloadBudget, PayloadError, PayloadPermit};
use vstd::prelude::*;
use vstd::slice::slice_subrange;

verus! {

pub const MAX_HEADER_BYTES: usize = 8 * 1024;

pub const MAX_BODY_BYTES: usize = 4 * 1024 * 1024;

#[derive(Clone, Copy, Debug, PartialEq, Eq, Structural)]
pub enum FrameError {
    LengthOverflow,
    HeaderTooLarge,
    HeaderNotAscii,
    MalformedHeader,
    DuplicateContentLength,
    InvalidContentLength,
    ContentLengthOverflow,
    ContentLengthOutOfRange,
    MissingContentLength,
    DuplicateContentType,
    UnsupportedContentType,
    MalformedContentTypeParameter,
    UnsupportedContentTypeParameter,
    CharsetNotUtf8,
    Payload(PayloadError),
    TruncatedFrame,
    BodyOutOfRange,
}

impl FrameError {
    pub open spec fn text(self) -> Seq<char> {
        match self {
            FrameError::LengthOverflow => "LSP read buffer length overflow"@,
            FrameError::HeaderTooLarge => "LSP header exceeds 8 KiB"@,
            FrameError::HeaderNotAscii => "LSP header is not ASCII"@,
            FrameError::MalformedHeader => "malformed LSP header"@,
            FrameError::DuplicateContentLength => "duplicate Content-Length"@,
            FrameError::InvalidContentLength => "invalid Content-Length"@,
            FrameError::ContentLengthOverflow => "Content-Length overflow"@,
            FrameError::ContentLengthOutOfRange => "Content-Length is outside 1..=4 MiB"@,
            FrameError::MissingContentLength => "missing Content-Length"@,
            FrameError::DuplicateContentType => "duplicate Content-Type"@,
            FrameError::UnsupportedContentType => "unsupported LSP Content-Type"@,
            FrameError::MalformedContentTypeParameter => "malformed Content-Type parameter"@,
            FrameError::UnsupportedContentTypeParameter =>
                "unsupported or duplicate Content-Type parameter"@,
            FrameError::CharsetNotUtf8 => "LSP charset must be UTF-8"@,
            FrameError::TruncatedFrame => "LSP stdout ended in the middle of a frame"@,
            FrameError::BodyOutOfRange => "outbound LSP body is outside 1..=4 MiB"@,
            FrameError::Payload(error) => error.text(),
        }
    }

    pub fn message(&self) -> (text: &'static str)
        ensures
            text@ == self.text(),
    {
        match self {
            FrameError::LengthOverflow => "LSP read buffer length overflow",
            FrameError::HeaderTooLarge => "LSP header exceeds 8 KiB",
            FrameError::HeaderNotAscii => "LSP header is not ASCII",
            FrameError::MalformedHeader => "malformed LSP header",
            FrameError::DuplicateContentLength => "duplicate Content-Length",
            FrameError::InvalidContentLength => "invalid Content-Length",
            FrameError::ContentLengthOverflow => "Content-Length overflow",
            FrameError::ContentLengthOutOfRange => "Content-Length is outside 1..=4 MiB",
            FrameError::MissingContentLength => "missing Content-Length",
            FrameError::DuplicateContentType => "duplicate Content-Type",
            FrameError::UnsupportedContentType => "unsupported LSP Content-Type",
            FrameError::MalformedContentTypeParameter => "malformed Content-Type parameter",
            FrameError::UnsupportedContentTypeParameter =>
                "unsupported or duplicate Content-Type parameter",
            FrameError::CharsetNotUtf8 => "LSP charset must be UTF-8",
            FrameError::TruncatedFrame => "LSP stdout ended in the middle of a frame",
            FrameError::BodyOutOfRange => "outbound LSP body is outside 1..=4 MiB",
            FrameError::Payload(error) => error.message(),
        }
    }
}

/// The bytes are all ASCII.
pub open spec fn is_ascii(s: Seq<u8>) -> bool {
    forall|i: int| 0 <= i < s.len() ==> #[trigger] s[i] < 128
}

fn ascii_bytes(bytes: &[u8]) -> (ascii: bool)
    ensures
        ascii == is_ascii(bytes@),
{
    let mut index: usize = 0;
    while index < bytes.len()
        invariant
            index <= bytes.len(),
            forall|k: int| 0 <= k < index ==> #[trigger] bytes@[k] < 128,
        decreases bytes.len() - index,
    {
        if bytes[index] >= 128 {
            return false;
        }
        index = index + 1;
    }
    true
}

/// Whether charset was seen, or what is wrong, after the parameters of a media type.
pub open spec fn scan_parameters(parameters: Seq<Seq<u8>>, charset_seen: bool) -> Result<
    (),
    FrameError,
>
    decreases parameters.len(),
{
    if parameters.len() == 0 {
        Ok(())
    } else {
        let parameter = trim(parameters[0]);
        match find(parameter, text("=")) {
            None => Err(FrameError::MalformedContentTypeParameter),
            Some(at) => {
                let name = trim(parameter.subrange(0, at));
                let value = trim(parameter.subrange(at + text("=").len(), parameter.len() as int));
                if !same_letters(name, text("charset")) || charset_seen {
                    Err(FrameError::UnsupportedContentTypeParameter)
                } else if !same_letters(value, text("utf-8")) && !same_letters(
                    value,
                    text("utf8"),
                ) {
                    Err(FrameError::CharsetNotUtf8)
                } else {
                    scan_parameters(parameters.subrange(1, parameters.len() as int), true)
                }
            },
        }
    }
}

/// A media type is accepted if it is `application/vscode-jsonrpc` with at most
/// a UTF-8 charset.
pub open spec fn content_type(value: Seq<u8>) -> Result<(), FrameError> {
    let parts = split(value, text(";"));
    if !same_letters(trim(parts[0]), text("application/vscode-jsonrpc")) {
        Err(FrameError::UnsupportedContentType)
    } else {
        scan_parameters(parts.subrange(1, parts.len() as int), false)
    }
}

/// What one header line adds to the length and the media type found so far.
pub open spec fn header_line(
    line: Seq<u8>,
    length: Option<usize>,
    media: Option<Seq<u8>>,
) -> Result<(Option<usize>, Option<Seq<u8>>), FrameError> {
    match find(line, text(":")) {
        None => Err(FrameError::MalformedHeader),
        Some(at) => {
            let name = line.subrange(0, at);
            let value = trim(line.subrange(at + text(":").len(), line.len() as int));
            if same_letters(name, text("content-length")) {
                if length is Some {
                    Err(FrameError::DuplicateContentLength)
                } else if value.len() == 0 || !all_digits(value) {
                    Err(FrameError::InvalidContentLength)
                } else if decimal_value(value) > usize::MAX {
                    Err(FrameError::ContentLengthOverflow)
                } else if !(1 <= decimal_value(value) <= MAX_BODY_BYTES) {
                    Err(FrameError::ContentLengthOutOfRange)
                } else {
                    Ok((Some(decimal_value(value) as usize), media))
                }
            } else if same_letters(name, text("content-type")) {
                if media is Some {
                    Err(FrameError::DuplicateContentType)
                } else {
                    Ok((length, Some(value)))
                }
            } else {
                Ok((length, media))
            }
        },
    }
}

pub open spec fn scan_headers(
    lines: Seq<Seq<u8>>,
    length: Option<usize>,
    media: Option<Seq<u8>>,
) -> Result<(Option<usize>, Option<Seq<u8>>), FrameError>
    decreases lines.len(),
{
    if lines.len() == 0 {
        Ok((length, media))
    } else {
        match header_line(lines[0], length, media) {
            Err(error) => Err(error),
            Ok((length, media)) => scan_headers(
                lines.subrange(1, lines.len() as int),
                length,
                media,
            ),
        }
    }
}

/// The body length that a header block announces.
pub open spec fn headers(block: Seq<u8>) -> Result<usize, FrameError> {
    if !is_ascii(block) {
        Err(FrameError::HeaderNotAscii)
    } else {
        match scan_headers(split(block, text("\r\n")), None, None) {
            Err(error) => Err(error),
            Ok((length, media)) => {
                let accepted = match media {
                    Some(value) => content_type(value),
                    None => Ok::<(), FrameError>(()),
                };
                match accepted {
                    Err(error) => Err(error),
                    Ok(_) => match length {
                        Some(bytes) => Ok(bytes),
                        None => Err(FrameError::MissingContentLength),
                    },
                }
            },
        }
    }
}

proof fn lemma_single_bytes()
    ensures
        text(":").len() == 1,
        text(";").len() == 1,
        text("=").len() == 1,
        text("\r\n").len() == 2,
        text("\r\n") == seq![13u8, 10u8],
        text("\r\n\r\n") == seq![13u8, 10u8, 13u8, 10u8],
        text(":") == seq![58u8],
        text("\r\n\r\n").len() == 4,
{
    broadcast use vstd::utf8::group_utf8_lib;

    reveal_strlit(":");
    reveal_strlit(";");
    reveal_strlit("=");
    reveal_strlit("\r\n");
    reveal_strlit("\r\n\r\n");
    assert(vstd::utf8::is_ascii_chars(":"@));
    assert(vstd::utf8::is_ascii_chars(";"@));
    assert(vstd::utf8::is_ascii_chars("="@));
    assert(vstd::utf8::is_ascii_chars("\r\n"@));
    assert(vstd::utf8::is_ascii_chars("\r\n\r\n"@));
    assert(text("\r\n") =~= seq![13u8, 10u8]);
    assert(text("\r\n\r\n") =~= seq![13u8, 10u8, 13u8, 10u8]);
    assert(text(":") =~= seq![58u8]);
}

/// Splits at the first `separator` byte string.
fn split_once<'a>(bytes: &'a [u8], separator: &[u8]) -> (halves: Option<(&'a [u8], &'a [u8])>)
    ensures
        match find(bytes@, separator@) {
            None => halves is None,
            Some(at) => {
                &&& halves matches Some((left, right))
                &&& left@ == bytes@.subrange(0, at)
                &&& right@ == bytes@.subrange(at + separator@.len(), bytes@.len() as int)
            },
        },
{
    proof {
        lemma_find_from_is_first(bytes@, separator@, 0);
    }
    match find_bytes(bytes, separator) {
        None => None,
        Some(at) => {
            let end: usize = bytes.len();
            Some(
                (
                    slice_subrange(bytes, 0, at),
                    slice_subrange(bytes, at + separator.len(), end),
                ),
            )
        },
    }
}

fn validate_content_type(value: &[u8]) -> (result: Result<(), FrameError>)
    ensures
        result == content_type(value@),
{
    proof {
        lemma_single_bytes();
    }
    let parts = split_bytes(value, ";".as_bytes());
    assert(views(parts@)[0] == parts@[0]@);
    if !equal_ignoring_case(trim_bytes(parts[0]), "application/vscode-jsonrpc".as_bytes()) {
        return Err(FrameError::UnsupportedContentType);
    }
    let mut charset_seen = false;
    let mut index: usize = 1;
    while index < parts.len()
        invariant
            1 <= index <= parts.len(),
            views(parts@) == split(value@, text(";")),
            scan_parameters(
                views(parts@).subrange(index as int, parts@.len() as int),
                charset_seen,
            ) == scan_parameters(views(parts@).subrange(1, parts@.len() as int), false),
            same_letters(trim(views(parts@)[0]), text("application/vscode-jsonrpc")),
        decreases parts.len() - index,
    {
        let ghost remaining = views(parts@).subrange(index as int, parts@.len() as int);
        assert(remaining[0] == parts@[index as int]@);
        assert(remaining.subrange(1, remaining.len() as int) =~= views(parts@).subrange(
            index + 1,
            parts@.len() as int,
        ));
        let parameter = trim_bytes(parts[index]);
        match split_once(parameter, "=".as_bytes()) {
            None => {
                return Err(FrameError::MalformedContentTypeParameter);
            },
            Some((name, value)) => {
                if !equal_ignoring_case(trim_bytes(name), "charset".as_bytes()) || charset_seen {
                    return Err(FrameError::UnsupportedContentTypeParameter);
                }
                let value = trim_bytes(value);
                if !(equal_ignoring_case(value, "utf-8".as_bytes()) || equal_ignoring_case(
                    value,
                    "utf8".as_bytes(),
                )) {
                    return Err(FrameError::CharsetNotUtf8);
                }
                charset_seen = true;
            },
        }
        index = index + 1;
    }
    Ok(())
}

pub open spec fn slice_view(value: Option<&[u8]>) -> Option<Seq<u8>> {
    match value {
        Some(bytes) => Some(bytes@),
        None => None,
    }
}

fn parse_header_line<'a>(
    line: &'a [u8],
    length: Option<usize>,
    media: Option<&'a [u8]>,
) -> (result: Result<(Option<usize>, Option<&'a [u8]>), FrameError>)
    ensures
        match header_line(line@, length, slice_view(media)) {
            Err(error) => result matches Err(found) && found == error,
            Ok((next_length, next_media)) => {
                &&& result matches Ok((found_length, found_media))
                &&& found_length == next_length
                &&& slice_view(found_media) == next_media
            },
        },
{
    match split_once(line, ":".as_bytes()) {
        None => Err(FrameError::MalformedHeader),
        Some((name, value)) => {
            let value = trim_bytes(value);
            if equal_ignoring_case(name, "content-length".as_bytes()) {
                if length.is_some() {
                    return Err(FrameError::DuplicateContentLength);
                }
                if value.len() == 0 || !all_digit_bytes(value) {
                    return Err(FrameError::InvalidContentLength);
                }
                match parse_decimal(value) {
                    None => Err(FrameError::ContentLengthOverflow),
                    Some(number) => {
                        if number < 1 || number > MAX_BODY_BYTES {
                            Err(FrameError::ContentLengthOutOfRange)
                        } else {
                            Ok((Some(number), media))
                        }
                    },
                }
            } else if equal_ignoring_case(name, "content-type".as_bytes()) {
                if media.is_some() {
                    Err(FrameError::DuplicateContentType)
                } else {
                    Ok((length, Some(value)))
                }
            } else {
                Ok((length, media))
            }
        },
    }
}

pub fn parse_headers(block: &[u8]) -> (result: Result<usize, FrameError>)
    ensures
        result == headers(block@),
{
    if !ascii_bytes(block) {
        return Err(FrameError::HeaderNotAscii);
    }
    proof {
        lemma_single_bytes();
    }
    let lines = split_bytes(block, "\r\n".as_bytes());
    let mut length: Option<usize> = None;
    let mut media: Option<&[u8]> = None;
    let mut index: usize = 0;
    assert(views(lines@).subrange(0, lines@.len() as int) =~= views(lines@));
    while index < lines.len()
        invariant
            index <= lines.len(),
            is_ascii(block@),
            views(lines@) == split(block@, text("\r\n")),
            scan_headers(
                views(lines@).subrange(index as int, lines@.len() as int),
                length,
                slice_view(media),
            ) == scan_headers(views(lines@), None, None),
        decreases lines.len() - index,
    {
        let ghost remaining = views(lines@).subrange(index as int, lines@.len() as int);
        assert(remaining[0] == lines@[index as int]@);
        assert(remaining.subrange(1, remaining.len() as int) =~= views(lines@).subrange(
            index + 1,
            lines@.len() as int,
        ));
        match parse_header_line(lines[index], length, media) {
            Err(error) => {
                return Err(error);
            },
            Ok((next_length, next_media)) => {
                length = next_length;
                media = next_media;
            },
        }
        index = index + 1;
    }
    if let Some(value) = media {
        match validate_content_type(value) {
            Err(error) => {
                return Err(error);
            },
            Ok(()) => {},
        }
    }
    match length {
        Some(bytes) => Ok(bytes),
        None => Err(FrameError::MissingContentLength),
    }
}

/// A body together with the reservation that it holds.
#[derive(Debug)]
pub struct ChargedPayload {
    pub bytes: Vec<u8>,
    pub permit: PayloadPermit,
}

impl ChargedPayload {
    pub fn as_slice(&self) -> (bytes: &[u8])
        ensures
            bytes@ == self.bytes@,
    {
        self.bytes.as_slice()
    }

    pub fn len(&self) -> (length: usize)
        ensures
            length == self.bytes@.len(),
    {
        self.bytes.len()
    }
}

/// The bodies of the payloads.
pub open spec fn bodies(frames: Seq<ChargedPayload>) -> Seq<Seq<u8>> {
    Seq::new(frames.len(), |i: int| frames[i].bytes@)
}

/// The bytes that the payloads hold reserved.
pub open spec fn charges(frames: Seq<ChargedPayload>) -> nat
    decreases frames.len(),
{
    if frames.len() == 0 {
        0
    } else {
        charges(frames.drop_last()) + frames.last().permit.bytes as nat
    }
}

/// What becomes of a buffered byte stream.
pub struct Decoding {
    pub frames: Seq<Seq<u8>>,
    pub rest: Seq<u8>,
    pub expected: Option<usize>,
    pub room: int,
    pub failure: Option<FrameError>,
}

/// The bodies that `stream` completes, what stays buffered, and the error that
/// ends the decoding, if one does. `expected` is the length of a body whose
/// header was read before; `room` is how many bytes can be reserved.
pub open spec fn decode(stream: Seq<u8>, expected: Option<usize>, room: int) -> Decoding
    decreases stream.len(), (if expected is Some { 0int } else { 1int }),
{
    match expected {
        Some(length) => if length == 0 || stream.len() < length {
            Decoding { frames: Seq::empty(), rest: stream, expected, room, failure: None }
        } else {
            let after = decode(
                stream.subrange(length as int, stream.len() as int),
                None,
                room,
            );
            Decoding { frames: seq![stream.subrange(0, length as int)] + after.frames, ..after }
        },
        None => match find(stream, text("\r\n\r\n")) {
            None => Decoding {
                frames: Seq::empty(),
                rest: stream,
                expected,
                room,
                failure: if stream.len() > MAX_HEADER_BYTES {
                    Some(FrameError::HeaderTooLarge)
                } else {
                    None
                },
            },
            Some(end) => if end < 0 || end + 4 > stream.len() || end + 4 > MAX_HEADER_BYTES {
                Decoding {
                    frames: Seq::empty(),
                    rest: stream,
                    expected,
                    room,
                    failure: Some(FrameError::HeaderTooLarge),
                }
            } else {
                let rest = stream.subrange(end + 4, stream.len() as int);
                match headers(stream.subrange(0, end)) {
                    Err(error) => Decoding {
                        frames: Seq::empty(),
                        rest: stream,
                        expected,
                        room,
                        failure: Some(error),
                    },
                    Ok(length) => if length > room {
                        Decoding {
                            frames: Seq::empty(),
                            rest,
                            expected,
                            room,
                            failure: Some(FrameError::Payload(PayloadError::Exhausted)),
                        }
                    } else {
                        decode(rest, Some(length), room - length)
                    },
                }
            },
        },
    }
}

/// Adds earlier bodies in front of a decoding.
pub open spec fn after_frames(frames: Seq<Seq<u8>>, decoding: Decoding) -> Decoding {
    Decoding { frames: frames + decoding.frames, ..decoding }
}

proof fn lemma_header_length(block: Seq<u8>)
    ensures
        headers(block) matches Ok(length) ==> 1 <= length <= MAX_BODY_BYTES,
{
    let lines = split(block, text("\r\n"));
    lemma_scanned_length(lines, None, None);
}

proof fn lemma_scanned_length(lines: Seq<Seq<u8>>, length: Option<usize>, media: Option<Seq<u8>>)
    requires
        length matches Some(bytes) ==> 1 <= bytes <= MAX_BODY_BYTES,
    ensures
        scan_headers(lines, length, media) matches Ok((Some(bytes), _)) ==> 1 <= bytes
            <= MAX_BODY_BYTES,
    decreases lines.len(),
{
    if lines.len() > 0 {
        match header_line(lines[0], length, media) {
            Err(_) => {},
            Ok((next_length, next_media)) => {
                lemma_scanned_length(
                    lines.subrange(1, lines.len() as int),
                    next_length,
                    next_media,
                );
            },
        }
    }
}

/// Reassembles bodies from arbitrarily cut input. A body's bytes are reserved
/// when its header is read.
#[derive(Debug)]
pub struct FrameDecoder {
    pub buffer: Vec<u8>,
    pub expected_body: Option<usize>,
    pub body_permit: Option<PayloadPermit>,
}

impl Default for FrameDecoder {
    fn default() -> (decoder: Self)
        ensures
            decoder.well_formed(),
            decoder.buffer@ == Seq::<u8>::empty(),
            decoder.expected_body is None,
    {
        FrameDecoder { buffer: Vec::new(), expected_body: None, body_permit: None }
    }
}

impl FrameDecoder {
    /// A permit is held exactly while a body is awaited, and for its length.
    pub open spec fn well_formed(&self) -> bool {
        match (self.expected_body, self.body_permit) {
            (Some(length), Some(permit)) => 1 <= length <= MAX_BODY_BYTES && permit.bytes
                == length,
            (None, None) => true,
            _ => false,
        }
    }

    /// The bytes reserved for the body that is awaited.
    pub open spec fn charge(&self) -> int {
        match self.expected_body {
            Some(length) => length as int,
            None => 0,
        }
    }

    /// Moves every complete body out of the buffer.
    fn take_frames(
        &mut self,
        frames: &mut Vec<ChargedPayload>,
        budget: &mut PayloadBudget,
        global: &mut GlobalPayloadBudget,
    ) -> (result: Result<(), FrameError>)
        requires
            old(self).well_formed(),
            old(budget).well_formed(),
            old(global).well_formed(),
            old(frames)@.len() == 0,
            old(budget).session.used >= old(self).charge(),
            old(global).pool.used >= old(self).charge(),
        ensures
            final(self).well_formed(),
            final(budget).well_formed(),
            final(global).well_formed(),
            final(budget).session.used + old(self).charge() == old(budget).session.used + charges(
                final(frames)@,
            ) + final(self).charge(),
            final(global).pool.used + old(self).charge() == old(global).pool.used + charges(
                final(frames)@,
            ) + final(self).charge(),
            forall|i: int|
                0 <= i < final(frames)@.len() ==> (#[trigger] final(frames)@[i]).permit.bytes
                    == final(frames)@[i].bytes@.len(),
            ({
                let decoding = decode(
                    old(self).buffer@,
                    old(self).expected_body,
                    old(budget).room(old(global)),
                );
                &&& decoding.failure == (match result {
                    Ok(_) => None,
                    Err(error) => Some(error),
                })
                &&& bodies(final(frames)@) == decoding.frames
                &&& final(self).buffer@ == decoding.rest
                &&& final(self).expected_body == decoding.expected
                &&& result is Err ==> final(self).expected_body is None
            }),
    {
        let ghost whole = decode(self.buffer@, self.expected_body, budget.room(global));
        assert(bodies(frames@) =~= Seq::<Seq<u8>>::empty());
        assert(after_frames(bodies(frames@), whole).frames =~= whole.frames);
        loop
            invariant
                self.well_formed(),
                budget.well_formed(),
                global.well_formed(),
                whole == decode(
                    old(self).buffer@,
                    old(self).expected_body,
                    old(budget).room(old(global)),
                ),
                whole == after_frames(
                    bodies(frames@),
                    decode(self.buffer@, self.expected_body, budget.room(global)),
                ),
                budget.session.used + old(self).charge() == old(budget).session.used + charges(
                    frames@,
                ) + self.charge(),
                global.pool.used + old(self).charge() == old(global).pool.used + charges(frames@)
                    + self.charge(),
                forall|i: int|
                    0 <= i < frames@.len() ==> (#[trigger] frames@[i]).permit.bytes
                        == frames@[i].bytes@.len(),
            decreases self.buffer@.len(), (if self.expected_body is Some { 0int } else { 1int }),
        {
            let ghost before = decode(self.buffer@, self.expected_body, budget.room(global));
            let ghost stream = self.buffer@;
            if self.expected_body.is_none() {
                proof {
                    lemma_single_bytes();
                    lemma_find_from_is_first(stream, text("\r\n\r\n"), 0);
                }
                match find_bytes(self.buffer.as_slice(), "\r\n\r\n".as_bytes()) {
                    None => {
                        assert(after_frames(bodies(frames@), before).frames =~= bodies(frames@));
                        if self.buffer.len() > MAX_HEADER_BYTES {
                            return Err(FrameError::HeaderTooLarge);
                        }
                        return Ok(());
                    },
                    Some(end) => {
                        assert(after_frames(bodies(frames@), Decoding {
                            frames: Seq::empty(),
                            ..before
                        }).frames =~= bodies(frames@));
                        let length: usize = self.buffer.len();
                        if end > MAX_HEADER_BYTES - 4 {
                            return Err(FrameError::HeaderTooLarge);
                        }
                        match parse_headers(slice_subrange(self.buffer.as_slice(), 0, end)) {
                            Err(error) => {
                                return Err(error);
                            },
                            Ok(body) => {
                                proof {
                                    lemma_header_length(stream.subrange(0, end as int));
                                }
                                let rest = self.buffer.split_off(end + 4);
                                self.buffer = rest;
                                assert(self.buffer@ =~= stream.subrange(
                                    end + 4,
                                    stream.len() as int,
                                ));
                                match budget.reserve(global, body) {
                                    Err(error) => {
                                        return Err(FrameError::Payload(error));
                                    },
                                    Ok(permit) => {
                                        self.body_permit = Some(permit);
                                        self.expected_body = Some(body);
                                    },
                                }
                            },
                        }
                    },
                }
            } else {
                let body = match self.expected_body {
                    Some(body) => body,
                    None => 0,
                };
                if self.buffer.len() < body {
                    assert(after_frames(bodies(frames@), before).frames =~= bodies(frames@));
                    return Ok(());
                }
                let mut bytes = self.buffer.split_off(body);
                std::mem::swap(&mut bytes, &mut self.buffer);
                assert(bytes@ =~= stream.subrange(0, body as int));
                assert(self.buffer@ =~= stream.subrange(body as int, stream.len() as int));
                let ghost earlier = frames@;
                if let Some(permit) = self.body_permit.take() {
                    frames.push(ChargedPayload { bytes, permit });
                }
                self.expected_body = None;
                proof {
                    let after = decode(self.buffer@, None, budget.room(global));
                    assert(frames@.drop_last() =~= earlier);
                    assert(bodies(frames@) =~= bodies(earlier) + seq![bytes@]);
                    assert(bodies(earlier) + (seq![bytes@] + after.frames) =~= bodies(frames@)
                        + after.frames);
                }
            }
        }
    }

    /// Appends `chunk` to the stream and returns the bodies that it completes.
    /// An error ends the stream: the bodies found with it are dropped and
    /// their reservations handed back.
    pub fn push(
        &mut self,
        chunk: &[u8],
        budget: &mut PayloadBudget,
        global: &mut GlobalPayloadBudget,
    ) -> (result: Result<Vec<ChargedPayload>, FrameError>)
        requires
            old(self).well_formed(),
            old(budget).well_formed(),
            old(global).well_formed(),
            old(budget).session.used >= old(self).charge(),
            old(global).pool.used >= old(self).charge(),
        ensures
            final(self).well_formed(),
            final(budget).well_formed(),
            final(global).well_formed(),
            old(self).buffer@.len() + chunk@.len() > usize::MAX ==> result == Err::<
                Vec<ChargedPayload>,
                FrameError,
            >(FrameError::LengthOverflow) && *final(self) == *old(self)
                && *final(budget) == *old(budget) && *final(global) == *old(global),
            old(self).buffer@.len() + chunk@.len() <= usize::MAX ==> ({
                let decoding = decode(
                    old(self).buffer@ + chunk@,
                    old(self).expected_body,
                    old(budget).room(old(global)),
                );
                &&& final(self).buffer@ == decoding.rest
                &&& final(self).expected_body == decoding.expected
                &&& match result {
                    Ok(frames) => {
                        &&& decoding.failure is None
                        &&& bodies(frames@) == decoding.frames
                        &&& final(budget).session.used + old(self).charge() == old(
                            budget,
                        ).session.used + charges(frames@) + final(self).charge()
                        &&& final(global).pool.used + old(self).charge() == old(global).pool.used
                            + charges(frames@) + final(self).charge()
                        &&& forall|i: int|
                            0 <= i < frames@.len() ==> (#[trigger] frames@[i]).permit.bytes
                                == frames@[i].bytes@.len()
                    },
                    Err(error) => {
                        &&& decoding.failure == Some(error)
                        &&& final(self).expected_body is None
                        &&& final(budget).session.used == old(budget).session.used - old(
                            self,
                        ).charge()
                        &&& final(global).pool.used == old(global).pool.used - old(self).charge()
                    },
                }
            }),
    {
        if usize::MAX - self.buffer.len() < chunk.len() {
            return Err(FrameError::LengthOverflow);
        }
        let ghost buffered = self.buffer@;
        self.buffer.extend_from_slice(chunk);
        assert(self.buffer@ =~= buffered + chunk@);
        let mut frames: Vec<ChargedPayload> = Vec::new();
        match self.take_frames(&mut frames, budget, global) {
            Ok(()) => Ok(frames),
            Err(error) => {
                release_all(frames, budget, global);
                Err(error)
            },
        }
    }

    /// The end of the stream is an error inside a frame.
    pub fn finish(self) -> (result: Result<(), FrameError>)
        ensures
            result == (if self.expected_body is Some || self.buffer@.len() > 0 {
                Err(FrameError::TruncatedFrame)
            } else {
                Ok(())
            }),
    {
        if self.expected_body.is_some() || self.buffer.len() > 0 {
            Err(FrameError::TruncatedFrame)
        } else {
            Ok(())
        }
    }
}

/// Hands back the reservations of payloads that are dropped.
pub fn release_all(
    frames: Vec<ChargedPayload>,
    budget: &mut PayloadBudget,
    global: &mut GlobalPayloadBudget,
)
    requires
        old(budget).well_formed(),
        old(global).well_formed(),
        old(budget).session.used >= charges(frames@),
        old(global).pool.used >= charges(frames@),
    ensures
        final(budget).well_formed(),
        final(global).well_formed(),
        final(budget).session.used == old(budget).session.used - charges(frames@),
        final(global).pool.used == old(global).pool.used - charges(frames@),
{
    let ghost total = charges(frames@);
    let mut frames = frames;
    loop
        invariant
            budget.well_formed(),
            global.well_formed(),
            budget.session.used == old(budget).session.used - total + charges(frames@),
            global.pool.used == old(global).pool.used - total + charges(frames@),
            old(budget).session.used >= total,
            old(global).pool.used >= total,
        ensures
            frames@.len() == 0,
        decreases frames@.len(),
    {
        let ghost before = frames@;
        match frames.pop() {
            None => {
                break;
            },
            Some(frame) => {
                assert(frames@ =~= before.drop_last());
                budget.release(global, frame.permit);
            },
        }
    }
}

/// The wire form of a body.
pub open spec fn encoded(body: Seq<u8>) -> Seq<u8> {
    text("Content-Length: ") + decimal_digits(body.len()) + text("\r\n\r\n") + body
}

proof fn lemma_few_digits(value: nat)
    ensures
        decimal_digits(value).len() <= value + 1,
    decreases value,
{
    if value >= 10 {
        lemma_few_digits(value / 10);
    }
}

/// A frame is not much longer than its body.
pub proof fn lemma_frame_length(body: Seq<u8>)
    ensures
        body.len() < encoded(body).len() <= 2 * body.len() + 21,
{
    broadcast use vstd::utf8::group_utf8_lib;

    lemma_few_digits(body.len());
    lemma_single_bytes();
    reveal_strlit("Content-Length: ");
    assert(vstd::utf8::is_ascii_chars("Content-Length: "@));
    assert(text("Content-Length: ").len() == 16);
}

/// Frames a body and reserves the length of the whole frame.
pub fn encode_frame(
    body: &[u8],
    budget: &mut PayloadBudget,
    global: &mut GlobalPayloadBudget,
) -> (result: Result<ChargedPayload, FrameError>)
    requires
        old(budget).well_formed(),
        old(global).well_formed(),
    ensures
        final(budget).well_formed(),
        final(global).well_formed(),
        if body@.len() == 0 || body@.len() > MAX_BODY_BYTES {
            &&& result matches Err(error)
            &&& error == FrameError::BodyOutOfRange
            &&& *final(budget) == *old(budget)
            &&& *final(global) == *old(global)
        } else {
            match old(budget).refusal(old(global), encoded(body@).len() as int) {
                Some(refusal) => {
                    &&& result matches Err(error)
                    &&& error == FrameError::Payload(refusal)
                    &&& *final(budget) == *old(budget)
                    &&& *final(global) == *old(global)
                },
                None => {
                    &&& result matches Ok(frame)
                    &&& frame.bytes@ == encoded(body@)
                    &&& frame.permit.bytes == encoded(body@).len()
                    &&& final(budget).session.used == old(budget).session.used
                        + frame.permit.bytes
                    &&& final(global).pool.used == old(global).pool.used + frame.permit.bytes
                },
            }
        },
{
    if body.len() == 0 || body.len() > MAX_BODY_BYTES {
        return Err(FrameError::BodyOutOfRange);
    }
    let mut bytes: Vec<u8> = Vec::new();
    bytes.extend_from_slice("Content-Length: ".as_bytes());
    let digits = decimal_bytes(body.len() as u64);
    bytes.extend_from_slice(digits.as_slice());
    bytes.extend_from_slice("\r\n\r\n".as_bytes());
    bytes.extend_from_slice(body);
    assert(bytes@ =~= encoded(body@));
    match budget.reserve(global, bytes.len()) {
        Err(error) => Err(FrameError::Payload(error)),
        Ok(permit) => Ok(ChargedPayload { bytes, permit }),
    }
}

/// Where the input is cut does not matter: the bodies of a stream are those of
/// its first part followed by those of what that part left together with the
/// second, and an error in the first part is the error of the whole.
pub proof fn law_decoding_ignores_cuts(
    first: Seq<u8>,
    second: Seq<u8>,
    expected: Option<usize>,
    room: int,
)
    requires
        expected matches Some(length) ==> length > 0,
    ensures
        ({
            let start = decode(first, expected, room);
            match start.failure {
                None => decode(first + second, expected, room) == after_frames(
                    start.frames,
                    decode(start.rest + second, start.expected, start.room),
                ),
                Some(error) => decode(first + second, expected, room).failure == Some(error),
            }
        }),
    decreases first.len(), (if expected is Some { 0int } else { 1int }),
{
    lemma_single_bytes();
    let start = decode(first, expected, room);
    let stream = first + second;
    let rejoined = decode(start.rest + second, start.expected, start.room);
    match expected {
        Some(length) => {
            if first.len() < length {
                assert(after_frames(start.frames, rejoined).frames =~= rejoined.frames);
            } else {
                let rest = first.subrange(length as int, first.len() as int);
                assert(stream.subrange(length as int, stream.len() as int) =~= rest + second);
                assert(stream.subrange(0, length as int) =~= first.subrange(0, length as int));
                law_decoding_ignores_cuts(rest, second, None, room);
                let after = decode(rest, None, room);
                assert(seq![first.subrange(0, length as int)] + (after.frames + rejoined.frames)
                    =~= (seq![first.subrange(0, length as int)] + after.frames)
                    + rejoined.frames);
            }
        },
        None => {
            lemma_find_in_extension(first, second, text("\r\n\r\n"));
            lemma_find_from_is_first(first, text("\r\n\r\n"), 0);
            match find(first, text("\r\n\r\n")) {
                None => {
                    assert(after_frames(start.frames, rejoined).frames =~= rejoined.frames);
                },
                Some(end) => {
                    assert(stream.subrange(0, end) =~= first.subrange(0, end));
                    let rest = first.subrange(end + 4, first.len() as int);
                    assert(stream.subrange(end + 4, stream.len() as int) =~= rest + second);
                    match headers(first.subrange(0, end)) {
                        Err(_) => {},
                        Ok(length) => {
                            lemma_header_length(first.subrange(0, end));
                            if length <= room {
                                law_decoding_ignores_cuts(
                                    rest,
                                    second,
                                    Some(length),
                                    room - length,
                                );
                            }
                        },
                    }
                },
            }
        },
    }
}

proof fn lemma_digit_count(value: nat)
    requires
        value <= MAX_BODY_BYTES,
    ensures
        decimal_digits(value).len() <= 7,
{
    reveal_with_fuel(decimal_digits, 8);
}

proof fn lemma_length_header(length: nat)
    requires
        1 <= length <= MAX_BODY_BYTES,
    ensures
        ({
            let block = text("Content-Length: ") + decimal_digits(length);
            &&& headers(block) == Ok::<usize, FrameError>(length as usize)
            &&& block.len() + 4 <= MAX_HEADER_BYTES
            &&& forall|i: int| 0 <= i < block.len() ==> #[trigger] block[i] != 13
        }),
{
    broadcast use vstd::utf8::group_utf8_lib;

    lemma_single_bytes();
    lemma_decimal_round_trip(length);
    lemma_digit_count(length);
    reveal_strlit("Content-Length: ");
    reveal_strlit("content-length");
    assert(vstd::utf8::is_ascii_chars("Content-Length: "@));
    assert(vstd::utf8::is_ascii_chars("content-length"@));
    let prefix = text("Content-Length: ");
    let digits = decimal_digits(length);
    let block = prefix + digits;
    assert forall|i: int| 0 <= i < block.len() implies #[trigger] block[i] != 13 && block[i]
        < 128 by {
        if i >= prefix.len() {
            assert(crate::bytes::is_digit(digits[i - prefix.len()]));
        }
    }
    lemma_find_from_is_first(block, text("\r\n"), 0);
    if find(block, text("\r\n")) is Some {
        let at = find(block, text("\r\n"))->0;
        assert(block.subrange(at, at + 2)[0] == block[at]);
        assert(text("\r\n")[0] == 13);
    }
    assert(split(block, text("\r\n")) == seq![block]);
    assert(block.subrange(14, 15) =~= text(":"));
    assert(occurs_at(block, text(":"), 14));
    assert forall|k: int| 0 <= k < 14 implies !#[trigger] occurs_at(block, text(":"), k) by {
        assert(block.subrange(k, k + 1)[0] == block[k]);
        assert(block[k] == prefix[k]);
    }
    lemma_first_is_found(block, text(":"), 14);
    let name = block.subrange(0, 14);
    assert(crate::bytes::lowercase(name) =~= crate::bytes::lowercase(text("content-length")));
    let value = block.subrange(15, block.len() as int);
    assert(value.subrange(1, value.len() as int) =~= digits);
    assert(crate::bytes::is_digit(digits[0]));
    assert(crate::bytes::is_digit(digits.last()));
    assert(crate::bytes::trim_start(digits) == digits);
    assert(crate::bytes::trim_start(value) == digits);
    assert(trim(value) == digits);
    assert(header_line(block, None, None) == Ok::<
        (Option<usize>, Option<Seq<u8>>),
        FrameError,
    >((Some(length as usize), None)));
    let lines = seq![block];
    assert(lines.subrange(1, 1) =~= Seq::<Seq<u8>>::empty());
    reveal_with_fuel(scan_headers, 2);
}

/// A framed body at the head of a stream comes out as it went in, and what
/// follows is decoded as if it stood alone.
pub proof fn law_framing_round_trip(body: Seq<u8>, following: Seq<u8>, room: int)
    requires
        1 <= body.len() <= MAX_BODY_BYTES,
        body.len() <= room,
    ensures
        decode(encoded(body) + following, None, room) == after_frames(
            seq![body],
            decode(following, None, room - body.len()),
        ),
{
    lemma_single_bytes();
    lemma_length_header(body.len());
    let block = text("Content-Length: ") + decimal_digits(body.len());
    let mark = text("\r\n\r\n");
    let stream = encoded(body) + following;
    let end = block.len() as int;
    assert(stream =~= block + mark + body + following);
    assert(stream.subrange(end, end + 4) =~= mark);
    assert(occurs_at(stream, mark, end));
    assert forall|k: int| 0 <= k < end implies !#[trigger] occurs_at(stream, mark, k) by {
        if occurs_at(stream, mark, k) {
            assert(stream.subrange(k, k + 4)[0] == stream[k]);
            assert(stream[k] == block[k]);
            assert(mark[0] == 13);
        }
    }
    lemma_first_is_found(stream, mark, end);
    assert(stream.subrange(0, end) =~= block);
    let rest = stream.subrange(end + 4, stream.len() as int);
    assert(rest =~= body + following);
    assert(rest.subrange(0, body.len() as int) =~= body);
    assert(rest.subrange(body.len() as int, rest.len() as int) =~= following);
    reveal_with_fuel(decode, 3);
}

/// A frame is the header with the length of the body in decimal digits, an empty line, and
/// the body.
pub proof fn law_frames_are_headed_by_their_length(body: Seq<u8>)
    ensures
        exists|digits: Seq<u8>|
            {
                &&& #[trigger] all_digits(digits)
                &&& digits.len() > 0
                &&& decimal_value(digits) == body.len()
                &&& encoded(body) == text("Content-Length: ") + digits + text("\r\n\r\n") + body
            },
{
    crate::bytes::lemma_decimal_round_trip(body.len());
    assert(all_digits(decimal_digits(body.len())));
}

} // verus!
