//! Markdown documents as a list of the events that their outline is made of.

use pulldown_cmark::{CowStr, Event, Tag, TagEnd};
use vstd::prelude::*;

verus! {

/// What a markdown event is.
#[derive(Clone, Copy, Debug, PartialEq, Eq, Structural)]
pub enum EventTag {
    /// A heading of this rank begins; rank one is the highest.
    HeadingStart(u8),
    HeadingEnd,
    CodeBlockEnd,
    Text,
    /// Code within a line.
    Code,
    SoftBreak,
    HardBreak,
    Other,
}

/// An event, the words it carries, and the bytes of the source it stands for.
#[derive(Debug)]
pub struct MarkdownEvent {
    pub tag: EventTag,
    pub words: String,
    pub start: usize,
    pub end: usize,
}

/// What an event says.
pub struct EventRecord {
    pub tag: EventTag,
    pub words: Seq<char>,
    pub start: usize,
    pub end: usize,
}

impl View for MarkdownEvent {
    type V = EventRecord;

    open spec fn view(&self) -> EventRecord {
        EventRecord { tag: self.tag, words: self.words@, start: self.start, end: self.end }
    }
}

pub open spec fn event_records(events: Seq<MarkdownEvent>) -> Seq<EventRecord> {
    Seq::new(events.len(), |i: int| events[i]@)
}

/// The event iterator of the crate `pulldown-cmark`.
#[verifier::external_type_specification]
#[verifier::external_body]
#[verifier::reject_recursive_types(F)]
pub struct ExOffsetIter<'a, F>(pulldown_cmark::OffsetIter<'a, F>);

/// The callback type of that iterator, which handles no link.
#[verifier::external_type_specification]
#[verifier::external_body]
pub struct ExBrokenLinkCallback(pulldown_cmark::DefaultBrokenLinkCallback);

/// The events that `pulldown_cmark::Parser` yields for a document.
pub uninterp spec fn parsed_events(source: Seq<char>) -> Seq<EventRecord>;

/// The events that a reader still has to hand out.
pub uninterp spec fn unread(reader: pulldown_cmark::OffsetIter<'_>) -> Seq<EventRecord>;

/// `pulldown_cmark::Parser::new_ext` with every option, and `into_offset_iter`.
/// What the events are is the parser's to say and has only a name here.
#[verifier::external_body]
fn open_markdown<'a>(source: &'a str) -> (reader: pulldown_cmark::OffsetIter<'a>)
    ensures
        unread(reader) == parsed_events(source@),
{
    let options = pulldown_cmark::Options::all();
    pulldown_cmark::Parser::new_ext(source, options).into_offset_iter()
}

/// `next` on a `pulldown_cmark::OffsetIter`: the first event that is left, or
/// none. A heading's level becomes its number, and the events that no outline
/// is made of are not told apart.
#[verifier::external_body]
fn next_event(reader: &mut pulldown_cmark::OffsetIter<'_>) -> (event: Option<MarkdownEvent>)
    ensures
        match event {
            None => unread(*old(reader)).len() == 0 && unread(*final(reader)) == unread(
                *old(reader),
            ),
            Some(found) => unread(*old(reader)).len() > 0 && found@ == unread(*old(reader))[0]
                && unread(*final(reader)) == unread(*old(reader)).drop_first(),
        },
{
    let (event, range) = reader.next()?;
    let (tag, words) = match event {
        Event::Start(Tag::Heading { level, .. }) => (EventTag::HeadingStart(level as u8), None),
        Event::End(TagEnd::Heading(_)) => (EventTag::HeadingEnd, None),
        Event::End(TagEnd::CodeBlock) => (EventTag::CodeBlockEnd, None),
        Event::Text(words) => (EventTag::Text, Some(words)),
        Event::Code(words) => (EventTag::Code, Some(words)),
        Event::SoftBreak => (EventTag::SoftBreak, None),
        Event::HardBreak => (EventTag::HardBreak, None),
        _ => (EventTag::Other, None),
    };
    let words = words.map(CowStr::into_string).unwrap_or_default();
    Some(MarkdownEvent { tag, words, start: range.start, end: range.end })
}

/// The events of a document in their order.
pub fn markdown_events(source: &str) -> (events: Vec<MarkdownEvent>)
    ensures
        event_records(events@) == parsed_events(source@),
{
    let mut events: Vec<MarkdownEvent> = Vec::new();
    let mut reader = open_markdown(source);
    assert(event_records(events@) + unread(reader) =~= parsed_events(source@));
    loop
        invariant
            event_records(events@) + unread(reader) == parsed_events(source@),
        ensures
            event_records(events@) == parsed_events(source@),
        decreases unread(reader).len(),
    {
        let ghost before = events@;
        let ghost waiting = unread(reader);
        match next_event(&mut reader) {
            None => {
                assert(event_records(events@) + waiting =~= event_records(events@));
                break;
            },
            Some(event) => {
                events.push(event);
                assert(event_records(events@) + unread(reader) =~= event_records(before)
                    + waiting);
            },
        }
    }
    events
}

} // verus!
