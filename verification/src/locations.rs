//! The locations that a server answers with: read under limits, put in order,
//! and each kept once.

use crate::bytes::{bytes_before, is_bytes_before, lemma_bytes_chain, lemma_bytes_order, text};
use crate::document::NavigationOperation;
use crate::payload::{GlobalPayloadBudget, PayloadBudget, PayloadError, PayloadPermit};
use crate::positions::Range;
use crate::protocol::{
    decode_uri, raw_starts_with, starts_with_mark, token_uri, MAX_RESULT_URI_BYTES,
};
use crate::text::{copy_text, text_equal};
use vstd::prelude::*;
use vstd::utf8::encode_utf8;

verus! {

pub const MAX_LOCATION_RESULTS: usize = 2_000;

pub const MAX_NORMALIZED_RESULT_BYTES: usize = 1024 * 1024;

/// What a location costs besides its URI.
pub const LOCATION_CHARGE: usize = 96;

/// A location as it was written. The URIs are tokens.
#[derive(Debug)]
pub struct LocationItem {
    pub uri: Option<String>,
    pub range: Option<Range>,
    pub target_uri: Option<String>,
    pub target_range: Option<Range>,
    pub target_selection_range: Option<Range>,
    pub origin_selection_range: Option<Range>,
    /// What a parser adds of the place behind the item when it stops there.
    pub place: String,
}

/// What was read of a result.
#[derive(Debug)]
pub struct LocationParts {
    pub items: Vec<LocationItem>,
    /// Why nothing more could be read, if that is so.
    pub unread: Option<String>,
    /// What is wrong with the URI of a single item, if something is.
    pub bad_uri: String,
}

/// A location that was let in, and the permit that it holds.
#[derive(Debug)]
pub struct ProtocolLocation {
    pub uri: String,
    pub range: Range,
    pub permit: PayloadPermit,
}

/// What a location says.
pub struct LocationRecord {
    pub uri: Seq<char>,
    pub range: Range,
}

/// A location and its cost.
pub struct LocationEntry {
    pub record: LocationRecord,
    pub charge: int,
}

impl View for ProtocolLocation {
    type V = LocationEntry;

    open spec fn view(&self) -> LocationEntry {
        LocationEntry {
            record: LocationRecord { uri: self.uri@, range: self.range },
            charge: self.permit.bytes as int,
        }
    }
}

pub open spec fn location_entries(locations: Seq<ProtocolLocation>) -> Seq<LocationEntry> {
    Seq::new(locations.len(), |i: int| locations[i]@)
}

/// What locations cost together.
pub open spec fn total_charge(entries: Seq<LocationEntry>) -> int
    decreases entries.len(),
{
    if entries.len() == 0 {
        0
    } else {
        total_charge(entries.drop_last()) + entries.last().charge
    }
}

#[derive(Clone, Copy, Debug, PartialEq, Eq, Structural)]
pub enum LocationItemKind {
    Location,
    Link,
}

#[derive(Clone, Copy, Debug, PartialEq, Eq, Structural)]
pub enum LocationError {
    SymbolsElsewhere,
    ResultShape,
    UnreadItem,
    UnreadArray,
    TooMany,
    ItemShape,
    Mixed,
    UriTooLong,
    ResultTooLarge,
    Payload(PayloadError),
    InvalidUri,
}

/// Why a result is refused, and the place of the item that it is refused for.
#[derive(Clone, Copy, Debug, PartialEq, Eq, Structural)]
pub struct LocationFault {
    pub error: LocationError,
    pub at: usize,
}

impl LocationError {
    pub open spec fn text(self) -> Seq<char> {
        match self {
            LocationError::SymbolsElsewhere =>
                "document symbols use the bounded symbol result parser"@,
            LocationError::ResultShape =>
                "language server returned an invalid location result shape"@,
            LocationError::UnreadItem => "invalid LSP location"@,
            LocationError::UnreadArray => "invalid bounded LSP location array"@,
            LocationError::TooMany => "language server returned more than 2,000 locations"@,
            LocationError::ItemShape => "invalid or mixed LSP Location/LocationLink item"@,
            LocationError::Mixed => "LSP location array mixes Location and LocationLink items"@,
            LocationError::UriTooLong => "LSP result URI exceeds 64 KiB"@,
            LocationError::ResultTooLarge => "normalized location result exceeds 1 MiB"@,
            LocationError::Payload(error) => error.text(),
            LocationError::InvalidUri => "invalid LSP result URI"@,
        }
    }

    pub fn message(&self) -> (text: &'static str)
        ensures
            text@ == self.text(),
    {
        match self {
            LocationError::SymbolsElsewhere =>
                "document symbols use the bounded symbol result parser",
            LocationError::ResultShape =>
                "language server returned an invalid location result shape",
            LocationError::UnreadItem => "invalid LSP location",
            LocationError::UnreadArray => "invalid bounded LSP location array",
            LocationError::TooMany => "language server returned more than 2,000 locations",
            LocationError::ItemShape => "invalid or mixed LSP Location/LocationLink item",
            LocationError::Mixed => "LSP location array mixes Location and LocationLink items",
            LocationError::UriTooLong => "LSP result URI exceeds 64 KiB",
            LocationError::ResultTooLarge => "normalized location result exceeds 1 MiB",
            LocationError::Payload(error) => error.message(),
            LocationError::InvalidUri => "invalid LSP result URI",
        }
    }
}

// Items -----------------------------------------------------------------------------------

/// Which kind of location an item is, with its URI and its range. A link counts
/// where links are allowed, and stands for what it selects.
pub open spec fn item_parts(item: LocationItem, allow_links: bool) -> Option<
    (LocationItemKind, Seq<char>, Range),
> {
    if item.uri is Some && item.range is Some && item.target_uri is None && item.target_range
        is None && item.target_selection_range is None && item.origin_selection_range is None {
        Some((LocationItemKind::Location, item.uri->0@, item.range->0))
    } else if item.uri is None && item.range is None && item.target_uri is Some
        && item.target_range is Some && item.target_selection_range is Some && allow_links {
        Some((LocationItemKind::Link, item.target_uri->0@, item.target_selection_range->0))
    } else {
        None
    }
}

/// What was read of the items so far.
pub struct LocationState {
    pub kind: Option<LocationItemKind>,
    pub charged: int,
    pub entries: Seq<LocationEntry>,
}

pub open spec fn no_locations() -> LocationState {
    LocationState { kind: None, charged: 0, entries: Seq::empty() }
}

/// One more item. `room` is what the budget could take before the first.
pub open spec fn with_item(
    state: LocationState,
    item: LocationItem,
    allow_links: bool,
    room: int,
) -> Result<LocationState, LocationError> {
    match item_parts(item, allow_links) {
        None => Err(LocationError::ItemShape),
        Some((kind, uri, range)) => {
            let charge = encode_utf8(uri).len() + LOCATION_CHARGE;
            if state.kind is Some && state.kind != Some(kind) {
                Err(LocationError::Mixed)
            } else if !starts_with_mark(uri, 34) || encode_utf8(uri).len() > MAX_RESULT_URI_BYTES {
                Err(LocationError::UriTooLong)
            } else if state.charged + charge > MAX_NORMALIZED_RESULT_BYTES {
                Err(LocationError::ResultTooLarge)
            } else if state.charged + charge > room {
                Err(LocationError::Payload(PayloadError::Exhausted))
            } else {
                match token_uri(uri) {
                    None => Err(LocationError::InvalidUri),
                    Some(words) => Ok(
                        LocationState {
                            kind: Some(kind),
                            charged: state.charged + charge,
                            entries: state.entries.push(
                                LocationEntry {
                                    record: LocationRecord { uri: words, range },
                                    charge,
                                },
                            ),
                        },
                    ),
                }
            }
        },
    }
}

/// The first `count` items read one after the other.
pub open spec fn read_items(
    items: Seq<LocationItem>,
    count: int,
    allow_links: bool,
    room: int,
) -> Result<LocationState, LocationFault>
    decreases count,
{
    if count <= 0 {
        Ok(no_locations())
    } else {
        let at = (count - 1) as usize;
        match read_items(items, count - 1, allow_links, room) {
            Err(fault) => Err(fault),
            Ok(state) => if count > MAX_LOCATION_RESULTS {
                Err(LocationFault { error: LocationError::TooMany, at })
            } else {
                match with_item(state, items[count - 1], allow_links, room) {
                    Err(error) => Err(LocationFault { error, at }),
                    Ok(next) => Ok(next),
                }
            },
        }
    }
}

proof fn lemma_items_fail(
    items: Seq<LocationItem>,
    count: int,
    total: int,
    allow_links: bool,
    room: int,
)
    requires
        count <= total,
        read_items(items, count, allow_links, room) is Err,
    ensures
        read_items(items, total, allow_links, room) == read_items(
            items,
            count,
            allow_links,
            room,
        ),
    decreases total - count,
{
    if count < total {
        lemma_items_fail(items, count, total - 1, allow_links, room);
    }
}

/// Reads one item and charges it. What was read before is charged already.
pub fn normalize_location_item(
    item: &LocationItem,
    budget: &mut PayloadBudget,
    global: &mut GlobalPayloadBudget,
    allow_links: bool,
    seen_kind: Option<LocationItemKind>,
    charged: usize,
) -> (result: Result<(LocationItemKind, ProtocolLocation), LocationError>)
    requires
        old(budget).well_formed(),
        old(global).well_formed(),
        charged <= MAX_NORMALIZED_RESULT_BYTES,
    ensures
        final(budget).well_formed(),
        final(global).well_formed(),
        match with_item(
            LocationState { kind: seen_kind, charged: charged as int, entries: Seq::empty() },
            *item,
            allow_links,
            old(budget).room(old(global)) + charged,
        ) {
            Ok(state) => {
                &&& result matches Ok(found)
                &&& state.kind == Some(found.0)
                &&& state.entries == seq![found.1@]
                &&& state.charged == charged + found.1.permit.bytes
                &&& final(budget).session.used == old(budget).session.used + found.1.permit.bytes
                &&& final(global).pool.used == old(global).pool.used + found.1.permit.bytes
            },
            Err(error) => {
                &&& result == Err::<(LocationItemKind, ProtocolLocation), _>(error)
                &&& *final(budget) == *old(budget)
                &&& *final(global) == *old(global)
            },
        },
{
    let whole = item.uri.is_some() && item.range.is_some() && item.target_uri.is_none()
        && item.target_range.is_none() && item.target_selection_range.is_none()
        && item.origin_selection_range.is_none();
    let linked = item.uri.is_none() && item.range.is_none() && item.target_uri.is_some()
        && item.target_range.is_some() && item.target_selection_range.is_some() && allow_links;
    let kind = if whole {
        LocationItemKind::Location
    } else if linked {
        LocationItemKind::Link
    } else {
        return Err(LocationError::ItemShape);
    };
    let (token, range) = match kind {
        LocationItemKind::Location => (item.uri.as_ref(), item.range),
        LocationItemKind::Link => (item.target_uri.as_ref(), item.target_selection_range),
    };
    let (token, range) = match (token, range) {
        (Some(token), Some(range)) => (token, range),
        _ => {
            return Err(LocationError::ItemShape);
        },
    };
    if let Some(seen) = seen_kind {
        if seen != kind {
            return Err(LocationError::Mixed);
        }
    }
    let length: usize = token.as_str().as_bytes().len();
    if !raw_starts_with(token.as_str(), 34) || length > MAX_RESULT_URI_BYTES {
        return Err(LocationError::UriTooLong);
    }
    let charge: usize = length + LOCATION_CHARGE;
    if charged + charge > MAX_NORMALIZED_RESULT_BYTES {
        return Err(LocationError::ResultTooLarge);
    }
    let permit = match budget.reserve(global, charge) {
        Err(error) => {
            return Err(LocationError::Payload(error));
        },
        Ok(permit) => permit,
    };
    match decode_uri(token.as_str()) {
        None => {
            budget.release(global, permit);
            Err(LocationError::InvalidUri)
        },
        Some(uri) => {
            let location = ProtocolLocation { uri, range, permit };
            assert(Seq::<LocationEntry>::empty().push(location@) =~= seq![location@]);
            Ok((kind, location))
        },
    }
}

/// Hands the permits of locations back.
pub fn release_locations(
    locations: Vec<ProtocolLocation>,
    budget: &mut PayloadBudget,
    global: &mut GlobalPayloadBudget,
)
    requires
        old(budget).well_formed(),
        old(global).well_formed(),
        old(budget).session.used >= total_charge(location_entries(locations@)),
        old(global).pool.used >= total_charge(location_entries(locations@)),
    ensures
        final(budget).well_formed(),
        final(global).well_formed(),
        final(budget).session.used == old(budget).session.used - total_charge(
            location_entries(locations@),
        ),
        final(global).pool.used == old(global).pool.used - total_charge(
            location_entries(locations@),
        ),
{
    let mut locations = locations;
    let ghost all = total_charge(location_entries(locations@));
    let ghost own = budget.session.used;
    let ghost shared = global.pool.used;
    proof {
        lemma_charges_count(locations@);
    }
    while locations.len() > 0
        invariant
            budget.well_formed(),
            global.well_formed(),
            own >= all,
            shared >= all,
            total_charge(location_entries(locations@)) >= 0,
            budget.session.used == own - all + total_charge(location_entries(locations@)),
            global.pool.used == shared - all + total_charge(location_entries(locations@)),
        decreases locations@.len(),
    {
        let ghost before = location_entries(locations@);
        proof {
            lemma_charges_count(locations@.drop_last());
        }
        match locations.pop() {
            None => {},
            Some(location) => {
                proof {
                    assert(location_entries(locations@) =~= before.drop_last());
                    assert(before.last() == location@);
                }
                budget.release(global, location.permit);
            },
        }
    }
}

proof fn lemma_charges_count(locations: Seq<ProtocolLocation>)
    ensures
        total_charge(location_entries(locations)) >= 0,
    decreases locations.len(),
{
    if locations.len() > 0 {
        lemma_charges_count(locations.drop_last());
        assert(location_entries(locations).drop_last() =~= location_entries(
            locations.drop_last(),
        ));
    }
}

proof fn lemma_state(items: Seq<LocationItem>, count: int, allow_links: bool, room: int)
    ensures
        read_items(items, count, allow_links, room) matches Ok(state) ==> {
            &&& 0 <= state.charged <= MAX_NORMALIZED_RESULT_BYTES
            &&& count > 0 ==> state.charged <= room
            &&& state.charged == total_charge(state.entries)
            &&& count >= 0 ==> state.entries.len() == count
        },
    decreases count,
{
    if count > 0 {
        lemma_state(items, count - 1, allow_links, room);
        if let Ok(state) = read_items(items, count - 1, allow_links, room) {
            if let Ok(next) = read_items(items, count, allow_links, room) {
                assert(next.entries.drop_last() =~= state.entries);
            }
        }
    }
}

/// Reads items one after the other. If one fails, nothing stays charged.
pub fn parse_bounded_locations(
    items: &Vec<LocationItem>,
    budget: &mut PayloadBudget,
    global: &mut GlobalPayloadBudget,
    allow_links: bool,
) -> (result: Result<Vec<ProtocolLocation>, LocationFault>)
    requires
        old(budget).well_formed(),
        old(global).well_formed(),
    ensures
        final(budget).well_formed(),
        final(global).well_formed(),
        match read_items(
            items@,
            items@.len() as int,
            allow_links,
            old(budget).room(old(global)),
        ) {
            Ok(state) => {
                &&& result matches Ok(found)
                &&& location_entries(found@) == state.entries
                &&& final(budget).session.used == old(budget).session.used + state.charged
                &&& final(global).pool.used == old(global).pool.used + state.charged
            },
            Err(fault) => {
                &&& result == Err::<Vec<ProtocolLocation>, _>(fault)
                &&& *final(budget) == *old(budget)
                &&& *final(global) == *old(global)
            },
        },
{
    let ghost room = budget.room(global);
    let ghost own = *budget;
    let ghost shared = *global;
    let mut found: Vec<ProtocolLocation> = Vec::new();
    let mut kind: Option<LocationItemKind> = None;
    let mut charged: usize = 0;
    let mut index: usize = 0;
    assert(location_entries(found@) =~= Seq::<LocationEntry>::empty());
    while index < items.len()
        invariant
            index <= items@.len(),
            index <= MAX_LOCATION_RESULTS,
            budget.well_formed(),
            global.well_formed(),
            own.well_formed(),
            shared.well_formed(),
            room == own.room(&shared),
            charged <= MAX_NORMALIZED_RESULT_BYTES,
            budget.session.used == own.session.used + charged,
            global.pool.used == shared.pool.used + charged,
            own == *old(budget),
            shared == *old(global),
            charged == total_charge(location_entries(found@)),
            read_items(items@, index as int, allow_links, room) == Ok::<_, LocationFault>(
                LocationState {
                    kind,
                    charged: charged as int,
                    entries: location_entries(found@),
                },
            ),
        decreases items@.len() - index,
    {
        proof {
            lemma_state(items@, index + 1, allow_links, room);
        }
        if index >= MAX_LOCATION_RESULTS {
            proof {
                lemma_items_fail(items@, index + 1, items@.len() as int, allow_links, room);
            }
            release_locations(found, budget, global);
            return Err(LocationFault { error: LocationError::TooMany, at: index });
        }
        match normalize_location_item(&items[index], budget, global, allow_links, kind, charged) {
            Err(error) => {
                proof {
                    lemma_items_fail(items@, index + 1, items@.len() as int, allow_links, room);
                }
                release_locations(found, budget, global);
                return Err(LocationFault { error, at: index });
            },
            Ok((next, location)) => {
                let ghost before = found@;
                let ghost said = location@;
                charged = charged + location.permit.bytes;
                kind = Some(next);
                found.push(location);
                proof {
                    assert(location_entries(found@) =~= location_entries(before).push(said));
                    assert(location_entries(found@).drop_last() =~= location_entries(before));
                    assert(seq![said][0] == said);
                }
            },
        }
        index = index + 1;
    }
    Ok(found)
}

// Order -----------------------------------------------------------------------------------

/// Locations by URI, then by start, then by end.
pub open spec fn location_before(left: LocationRecord, right: LocationRecord) -> bool {
    if left.uri != right.uri {
        bytes_before(encode_utf8(left.uri), encode_utf8(right.uri))
    } else if left.range.start.line != right.range.start.line {
        left.range.start.line < right.range.start.line
    } else if left.range.start.character != right.range.start.character {
        left.range.start.character < right.range.start.character
    } else if left.range.end.line != right.range.end.line {
        left.range.end.line < right.range.end.line
    } else {
        left.range.end.character < right.range.end.character
    }
}

pub proof fn lemma_location_order(left: LocationRecord, right: LocationRecord)
    ensures
        left != right ==> location_before(left, right) || location_before(right, left),
        !(location_before(left, right) && location_before(right, left)),
        left == right ==> !location_before(left, right),
{
    lemma_bytes_order(encode_utf8(left.uri), encode_utf8(right.uri));
    vstd::utf8::encode_utf8_decode_utf8(left.uri);
    vstd::utf8::encode_utf8_decode_utf8(right.uri);
    if left.uri == right.uri && left.range.start.line == right.range.start.line
        && left.range.start.character == right.range.start.character && left.range.end.line
        == right.range.end.line && left.range.end.character == right.range.end.character {
        assert(left.range.start == right.range.start);
        assert(left.range.end == right.range.end);
        assert(left == right);
    }
}

pub proof fn lemma_location_chain(
    left: LocationRecord,
    middle: LocationRecord,
    right: LocationRecord,
)
    requires
        location_before(left, middle),
        location_before(middle, right),
    ensures
        location_before(left, right),
{
    if left.uri != middle.uri && middle.uri != right.uri {
        lemma_bytes_chain(
            encode_utf8(left.uri),
            encode_utf8(middle.uri),
            encode_utf8(right.uri),
        );
        lemma_bytes_order(encode_utf8(left.uri), encode_utf8(right.uri));
    }
}

/// The first place, from `from` on, whose location is not before this one.
pub open spec fn place_for(
    entries: Seq<LocationEntry>,
    record: LocationRecord,
    from: int,
) -> int
    decreases entries.len() - from,
{
    if 0 <= from < entries.len() && location_before(entries[from].record, record) {
        place_for(entries, record, from + 1)
    } else {
        from
    }
}

/// A location put into its place, unless it is there.
pub open spec fn inserted(entries: Seq<LocationEntry>, entry: LocationEntry) -> Seq<
    LocationEntry,
> {
    let place = place_for(entries, entry.record, 0);
    if 0 <= place < entries.len() && entries[place].record == entry.record {
        entries
    } else {
        entries.insert(place, entry)
    }
}

/// Locations in order, each once.
pub open spec fn in_order(entries: Seq<LocationEntry>) -> Seq<LocationEntry>
    decreases entries.len(),
{
    if entries.len() == 0 {
        Seq::empty()
    } else {
        inserted(in_order(entries.drop_last()), entries.last())
    }
}

pub open spec fn is_ascending(entries: Seq<LocationEntry>) -> bool {
    forall|i: int, j: int|
        0 <= i < j < entries.len() ==> location_before(
            (#[trigger] entries[i]).record,
            (#[trigger] entries[j]).record,
        )
}

/// The location is among these.
pub open spec fn has_record(entries: Seq<LocationEntry>, record: LocationRecord) -> bool {
    exists|i: int| 0 <= i < entries.len() && (#[trigger] entries[i]).record == record
}

proof fn lemma_place(entries: Seq<LocationEntry>, record: LocationRecord, from: int)
    requires
        0 <= from <= entries.len(),
    ensures
        from <= place_for(entries, record, from) <= entries.len(),
        forall|i: int|
            from <= i < place_for(entries, record, from) ==> location_before(
                (#[trigger] entries[i]).record,
                record,
            ),
        place_for(entries, record, from) < entries.len() ==> !location_before(
            entries[place_for(entries, record, from)].record,
            record,
        ),
    decreases entries.len() - from,
{
    if from < entries.len() && location_before(entries[from].record, record) {
        lemma_place(entries, record, from + 1);
    }
}

proof fn lemma_inserted(entries: Seq<LocationEntry>, entry: LocationEntry)
    requires
        is_ascending(entries),
    ensures
        is_ascending(inserted(entries, entry)),
        forall|record: LocationRecord| #[trigger]
            has_record(inserted(entries, entry), record) <==> has_record(entries, record) || record
                == entry.record,
{
    let place = place_for(entries, entry.record, 0);
    lemma_place(entries, entry.record, 0);
    let after = inserted(entries, entry);
    if place < entries.len() && entries[place].record == entry.record {
        assert forall|record: LocationRecord| #[trigger]
            has_record(after, record) <==> has_record(entries, record) || record
                == entry.record by {
            if record == entry.record {
                assert(entries[place].record == record);
            }
        }
    } else {
        if place < entries.len() {
            lemma_location_order(entries[place].record, entry.record);
        }
        assert forall|i: int, j: int| 0 <= i < j < after.len() implies location_before(
            (#[trigger] after[i]).record,
            (#[trigger] after[j]).record,
        ) by {
            if j == place {
                assert(after[i] == entries[i]);
            } else if i == place {
                assert(after[j] == entries[j - 1]);
                if j - 1 > place {
                    assert(location_before(entries[place].record, entries[j - 1].record));
                    lemma_location_chain(
                        entry.record,
                        entries[place].record,
                        entries[j - 1].record,
                    );
                }
            } else {
                let a = if i < place {
                    i
                } else {
                    i - 1
                };
                let b = if j < place {
                    j
                } else {
                    j - 1
                };
                assert(after[i] == entries[a]);
                assert(after[j] == entries[b]);
            }
        }
        assert forall|record: LocationRecord| #[trigger]
            has_record(after, record) <==> has_record(entries, record) || record
                == entry.record by {
            if has_record(entries, record) {
                let i = choose|i: int|
                    0 <= i < entries.len() && (#[trigger] entries[i]).record == record;
                if i < place {
                    assert(after[i] == entries[i]);
                } else {
                    assert(after[i + 1] == entries[i]);
                }
            }
            if record == entry.record {
                assert(after[place] == entry);
            }
            if has_record(after, record) {
                let i = choose|i: int|
                    0 <= i < after.len() && (#[trigger] after[i]).record == record;
                if i < place {
                    assert(entries[i] == after[i]);
                } else if i > place {
                    assert(entries[i - 1] == after[i]);
                }
            }
        }
    }
}

/// Putting locations in order keeps each that was there, once, and leaves them
/// ascending.
pub proof fn law_locations_are_in_order_and_once(entries: Seq<LocationEntry>)
    ensures
        is_ascending(in_order(entries)),
        forall|record: LocationRecord| #[trigger]
            has_record(in_order(entries), record) <==> has_record(entries, record),
    decreases entries.len(),
{
    if entries.len() > 0 {
        let front = entries.drop_last();
        law_locations_are_in_order_and_once(front);
        lemma_inserted(in_order(front), entries.last());
        assert forall|record: LocationRecord| #[trigger]
            has_record(in_order(entries), record) <==> has_record(entries, record) by {
            assert(has_record(in_order(front), record) <==> has_record(front, record));
            if has_record(front, record) {
                let i = choose|i: int|
                    0 <= i < front.len() && (#[trigger] front[i]).record == record;
                assert(entries[i] == front[i]);
            }
            if record == entries.last().record {
                assert(entries[entries.len() - 1].record == record);
            }
            if has_record(entries, record) {
                let i = choose|i: int|
                    0 <= i < entries.len() && (#[trigger] entries[i]).record == record;
                if i < front.len() {
                    assert(front[i] == entries[i]);
                }
            }
        }
    }
}

fn is_location_before(left: &ProtocolLocation, right: &ProtocolLocation) -> (before: bool)
    ensures
        before == location_before(left@.record, right@.record),
{
    if !text_equal(left.uri.as_str(), right.uri.as_str()) {
        is_bytes_before(left.uri.as_str().as_bytes(), right.uri.as_str().as_bytes())
    } else if left.range.start.line != right.range.start.line {
        left.range.start.line < right.range.start.line
    } else if left.range.start.character != right.range.start.character {
        left.range.start.character < right.range.start.character
    } else if left.range.end.line != right.range.end.line {
        left.range.end.line < right.range.end.line
    } else {
        left.range.end.character < right.range.end.character
    }
}

fn is_same_location(left: &ProtocolLocation, right: &ProtocolLocation) -> (same: bool)
    ensures
        same == (left@.record == right@.record),
{
    text_equal(left.uri.as_str(), right.uri.as_str()) && left.range == right.range
}

/// What the locations that were given up cost.
pub open spec fn surplus(entries: Seq<LocationEntry>) -> int {
    total_charge(entries) - total_charge(in_order(entries))
}

proof fn lemma_insert_charge(entries: Seq<LocationEntry>, place: int, entry: LocationEntry)
    requires
        0 <= place <= entries.len(),
    ensures
        total_charge(entries.insert(place, entry)) == total_charge(entries) + entry.charge,
    decreases entries.len(),
{
    let after = entries.insert(place, entry);
    if place == entries.len() {
        assert(after.drop_last() =~= entries);
    } else {
        assert(after.drop_last() =~= entries.drop_last().insert(place, entry));
        lemma_insert_charge(entries.drop_last(), place, entry);
    }
}

/// Puts locations in order and gives up those that occur again.
fn order_locations(
    locations: Vec<ProtocolLocation>,
    budget: &mut PayloadBudget,
    global: &mut GlobalPayloadBudget,
) -> (ordered: Vec<ProtocolLocation>)
    requires
        old(budget).well_formed(),
        old(global).well_formed(),
        old(budget).session.used >= total_charge(location_entries(locations@)),
        old(global).pool.used >= total_charge(location_entries(locations@)),
    ensures
        final(budget).well_formed(),
        final(global).well_formed(),
        location_entries(ordered@) == in_order(location_entries(locations@)),
        final(budget).session.used == old(budget).session.used - surplus(
            location_entries(locations@),
        ),
        final(global).pool.used == old(global).pool.used - surplus(location_entries(locations@)),
{
    let ghost all = location_entries(locations@);
    let ghost own = budget.session.used;
    let ghost shared = global.pool.used;
    let mut left: Vec<ProtocolLocation> = Vec::new();
    let mut waiting = locations;
    // The locations are taken from the front, so they are turned round first.
    while waiting.len() > 0
        invariant
            waiting@.len() <= all.len(),
            left@.len() == all.len() - waiting@.len(),
            location_entries(waiting@) == all.subrange(0, waiting@.len() as int),
            forall|i: int|
                0 <= i < left@.len() ==> (#[trigger] left@[i])@ == all[all.len() - 1 - i],
        decreases waiting@.len(),
    {
        let ghost before = waiting@;
        match waiting.pop() {
            None => {},
            Some(location) => {
                proof {
                    assert(location_entries(before)[before.len() - 1] == location@);
                    assert(location_entries(waiting@) =~= all.subrange(0, waiting@.len() as int))
                    by {
                        assert forall|i: int| 0 <= i < waiting@.len() implies location_entries(
                            waiting@,
                        )[i] == all[i] by {
                            assert(location_entries(before)[i] == all[i]);
                        }
                    }
                }
                left.push(location);
            },
        }
    }
    let mut ordered: Vec<ProtocolLocation> = Vec::new();
    let ghost mut taken: int = 0;
    assert(location_entries(ordered@) =~= in_order(all.subrange(0, 0)));
    while left.len() > 0
        invariant
            0 <= taken,
            taken + left@.len() == all.len(),
            budget.well_formed(),
            global.well_formed(),
            forall|i: int|
                0 <= i < left@.len() ==> (#[trigger] left@[i])@ == all[all.len() - 1 - i],
            location_entries(ordered@) == in_order(all.subrange(0, taken)),
            forall|i: int| 0 <= i < all.len() ==> (#[trigger] all[i]).charge >= 0,
            own >= total_charge(all),
            shared >= total_charge(all),
            budget.session.used == own - surplus(all.subrange(0, taken)),
            global.pool.used == shared - surplus(all.subrange(0, taken)),
        decreases left@.len(),
    {
        let ghost behind = left@;
        match left.pop() {
            None => {},
            Some(location) => {
                let ghost entry = location@;
                let ghost shown = location_entries(ordered@);
                let ghost longer = all.subrange(0, taken + 1);
                proof {
                    assert(behind[behind.len() - 1]@ == all[all.len() - behind.len()]);
                    assert(entry == all[taken]);
                    assert(longer.drop_last() =~= all.subrange(0, taken));
                    assert(longer.last() == entry);
                    lemma_place(shown, entry.record, 0);
                    lemma_part_charge(all, taken + 1);
                    lemma_order_charge(longer);
                }
                let mut place: usize = 0;
                while place < ordered.len() && is_location_before(&ordered[place], &location)
                    invariant
                        place <= ordered@.len(),
                        shown == location_entries(ordered@),
                        entry == location@,
                        place_for(shown, entry.record, 0) == place_for(
                            shown,
                            entry.record,
                            place as int,
                        ),
                    decreases ordered@.len() - place,
                {
                    place = place + 1;
                }
                assert(place == place_for(shown, entry.record, 0));
                if place < ordered.len() && is_same_location(&ordered[place], &location) {
                    budget.release(global, location.permit);
                } else {
                    proof {
                        lemma_insert_charge(shown, place as int, entry);
                    }
                    ordered.insert(place, location);
                    assert(location_entries(ordered@) =~= shown.insert(place as int, entry));
                }
            },
        }
        proof {
            taken = taken + 1;
        }
    }
    assert(all.subrange(0, all.len() as int) =~= all);
    ordered
}

proof fn lemma_part_charge(entries: Seq<LocationEntry>, count: int)
    requires
        0 <= count <= entries.len(),
        forall|i: int| 0 <= i < entries.len() ==> (#[trigger] entries[i]).charge >= 0,
    ensures
        0 <= total_charge(entries.subrange(0, count)) <= total_charge(entries),
    decreases entries.len(),
{
    if count == entries.len() {
        assert(entries.subrange(0, count) =~= entries);
        if count > 0 {
            assert forall|i: int| 0 <= i < entries.drop_last().len() implies (
            #[trigger] entries.drop_last()[i]).charge >= 0 by {
                assert(entries.drop_last()[i] == entries[i]);
            }
            lemma_part_charge(entries.drop_last(), count - 1);
            assert(entries.drop_last().subrange(0, count - 1) =~= entries.drop_last());
        }
    } else {
        assert forall|i: int| 0 <= i < entries.drop_last().len() implies (
        #[trigger] entries.drop_last()[i]).charge >= 0 by {
            assert(entries.drop_last()[i] == entries[i]);
        }
        lemma_part_charge(entries.drop_last(), count);
        assert(entries.drop_last().subrange(0, count) =~= entries.subrange(0, count));
    }
}

proof fn lemma_order_charge(entries: Seq<LocationEntry>)
    requires
        forall|i: int| 0 <= i < entries.len() ==> (#[trigger] entries[i]).charge >= 0,
    ensures
        0 <= total_charge(in_order(entries)) <= total_charge(entries),
    decreases entries.len(),
{
    if entries.len() > 0 {
        let front = entries.drop_last();
        assert forall|i: int| 0 <= i < front.len() implies (#[trigger] front[i]).charge >= 0 by {
            assert(front[i] == entries[i]);
        }
        lemma_order_charge(front);
        let shown = in_order(front);
        let entry = entries.last();
        assert(entries[entries.len() - 1].charge >= 0);
        lemma_place(shown, entry.record, 0);
        lemma_insert_charge(shown, place_for(shown, entry.record, 0), entry);
    }
}

// Results ---------------------------------------------------------------------------------

/// How a result is read.
#[derive(Clone, Copy, Debug, PartialEq, Eq, Structural)]
pub enum ResultShape {
    Nothing,
    One,
    Many,
    Invalid,
}

pub open spec fn allows_links(operation: NavigationOperation) -> bool {
    operation is Definition || operation is Implementations
}

/// How a token is read as locations. A single one counts where links do.
pub open spec fn shape_of(raw: Seq<char>, allow_links: bool) -> ResultShape {
    if raw == "null"@ {
        ResultShape::Nothing
    } else if starts_with_mark(raw, 123) && allow_links {
        ResultShape::One
    } else if starts_with_mark(raw, 91) {
        ResultShape::Many
    } else {
        ResultShape::Invalid
    }
}

pub fn result_shape(raw: &str, operation: NavigationOperation) -> (shape: ResultShape)
    ensures
        shape == shape_of(raw@, allows_links(operation)),
{
    if text_equal(raw, "null") {
        return ResultShape::Nothing;
    }
    let allow_links = match operation {
        NavigationOperation::Definition => true,
        NavigationOperation::Implementations => true,
        _ => false,
    };
    if raw_starts_with(raw, 123) && allow_links {
        ResultShape::One
    } else if raw_starts_with(raw, 91) {
        ResultShape::Many
    } else {
        ResultShape::Invalid
    }
}

/// The locations in a result. `items` is what was read out of its token, up to where
/// something could not be read.
pub open spec fn result_locations(
    operation: NavigationOperation,
    raw: Seq<char>,
    items: Seq<LocationItem>,
    unread: bool,
    room: int,
) -> Result<Seq<LocationEntry>, LocationFault> {
    let links = allows_links(operation);
    match shape_of(raw, links) {
        ResultShape::Nothing => Ok(Seq::empty()),
        shape => if operation is DocumentSymbols {
            Err(LocationFault { error: LocationError::SymbolsElsewhere, at: 0 })
        } else if shape is Invalid {
            Err(LocationFault { error: LocationError::ResultShape, at: 0 })
        } else {
            match read_items(items, items.len() as int, links, room) {
                Err(fault) => Err(fault),
                Ok(state) => if unread {
                    Err(
                        LocationFault {
                            error: if shape is One {
                                LocationError::UnreadItem
                            } else {
                                LocationError::UnreadArray
                            },
                            at: items.len() as usize,
                        },
                    )
                } else {
                    Ok(in_order(state.entries))
                },
            }
        },
    }
}

/// Reads the locations in a result, puts them in order and keeps each once.
pub fn parse_navigation_result(
    operation: NavigationOperation,
    raw: &str,
    parts: &LocationParts,
    budget: &mut PayloadBudget,
    global: &mut GlobalPayloadBudget,
) -> (result: Result<Vec<ProtocolLocation>, LocationFault>)
    requires
        old(budget).well_formed(),
        old(global).well_formed(),
    ensures
        final(budget).well_formed(),
        final(global).well_formed(),
        match result_locations(
            operation,
            raw@,
            parts.items@,
            parts.unread is Some,
            old(budget).room(old(global)),
        ) {
            Ok(entries) => {
                &&& result matches Ok(found)
                &&& location_entries(found@) == entries
                &&& final(budget).session.used == old(budget).session.used + total_charge(entries)
                &&& final(global).pool.used == old(global).pool.used + total_charge(entries)
            },
            Err(fault) => {
                &&& result == Err::<Vec<ProtocolLocation>, _>(fault)
                &&& *final(budget) == *old(budget)
                &&& *final(global) == *old(global)
            },
        },
{
    let shape = result_shape(raw, operation);
    if let ResultShape::Nothing = shape {
        let found: Vec<ProtocolLocation> = Vec::new();
        assert(location_entries(found@) =~= Seq::<LocationEntry>::empty());
        return Ok(found);
    }
    let allow_links = match operation {
        NavigationOperation::Definition => true,
        NavigationOperation::Implementations => true,
        NavigationOperation::References => false,
        NavigationOperation::DocumentSymbols => {
            return Err(LocationFault { error: LocationError::SymbolsElsewhere, at: 0 });
        },
    };
    if let ResultShape::Invalid = shape {
        return Err(LocationFault { error: LocationError::ResultShape, at: 0 });
    }
    proof {
        lemma_state(parts.items@, parts.items@.len() as int, allow_links, budget.room(global));
    }
    match parse_bounded_locations(&parts.items, budget, global, allow_links) {
        Err(fault) => Err(fault),
        Ok(found) => {
            if parts.unread.is_some() {
                release_locations(found, budget, global);
                let error = match shape {
                    ResultShape::One => LocationError::UnreadItem,
                    _ => LocationError::UnreadArray,
                };
                return Err(LocationFault { error, at: parts.items.len() });
            }
            Ok(order_locations(found, budget, global))
        },
    }
}

impl LocationParts {
    /// What is said of a result that is refused. A fault within an array is told as a
    /// fault of the array, with the place where reading stopped; what a parser said
    /// comes last.
    pub open spec fn fault_text(
        self,
        operation: NavigationOperation,
        raw: Seq<char>,
        fault: LocationFault,
    ) -> Seq<char> {
        let own = fault.error.text();
        match fault.error {
            LocationError::SymbolsElsewhere => own,
            LocationError::ResultShape => own,
            LocationError::UnreadItem => own + ": "@ + self.unread_text(),
            LocationError::UnreadArray => own + ": "@ + self.unread_text(),
            error => if shape_of(raw, allows_links(operation)) is One {
                if error is InvalidUri {
                    own + ": "@ + self.bad_uri@
                } else {
                    own
                }
            } else {
                LocationError::UnreadArray.text() + ": "@ + own + self.place_text(fault.at as int)
            },
        }
    }

    pub open spec fn unread_text(self) -> Seq<char> {
        match self.unread {
            Some(words) => words@,
            None => Seq::empty(),
        }
    }

    pub open spec fn place_text(self, at: int) -> Seq<char> {
        if 0 <= at < self.items@.len() {
            self.items@[at].place@
        } else {
            Seq::empty()
        }
    }

    /// Says why a result is refused.
    pub fn explain(&self, operation: NavigationOperation, raw: &str, fault: LocationFault) -> (words:
        String)
        ensures
            words@ == self.fault_text(operation, raw@, fault),
    {
        let own = fault.error.message();
        match fault.error {
            LocationError::SymbolsElsewhere => copy_text(own),
            LocationError::ResultShape => copy_text(own),
            LocationError::UnreadItem => self.with_reason(own),
            LocationError::UnreadArray => self.with_reason(own),
            error => match result_shape(raw, operation) {
                ResultShape::One => {
                    let mut words = copy_text(own);
                    if let LocationError::InvalidUri = error {
                        words.push_str(": ");
                        words.push_str(self.bad_uri.as_str());
                    }
                    words
                },
                _ => {
                    let mut words = copy_text(LocationError::UnreadArray.message());
                    words.push_str(": ");
                    words.push_str(own);
                    if fault.at < self.items.len() {
                        words.push_str(self.items[fault.at].place.as_str());
                    }
                    assert(words@ =~= LocationError::UnreadArray.text() + ": "@ + own@
                        + self.place_text(fault.at as int));
                    words
                },
            },
        }
    }

    fn with_reason(&self, own: &str) -> (words: String)
        ensures
            words@ == own@ + ": "@ + self.unread_text(),
    {
        let mut words = copy_text(own);
        words.push_str(": ");
        if let Some(reason) = &self.unread {
            words.push_str(reason.as_str());
        }
        assert(words@ =~= own@ + ": "@ + self.unread_text());
        words
    }
}

/// A location leads to its own range, and a link to what it selects in its target; what is
/// neither, or a link where none is allowed, leads nowhere.
pub proof fn law_items_lead_to_their_targets(item: LocationItem, allow_links: bool)
    ensures
        item_parts(item, allow_links) matches Some((kind, uri, range)) ==> {
            &&& kind is Location ==> {
                &&& item.uri is Some && item.uri->0@ == uri
                &&& item.range == Some(range)
                &&& item.target_uri is None
            }
            &&& kind is Link ==> {
                &&& allow_links
                &&& item.target_uri is Some && item.target_uri->0@ == uri
                &&& item.target_selection_range == Some(range)
                &&& item.uri is None
            }
        },
        item.uri is Some && item.range is Some && item.target_uri is None && item.target_range
            is None && item.target_selection_range is None && item.origin_selection_range is None
            ==> item_parts(item, allow_links) is Some,
        allow_links && item.uri is None && item.range is None && item.target_uri is Some
            && item.target_range is Some && item.target_selection_range is Some ==> item_parts(
            item,
            allow_links,
        ) is Some,
{
}

/// The location of an item that was read: its own, or the one that a link selects.
pub open spec fn leads_to(item: LocationItem, record: LocationRecord) -> bool {
    ||| item.uri is Some && item.range == Some(record.range) && crate::protocol::json_string(
        item.uri->0@,
    ) == Ok::<_, Seq<char>>(record.uri)
    ||| item.target_uri is Some && item.target_selection_range == Some(record.range)
        && crate::protocol::json_string(item.target_uri->0@) == Ok::<_, Seq<char>>(record.uri)
}

proof fn lemma_entries_lead(items: Seq<LocationItem>, count: int, allow_links: bool, room: int)
    requires
        0 <= count <= items.len(),
        read_items(items, count, allow_links, room) is Ok,
    ensures
        ({
            let entries = read_items(items, count, allow_links, room)->Ok_0.entries;
            &&& entries.len() == count
            &&& forall|i: int|
                0 <= i < count ==> leads_to(items[i], (#[trigger] entries[i]).record)
        }),
    decreases count,
{
    if count > 0 {
        lemma_entries_lead(items, count - 1, allow_links, room);
        let before = read_items(items, count - 1, allow_links, room)->Ok_0.entries;
        let entries = read_items(items, count, allow_links, room)->Ok_0.entries;
        assert forall|i: int| 0 <= i < count implies leads_to(
            items[i],
            (#[trigger] entries[i]).record,
        ) by {
            if i < count - 1 {
                assert(entries[i] == before[i]);
            }
        }
    }
}

/// Where a result is taken, every item of it leads to one of the locations, and every
/// location comes from an item.
pub proof fn law_locations_come_from_their_items(
    operation: NavigationOperation,
    raw: Seq<char>,
    items: Seq<LocationItem>,
    room: int,
)
    requires
        raw != "null"@,
        result_locations(operation, raw, items, false, room) is Ok,
    ensures
        ({
            let entries = result_locations(operation, raw, items, false, room)->Ok_0;
            &&& forall|i: int|
                0 <= i < entries.len() ==> exists|k: int|
                    0 <= k < items.len() && leads_to(
                        #[trigger] items[k],
                        (#[trigger] entries[i]).record,
                    )
            &&& forall|k: int|
                0 <= k < items.len() ==> exists|record: LocationRecord|
                    leads_to(#[trigger] items[k], record) && #[trigger] has_record(entries, record)
        }),
{
    let links = allows_links(operation);
    let count = items.len() as int;
    lemma_entries_lead(items, count, links, room);
    let read = read_items(items, count, links, room)->Ok_0.entries;
    let entries = result_locations(operation, raw, items, false, room)->Ok_0;
    law_locations_are_in_order_and_once(read);
    assert forall|i: int| 0 <= i < entries.len() implies exists|k: int|
        0 <= k < items.len() && leads_to(
            #[trigger] items[k],
            (#[trigger] entries[i]).record,
        ) by {
        assert(has_record(entries, entries[i].record));
        let k = choose|k: int|
            0 <= k < read.len() && (#[trigger] read[k]).record == entries[i].record;
        assert(leads_to(items[k], read[k].record));
    }
    assert forall|k: int| 0 <= k < items.len() implies exists|record: LocationRecord|
        leads_to(#[trigger] items[k], record) && #[trigger] has_record(entries, record) by {
        assert(has_record(read, read[k].record));
        assert(has_record(entries, read[k].record));
        assert(leads_to(items[k], read[k].record));
    }
}

/// Only a definition or an implementation may be answered with links, or with one location
/// outside a list; `null` is no location at all, and anything else is no answer.
pub proof fn law_answers_have_the_shape_of_their_operation(
    operation: NavigationOperation,
    raw: Seq<char>,
)
    ensures
        allows_links(operation) <==> operation is Definition || operation is Implementations,
        shape_of(raw, allows_links(operation)) is Nothing <==> raw == "null"@,
        shape_of(raw, allows_links(operation)) is One <==> raw != "null"@ && starts_with_mark(
            raw,
            '{' as u8,
        ) && (operation is Definition || operation is Implementations),
        shape_of(raw, allows_links(operation)) is Many <==> raw != "null"@ && starts_with_mark(
            raw,
            '[' as u8,
        ),
{
}

} // verus!
