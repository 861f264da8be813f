//! What is said of a path that cannot be opened, and the names that were meant perhaps.

use crate::bytes::{bytes_before, is_bytes_before, lemma_bytes_chain, lemma_bytes_order};
use crate::order::{is_order, is_ranked, law_ranking_puts_in_order, rank_of, ranked};
use crate::paths::{file_name, path_file_name, PathStyle};
use crate::text::{chars_of, copy_text, string_views, text_equal, utf8_text};
use vstd::prelude::*;
use vstd::utf8::{decode_utf8, encode_utf8, valid_utf8};

verus! {

/// How many names of a directory are looked at.
pub const SUGGESTION_SCAN_LIMIT: usize = 4096;

/// How far a name may be from what was written.
pub const MAX_SUGGESTION_DISTANCE: usize = 2;

/// How many names are suggested.
pub const MAX_SUGGESTIONS: usize = 3;

// Distances -------------------------------------------------------------------------------

pub open spec fn least(left: int, right: int) -> int {
    if left <= right {
        left
    } else {
        right
    }
}

/// How many characters have to be put in, left out or changed to make the first
/// characters of one text those of another.
pub open spec fn distance(left: Seq<char>, right: Seq<char>, i: int, j: int) -> int
    decreases i + j,
{
    if i <= 0 {
        j
    } else if j <= 0 {
        i
    } else {
        let changed = distance(left, right, i - 1, j - 1) + (if left[i - 1] != right[j - 1] {
            1int
        } else {
            0
        });
        least(
            least(distance(left, right, i - 1, j) + 1, distance(left, right, i, j - 1) + 1),
            changed,
        )
    }
}

/// How far two texts are apart.
pub open spec fn edit_distance(left: Seq<char>, right: Seq<char>) -> int {
    distance(left, right, left.len() as int, right.len() as int)
}

/// The smallest distance of the first `i` characters of a text from a beginning of
/// at most `j` characters of another.
pub open spec fn row_least(left: Seq<char>, right: Seq<char>, i: int, j: int) -> int
    decreases j,
{
    if j <= 0 {
        distance(left, right, i, 0)
    } else {
        least(row_least(left, right, i, j - 1), distance(left, right, i, j))
    }
}

/// The search ends early in one of the first `rows` rows.
pub open spec fn gives_up(left: Seq<char>, right: Seq<char>, cap: int, rows: int) -> bool {
    exists|i: int|
        1 <= i <= rows && #[trigger] row_least(left, right, i, right.len() as int) > cap
}

/// The distance as far as it is looked for: where the lengths are too different, or
/// no beginning is near enough any more, it is one more than the cap.
pub open spec fn capped_distance(left: Seq<char>, right: Seq<char>, cap: int) -> int {
    let gap = if left.len() >= right.len() {
        left.len() - right.len()
    } else {
        right.len() - left.len()
    };
    if gap > cap || gives_up(left, right, cap, left.len() as int) {
        cap + 1
    } else {
        edit_distance(left, right)
    }
}

proof fn lemma_row_least(left: Seq<char>, right: Seq<char>, i: int, j: int, k: int)
    requires
        0 <= k <= j,
    ensures
        row_least(left, right, i, j) <= distance(left, right, i, k),
    decreases j,
{
    if j > 0 && k < j {
        lemma_row_least(left, right, i, j - 1, k);
    }
}

/// The distances of a row are not below the smallest of the row before.
proof fn lemma_rows_grow(left: Seq<char>, right: Seq<char>, i: int, j: int, width: int)
    requires
        0 <= i,
        0 <= j <= width,
    ensures
        distance(left, right, i + 1, j) >= row_least(left, right, i, width),
    decreases j,
{
    lemma_row_least(left, right, i, width, 0);
    if j > 0 {
        lemma_rows_grow(left, right, i, j - 1, width);
        lemma_row_least(left, right, i, width, j);
        lemma_row_least(left, right, i, width, j - 1);
    }
}

proof fn lemma_later_rows(left: Seq<char>, right: Seq<char>, i: int, k: int, j: int, width: int)
    requires
        0 <= i <= k,
        0 <= j <= width,
    ensures
        distance(left, right, k, j) >= row_least(left, right, i, width),
    decreases k - i, j,
{
    if k == i {
        lemma_row_least(left, right, i, width, j);
    } else {
        lemma_rows_grow(left, right, k - 1, j, width);
        lemma_row_bound(left, right, i, k - 1, width, width);
    }
}

proof fn lemma_row_bound(left: Seq<char>, right: Seq<char>, i: int, k: int, j: int, width: int)
    requires
        0 <= i <= k,
        0 <= j <= width,
    ensures
        row_least(left, right, k, j) >= row_least(left, right, i, width),
    decreases k - i, j,
{
    if k == i {
        lemma_least_of_more(left, right, i, j, width);
    } else {
        if j > 0 {
            lemma_row_bound(left, right, i, k, j - 1, width);
        }
        lemma_rows_grow(left, right, k - 1, j, width);
        lemma_row_bound(left, right, i, k - 1, width, width);
    }
}

proof fn lemma_least_of_more(left: Seq<char>, right: Seq<char>, i: int, j: int, width: int)
    requires
        0 <= j <= width,
    ensures
        row_least(left, right, i, width) <= row_least(left, right, i, j),
    decreases width - j,
{
    if j < width {
        lemma_least_of_more(left, right, i, j + 1, width);
    }
}

proof fn lemma_length_gap(left: Seq<char>, right: Seq<char>, i: int, j: int)
    requires
        0 <= i,
        0 <= j,
    ensures
        distance(left, right, i, j) >= i - j,
        distance(left, right, i, j) >= j - i,
        distance(left, right, i, j) >= 0,
    decreases i + j,
{
    if i > 0 && j > 0 {
        lemma_length_gap(left, right, i - 1, j);
        lemma_length_gap(left, right, i, j - 1);
        lemma_length_gap(left, right, i - 1, j - 1);
    }
}

/// A distance within the cap is found exactly, and any other is told to be beyond it.
pub proof fn law_distances_within_the_cap_are_exact(left: Seq<char>, right: Seq<char>, cap: int)
    requires
        0 <= cap,
    ensures
        edit_distance(left, right) <= cap ==> capped_distance(left, right, cap) == edit_distance(
            left,
            right,
        ),
        edit_distance(left, right) > cap ==> capped_distance(left, right, cap) > cap,
{
    let m = left.len() as int;
    let n = right.len() as int;
    lemma_length_gap(left, right, m, n);
    if gives_up(left, right, cap, m) {
        let i = choose|i: int| 1 <= i <= m && #[trigger] row_least(left, right, i, n) > cap;
        lemma_later_rows(left, right, i, m, n, n);
    }
}

proof fn lemma_same_is_near(left: Seq<char>, i: int)
    requires
        0 <= i <= left.len(),
    ensures
        distance(left, left, i, i) == 0,
    decreases i,
{
    if i > 0 {
        lemma_same_is_near(left, i - 1);
        lemma_length_gap(left, left, i - 1, i);
        lemma_length_gap(left, left, i, i - 1);
    }
}

proof fn lemma_near_is_same(left: Seq<char>, right: Seq<char>, i: int, j: int)
    requires
        0 <= i <= left.len(),
        0 <= j <= right.len(),
        distance(left, right, i, j) == 0,
    ensures
        i == j,
        left.subrange(0, i) == right.subrange(0, j),
    decreases i + j,
{
    lemma_length_gap(left, right, i, j);
    if i > 0 && j > 0 {
        lemma_length_gap(left, right, i - 1, j);
        lemma_length_gap(left, right, i, j - 1);
        lemma_length_gap(left, right, i - 1, j - 1);
        lemma_near_is_same(left, right, i - 1, j - 1);
        assert(left.subrange(0, i) =~= left.subrange(0, i - 1).push(left[i - 1]));
        assert(right.subrange(0, j) =~= right.subrange(0, j - 1).push(right[j - 1]));
    } else {
        assert(left.subrange(0, i) =~= right.subrange(0, j));
    }
}

/// Texts are apart by nothing exactly if they are the same.
pub proof fn law_only_the_same_is_not_apart(left: Seq<char>, right: Seq<char>)
    ensures
        edit_distance(left, right) == 0 <==> left == right,
{
    lemma_same_is_near(left, left.len() as int);
    if edit_distance(left, right) == 0 {
        lemma_near_is_same(left, right, left.len() as int, right.len() as int);
        assert(left.subrange(0, left.len() as int) =~= left);
        assert(right.subrange(0, right.len() as int) =~= right);
    }
}

proof fn lemma_distance_is_mutual(left: Seq<char>, right: Seq<char>, i: int, j: int)
    requires
        0 <= i,
        0 <= j,
    ensures
        distance(left, right, i, j) == distance(right, left, j, i),
    decreases i + j,
{
    if i > 0 && j > 0 {
        lemma_distance_is_mutual(left, right, i - 1, j);
        lemma_distance_is_mutual(left, right, i, j - 1);
        lemma_distance_is_mutual(left, right, i - 1, j - 1);
    }
}

/// It does not matter which of two texts is the first.
pub proof fn law_distances_are_mutual(left: Seq<char>, right: Seq<char>)
    ensures
        edit_distance(left, right) == edit_distance(right, left),
{
    lemma_distance_is_mutual(left, right, left.len() as int, right.len() as int);
}

proof fn lemma_distance_fits(left: Seq<char>, right: Seq<char>, i: int, j: int)
    requires
        0 <= i,
        0 <= j,
    ensures
        0 <= distance(left, right, i, j),
        distance(left, right, i, j) <= i || distance(left, right, i, j) <= j,
    decreases i + j,
{
    if i > 0 && j > 0 {
        lemma_distance_fits(left, right, i - 1, j);
        lemma_distance_fits(left, right, i, j - 1);
        lemma_distance_fits(left, right, i - 1, j - 1);
    }
}

/// A row of distances.
pub open spec fn is_row(row: Seq<u128>, left: Seq<char>, right: Seq<char>, i: int) -> bool {
    &&& row.len() == right.len() + 1
    &&& forall|j: int| 0 <= j < row.len() ==> #[trigger] row[j] == distance(left, right, i, j)
}

/// Computes the row below a row, and its smallest distance.
fn next_row(left: &Vec<char>, right: &Vec<char>, above: &Vec<u128>, i: usize) -> (row: (
    Vec<u128>,
    u128,
))
    requires
        i < left@.len(),
        is_row(above@, left@, right@, i as int),
    ensures
        is_row(row.0@, left@, right@, i + 1),
        row.1 == row_least(left@, right@, i + 1, right@.len() as int),
{
    let mut row: Vec<u128> = Vec::new();
    row.push(i as u128 + 1);
    let mut smallest: u128 = i as u128 + 1;
    let mut j: usize = 0;
    while j < right.len()
        invariant
            j <= right@.len(),
            i < left@.len(),
            is_row(above@, left@, right@, i as int),
            row@.len() == j + 1,
            forall|k: int|
                0 <= k < row@.len() ==> #[trigger] row@[k] == distance(left@, right@, i + 1, k),
            smallest == row_least(left@, right@, i + 1, j as int),
        decreases right@.len() - j,
    {
        proof {
            lemma_distance_fits(left@, right@, i as int, j as int);
            lemma_distance_fits(left@, right@, i as int, j + 1);
            lemma_distance_fits(left@, right@, i + 1, j as int);
            assert(above@[j as int] == distance(left@, right@, i as int, j as int));
            assert(above@[j + 1] == distance(left@, right@, i as int, j + 1));
            assert(row@[j as int] == distance(left@, right@, i + 1, j as int));
        }
        let changed: u128 = if left[i] != right[j] {
            above[j] + 1
        } else {
            above[j]
        };
        let mut value: u128 = above[j + 1] + 1;
        let beside: u128 = row[j] + 1;
        if beside < value {
            value = beside;
        }
        if changed < value {
            value = changed;
        }
        row.push(value);
        if value < smallest {
            smallest = value;
        }
        j = j + 1;
    }
    (row, smallest)
}

/// How far two texts are apart, as far as the cap.
pub fn bounded_edit_distance(left: &str, right: &str, cap: usize) -> (apart: usize)
    ensures
        apart == capped_distance(left@, right@, cap as int),
{
    let first = chars_of(left);
    let second = chars_of(right);
    let gap: usize = if first.len() >= second.len() {
        first.len() - second.len()
    } else {
        second.len() - first.len()
    };
    if gap > cap {
        return cap + 1;
    }
    let mut above: Vec<u128> = Vec::new();
    above.push(0);
    let mut filled: usize = 0;
    while filled < second.len()
        invariant
            filled <= second@.len(),
            above@.len() == filled + 1,
            forall|j: int|
                0 <= j <= filled ==> #[trigger] above@[j] == distance(first@, second@, 0, j),
        decreases second@.len() - filled,
    {
        above.push(filled as u128 + 1);
        filled = filled + 1;
    }
    let mut i: usize = 0;
    while i < first.len()
        invariant
            i <= first@.len(),
            first@ == left@,
            second@ == right@,
            gap <= cap,
            gap == (if first@.len() >= second@.len() {
                first@.len() - second@.len()
            } else {
                second@.len() - first@.len()
            }),
            is_row(above@, first@, second@, i as int),
            !gives_up(first@, second@, cap as int, i as int),
        decreases first@.len() - i,
    {
        let (row, smallest) = next_row(&first, &second, &above, i);
        if smallest > cap as u128 {
            proof {
                assert(row_least(first@, second@, i + 1, second@.len() as int) > cap);
                assert(gives_up(first@, second@, cap as int, first@.len() as int));
                lemma_row_least(first@, second@, i + 1, second@.len() as int, 0);
            }
            return cap + 1;
        }
        proof {
            if gives_up(first@, second@, cap as int, i + 1) {
                let k = choose|k: int|
                    1 <= k <= i + 1 && #[trigger] row_least(
                        first@,
                        second@,
                        k,
                        second@.len() as int,
                    ) > cap;
                if k <= i {
                    assert(gives_up(first@, second@, cap as int, i as int));
                }
            }
        }
        above = row;
        i = i + 1;
    }
    proof {
        lemma_distance_fits(first@, second@, first@.len() as int, second@.len() as int);
    }
    above[second.len()] as usize
}

// Names -----------------------------------------------------------------------------------

/// The text that `str::to_lowercase` makes of another.
pub uninterp spec fn lower_words(words: Seq<char>) -> Seq<char>;

/// `str::to_lowercase`: the same text in lower case, as Unicode has it. Which
/// characters that are has only a name here.
#[verifier::external_body]
pub(crate) fn lowercase(words: &str) -> (lower: String)
    ensures
        lower@ == lower_words(words@),
{
    words.to_lowercase()
}

/// A name in a directory, and the name in lower case.
#[derive(Debug)]
pub struct NameEntry {
    pub lower: String,
    pub name: String,
}

pub struct NameRecord {
    pub lower: Seq<char>,
    pub name: Seq<char>,
}

impl View for NameEntry {
    type V = NameRecord;

    open spec fn view(&self) -> NameRecord {
        NameRecord { lower: self.lower@, name: self.name@ }
    }
}

pub open spec fn name_records(entries: Seq<NameEntry>) -> Seq<NameRecord> {
    Seq::new(entries.len(), |i: int| entries[i]@)
}

/// A text begins with another.
pub open spec fn text_begins(words: Seq<char>, front: Seq<char>) -> bool {
    words.len() >= front.len() && words.subrange(0, front.len() as int) == front
}

fn begins(words: &Vec<char>, front: &Vec<char>) -> (yes: bool)
    ensures
        yes == text_begins(words@, front@),
{
    if words.len() < front.len() {
        return false;
    }
    let mut index: usize = 0;
    while index < front.len()
        invariant
            index <= front@.len() <= words@.len(),
            forall|i: int| 0 <= i < index ==> #[trigger] words@[i] == front@[i],
        decreases front@.len() - index,
    {
        if words[index] != front[index] {
            assert(words@.subrange(0, front@.len() as int)[index as int] != front@[index as int]);
            return false;
        }
        index = index + 1;
    }
    assert(words@.subrange(0, front@.len() as int) =~= front@);
    true
}

/// The name is one that is not shown usually.
pub open spec fn is_hidden(words: Seq<char>) -> bool {
    words.len() > 0 && words[0] == '.'
}

/// A name that is near.
#[derive(Debug)]
pub struct Candidate {
    pub distance: usize,
    pub name: String,
}

pub struct CandidateRecord {
    pub distance: int,
    pub name: Seq<char>,
}

impl View for Candidate {
    type V = CandidateRecord;

    open spec fn view(&self) -> CandidateRecord {
        CandidateRecord { distance: self.distance as int, name: self.name@ }
    }
}

pub open spec fn candidate_records(candidates: Seq<Candidate>) -> Seq<CandidateRecord> {
    Seq::new(candidates.len(), |i: int| candidates[i]@)
}

/// How near a name is to what was written, if it is near enough: few edits away, or
/// one is the beginning of the other. Hidden names are near to hidden ones only.
pub open spec fn nearness(name: Seq<char>, needle: Seq<char>, entry: NameRecord) -> Option<int> {
    let apart = capped_distance(needle, entry.lower, MAX_SUGGESTION_DISTANCE + 1);
    if entry.name == name || is_hidden(entry.lower) != is_hidden(needle) {
        None
    } else if apart <= MAX_SUGGESTION_DISTANCE || text_begins(entry.lower, needle) || text_begins(
        needle,
        entry.lower,
    ) {
        Some(apart)
    } else {
        None
    }
}

/// The names that are near.
pub open spec fn near_names(name: Seq<char>, needle: Seq<char>, entries: Seq<NameRecord>) -> Seq<
    CandidateRecord,
>
    decreases entries.len(),
{
    if entries.len() == 0 {
        Seq::empty()
    } else {
        let before = near_names(name, needle, entries.drop_last());
        match nearness(name, needle, entries.last()) {
            None => before,
            Some(apart) => before.push(
                CandidateRecord { distance: apart, name: entries.last().name },
            ),
        }
    }
}

/// The nearest first, then as a dictionary orders.
pub open spec fn candidate_before() -> spec_fn(CandidateRecord, CandidateRecord) -> bool {
    |left: CandidateRecord, right: CandidateRecord|
        left.distance < right.distance || (left.distance == right.distance && bytes_before(
            encode_utf8(left.name),
            encode_utf8(right.name),
        ))
}

pub open spec fn names_only(candidates: Seq<CandidateRecord>) -> Seq<Seq<char>> {
    Seq::new(candidates.len(), |i: int| candidates[i].name)
}

/// The names that are suggested: the nearest, in order, and not too many.
pub open spec fn suggested(name: Seq<char>, needle: Seq<char>, entries: Seq<NameRecord>) -> Seq<
    Seq<char>,
> {
    let all = names_only(ranked(near_names(name, needle, entries), candidate_before()));
    if all.len() > MAX_SUGGESTIONS {
        all.subrange(0, MAX_SUGGESTIONS as int)
    } else {
        all
    }
}

/// The order of suggestions is one.
pub proof fn lemma_candidate_order()
    ensures
        is_order(candidate_before()),
{
    assert forall|x: Seq<u8>, y: Seq<u8>| #[trigger] bytes_before(x, y) implies !bytes_before(
        y,
        x,
    ) by {
        lemma_bytes_order(x, y);
    }
    assert forall|x: Seq<u8>, y: Seq<u8>, z: Seq<u8>|
        #![trigger bytes_before(y, x), bytes_before(z, y)]
        !bytes_before(y, x) && !bytes_before(z, y) implies !bytes_before(z, x) by {
        lemma_bytes_order(x, y);
        lemma_bytes_order(y, z);
        lemma_bytes_order(x, z);
        if x != y && y != z {
            lemma_bytes_chain(x, y, z);
        }
    }
}

/// Nothing that is suggested is farther away than what comes behind it.
pub proof fn law_the_nearest_names_come_first(
    name: Seq<char>,
    needle: Seq<char>,
    entries: Seq<NameRecord>,
)
    ensures
        is_ranked(
            ranked(near_names(name, needle, entries), candidate_before()),
            candidate_before(),
        ),
        suggested(name, needle, entries).len() <= MAX_SUGGESTIONS,
{
    lemma_candidate_order();
    law_ranking_puts_in_order(near_names(name, needle, entries), candidate_before());
}

fn insert_candidate(candidates: &mut Vec<Candidate>, candidate: Candidate)
    ensures
        ({
            let before = candidate_records(old(candidates)@);
            candidate_records(final(candidates)@) == before.insert(
                rank_of(before, candidate@, candidate_before(), 0),
                candidate@,
            )
        }),
{
    let ghost had = candidates@;
    let ghost before = candidate_records(had);
    let mut place: usize = 0;
    let mut found = false;
    while place < candidates.len() && !found
        invariant
            place <= candidates@.len(),
            candidates@ == had,
            before == candidate_records(had),
            rank_of(before, candidate@, candidate_before(), 0) == rank_of(
                before,
                candidate@,
                candidate_before(),
                place as int,
            ),
            found ==> place < had.len() && candidate_before()(candidate@, before[place as int]),
        decreases had.len() - place + (if found {
            0int
        } else {
            1int
        }),
    {
        assert(before[place as int] == had[place as int]@);
        let other = &candidates[place];
        if candidate.distance < other.distance || (candidate.distance == other.distance
            && is_bytes_before(
            candidate.name.as_str().as_bytes(),
            other.name.as_str().as_bytes(),
        )) {
            found = true;
        } else {
            place = place + 1;
        }
    }
    let ghost said = candidate@;
    candidates.insert(place, candidate);
    assert(candidate_records(candidates@) =~= before.insert(place as int, said));
}

/// How near a name is to what was written.
fn near(name: &str, needle: &str, entry: &NameEntry) -> (apart: Option<usize>)
    ensures
        match nearness(name@, needle@, entry@) {
            None => apart is None,
            Some(distance) => apart matches Some(found) && found == distance,
        },
{
    if text_equal(entry.name.as_str(), name) {
        return None;
    }
    let written = chars_of(needle);
    let found = chars_of(entry.lower.as_str());
    let written_hidden = written.len() > 0 && written[0] == '.';
    let found_hidden = found.len() > 0 && found[0] == '.';
    if written_hidden != found_hidden {
        return None;
    }
    let apart: usize = bounded_edit_distance(
        needle,
        entry.lower.as_str(),
        MAX_SUGGESTION_DISTANCE + 1,
    );
    if apart <= MAX_SUGGESTION_DISTANCE || begins(&found, &written) || begins(&written, &found) {
        Some(apart)
    } else {
        None
    }
}

/// The nearest names. `needle` is the name in lower case.
pub fn closest_names(name: &str, needle: &str, entries: &Vec<NameEntry>) -> (found: Vec<String>)
    ensures
        string_views(found@) == suggested(name@, needle@, name_records(entries@)),
{
    let ghost shown = name_records(entries@);
    let mut candidates: Vec<Candidate> = Vec::new();
    let mut index: usize = 0;
    assert(candidate_records(candidates@) =~= ranked(
        near_names(name@, needle@, shown.subrange(0, 0)),
        candidate_before(),
    ));
    while index < entries.len()
        invariant
            index <= entries@.len(),
            shown == name_records(entries@),
            candidate_records(candidates@) == ranked(
                near_names(name@, needle@, shown.subrange(0, index as int)),
                candidate_before(),
            ),
        decreases entries@.len() - index,
    {
        let ghost before = near_names(name@, needle@, shown.subrange(0, index as int));
        proof {
            let longer = shown.subrange(0, index + 1);
            assert(longer.drop_last() =~= shown.subrange(0, index as int));
            assert(longer.last() == entries@[index as int]@);
        }
        if let Some(distance) = near(name, needle, &entries[index]) {
            let candidate = Candidate {
                distance,
                name: copy_text(entries[index].name.as_str()),
            };
            let ghost said = candidate@;
            insert_candidate(&mut candidates, candidate);
            proof {
                assert(before.push(said).drop_last() =~= before);
            }
        }
        index = index + 1;
    }
    assert(shown.subrange(0, shown.len() as int) =~= shown);
    let ghost all = candidate_records(candidates@);
    let mut found: Vec<String> = Vec::new();
    let mut taken: usize = 0;
    while taken < candidates.len() && taken < MAX_SUGGESTIONS
        invariant
            taken <= candidates@.len(),
            taken <= MAX_SUGGESTIONS,
            found@.len() == taken,
            all == candidate_records(candidates@),
            forall|i: int| 0 <= i < taken ==> (#[trigger] found@[i])@ == all[i].name,
        decreases candidates@.len() - taken,
    {
        found.push(copy_text(candidates[taken].name.as_str()));
        taken = taken + 1;
    }
    assert(string_views(found@) =~= suggested(name@, needle@, shown));
    found
}

/// The names that can be read, with their lower case.
pub open spec fn readable(entries: Seq<Option<String>>) -> Seq<NameRecord>
    decreases entries.len(),
{
    if entries.len() == 0 {
        Seq::empty()
    } else {
        match entries.last() {
            None => readable(entries.drop_last()),
            Some(name) => readable(entries.drop_last()).push(
                NameRecord { lower: lower_words(name@), name: name@ },
            ),
        }
    }
}

/// The entries that are looked at.
pub open spec fn scanned(entries: Seq<Option<String>>) -> Seq<Option<String>> {
    if entries.len() > SUGGESTION_SCAN_LIMIT {
        entries.subrange(0, SUGGESTION_SCAN_LIMIT as int)
    } else {
        entries
    }
}

/// The names in a directory that are nearest to the last name of a path. Entries
/// whose names cannot be read have none.
pub fn similar_entry_names(
    style: PathStyle,
    target: &[u8],
    entries: &Vec<Option<String>>,
) -> (found: Vec<String>)
    ensures
        match file_name(style, target@) {
            None => found@.len() == 0,
            Some(name) => if !valid_utf8(name) {
                found@.len() == 0
            } else {
                string_views(found@) == suggested(
                    decode_utf8(name),
                    lower_words(decode_utf8(name)),
                    readable(scanned(entries@)),
                )
            },
        },
{
    let name = match path_file_name(style, target) {
        None => {
            return Vec::new();
        },
        Some(name) => name,
    };
    let words = match utf8_text(name) {
        None => {
            return Vec::new();
        },
        Some(words) => words,
    };
    proof {
        vstd::utf8::encode_utf8_decode_utf8(words@);
    }
    let needle = lowercase(words);
    let mut known: Vec<NameEntry> = Vec::new();
    let mut index: usize = 0;
    assert(name_records(known@) =~= readable(entries@.subrange(0, 0)));
    while index < entries.len() && index < SUGGESTION_SCAN_LIMIT
        invariant
            index <= entries@.len(),
            index <= SUGGESTION_SCAN_LIMIT,
            name_records(known@) == readable(entries@.subrange(0, index as int)),
        decreases entries@.len() - index,
    {
        let ghost before = known@;
        proof {
            let longer = entries@.subrange(0, index + 1);
            assert(longer.drop_last() =~= entries@.subrange(0, index as int));
            assert(longer.last() == entries@[index as int]);
        }
        if let Some(entry) = &entries[index] {
            let lower = lowercase(entry.as_str());
            let added = NameEntry { lower, name: copy_text(entry.as_str()) };
            let ghost said = added@;
            known.push(added);
            assert(name_records(known@) =~= name_records(before).push(said));
        }
        index = index + 1;
    }
    assert(entries@.subrange(0, index as int) =~= scanned(entries@));
    closest_names(words, needle.as_str(), &known)
}

// What is said ----------------------------------------------------------------------------

/// Why a path cannot be opened.
#[derive(Clone, Copy, Debug, PartialEq, Eq, Structural)]
pub enum OpenFault {
    NotFound,
    Denied,
    Other,
}

/// What is known of the directory that the path would be in.
#[derive(Debug)]
pub enum ParentState {
    /// There is none.
    Absent,
    /// It does not exist.
    Missing(String),
    /// These of its names are near.
    Directory(Vec<String>),
}

/// Names one below the other.
pub open spec fn names_text(names: Seq<Seq<char>>) -> Seq<char>
    decreases names.len(),
{
    if names.len() == 0 {
        Seq::empty()
    } else {
        names_text(names.drop_last()) + "\n  "@ + names.last()
    }
}

/// What is said of the directory.
pub open spec fn parent_text(parent: ParentState) -> Seq<char> {
    match parent {
        ParentState::Absent => Seq::empty(),
        ParentState::Missing(shown) => "\n\ndirectory "@ + shown@ + " does not exist"@,
        ParentState::Directory(names) => if names@.len() == 0 {
            Seq::empty()
        } else if names@.len() == 1 {
            "\n\nDid you mean '"@ + names@[0]@ + "'?"@
        } else {
            "\n\nDid you mean one of the following?"@ + names_text(string_views(names@))
        },
    }
}

/// What is said of a path that cannot be opened.
pub open spec fn fault_text(
    path: Seq<char>,
    attempted: Seq<char>,
    fault: OpenFault,
    parent: ParentState,
) -> Seq<char> {
    match fault {
        OpenFault::NotFound => "cannot open "@ + path + "\n\n"@ + attempted + " does not exist"@
            + parent_text(parent),
        OpenFault::Denied => "cannot open "@ + path + "\n\n"@ + attempted + ": permission denied"@,
        OpenFault::Other => "cannot open "@ + path,
    }
}

pub fn cannot_open_error(path: &str, attempted: &str, fault: OpenFault, parent: &ParentState) -> (words:
    String)
    ensures
        words@ == fault_text(path@, attempted@, fault, *parent),
{
    let mut words = copy_text("cannot open ");
    words.push_str(path);
    match fault {
        OpenFault::Other => {},
        OpenFault::Denied => {
            words.push_str("\n\n");
            words.push_str(attempted);
            words.push_str(": permission denied");
        },
        OpenFault::NotFound => {
            words.push_str("\n\n");
            words.push_str(attempted);
            words.push_str(" does not exist");
            let ghost before = words@;
            match parent {
                ParentState::Absent => {},
                ParentState::Missing(shown) => {
                    words.push_str("\n\ndirectory ");
                    words.push_str(shown.as_str());
                    words.push_str(" does not exist");
                },
                ParentState::Directory(names) => {
                    if names.len() == 1 {
                        words.push_str("\n\nDid you mean '");
                        words.push_str(names[0].as_str());
                        words.push_str("'?");
                    } else if names.len() > 1 {
                        words.push_str("\n\nDid you mean one of the following?");
                        push_names(&mut words, names);
                    }
                },
            }
            assert(words@ =~= before + parent_text(*parent));
        },
    }
    words
}

fn push_names(target: &mut String, names: &Vec<String>)
    ensures
        final(target)@ == old(target)@ + names_text(string_views(names@)),
{
    let ghost before = target@;
    let ghost shown = string_views(names@);
    let mut index: usize = 0;
    assert(target@ =~= before + names_text(shown.subrange(0, 0)));
    while index < names.len()
        invariant
            index <= names@.len(),
            shown == string_views(names@),
            target@ == before + names_text(shown.subrange(0, index as int)),
        decreases names@.len() - index,
    {
        proof {
            let longer = shown.subrange(0, index + 1);
            assert(longer.drop_last() =~= shown.subrange(0, index as int));
            assert(longer.last() == names@[index as int]@);
        }
        target.push_str("\n  ");
        target.push_str(names[index].as_str());
        assert(target@ =~= before + names_text(shown.subrange(0, index + 1)));
        index = index + 1;
    }
    assert(shown.subrange(0, shown.len() as int) =~= shown);
}

} // verus!
