//! What Git reports, read byte for byte: statuses, submodules, branches and diffs.
//!
//! The program runs the commands and hands their output in.

use crate::bytes::{
    byte_views, find, find_bytes, lemma_find_from_is_first, lemma_first_is_found,
    occurs_at, split, split_bytes, text, to_vec, views,
};
use crate::paths::{parts, paths_equal, same_path, Part, PathStyle};
use crate::text::{
    copy_text, lines_of, lossy, lossy_text, number_text, push_number, string_views, text_lines,
    trim_text, trimmed,
};
use vstd::prelude::*;
use vstd::slice::slice_subrange;

verus! {

/// The two letters of a status: the index, and the working tree.
#[derive(Clone, Copy, Debug, PartialEq, Eq, Structural)]
pub struct FileStatus {
    pub index: char,
    pub worktree: char,
}

impl FileStatus {
    /// The letters that say something, or both if neither says nothing.
    pub open spec fn label_text(self) -> Seq<char> {
        if self.index == '?' && self.worktree == '?' {
            seq!['?', '?']
        } else if self.worktree == ' ' {
            seq![self.index]
        } else if self.index == ' ' {
            seq![self.worktree]
        } else {
            seq![self.index, self.worktree]
        }
    }

    /// A letter that stands for a change.
    pub open spec fn is_change(letter: char) -> bool {
        letter != ' ' && letter != '?' && letter != '!'
    }

    pub fn label(self) -> (label: String)
        ensures
            label@ == self.label_text(),
    {
        let mut label = String::new();
        if self.index == '?' && self.worktree == '?' {
            label.push('?');
            label.push('?');
        } else if self.worktree == ' ' {
            label.push(self.index);
        } else if self.index == ' ' {
            label.push(self.worktree);
        } else {
            label.push(self.index);
            label.push(self.worktree);
        }
        assert(label@ =~= self.label_text());
        label
    }

    pub fn is_untracked(self) -> (untracked: bool)
        ensures
            untracked == (self.index == '?' && self.worktree == '?'),
    {
        self.index == '?' && self.worktree == '?'
    }

    pub fn has_staged_change(self) -> (changed: bool)
        ensures
            changed == FileStatus::is_change(self.index),
    {
        self.index != ' ' && self.index != '?' && self.index != '!'
    }

    pub fn has_worktree_change(self) -> (changed: bool)
        ensures
            changed == FileStatus::is_change(self.worktree),
    {
        self.worktree != ' ' && self.worktree != '?' && self.worktree != '!'
    }
}

/// What is reported of a submodule. A changed commit is told apart from changes
/// inside the submodule's own working tree.
#[derive(Clone, Copy, Debug, PartialEq, Eq, Structural)]
pub struct SubmoduleStatus {
    pub is_submodule: bool,
    pub commit_changed: bool,
    pub modified_content: bool,
    pub untracked_content: bool,
}

impl SubmoduleStatus {
    pub open spec fn absent() -> SubmoduleStatus {
        SubmoduleStatus {
            is_submodule: false,
            commit_changed: false,
            modified_content: false,
            untracked_content: false,
        }
    }
}

impl Default for SubmoduleStatus {
    fn default() -> (status: Self)
        ensures
            status == SubmoduleStatus::absent(),
    {
        SubmoduleStatus {
            is_submodule: false,
            commit_changed: false,
            modified_content: false,
            untracked_content: false,
        }
    }
}

/// One changed path, with the bytes that Git gave for it.
#[derive(Debug, PartialEq, Eq)]
pub struct GitStatusEntry {
    pub path: Vec<u8>,
    pub original_path: Option<Vec<u8>>,
    pub status: FileStatus,
    pub submodule: SubmoduleStatus,
}

/// What an entry says.
pub struct EntryRecord {
    pub path: Seq<u8>,
    pub original_path: Option<Seq<u8>>,
    pub status: FileStatus,
    pub submodule: SubmoduleStatus,
}

pub open spec fn bytes_view(bytes: Option<Vec<u8>>) -> Option<Seq<u8>> {
    match bytes {
        None => None,
        Some(bytes) => Some(bytes@),
    }
}

impl View for GitStatusEntry {
    type V = EntryRecord;

    open spec fn view(&self) -> EntryRecord {
        EntryRecord {
            path: self.path@,
            original_path: bytes_view(self.original_path),
            status: self.status,
            submodule: self.submodule,
        }
    }
}

pub open spec fn entry_records(entries: Seq<GitStatusEntry>) -> Seq<EntryRecord> {
    Seq::new(entries.len(), |i: int| entries[i]@)
}

// Porcelain -------------------------------------------------------------------------------

/// `s` cut at its first spaces into at most `parts` pieces.
pub open spec fn fields(s: Seq<u8>, parts: int) -> Seq<Seq<u8>>
    decreases parts,
{
    match find(s, text(" ")) {
        Some(at) => if parts <= 1 {
            seq![s]
        } else {
            seq![s.subrange(0, at)] + fields(
                s.subrange(at + text(" ").len(), s.len() as int),
                parts - 1,
            )
        },
        None => seq![s],
    }
}

pub open spec fn status_letter(byte: u8) -> char {
    if byte == 46 {
        ' '
    } else {
        byte as char
    }
}

pub open spec fn submodule_of(field: Seq<u8>) -> SubmoduleStatus {
    SubmoduleStatus {
        is_submodule: field.len() > 0 && field[0] == 83,
        commit_changed: field.len() > 1 && field[1] == 67,
        modified_content: field.len() > 2 && field[2] == 77,
        untracked_content: field.len() > 3 && field[3] == 85,
    }
}

/// A record of a tracked path has a fixed number of fields, the path being the last.
pub open spec fn tracked_entry(record: Seq<u8>, count: int) -> Option<EntryRecord> {
    let parts = fields(record, count);
    if parts.len() != count || parts[1].len() != 2 || parts[2].len() != 4 {
        None
    } else {
        Some(
            EntryRecord {
                path: parts[count - 1],
                original_path: None,
                status: FileStatus {
                    index: status_letter(parts[1][0]),
                    worktree: status_letter(parts[1][1]),
                },
                submodule: submodule_of(parts[2]),
            },
        )
    }
}

/// The record behind a rename or copy is the original path, unless it is empty.
pub open spec fn original_of(records: Seq<Seq<u8>>, i: int) -> Option<Seq<u8>> {
    if i + 1 < records.len() && records[i + 1].len() > 0 {
        Some(records[i + 1])
    } else {
        None
    }
}

/// The entry of the record at `i`, if it is one.
pub open spec fn entry_at(records: Seq<Seq<u8>>, i: int) -> Option<EntryRecord> {
    let record = records[i];
    if record.len() == 0 {
        None
    } else if record[0] == 49 {
        tracked_entry(record, 9)
    } else if record[0] == 50 {
        match tracked_entry(record, 10) {
            None => None,
            Some(entry) => Some(
                EntryRecord { original_path: original_of(records, i), ..entry },
            ),
        }
    } else if record[0] == 117 {
        tracked_entry(record, 11)
    } else if record[0] == 63 && record.len() > 1 && record[1] == 32 {
        Some(
            EntryRecord {
                path: record.subrange(2, record.len() as int),
                original_path: None,
                status: FileStatus { index: '?', worktree: '?' },
                submodule: SubmoduleStatus::absent(),
            },
        )
    } else {
        None
    }
}

/// How many records the one at `i` takes: a rename or copy takes two.
pub open spec fn records_taken(records: Seq<Seq<u8>>, i: int) -> int {
    if records[i].len() > 0 && records[i][0] == 50 {
        2
    } else {
        1
    }
}

pub open spec fn entries_from(records: Seq<Seq<u8>>, i: int) -> Seq<EntryRecord>
    decreases (if i < records.len() { records.len() - i } else { 0 }),
{
    if i < 0 || i >= records.len() {
        Seq::empty()
    } else {
        let rest = entries_from(records, i + records_taken(records, i));
        match entry_at(records, i) {
            None => rest,
            Some(entry) => seq![entry] + rest,
        }
    }
}

/// The entries of a porcelain report, whose records end with a zero byte.
pub open spec fn report_entries(report: Seq<u8>) -> Seq<EntryRecord> {
    entries_from(split(report, seq![0u8]), 0)
}

proof fn lemma_space()
    ensures
        text(" ") == seq![32u8],
        text(" ").len() == 1,
{
    broadcast use vstd::utf8::group_utf8_lib;

    reveal_strlit(" ");
    assert(vstd::utf8::is_ascii_chars(" "@));
    assert(text(" ") =~= seq![32u8]);
}

fn split_fields<'a>(record: &'a [u8], parts: usize) -> (found: Vec<&'a [u8]>)
    requires
        parts > 0,
    ensures
        views(found@) == fields(record@, parts as int),
{
    proof {
        lemma_space();
    }
    let mut found: Vec<&'a [u8]> = Vec::new();
    let mut rest = record;
    let mut left: usize = parts;
    assert(views(found@) + fields(record@, parts as int) =~= fields(record@, parts as int));
    while left > 1
        invariant
            left >= 1,
            text(" ").len() == 1,
            views(found@) + fields(rest@, left as int) == fields(record@, parts as int),
        decreases left,
    {
        let ghost before = found@;
        proof {
            crate::bytes::lemma_find_from_is_first(rest@, text(" "), 0);
        }
        match find_bytes(rest, " ".as_bytes()) {
            None => {
                found.push(rest);
                assert(views(found@) =~= views(before) + seq![rest@]);
                return found;
            },
            Some(at) => {
                let piece = slice_subrange(rest, 0, at);
                let end: usize = rest.len();
                let next = slice_subrange(rest, at + 1, end);
                found.push(piece);
                proof {
                    assert(views(found@) =~= views(before) + seq![piece@]);
                    assert(views(before) + (seq![piece@] + fields(next@, left - 1)) =~= views(
                        found@,
                    ) + fields(next@, left - 1));
                }
                rest = next;
            },
        }
        left = left - 1;
    }
    let ghost before = found@;
    found.push(rest);
    assert(views(found@) =~= views(before) + seq![rest@]);
    found
}

fn porcelain_status_char(byte: u8) -> (letter: char)
    ensures
        letter == status_letter(byte),
{
    if byte == 46 {
        ' '
    } else {
        byte as char
    }
}

fn parse_submodule_status(field: &[u8]) -> (status: SubmoduleStatus)
    ensures
        status == submodule_of(field@),
{
    SubmoduleStatus {
        is_submodule: field.len() > 0 && field[0] == 83,
        commit_changed: field.len() > 1 && field[1] == 67,
        modified_content: field.len() > 2 && field[2] == 77,
        untracked_content: field.len() > 3 && field[3] == 85,
    }
}

fn parse_tracked_record(record: &[u8], field_count: usize) -> (entry: Option<GitStatusEntry>)
    requires
        field_count >= 3,
    ensures
        match tracked_entry(record@, field_count as int) {
            None => entry is None,
            Some(expected) => entry matches Some(found) && found@ == expected,
        },
{
    let parts = split_fields(record, field_count);
    if parts.len() != field_count {
        return None;
    }
    assert(views(parts@)[1] == parts@[1]@);
    assert(views(parts@)[2] == parts@[2]@);
    assert(views(parts@)[field_count - 1] == parts@[field_count - 1]@);
    if parts[1].len() != 2 || parts[2].len() != 4 {
        return None;
    }
    Some(
        GitStatusEntry {
            path: to_vec(parts[field_count - 1]),
            original_path: None,
            status: FileStatus {
                index: porcelain_status_char(parts[1][0]),
                worktree: porcelain_status_char(parts[1][1]),
            },
            submodule: parse_submodule_status(parts[2]),
        },
    )
}

/// Reads a porcelain report. Records that are not understood are passed over.
pub fn parse_porcelain_v2(report: &[u8]) -> (entries: Vec<GitStatusEntry>)
    ensures
        entry_records(entries@) == report_entries(report@),
{
    let zero: [u8; 1] = [0u8];
    let separator: &[u8] = &zero;
    assert(separator@ =~= seq![0u8]);
    let records = split_bytes(report, separator);
    let ghost shown = views(records@);
    let mut entries: Vec<GitStatusEntry> = Vec::new();
    let mut index: usize = 0;
    assert(entry_records(entries@) + entries_from(shown, 0) =~= entries_from(shown, 0));
    while index < records.len()
        invariant
            shown == views(records@),
            shown == split(report@, seq![0u8]),
            entry_records(entries@) + entries_from(shown, index as int) == entries_from(shown, 0),
        decreases records@.len() - index,
    {
        let ghost before = entries@;
        let ghost at = index as int;
        let record = records[index];
        assert(shown[at] == record@);
        let mut taken: usize = 1;
        let parsed = if record.len() == 0 {
            None
        } else if record[0] == 49 {
            parse_tracked_record(record, 9)
        } else if record[0] == 50 {
            taken = 2;
            match parse_tracked_record(record, 10) {
                None => None,
                Some(entry) => {
                    let mut original: Option<Vec<u8>> = None;
                    if records.len() - index > 1 {
                        assert(shown[at + 1] == records@[at + 1]@);
                        if records[index + 1].len() > 0 {
                            original = Some(to_vec(records[index + 1]));
                        }
                    }
                    Some(
                        GitStatusEntry {
                            path: entry.path,
                            original_path: original,
                            status: entry.status,
                            submodule: entry.submodule,
                        },
                    )
                },
            }
        } else if record[0] == 117 {
            parse_tracked_record(record, 11)
        } else if record[0] == 63 && record.len() > 1 && record[1] == 32 {
            Some(
                GitStatusEntry {
                    path: to_vec(slice_subrange(record, 2, record.len())),
                    original_path: None,
                    status: FileStatus { index: '?', worktree: '?' },
                    submodule: SubmoduleStatus::default(),
                },
            )
        } else {
            None
        };
        assert(taken == records_taken(shown, at));
        let ghost rest = entries_from(shown, at + taken);
        assert(match entry_at(shown, at) {
            None => parsed is None,
            Some(expected) => parsed matches Some(found) && found@ == expected,
        });
        if let Some(entry) = parsed {
            entries.push(entry);
            assert(entry_records(entries@) =~= entry_records(before) + seq![entry@]);
            assert(entry_records(before) + (seq![entry@] + rest) =~= entry_records(entries@)
                + rest);
        }
        if records.len() - index < taken {
            assert(rest =~= Seq::<EntryRecord>::empty());
            assert(entry_records(entries@) + rest =~= entry_records(entries@));
            return entries;
        }
        index = index + taken;
    }
    assert(entry_records(entries@) + Seq::<EntryRecord>::empty() =~= entry_records(entries@));
    entries
}

/// The paths of a null-separated configuration listing: what stands behind the
/// first line feed of each record, unless it is empty.
pub open spec fn config_paths(records: Seq<Seq<u8>>) -> Seq<Seq<u8>>
    decreases records.len(),
{
    if records.len() == 0 {
        Seq::empty()
    } else {
        let earlier = config_paths(records.drop_last());
        let record = records.last();
        match find(record, seq![10u8]) {
            Some(at) => if at + 1 < record.len() {
                earlier.push(record.subrange(at + 1, record.len() as int))
            } else {
                earlier
            },
            None => earlier,
        }
    }
}

/// Reads the values of a null-separated configuration listing.
pub fn parse_git_config_values(bytes: &[u8]) -> (paths: Vec<Vec<u8>>)
    ensures
        byte_views(paths@) == config_paths(split(bytes@, seq![0u8])),
{
    let zero: [u8; 1] = [0u8];
    let separator: &[u8] = &zero;
    assert(separator@ =~= seq![0u8]);
    let feed: [u8; 1] = [10u8];
    let line_feed: &[u8] = &feed;
    assert(line_feed@ =~= seq![10u8]);
    let records = split_bytes(bytes, separator);
    let ghost shown = views(records@);
    let mut paths: Vec<Vec<u8>> = Vec::new();
    let mut index: usize = 0;
    assert(byte_views(paths@) =~= config_paths(shown.subrange(0, 0)));
    while index < records.len()
        invariant
            index <= records@.len(),
            shown == views(records@),
            line_feed@ == seq![10u8],
            byte_views(paths@) == config_paths(shown.subrange(0, index as int)),
        decreases records@.len() - index,
    {
        let record = records[index];
        let ghost before = paths@;
        proof {
            assert(shown.subrange(0, index + 1).drop_last() =~= shown.subrange(0, index as int));
            assert(shown.subrange(0, index + 1).last() == record@);
            crate::bytes::lemma_find_from_is_first(record@, seq![10u8], 0);
        }
        if let Some(at) = find_bytes(record, line_feed) {
            if record.len() - at > 1 {
                let value = slice_subrange(record, at + 1, record.len());
                paths.push(to_vec(value));
                assert(byte_views(paths@) =~= byte_views(before).push(value@));
            }
        }
        index = index + 1;
    }
    assert(shown.subrange(0, shown.len() as int) =~= shown);
    paths
}

/// What a command printed without the end of its line. Windows may end a line with a
/// carriage return too.
pub open spec fn without_line_end(style: PathStyle, output: Seq<u8>) -> Seq<u8> {
    if style == PathStyle::Windows && output.len() > 1 && output[output.len() - 2] == 13
        && output.last() == 10 {
        output.subrange(0, output.len() - 2)
    } else if output.len() > 0 && output.last() == 10 {
        output.drop_last()
    } else {
        output
    }
}

/// The path that a command printed.
pub open spec fn printed_path(style: PathStyle, output: Seq<u8>) -> Option<Seq<u8>> {
    let path = without_line_end(style, output);
    if path.len() == 0 {
        None
    } else {
        Some(path)
    }
}

/// The path that Git printed. Only one end of a line is the protocol's.
pub fn git_path_from_output(style: PathStyle, output: &[u8]) -> (path: Option<Vec<u8>>)
    ensures
        bytes_view(path) == printed_path(style, output@),
{
    let mut end: usize = output.len();
    if style == PathStyle::Windows && end > 1 && output[end - 2] == 13 && output[end - 1] == 10 {
        end = end - 2;
    } else if end > 0 && output[end - 1] == 10 {
        end = end - 1;
        assert(output@.subrange(0, end as int) =~= output@.drop_last());
    } else {
        assert(output@.subrange(0, end as int) =~= output@);
    }
    if end == 0 {
        None
    } else {
        Some(to_vec(slice_subrange(output, 0, end)))
    }
}

// Reading back ----------------------------------------------------------------------------

/// A change as Git writes it down: what happened in the index and in the working tree,
/// the submodule field, the other fields in front of the path, and the paths as they are.
pub enum PrintedChange {
    Changed {
        index: char,
        worktree: char,
        submodule: Seq<u8>,
        details: Seq<Seq<u8>>,
        path: Seq<u8>,
    },
    Renamed {
        index: char,
        worktree: char,
        submodule: Seq<u8>,
        details: Seq<Seq<u8>>,
        path: Seq<u8>,
        original: Seq<u8>,
    },
    Unmerged {
        index: char,
        worktree: char,
        submodule: Seq<u8>,
        details: Seq<Seq<u8>>,
        path: Seq<u8>,
    },
    Untracked { path: Seq<u8> },
}

/// A letter of one byte, or a blank where nothing happened.
pub open spec fn is_letter(letter: char) -> bool {
    letter == ' ' || (1 <= letter as int <= 255 && letter != '.')
}

/// Git writes each letter as it is, and a dot where nothing happened.
pub open spec fn written_letters(index: char, worktree: char) -> Seq<u8> {
    seq![
        if index == ' ' {
            46u8
        } else {
            index as u8
        },
        if worktree == ' ' {
            46u8
        } else {
            worktree as u8
        },
    ]
}

/// A field in front of a path.
pub open spec fn is_field(word: Seq<u8>) -> bool {
    !word.contains(0) && !word.contains(32)
}

/// The fields of a tracked path but for the path itself.
pub open spec fn leading_fields(
    kind: u8,
    letters: Seq<u8>,
    submodule: Seq<u8>,
    details: Seq<Seq<u8>>,
) -> Seq<Seq<u8>> {
    seq![seq![kind], letters, submodule] + details
}

pub open spec fn are_fields(
    letters: Seq<u8>,
    submodule: Seq<u8>,
    details: Seq<Seq<u8>>,
    count: int,
) -> bool {
    &&& letters.len() == 2
    &&& is_field(letters)
    &&& submodule.len() == 4
    &&& is_field(submodule)
    &&& details.len() == count
    &&& forall|i: int| 0 <= i < details.len() ==> is_field(#[trigger] details[i])
}

/// Words and a last part with a space between each two.
pub open spec fn spaced(words: Seq<Seq<u8>>, last: Seq<u8>) -> Seq<u8>
    decreases words.len(),
{
    if words.len() == 0 {
        last
    } else {
        words[0] + (seq![32u8] + spaced(words.drop_first(), last))
    }
}

/// What the field of a submodule tells: `S` for a submodule, then `C` for another commit,
/// `M` for modified files and `U` for untracked ones, each at its place.
pub open spec fn told_submodule(field: Seq<u8>) -> SubmoduleStatus {
    SubmoduleStatus {
        is_submodule: field[0] as char == 'S',
        commit_changed: field[1] as char == 'C',
        modified_content: field[2] as char == 'M',
        untracked_content: field[3] as char == 'U',
    }
}

impl PrintedChange {
    /// A path holds no zero byte, and is otherwise free.
    pub open spec fn well_formed(self) -> bool {
        match self {
            PrintedChange::Changed { index, worktree, submodule, details, path } => are_fields(
                written_letters(index, worktree),
                submodule,
                details,
                5,
            ) && is_letter(index) && is_letter(worktree) && !path.contains(0),
            PrintedChange::Renamed { index, worktree, submodule, details, path, original } => are_fields(
                written_letters(index, worktree),
                submodule,
                details,
                6,
            ) && is_letter(index) && is_letter(worktree) && !path.contains(0) && !original.contains(0) && original.len() > 0,
            PrintedChange::Unmerged { index, worktree, submodule, details, path } => are_fields(
                written_letters(index, worktree),
                submodule,
                details,
                7,
            ) && is_letter(index) && is_letter(worktree) && !path.contains(0),
            PrintedChange::Untracked { path } => !path.contains(0),
        }
    }

    /// The record of the change without the zero byte behind it.
    pub open spec fn record(self) -> Seq<u8> {
        match self {
            PrintedChange::Changed { index, worktree, submodule, details, path } => spaced(
                leading_fields(49, written_letters(index, worktree), submodule, details),
                path,
            ),
            PrintedChange::Renamed { index, worktree, submodule, details, path, original } => spaced(
                leading_fields(50, written_letters(index, worktree), submodule, details),
                path,
            ),
            PrintedChange::Unmerged { index, worktree, submodule, details, path } => spaced(
                leading_fields(117, written_letters(index, worktree), submodule, details),
                path,
            ),
            PrintedChange::Untracked { path } => seq![63u8, 32u8] + path,
        }
    }

    /// All that is written for the change.
    pub open spec fn bytes(self) -> Seq<u8> {
        match self {
            PrintedChange::Renamed { original, .. } => self.record() + (seq![0u8] + (original
                + seq![0u8])),
            _ => self.record() + seq![0u8],
        }
    }

    /// The entry that the change stands for.
    pub open spec fn entry(self) -> EntryRecord {
        match self {
            PrintedChange::Changed { index, worktree, submodule, details, path } => EntryRecord {
                path,
                original_path: None,
                status: FileStatus { index, worktree },
                submodule: told_submodule(submodule),
            },
            PrintedChange::Renamed { index, worktree, submodule, details, path, original } => EntryRecord {
                path,
                original_path: Some(original),
                status: FileStatus { index, worktree },
                submodule: told_submodule(submodule),
            },
            PrintedChange::Unmerged { index, worktree, submodule, details, path } => EntryRecord {
                path,
                original_path: None,
                status: FileStatus { index, worktree },
                submodule: told_submodule(submodule),
            },
            PrintedChange::Untracked { path } => EntryRecord {
                path,
                original_path: None,
                status: FileStatus { index: '?', worktree: '?' },
                submodule: SubmoduleStatus::absent(),
            },
        }
    }
}

/// The report of some changes.
pub open spec fn printed_report(changes: Seq<PrintedChange>) -> Seq<u8>
    decreases changes.len(),
{
    if changes.len() == 0 {
        Seq::empty()
    } else {
        changes[0].bytes() + printed_report(changes.drop_first())
    }
}

proof fn lemma_byte_found(head: Seq<u8>, byte: u8, rest: Seq<u8>)
    requires
        !head.contains(byte),
    ensures
        find(head + (seq![byte] + rest), seq![byte]) == Some(head.len() as int),
{
    let s = head + (seq![byte] + rest);
    let at = head.len() as int;
    assert(s.subrange(at, at + 1) =~= seq![byte]);
    assert forall|k: int| 0 <= k < at implies !#[trigger] occurs_at(s, seq![byte], k) by {
        assert(s.subrange(k, k + 1)[0] == head[k]);
        assert(head.contains(head[k]));
    }
    lemma_first_is_found(s, seq![byte], at);
}

proof fn lemma_byte_absent(s: Seq<u8>, byte: u8)
    requires
        !s.contains(byte),
    ensures
        find(s, seq![byte]) is None,
{
    lemma_find_from_is_first(s, seq![byte], 0);
    if find(s, seq![byte]) is Some {
        let at = find(s, seq![byte])->0;
        assert(s.subrange(at, at + 1)[0] == s[at]);
    }
}

proof fn lemma_record_cut_off(head: Seq<u8>, rest: Seq<u8>)
    requires
        !head.contains(0),
    ensures
        split(head + (seq![0u8] + rest), seq![0u8]) == seq![head] + split(rest, seq![0u8]),
{
    let s = head + (seq![0u8] + rest);
    lemma_byte_found(head, 0, rest);
    assert(s.subrange(0, head.len() as int) =~= head);
    assert(s.subrange(head.len() as int + 1, s.len() as int) =~= rest);
}

proof fn lemma_fields_read_back(words: Seq<Seq<u8>>, last: Seq<u8>)
    requires
        forall|i: int| 0 <= i < words.len() ==> is_field(#[trigger] words[i]),
    ensures
        fields(spaced(words, last), words.len() as int + 1) == words.push(last),
    decreases words.len(),
{
    lemma_space();
    if words.len() == 0 {
        assert(words.push(last) =~= seq![last]);
    } else {
        let rest = spaced(words.drop_first(), last);
        let s = spaced(words, last);
        lemma_byte_found(words[0], 32, rest);
        assert(s.subrange(0, words[0].len() as int) =~= words[0]);
        assert(s.subrange(words[0].len() as int + 1, s.len() as int) =~= rest);
        lemma_fields_read_back(words.drop_first(), last);
        assert(words.push(last) =~= seq![words[0]] + words.drop_first().push(last));
    }
}

proof fn lemma_spaced_has_no_zero(words: Seq<Seq<u8>>, last: Seq<u8>)
    requires
        forall|i: int| 0 <= i < words.len() ==> is_field(#[trigger] words[i]),
        !last.contains(0),
    ensures
        !spaced(words, last).contains(0),
    decreases words.len(),
{
    if words.len() > 0 {
        let rest = spaced(words.drop_first(), last);
        let s = spaced(words, last);
        lemma_spaced_has_no_zero(words.drop_first(), last);
        assert forall|i: int| 0 <= i < s.len() implies s[i] != 0 by {
            let n = words[0].len();
            if i < n {
                assert(words[0].contains(words[0][i]));
            } else if i > n {
                assert(rest.contains(rest[i - n - 1]));
            }
        }
    }
}

proof fn lemma_letter_read_back(letter: char)
    requires
        is_letter(letter),
    ensures
        status_letter(written_letters(letter, letter)[0]) == letter,
{
    if letter != ' ' {
        let byte = letter as u8;
        assert(byte as int == letter as int);
        assert(byte as char == letter);
    }
}

proof fn lemma_tracked_read_back(
    kind: u8,
    index: char,
    worktree: char,
    submodule: Seq<u8>,
    details: Seq<Seq<u8>>,
    path: Seq<u8>,
)
    requires
        kind != 0 && kind != 32,
        is_letter(index),
        is_letter(worktree),
        are_fields(written_letters(index, worktree), submodule, details, details.len() as int),
        !path.contains(0),
    ensures
        ({
            let record = spaced(leading_fields(
                kind,
                written_letters(index, worktree),
                submodule,
                details,
            ), path);
            &&& !record.contains(0)
            &&& record.len() > 0
            &&& record[0] == kind
            &&& tracked_entry(record, details.len() as int + 4) == Some(
                EntryRecord {
                    path,
                    original_path: None,
                    status: FileStatus { index, worktree },
                    submodule: told_submodule(submodule),
                },
            )
        }),
{
    let words = leading_fields(
                kind,
                written_letters(index, worktree),
                submodule,
                details,
            );
    assert forall|i: int| 0 <= i < words.len() implies is_field(#[trigger] words[i]) by {
        if i == 0 {
            assert(words[0] == seq![kind]);
        } else if i >= 3 {
            assert(words[i] == details[i - 3]);
        }
    }
    lemma_fields_read_back(words, path);
    lemma_spaced_has_no_zero(words, path);
    let parts = words.push(path);
    let letters = written_letters(index, worktree);
    assert(parts[1] == letters);
    lemma_letter_read_back(index);
    lemma_letter_read_back(worktree);
    assert(submodule_of(submodule) == told_submodule(submodule)) by {
        assert('S' as int == 83 && 'C' as int == 67 && 'M' as int == 77 && 'U' as int == 85);
    }
    assert(parts[2] == submodule);
    assert(words[0] == seq![kind]);
}

proof fn lemma_entries_behind(first: Seq<u8>, records: Seq<Seq<u8>>, i: int)
    requires
        i >= 0,
    ensures
        entries_from(seq![first] + records, i + 1) == entries_from(records, i),
    decreases (if i < records.len() { records.len() - i } else { 0 }),
{
    let all = seq![first] + records;
    if i < records.len() {
        assert(all[i + 1] == records[i]);
        if i + 1 < records.len() {
            assert(all[i + 2] == records[i + 1]);
        }
        lemma_entries_behind(first, records, i + records_taken(records, i));
    }
}

/// What Git wrote down is what is read: each change of a report in turn, with its
/// letters, what it says of a submodule, and its paths byte for byte.
pub proof fn law_reports_are_read_back(changes: Seq<PrintedChange>)
    requires
        forall|i: int| 0 <= i < changes.len() ==> (#[trigger] changes[i]).well_formed(),
    ensures
        report_entries(printed_report(changes)) == Seq::new(
            changes.len(),
            |i: int| changes[i].entry(),
        ),
    decreases changes.len(),
{
    let entries = Seq::new(changes.len(), |i: int| changes[i].entry());
    if changes.len() == 0 {
        let records = split(printed_report(changes), seq![0u8]);
        lemma_byte_absent(printed_report(changes), 0);
        assert(entries_from(records, 1) =~= Seq::<EntryRecord>::empty());
        assert(entries =~= Seq::<EntryRecord>::empty());
    } else {
        let change = changes[0];
        let rest = printed_report(changes.drop_first());
        let later = split(rest, seq![0u8]);
        law_reports_are_read_back(changes.drop_first());
        assert(entries =~= seq![change.entry()] + Seq::new(
            changes.drop_first().len(),
            |i: int| changes.drop_first()[i].entry(),
        ));
        let record = change.record();
        match change {
            PrintedChange::Changed { index, worktree, submodule, details, path } => {
                lemma_tracked_read_back(49, index, worktree, submodule, details, path);
            },
            PrintedChange::Renamed { index, worktree, submodule, details, path, original } => {
                lemma_tracked_read_back(50, index, worktree, submodule, details, path);
            },
            PrintedChange::Unmerged { index, worktree, submodule, details, path } => {
                lemma_tracked_read_back(117, index, worktree, submodule, details, path);
            },
            PrintedChange::Untracked { path } => {
                assert forall|i: int| 0 <= i < record.len() implies record[i] != 0 by {
                    if i >= 2 {
                        assert(path.contains(path[i - 2]));
                    }
                }
                assert(record.subrange(2, record.len() as int) =~= path);
            },
        }
        if change is Renamed {
            let original = change->Renamed_original;
            let tail = original + (seq![0u8] + rest);
            assert(printed_report(changes) =~= record + (seq![0u8] + tail));
            lemma_record_cut_off(original, rest);
            lemma_record_cut_off(record, tail);
            let records = seq![record] + (seq![original] + later);
            assert(records[1] == original);
            lemma_entries_behind(original, later, 0);
            lemma_entries_behind(record, seq![original] + later, 1);
        } else {
            assert(printed_report(changes) =~= record + (seq![0u8] + rest));
            lemma_record_cut_off(record, rest);
            lemma_entries_behind(record, later, 0);
        }
    }
}

/// A record of another kind is passed over: what comes behind it is read as if it were
/// not there.
pub proof fn law_other_records_are_passed_over(record: Seq<u8>, rest: Seq<u8>)
    requires
        !record.contains(0),
        record.len() > 0 ==> record[0] as char != '1' && record[0] as char != '2' && record[0]
            as char != 'u' && !(record[0] as char == '?' && record.len() > 1 && record[1] as char
            == ' '),
    ensures
        report_entries(record + (seq![0u8] + rest)) == report_entries(rest),
{
    let later = split(rest, seq![0u8]);
    lemma_record_cut_off(record, rest);
    lemma_entries_behind(record, later, 0);
    let all = seq![record] + later;
    assert(all[0] == record);
    if record.len() > 0 {
        let first = record[0];
        assert('1' as int == 49 && '2' as int == 50 && 'u' as int == 117 && '?' as int == 63
            && ' ' as int == 32);
        assert(first as char as int == first as int);
        if record.len() > 1 {
            let second = record[1];
            assert(second as char as int == second as int);
        }
    }
    assert(entries_from(all, 0) == entries_from(all, 1));
}

// Repositories ----------------------------------------------------------------------------

/// What a finished command left behind.
#[derive(Debug)]
pub struct GitOutput {
    pub success: bool,
    pub code: Option<i32>,
    pub stdout: Vec<u8>,
    pub stderr: Vec<u8>,
}

/// Why a repository could not be read.
#[derive(Debug, PartialEq, Eq)]
pub struct GitError {
    pub message: String,
}

pub open spec fn failure_text(action: Seq<char>, stderr: Seq<u8>) -> Seq<char> {
    "failed to "@ + action + ": "@ + trimmed(lossy(stderr))
}

/// The error of a command that failed.
pub fn ensure_success(action: &str, output: &GitOutput) -> (result: Result<(), GitError>)
    ensures
        result is Ok <==> output.success,
        result matches Err(error) ==> error.message@ == failure_text(action@, output.stderr@),
{
    if output.success {
        return Ok(());
    }
    let detail = lossy_text(output.stderr.as_slice());
    let detail = trim_text(detail.as_str());
    let mut message = String::new();
    message.push_str("failed to ");
    message.push_str(action);
    message.push_str(": ");
    message.push_str(detail.as_str());
    assert(message@ =~= failure_text(action@, output.stderr@));
    Err(GitError { message })
}

/// The statuses of changed paths. Paths with the same parts are the same.
#[derive(Debug)]
pub struct StatusMap {
    pub style: PathStyle,
    pub entries: Vec<(Vec<u8>, FileStatus)>,
}

pub open spec fn pairs(style: PathStyle, entries: Seq<(Vec<u8>, FileStatus)>) -> Seq<
    (Seq<Part>, FileStatus),
> {
    Seq::new(entries.len(), |i: int| (parts(style, entries[i].0@), entries[i].1))
}

pub open spec fn pairs_map(pairs: Seq<(Seq<Part>, FileStatus)>) -> Map<Seq<Part>, FileStatus>
    decreases pairs.len(),
{
    if pairs.len() == 0 {
        Map::empty()
    } else {
        pairs_map(pairs.drop_last()).insert(pairs.last().0, pairs.last().1)
    }
}

pub open spec fn distinct(pairs: Seq<(Seq<Part>, FileStatus)>) -> bool {
    forall|i: int, j: int|
        0 <= i < j < pairs.len() ==> (#[trigger] pairs[i]).0 != (#[trigger] pairs[j]).0
}

/// The status that a report gives each path; of two for one path, the later.
pub open spec fn statuses_of(style: PathStyle, entries: Seq<EntryRecord>) -> Map<
    Seq<Part>,
    FileStatus,
>
    decreases entries.len(),
{
    if entries.len() == 0 {
        Map::empty()
    } else {
        statuses_of(style, entries.drop_last()).insert(
            parts(style, entries.last().path),
            entries.last().status,
        )
    }
}

proof fn lemma_pairs_map(pairs: Seq<(Seq<Part>, FileStatus)>)
    requires
        distinct(pairs),
    ensures
        pairs_map(pairs).dom().finite(),
        pairs_map(pairs).dom().len() == pairs.len(),
        forall|i: int|
            0 <= i < pairs.len() ==> pairs_map(pairs).dom().contains((#[trigger] pairs[i]).0)
                && pairs_map(pairs)[pairs[i].0] == pairs[i].1,
        forall|key: Seq<Part>|
            #[trigger] pairs_map(pairs).dom().contains(key) ==> exists|i: int|
                0 <= i < pairs.len() && (#[trigger] pairs[i]).0 == key,
    decreases pairs.len(),
{
    if pairs.len() > 0 {
        let shorter = pairs.drop_last();
        assert forall|i: int, j: int| 0 <= i < j < shorter.len() implies (
        #[trigger] shorter[i]).0 != (#[trigger] shorter[j]).0 by {
            assert(pairs[i].0 != pairs[j].0);
        }
        lemma_pairs_map(shorter);
        let last = pairs.last();
        let before = pairs_map(shorter);
        if before.dom().contains(last.0) {
            let i = choose|i: int| 0 <= i < shorter.len() && (#[trigger] shorter[i]).0 == last.0;
            assert(pairs[i].0 != pairs[pairs.len() - 1].0);
        }
        assert(pairs_map(pairs).dom() =~= before.dom().insert(last.0));
        assert forall|i: int| 0 <= i < pairs.len() implies pairs_map(pairs).dom().contains(
            (#[trigger] pairs[i]).0,
        ) && pairs_map(pairs)[pairs[i].0] == pairs[i].1 by {
            if i < shorter.len() {
                assert(shorter[i] == pairs[i]);
                assert(pairs[i].0 != pairs[pairs.len() - 1].0);
            }
        }
        assert forall|key: Seq<Part>| #[trigger] pairs_map(pairs).dom().contains(key) implies exists|
            i: int,
        |
            0 <= i < pairs.len() && (#[trigger] pairs[i]).0 == key by {
            if key == last.0 {
                assert(pairs[pairs.len() - 1].0 == key);
            } else {
                assert(before.dom().contains(key));
                let i = choose|i: int| 0 <= i < shorter.len() && (#[trigger] shorter[i]).0 == key;
                assert(pairs[i].0 == key);
            }
        }
    }
}

impl View for StatusMap {
    type V = Map<Seq<Part>, FileStatus>;

    open spec fn view(&self) -> Map<Seq<Part>, FileStatus> {
        pairs_map(pairs(self.style, self.entries@))
    }
}

impl StatusMap {
    /// Each path has one entry.
    pub open spec fn well_formed(&self) -> bool {
        distinct(pairs(self.style, self.entries@))
    }

    pub fn len(&self) -> (length: usize)
        requires
            self.well_formed(),
        ensures
            length == self@.dom().len(),
    {
        proof {
            lemma_pairs_map(pairs(self.style, self.entries@));
        }
        self.entries.len()
    }

    fn place_of(&self, path: &[u8]) -> (place: Option<usize>)
        requires
            self.well_formed(),
        ensures
            match place {
                Some(at) => at < self.entries@.len() && same_path(
                    self.style,
                    self.entries@[at as int].0@,
                    path@,
                ),
                None => forall|i: int|
                    0 <= i < self.entries@.len() ==> !same_path(
                        self.style,
                        (#[trigger] self.entries@[i]).0@,
                        path@,
                    ),
            },
    {
        let mut index: usize = 0;
        while index < self.entries.len()
            invariant
                index <= self.entries@.len(),
                forall|i: int|
                    0 <= i < index ==> !same_path(
                        self.style,
                        (#[trigger] self.entries@[i]).0@,
                        path@,
                    ),
            decreases self.entries@.len() - index,
        {
            if paths_equal(self.style, self.entries[index].0.as_slice(), path) {
                return Some(index);
            }
            index = index + 1;
        }
        None
    }

    pub fn get(&self, path: &[u8]) -> (status: Option<FileStatus>)
        requires
            self.well_formed(),
        ensures
            status == (if self@.dom().contains(parts(self.style, path@)) {
                Some(self@[parts(self.style, path@)])
            } else {
                None
            }),
    {
        proof {
            lemma_pairs_map(pairs(self.style, self.entries@));
        }
        match self.place_of(path) {
            Some(at) => {
                assert(pairs(self.style, self.entries@)[at as int].0 == parts(self.style, path@));
                Some(self.entries[at].1)
            },
            None => {
                proof {
                    if self@.dom().contains(parts(self.style, path@)) {
                        let shown = pairs(self.style, self.entries@);
                        let i = choose|i: int|
                            0 <= i < shown.len() && (#[trigger] shown[i]).0 == parts(
                                self.style,
                                path@,
                            );
                        assert(same_path(self.style, self.entries@[i].0@, path@));
                    }
                }
                None
            },
        }
    }

    fn insert(&mut self, path: Vec<u8>, status: FileStatus)
        requires
            old(self).well_formed(),
        ensures
            final(self).well_formed(),
            final(self).style == old(self).style,
            final(self)@ == old(self)@.insert(parts(old(self).style, path@), status),
    {
        let ghost named = parts(self.style, path@);
        let ghost before = pairs(self.style, self.entries@);
        match self.place_of(path.as_slice()) {
            Some(at) => {
                let known = to_vec(self.entries[at].0.as_slice());
                self.entries.set(at, (known, status));
                proof {
                    let after = pairs(self.style, self.entries@);
                    assert(after =~= before.update(at as int, (named, status)));
                    assert forall|i: int, j: int| 0 <= i < j < after.len() implies (
                    #[trigger] after[i]).0 != (#[trigger] after[j]).0 by {
                        assert(before[i].0 != before[j].0);
                    }
                    lemma_pairs_map(before);
                    lemma_pairs_map(after);
                    assert(before[at as int].0 == named);
                    lemma_same_map(before, after, at as int, named, status);
                }
            },
            None => {
                self.entries.push((path, status));
                proof {
                    let after = pairs(self.style, self.entries@);
                    assert(after.drop_last() =~= before);
                    assert forall|i: int, j: int| 0 <= i < j < after.len() implies (
                    #[trigger] after[i]).0 != (#[trigger] after[j]).0 by {
                        if j < before.len() {
                            assert(before[i].0 != before[j].0);
                        }
                    }
                }
            },
        }
    }

    /// The statuses of a report's entries.
    pub fn from_entries(style: PathStyle, entries: &Vec<GitStatusEntry>) -> (statuses: Self)
        ensures
            statuses.well_formed(),
            statuses.style == style,
            statuses@ == statuses_of(style, entry_records(entries@)),
    {
        let mut statuses = StatusMap { style, entries: Vec::new() };
        let ghost listed = entry_records(entries@);
        let mut index: usize = 0;
        assert(listed.subrange(0, 0) =~= Seq::<EntryRecord>::empty());
        assert(statuses@ =~= statuses_of(style, listed.subrange(0, 0)));
        while index < entries.len()
            invariant
                index <= entries@.len(),
                listed == entry_records(entries@),
                statuses.well_formed(),
                statuses.style == style,
                statuses@ == statuses_of(style, listed.subrange(0, index as int)),
            decreases entries@.len() - index,
        {
            assert(listed.subrange(0, index + 1).drop_last() =~= listed.subrange(0, index as int));
            statuses.insert(to_vec(entries[index].path.as_slice()), entries[index].status);
            index = index + 1;
        }
        assert(listed.subrange(0, listed.len() as int) =~= listed);
        statuses
    }
}

proof fn lemma_same_map(
    before: Seq<(Seq<Part>, FileStatus)>,
    after: Seq<(Seq<Part>, FileStatus)>,
    at: int,
    path: Seq<Part>,
    status: FileStatus,
)
    requires
        distinct(before),
        distinct(after),
        0 <= at < before.len(),
        before[at].0 == path,
        after == before.update(at, (path, status)),
    ensures
        pairs_map(after) == pairs_map(before).insert(path, status),
{
    lemma_pairs_map(before);
    lemma_pairs_map(after);
    let left = pairs_map(after);
    let right = pairs_map(before).insert(path, status);
    assert forall|key: Seq<Part>| left.dom().contains(key) == right.dom().contains(key) by {
        if left.dom().contains(key) {
            let i = choose|i: int| 0 <= i < after.len() && (#[trigger] after[i]).0 == key;
            if i != at {
                assert(before[i] == after[i]);
            }
        }
        if right.dom().contains(key) {
            if key == path {
                assert(after[at].0 == path);
            } else {
                let i = choose|i: int| 0 <= i < before.len() && (#[trigger] before[i]).0 == key;
                assert(after[i] == before[i]);
            }
        }
    }
    assert forall|key: Seq<Part>| left.dom().contains(key) implies left[key] == right[key] by {
        let i = choose|i: int| 0 <= i < after.len() && (#[trigger] after[i]).0 == key;
        if i == at {
            assert(after[at] == (path, status));
        } else {
            assert(before[i] == after[i]);
            assert(before[i].0 != before[at].0) by {
                if i < at {
                    assert(before[i].0 != before[at].0);
                } else {
                    assert(before[at].0 != before[i].0);
                }
            }
        }
    }
    assert(left =~= right);
}

/// What is to be done to show a change.
#[derive(Debug)]
pub enum DiffPlan {
    /// These lines are all there is to show.
    Lines(Vec<String>),
    /// The file is untracked: its content is the diff.
    Untracked,
    /// Commands with these arguments give the staged and the unstaged part.
    Commands { staged: Option<Vec<Vec<u8>>>, worktree: Option<Vec<Vec<u8>>> },
}

/// The arguments that print one part of a change. A rename or copy needs both
/// of its paths.
pub open spec fn diff_arguments(
    cached: bool,
    path: Seq<u8>,
    original_path: Option<Seq<u8>>,
) -> Seq<Seq<u8>> {
    seq![text("diff"), text("--no-ext-diff"), text("--no-color"), text("--unified=3")] + (
    if original_path is Some {
        seq![text("--find-renames"), text("--find-copies-harder")]
    } else {
        Seq::empty()
    }) + (if cached {
        seq![text("--cached")]
    } else {
        Seq::empty()
    }) + seq![text("--")] + (match original_path {
        Some(original) => seq![original],
        None => Seq::empty(),
    }) + seq![path]
}

pub open spec fn no_changes_text(path: Seq<u8>) -> Seq<Seq<char>> {
    seq![
        lossy(path) + " has no uncommitted changes."@,
        "Select a changed file to inspect its diff."@,
    ]
}

/// The lines of one part of a diff.
pub open spec fn section(title: Seq<char>, output: Seq<u8>) -> Seq<Seq<char>> {
    seq!["── "@ + title + " ──"@] + text_lines(lossy(output))
}

pub open spec fn all_sections(staged: Option<Seq<u8>>, worktree: Option<Seq<u8>>) -> Seq<
    Seq<char>,
> {
    match (staged, worktree) {
        (None, None) => Seq::empty(),
        (Some(first), None) => section("STAGED"@, first),
        (None, Some(second)) => section("WORKTREE"@, second),
        (Some(first), Some(second)) => section("STAGED"@, first) + seq![Seq::<char>::empty()]
            + section("WORKTREE"@, second),
    }
}

fn push_bytes(arguments: &mut Vec<Vec<u8>>, literal: &str)
    ensures
        byte_views(final(arguments)@) == byte_views(old(arguments)@).push(text(literal)),
{
    arguments.push(to_vec(literal.as_bytes()));
    assert(byte_views(arguments@) =~= byte_views(old(arguments)@).push(text(literal)));
}

/// Adds the lines of one part of a diff, behind an empty line if there are others.
fn push_section(lines: &mut Vec<String>, title: &str, output: &[u8])
    ensures
        string_views(final(lines)@) == string_views(old(lines)@) + (if old(lines)@.len() > 0 {
            seq![Seq::<char>::empty()]
        } else {
            Seq::empty()
        }) + section(title@, output@),
{
    let ghost before = string_views(lines@);
    let ghost gap = if lines@.len() > 0 {
        seq![Seq::<char>::empty()]
    } else {
        Seq::<Seq<char>>::empty()
    };
    if lines.len() > 0 {
        lines.push(String::new());
    }
    assert(string_views(lines@) =~= before + gap);
    let mut heading = String::new();
    heading.push_str("── ");
    heading.push_str(title);
    heading.push_str(" ──");
    assert(heading@ =~= "── "@ + title@ + " ──"@);
    lines.push(heading);
    assert(string_views(lines@) =~= before + gap + seq![heading@]);
    let words = lossy_text(output);
    let more = lines_of(words.as_str());
    push_lines(lines, more);
    assert(string_views(lines@) =~= before + gap + section(title@, output@));
}

fn push_lines(lines: &mut Vec<String>, more: Vec<String>)
    ensures
        string_views(final(lines)@) == string_views(old(lines)@) + string_views(more@),
{
    let ghost given = lines@;
    let ghost added = more@;
    let mut more = more;
    lines.append(&mut more);
    assert(string_views(lines@) =~= string_views(given) + string_views(added));
}

/// A repository, by the places of its working tree and of its data.
#[derive(Debug)]
pub struct GitRepo {
    pub style: PathStyle,
    pub root: Vec<u8>,
    pub git_dir: Vec<u8>,
}

impl GitRepo {
    /// The top level that Git printed for a path; none outside a repository.
    pub fn discover(style: PathStyle, top_level: &GitOutput) -> (root: Option<Vec<u8>>)
        ensures
            bytes_view(root) == (if top_level.success {
                printed_path(style, top_level.stdout@)
            } else {
                None
            }),
    {
        if !top_level.success {
            return None;
        }
        git_path_from_output(style, top_level.stdout.as_slice())
    }

    /// The data directory that Git printed.
    pub fn locate_git_dir(style: PathStyle, output: &GitOutput) -> (result: Result<
        Vec<u8>,
        GitError,
    >)
        ensures
            match result {
                Ok(path) => output.success && printed_path(style, output.stdout@) == Some(path@),
                Err(error) => if output.success {
                    &&& printed_path(style, output.stdout@) is None
                    &&& error.message@ == "Git returned an empty Git directory path"@
                } else {
                    error.message@ == failure_text("resolve Git directory"@, output.stderr@)
                },
            },
    {
        match ensure_success("resolve Git directory", output) {
            Err(error) => {
                return Err(error);
            },
            Ok(()) => {},
        }
        match git_path_from_output(style, output.stdout.as_slice()) {
            Some(path) => Ok(path),
            None => Err(
                GitError { message: copy_text("Git returned an empty Git directory path") },
            ),
        }
    }

    pub fn new(style: PathStyle, root: Vec<u8>, git_dir: Vec<u8>) -> (repo: Self)
        ensures
            repo.style == style,
            repo.root@ == root@,
            repo.git_dir@ == git_dir@,
    {
        GitRepo { style, root, git_dir }
    }

    pub fn root(&self) -> (root: &Vec<u8>)
        ensures
            root@ == self.root@,
    {
        &self.root
    }

    pub fn git_dir(&self) -> (git_dir: &Vec<u8>)
        ensures
            git_dir@ == self.git_dir@,
    {
        &self.git_dir
    }

    /// The name of the current branch; none where no branch is checked out.
    pub fn branch(&self, current: &GitOutput) -> (branch: Option<String>)
        ensures
            match branch {
                Some(name) => current.success && name@ == trimmed(lossy(current.stdout@))
                    && name@.len() > 0,
                None => !current.success || trimmed(lossy(current.stdout@)).len() == 0,
            },
    {
        if !current.success {
            return None;
        }
        let words = lossy_text(current.stdout.as_slice());
        let name = trim_text(words.as_str());
        if name.as_str().is_empty() {
            None
        } else {
            Some(name)
        }
    }

    /// What stands for a branch where none is checked out.
    pub fn detached_branch(&self, head: &GitOutput) -> (result: Result<String, GitError>)
        ensures
            match result {
                Ok(name) => head.success && name@ == "detached@"@ + trimmed(lossy(head.stdout@)),
                Err(error) => !head.success && error.message@ == failure_text(
                    "read current revision"@,
                    head.stderr@,
                ),
            },
    {
        match ensure_success("read current revision", head) {
            Err(error) => {
                return Err(error);
            },
            Ok(()) => {},
        }
        let words = lossy_text(head.stdout.as_slice());
        let revision = trim_text(words.as_str());
        let mut name = String::new();
        name.push_str("detached@");
        name.push_str(revision.as_str());
        assert(name@ =~= "detached@"@ + trimmed(lossy(head.stdout@)));
        Ok(name)
    }

    /// The entries of a status report.
    pub fn status_entries(&self, report: &GitOutput) -> (result: Result<
        Vec<GitStatusEntry>,
        GitError,
    >)
        ensures
            match result {
                Ok(entries) => report.success && entry_records(entries@) == report_entries(
                    report.stdout@,
                ),
                Err(error) => !report.success && error.message@ == failure_text(
                    "read Git status"@,
                    report.stderr@,
                ),
            },
    {
        match ensure_success("read Git status", report) {
            Err(error) => Err(error),
            Ok(()) => Ok(parse_porcelain_v2(report.stdout.as_slice())),
        }
    }

    /// The statuses of a status report by path.
    pub fn statuses(&self, report: &GitOutput) -> (result: Result<StatusMap, GitError>)
        ensures
            match result {
                Ok(statuses) => report.success && statuses.well_formed() && statuses.style
                    == self.style && statuses@ == statuses_of(
                    self.style,
                    report_entries(report.stdout@),
                ),
                Err(error) => !report.success && error.message@ == failure_text(
                    "read Git status"@,
                    report.stderr@,
                ),
            },
    {
        match self.status_entries(report) {
            Err(error) => Err(error),
            Ok(entries) => Ok(StatusMap::from_entries(self.style, &entries)),
        }
    }

    /// The submodule paths that are declared. `listing` is the output of the
    /// command that lists them; it exits with one where it found none.
    pub fn submodule_paths(&self, listing: Option<&GitOutput>) -> (result: Result<
        Vec<Vec<u8>>,
        GitError,
    >)
        ensures
            match listing {
                None => result matches Ok(paths) && paths@.len() == 0,
                Some(output) => match result {
                    Ok(paths) => (output.success || output.code == Some(1i32)) && byte_views(
                        paths@,
                    ) == config_paths(split(output.stdout@, seq![0u8])),
                    Err(error) => !output.success && output.code != Some(1i32) && error.message@
                        == failure_text("read .gitmodules"@, output.stderr@),
                },
            },
    {
        match listing {
            None => Ok(Vec::new()),
            Some(output) => {
                let no_match = match output.code {
                    Some(code) => code == 1,
                    None => false,
                };
                if !output.success && !no_match {
                    match ensure_success("read .gitmodules", output) {
                        Err(error) => {
                            return Err(error);
                        },
                        Ok(()) => {},
                    }
                }
                Ok(parse_git_config_values(output.stdout.as_slice()))
            },
        }
    }

    /// How the change of a path is shown.
    pub fn diff_for(&self, path: &[u8], status: Option<FileStatus>) -> (plan: DiffPlan)
        ensures
            is_diff_plan(plan, path@, None, status),
    {
        self.diff_for_change(path, None, status)
    }

    /// How a change is shown, by both of its paths where it is a rename or copy.
    pub fn diff_for_change(
        &self,
        path: &[u8],
        original_path: Option<&[u8]>,
        status: Option<FileStatus>,
    ) -> (plan: DiffPlan)
        ensures
            is_diff_plan(plan, path@, crate::framing::slice_view(original_path), status),
    {
        match status {
            None => {
                let mut first = lossy_text(path);
                first.push_str(" has no uncommitted changes.");
                let mut lines: Vec<String> = Vec::new();
                lines.push(first);
                lines.push(copy_text("Select a changed file to inspect its diff."));
                assert(string_views(lines@) =~= no_changes_text(path@));
                DiffPlan::Lines(lines)
            },
            Some(status) => {
                if status.is_untracked() {
                    return DiffPlan::Untracked;
                }
                let staged = if status.has_staged_change() {
                    Some(path_diff_arguments(true, path, original_path))
                } else {
                    None
                };
                let worktree = if status.has_worktree_change() {
                    Some(path_diff_arguments(false, path, original_path))
                } else {
                    None
                };
                DiffPlan::Commands { staged, worktree }
            },
        }
    }
}

pub open spec fn arguments_view(arguments: Option<Vec<Vec<u8>>>) -> Option<Seq<Seq<u8>>> {
    match arguments {
        None => None,
        Some(arguments) => Some(byte_views(arguments@)),
    }
}

/// The plan that shows a change with this status.
pub open spec fn is_diff_plan(
    plan: DiffPlan,
    path: Seq<u8>,
    original_path: Option<Seq<u8>>,
    status: Option<FileStatus>,
) -> bool {
    match status {
        None => plan matches DiffPlan::Lines(lines) && string_views(lines@) == no_changes_text(
            path,
        ),
        Some(status) => if status.index == '?' && status.worktree == '?' {
            plan is Untracked
        } else {
            &&& plan matches DiffPlan::Commands { staged, worktree }
            &&& arguments_view(staged) == (if FileStatus::is_change(status.index) {
                Some(diff_arguments(true, path, original_path))
            } else {
                None
            })
            &&& arguments_view(worktree) == (if FileStatus::is_change(status.worktree) {
                Some(diff_arguments(false, path, original_path))
            } else {
                None
            })
        },
    }
}

/// The arguments that print one part of a change.
pub fn path_diff_arguments(cached: bool, path: &[u8], original_path: Option<&[u8]>) -> (arguments:
    Vec<Vec<u8>>)
    ensures
        byte_views(arguments@) == diff_arguments(
            cached,
            path@,
            crate::framing::slice_view(original_path),
        ),
{
    let mut arguments: Vec<Vec<u8>> = Vec::new();
    assert(byte_views(arguments@) =~= Seq::<Seq<u8>>::empty());
    push_bytes(&mut arguments, "diff");
    push_bytes(&mut arguments, "--no-ext-diff");
    push_bytes(&mut arguments, "--no-color");
    push_bytes(&mut arguments, "--unified=3");
    if original_path.is_some() {
        push_bytes(&mut arguments, "--find-renames");
        push_bytes(&mut arguments, "--find-copies-harder");
    }
    if cached {
        push_bytes(&mut arguments, "--cached");
    }
    push_bytes(&mut arguments, "--");
    let ghost before = arguments@;
    if let Some(original) = original_path {
        arguments.push(to_vec(original));
        assert(byte_views(arguments@) =~= byte_views(before).push(original@));
    }
    let ghost before = arguments@;
    arguments.push(to_vec(path));
    assert(byte_views(arguments@) =~= byte_views(before).push(path@));
    assert(byte_views(arguments@) =~= diff_arguments(
        cached,
        path@,
        crate::framing::slice_view(original_path),
    ));
    arguments
}

/// The printed parts of a tracked change.
pub open spec fn output_view(output: Option<&GitOutput>) -> Option<Seq<u8>> {
    match output {
        None => None,
        Some(output) => Some(output.stdout@),
    }
}

/// The lines of a tracked change, from the output of the commands that were run.
pub fn render_change(
    status: FileStatus,
    staged: Option<&GitOutput>,
    worktree: Option<&GitOutput>,
) -> (result: Result<Vec<String>, GitError>)
    ensures
        match result {
            Ok(lines) => {
                &&& staged matches Some(output) ==> output.success
                &&& worktree matches Some(output) ==> output.success
                &&& string_views(lines@) == (if staged is None && worktree is None {
                    seq![
                        "Git reports status "@ + status.label_text()
                            + ", but there is no text diff to display."@,
                    ]
                } else {
                    all_sections(output_view(staged), output_view(worktree))
                })
            },
            Err(error) => match staged {
                Some(output) if !output.success => error.message@ == failure_text(
                    "read staged diff"@,
                    output.stderr@,
                ),
                _ => worktree matches Some(output) && !output.success && error.message@
                    == failure_text("read working tree diff"@, output.stderr@),
            },
        },
{
    let mut lines: Vec<String> = Vec::new();
    assert(string_views(lines@) =~= Seq::<Seq<char>>::empty());
    if let Some(output) = staged {
        match ensure_success("read staged diff", output) {
            Err(error) => {
                return Err(error);
            },
            Ok(()) => {},
        }
        push_section(&mut lines, "STAGED", output.stdout.as_slice());
        assert(string_views(lines@) =~= section("STAGED"@, output.stdout@));
    }
    let ghost first = string_views(lines@);
    if let Some(output) = worktree {
        match ensure_success("read working tree diff", output) {
            Err(error) => {
                return Err(error);
            },
            Ok(()) => {},
        }
        push_section(&mut lines, "WORKTREE", output.stdout.as_slice());
        assert(first.len() == 0 ==> string_views(lines@) =~= section(
            "WORKTREE"@,
            output.stdout@,
        ));
    }
    if staged.is_none() && worktree.is_none() {
        let mut line = String::new();
        line.push_str("Git reports status ");
        let label = status.label();
        line.push_str(label.as_str());
        line.push_str(", but there is no text diff to display.");
        assert(line@ =~= "Git reports status "@ + status.label_text()
            + ", but there is no text diff to display."@);
        lines.push(line);
        assert(string_views(lines@) =~= seq![line@]);
    }
    Ok(lines)
}

// Untracked files -------------------------------------------------------------------------

pub const MAX_UNTRACKED_BYTES: u64 = 512 * 1024;

pub const MAX_UNTRACKED_LINES: usize = 2_000;

/// What a path that is not followed leads to.
#[derive(Clone, Copy, Debug, PartialEq, Eq, Structural)]
pub enum ContentPathKind {
    Regular,
    Directory,
    SymbolicLink,
    Special,
}

/// What is to be done with an untracked path.
#[derive(Clone, Copy, Debug, PartialEq, Eq, Structural)]
pub enum UntrackedStep {
    ReadLink,
    Decline,
    Open,
}

/// A link is read as a link, a regular file is opened, and nothing else is
/// touched. `same_path` says that the inspection ended at the path itself.
pub fn untracked_step(kind: ContentPathKind, same_path: bool) -> (step: UntrackedStep)
    ensures
        step == (if kind == ContentPathKind::SymbolicLink && same_path {
            UntrackedStep::ReadLink
        } else if kind == ContentPathKind::Regular && same_path {
            UntrackedStep::Open
        } else {
            UntrackedStep::Decline
        }),
{
    if kind == ContentPathKind::SymbolicLink && same_path {
        UntrackedStep::ReadLink
    } else if kind == ContentPathKind::Regular && same_path {
        UntrackedStep::Open
    } else {
        UntrackedStep::Decline
    }
}

fn one_line(before: &str, middle: &str, after: &str) -> (lines: Vec<String>)
    ensures
        string_views(lines@) == seq![before@ + middle@ + after@],
{
    let mut line = String::new();
    line.push_str(before);
    line.push_str(middle);
    line.push_str(after);
    assert(line@ =~= before@ + middle@ + after@);
    let mut lines: Vec<String> = Vec::new();
    lines.push(line);
    assert(string_views(lines@) =~= seq![before@ + middle@ + after@]);
    lines
}

/// The line for a path that is not read.
pub fn untracked_declined(label: &str) -> (lines: Vec<String>)
    ensures
        string_views(lines@) == seq!["Untracked "@ + label@ + " is not read for safety."@],
{
    one_line("Untracked ", label, " is not read for safety.")
}

/// The line for a path that turned into something else while it was opened.
pub fn untracked_changed(label: &str) -> (lines: Vec<String>)
    ensures
        string_views(lines@) == seq![
            "Untracked path changed to a "@ + label@ + "; no content was read."@,
        ],
{
    one_line("Untracked path changed to a ", label, "; no content was read.")
}

/// The line for a file whose length alone rules it out.
pub fn untracked_too_large(length: u64) -> (lines: Option<Vec<String>>)
    ensures
        lines is Some <==> length > MAX_UNTRACKED_BYTES,
        lines matches Some(found) ==> string_views(found@) == seq![
            "Untracked file is too large to preview ("@ + number_text(length as nat) + " bytes)."@,
        ],
{
    if length > MAX_UNTRACKED_BYTES {
        let mut number = String::new();
        push_number(&mut number, length);
        assert(number@ =~= number_text(length as nat));
        Some(one_line("Untracked file is too large to preview (", number.as_str(), " bytes)."))
    } else {
        None
    }
}

/// The header and the added lines of a new file, cut after `max_lines`.
pub open spec fn new_file_diff(
    path: Seq<u8>,
    mode: Seq<char>,
    content: Seq<char>,
    max_lines: int,
) -> Seq<Seq<char>> {
    let lines = text_lines(content);
    let shown = if lines.len() > max_lines {
        lines.subrange(0, max_lines)
    } else {
        lines
    };
    seq![
        "── UNTRACKED ──"@,
        "diff --git a/"@ + lossy(path) + " b/"@ + lossy(path),
        "new file mode "@ + mode,
        "--- /dev/null"@,
        "+++ b/"@ + lossy(path),
        "@@ -0,0 +1,"@ + number_text(lines.len()) + " @@"@,
    ] + Seq::new(shown.len(), |i: int| "+"@ + shown[i]) + (if lines.len() > max_lines {
        seq!["… preview truncated after "@ + number_text(max_lines as nat) + " lines"@]
    } else {
        Seq::empty()
    })
}

/// A new file as a diff.
pub fn new_file_lines(path: &[u8], mode: &str, content: &str, max_lines: usize) -> (lines: Vec<
    String,
>)
    ensures
        string_views(lines@) == new_file_diff(path@, mode@, content@, max_lines as int),
{
    let name = lossy_text(path);
    let added = lines_of(content);
    let total: usize = added.len();
    let mut lines: Vec<String> = Vec::new();
    lines.push(copy_text("── UNTRACKED ──"));
    let mut line = String::new();
    line.push_str("diff --git a/");
    line.push_str(name.as_str());
    line.push_str(" b/");
    line.push_str(name.as_str());
    assert(line@ =~= "diff --git a/"@ + lossy(path@) + " b/"@ + lossy(path@));
    lines.push(line);
    let mut line = String::new();
    line.push_str("new file mode ");
    line.push_str(mode);
    assert(line@ =~= "new file mode "@ + mode@);
    lines.push(line);
    lines.push(copy_text("--- /dev/null"));
    let mut line = String::new();
    line.push_str("+++ b/");
    line.push_str(name.as_str());
    assert(line@ =~= "+++ b/"@ + lossy(path@));
    lines.push(line);
    let mut line = String::new();
    line.push_str("@@ -0,0 +1,");
    push_number(&mut line, total as u64);
    line.push_str(" @@");
    assert(line@ =~= "@@ -0,0 +1,"@ + number_text(total as nat) + " @@"@);
    lines.push(line);
    let ghost header = string_views(lines@);
    let ghost all = text_lines(content@);
    assert(header.len() == 6);
    let ghost marked = Seq::new(all.len(), |i: int| "+"@ + all[i]);
    let mut index: usize = 0;
    assert(header + marked.subrange(0, 0) =~= header);
    while index < added.len() && index < max_lines
        invariant
            index <= added@.len(),
            index <= max_lines,
            string_views(added@) == all,
            marked == Seq::new(all.len(), |i: int| "+"@ + all[i]),
            string_views(lines@) == header + marked.subrange(0, index as int),
        decreases added@.len() - index,
    {
        let mut line = String::new();
        line.push_str("+");
        line.push_str(added[index].as_str());
        assert(string_views(added@)[index as int] == added@[index as int]@);
        assert(line@ =~= marked[index as int]);
        let ghost before = lines@;
        lines.push(line);
        assert(string_views(lines@) =~= string_views(before).push(line@));
        assert(marked.subrange(0, index + 1) =~= marked.subrange(0, index as int).push(
            marked[index as int],
        ));
        index = index + 1;
    }
    proof {
        let shown = if all.len() > max_lines {
            all.subrange(0, max_lines as int)
        } else {
            all
        };
        assert(marked.subrange(0, index as int) =~= Seq::new(
            shown.len(),
            |i: int| "+"@ + shown[i],
        ));
    }
    if total > max_lines {
        let mut line = String::new();
        line.push_str("… preview truncated after ");
        push_number(&mut line, max_lines as u64);
        line.push_str(" lines");
        assert(line@ =~= "… preview truncated after "@ + number_text(max_lines as nat)
            + " lines"@);
        let ghost before = lines@;
        lines.push(line);
        assert(string_views(lines@) =~= string_views(before).push(line@));
    }
    assert(string_views(lines@) =~= new_file_diff(path@, mode@, content@, max_lines as int));
    lines
}

/// An untracked link as a diff of its target. There is none if the link changed
/// while it was read.
pub fn untracked_symlink_diff(path: &[u8], target: Option<(&str, bool)>) -> (lines: Vec<String>)
    ensures
        string_views(lines@) == (match target {
            None => seq![
                "Untracked symbolic link changed while it was inspected; no content was read."@,
            ],
            Some((target, truncated)) => if truncated {
                seq![
                    "Untracked symbolic link target is too large to preview safely (over 524288 bytes)."@,
                ]
            } else {
                new_file_diff(path@, "120000"@, target@, MAX_UNTRACKED_LINES as int)
            },
        }),
{
    match target {
        None => {
            let mut lines: Vec<String> = Vec::new();
            lines.push(
                copy_text(
                    "Untracked symbolic link changed while it was inspected; no content was read.",
                ),
            );
            assert(string_views(lines@) =~= seq![lines@[0]@]);
            lines
        },
        Some((target, truncated)) => {
            if truncated {
                let mut lines: Vec<String> = Vec::new();
                lines.push(
                    copy_text(
                        "Untracked symbolic link target is too large to preview safely (over 524288 bytes).",
                    ),
                );
                assert(string_views(lines@) =~= seq![lines@[0]@]);
                return lines;
            }
            new_file_lines(path, "120000", target, MAX_UNTRACKED_LINES)
        },
    }
}

/// An untracked file as a diff of what was read of it: up to one byte more than
/// the largest size.
pub fn untracked_diff(path: &[u8], content: &[u8]) -> (lines: Vec<String>)
    ensures
        string_views(lines@) == (if content@.len() > MAX_UNTRACKED_BYTES {
            seq!["Untracked file is too large to preview (over 524288 bytes)."@]
        } else if content@.contains(0) {
            seq!["Untracked binary file."@]
        } else {
            new_file_diff(path@, "100644"@, lossy(content@), MAX_UNTRACKED_LINES as int)
        }),
{
    if content.len() as u64 > MAX_UNTRACKED_BYTES {
        let mut lines: Vec<String> = Vec::new();
        lines.push(copy_text("Untracked file is too large to preview (over 524288 bytes)."));
        assert(string_views(lines@) =~= seq![lines@[0]@]);
        return lines;
    }
    if holds_zero(content) {
        let mut lines: Vec<String> = Vec::new();
        lines.push(copy_text("Untracked binary file."));
        assert(string_views(lines@) =~= seq![lines@[0]@]);
        return lines;
    }
    let words = lossy_text(content);
    new_file_lines(path, "100644", words.as_str(), MAX_UNTRACKED_LINES)
}

/// A zero byte marks binary content.
pub fn holds_zero(content: &[u8]) -> (found: bool)
    ensures
        found == content@.contains(0),
{
    let mut index: usize = 0;
    while index < content.len()
        invariant
            index <= content@.len(),
            forall|i: int| 0 <= i < index ==> content@[i] != 0,
        decreases content@.len() - index,
    {
        if content[index] == 0 {
            assert(content@[index as int] == 0);
            return true;
        }
        index = index + 1;
    }
    false
}

// Showing changes -------------------------------------------------------------------------

/// The label of a status shows its letters in their order and leaves blanks out; it is
/// blank only where both are.
pub proof fn law_labels_show_the_letters(status: FileStatus)
    ensures
        status.index != ' ' && status.worktree != ' ' ==> status.label_text() == seq![
            status.index,
            status.worktree,
        ],
        status.index != ' ' && status.worktree == ' ' ==> status.label_text() == seq![status.index],
        status.index == ' ' ==> status.label_text() == seq![status.worktree],
{
}

/// A tracked change is shown by one command for each of its two halves in which something
/// happened. Nothing happened where the letter is blank, a question mark or an exclamation
/// mark, and only there. The command for the index asks for what is staged, and both end
/// with the paths behind the mark that no option follows.
pub proof fn law_each_half_of_a_change_has_its_command(
    plan: DiffPlan,
    path: Seq<u8>,
    original_path: Option<Seq<u8>>,
    status: FileStatus,
)
    requires
        is_diff_plan(plan, path, original_path, Some(status)),
    ensures
        plan is Untracked <==> status.index == '?' && status.worktree == '?',
        plan !is Lines,
        plan matches DiffPlan::Commands { staged, worktree } ==> {
            &&& staged is None <==> status.index == ' ' || status.index == '?' || status.index
                == '!'
            &&& worktree is None <==> status.worktree == ' ' || status.worktree == '?'
                || status.worktree == '!'
            &&& staged matches Some(arguments) ==> byte_views(arguments@) == (match original_path {
                None => seq![
                    text("diff"),
                    text("--no-ext-diff"),
                    text("--no-color"),
                    text("--unified=3"),
                    text("--cached"),
                    text("--"),
                    path,
                ],
                Some(original) => seq![
                    text("diff"),
                    text("--no-ext-diff"),
                    text("--no-color"),
                    text("--unified=3"),
                    text("--find-renames"),
                    text("--find-copies-harder"),
                    text("--cached"),
                    text("--"),
                    original,
                    path,
                ],
            })
            &&& worktree matches Some(arguments) ==> byte_views(arguments@) == (
            match original_path {
                None => seq![
                    text("diff"),
                    text("--no-ext-diff"),
                    text("--no-color"),
                    text("--unified=3"),
                    text("--"),
                    path,
                ],
                Some(original) => seq![
                    text("diff"),
                    text("--no-ext-diff"),
                    text("--no-color"),
                    text("--unified=3"),
                    text("--find-renames"),
                    text("--find-copies-harder"),
                    text("--"),
                    original,
                    path,
                ],
            })
        },
{
}

/// The status of a path is that of the last entry for it, and a path without an entry has
/// none.
#[verifier::spinoff_prover]
#[verifier::rlimit(60)]
pub proof fn law_the_last_status_counts(style: PathStyle, entries: Seq<EntryRecord>, path: Seq<u8>)
    ensures
        statuses_of(style, entries).dom().contains(parts(style, path)) <==> exists|i: int|
            0 <= i < entries.len() && same_path(style, (#[trigger] entries[i]).path, path),
        forall|i: int|
            0 <= i < entries.len() && same_path(style, (#[trigger] entries[i]).path, path) && (
            forall|j: int|
                i < j < entries.len() ==> !same_path(style, (#[trigger] entries[j]).path, path))
                ==> statuses_of(style, entries)[parts(style, path)] == entries[i].status,
    decreases entries.len(),
{
    if entries.len() > 0 {
        let fewer = entries.drop_last();
        let last = entries.len() - 1;
        law_the_last_status_counts(style, fewer, path);
        let found = statuses_of(style, entries);
        if same_path(style, entries[last].path, path) {
            assert(found.dom().contains(parts(style, path)));
        } else {
            if exists|i: int|
                0 <= i < entries.len() && same_path(style, (#[trigger] entries[i]).path, path) {
                let i = choose|i: int|
                    0 <= i < entries.len() && same_path(style, (#[trigger] entries[i]).path, path);
                assert(fewer[i] == entries[i]);
            }
            if exists|i: int|
                0 <= i < fewer.len() && same_path(style, (#[trigger] fewer[i]).path, path) {
                let i = choose|i: int|
                    0 <= i < fewer.len() && same_path(style, (#[trigger] fewer[i]).path, path);
                assert(entries[i] == fewer[i]);
            }
        }
        assert forall|i: int|
            0 <= i < entries.len() && same_path(style, (#[trigger] entries[i]).path, path) && (
            forall|j: int|
                i < j < entries.len() ==> !same_path(
                    style,
                    (#[trigger] entries[j]).path,
                    path,
                )) implies found[parts(style, path)] == entries[i].status by {
            if i < last {
                assert(!same_path(style, entries[last].path, path));
                assert(fewer[i] == entries[i]);
                assert forall|j: int| i < j < fewer.len() implies !same_path(
                    style,
                    (#[trigger] fewer[j]).path,
                    path,
                ) by {
                    assert(fewer[j] == entries[j]);
                }
            }
        }
    }
}

/// A path that was printed on a line of its own is read back byte for byte.
pub proof fn law_printed_paths_are_read_back(style: PathStyle, path: Seq<u8>)
    requires
        path.len() > 0,
    ensures
        style == PathStyle::Unix || path.last() != 13 ==> printed_path(style, path.push(10))
            == Some(path),
        style == PathStyle::Windows ==> printed_path(style, path.push(13).push(10)) == Some(path),
        path.last() != 10 ==> printed_path(style, path) == Some(path),
        printed_path(style, seq![10u8]) is None,
{
    assert(path.push(10).drop_last() =~= path);
    let line = path.push(13).push(10);
    assert(line.subrange(0, line.len() - 2) =~= path);
    assert(path.push(10)[path.len() - 1] == path.last());
    assert(seq![10u8].drop_last() =~= Seq::<u8>::empty());
}

/// A new file is shown whole: behind six lines of header each of its lines comes once, in
/// order and marked as added, until the limit is reached, which is then told.
pub proof fn law_new_files_are_shown_line_by_line(
    path: Seq<u8>,
    mode: Seq<char>,
    content: Seq<char>,
    max_lines: int,
)
    requires
        max_lines >= 0,
    ensures
        ({
            let lines = text_lines(content);
            let shown = new_file_diff(path, mode, content, max_lines);
            &&& shown.len() == 6 + (if lines.len() > max_lines {
                max_lines + 1
            } else {
                lines.len() as int
            })
            &&& forall|i: int|
                0 <= i < lines.len() && i < max_lines ==> (#[trigger] shown[6 + i]).len() == 1
                    + lines[i].len() && shown[6 + i][0] == '+' && shown[6 + i].skip(1) == lines[i]
        }),
{
    reveal_strlit("+");
    let lines = text_lines(content);
    let shown = new_file_diff(path, mode, content, max_lines);
    assert forall|i: int| 0 <= i < lines.len() && i < max_lines implies (
    #[trigger] shown[6 + i]).len() == 1 + lines[i].len() && shown[6 + i][0] == '+' && shown[6
        + i].skip(1) == lines[i] by {
        assert(shown[6 + i] == "+"@ + lines[i]);
        assert(shown[6 + i].skip(1) =~= lines[i]);
    }
}

// What commands are made of ---------------------------------------------------------------

/// Of a record of the configuration the value counts, which stands behind the first line
/// feed; one without a value is passed over.
pub proof fn law_configured_paths_are_read_back(
    records: Seq<Seq<u8>>,
    key: Seq<u8>,
    path: Seq<u8>,
)
    requires
        !key.contains(10),
    ensures
        config_paths(Seq::empty()).len() == 0,
        path.len() > 0 ==> config_paths(records.push(key + seq![10u8] + path)) == config_paths(
            records,
        ).push(path),
        config_paths(records.push(key + seq![10u8])) == config_paths(records),
        config_paths(records.push(key)) == config_paths(records),
{
    let feed = seq![10u8];
    let whole = key + feed + path;
    let bare = key + feed;
    assert(records.push(whole).drop_last() =~= records);
    assert(records.push(bare).drop_last() =~= records);
    assert(records.push(key).drop_last() =~= records);
    let at = key.len() as int;
    assert(whole.subrange(at, at + 1) =~= feed);
    assert(bare.subrange(at, at + 1) =~= feed);
    assert forall|k: int| 0 <= k < at implies !#[trigger] occurs_at(whole, feed, k) by {
        if occurs_at(whole, feed, k) {
            assert(whole.subrange(k, k + 1)[0] == key[k]);
            assert(key.contains(key[k]));
        }
    }
    assert forall|k: int| 0 <= k < at implies !#[trigger] occurs_at(bare, feed, k) by {
        if occurs_at(bare, feed, k) {
            assert(bare.subrange(k, k + 1)[0] == key[k]);
            assert(key.contains(key[k]));
        }
    }
    crate::bytes::lemma_first_is_found(whole, feed, at);
    crate::bytes::lemma_first_is_found(bare, feed, at);
    crate::bytes::lemma_find_from_is_first(key, feed, 0);
    if find(key, feed) is Some {
        let k = find(key, feed)->0;
        assert(key.subrange(k, k + 1)[0] == key[k]);
        assert(key.contains(key[k]));
    }
    assert(whole.subrange(at + 1, whole.len() as int) =~= path);
}

/// A diff is asked for without colours or outside programs and with three lines around each
/// change, of the index or of the worktree; renames are looked for where a file was renamed,
/// and the paths stand behind the mark that ends the options.
pub proof fn law_diffs_are_asked_for_by_path(path: Seq<u8>, original: Seq<u8>)
    ensures
        diff_arguments(false, path, None) == seq![
            text("diff"),
            text("--no-ext-diff"),
            text("--no-color"),
            text("--unified=3"),
            text("--"),
            path,
        ],
        diff_arguments(true, path, None) == seq![
            text("diff"),
            text("--no-ext-diff"),
            text("--no-color"),
            text("--unified=3"),
            text("--cached"),
            text("--"),
            path,
        ],
        diff_arguments(false, path, Some(original)) == seq![
            text("diff"),
            text("--no-ext-diff"),
            text("--no-color"),
            text("--unified=3"),
            text("--find-renames"),
            text("--find-copies-harder"),
            text("--"),
            original,
            path,
        ],
        diff_arguments(true, path, Some(original)) == seq![
            text("diff"),
            text("--no-ext-diff"),
            text("--no-color"),
            text("--unified=3"),
            text("--find-renames"),
            text("--find-copies-harder"),
            text("--cached"),
            text("--"),
            original,
            path,
        ],
{
}

/// What is staged is shown first, then what is not, each under its title and with an empty
/// line between.
pub proof fn law_staged_changes_are_shown_first(staged: Seq<u8>, worktree: Seq<u8>)
    ensures
        all_sections(None, None).len() == 0,
        all_sections(Some(staged), None) == seq!["── STAGED ──"@] + text_lines(lossy(staged)),
        all_sections(None, Some(worktree)) == seq!["── WORKTREE ──"@] + text_lines(lossy(worktree)),
        all_sections(Some(staged), Some(worktree)) == seq!["── STAGED ──"@] + text_lines(
            lossy(staged),
        ) + seq![Seq::<char>::empty(), "── WORKTREE ──"@] + text_lines(lossy(worktree)),
{
    reveal_strlit("── ");
    reveal_strlit(" ──");
    reveal_strlit("STAGED");
    reveal_strlit("WORKTREE");
    reveal_strlit("── STAGED ──");
    reveal_strlit("── WORKTREE ──");
    assert("── "@ + "STAGED"@ + " ──"@ =~= "── STAGED ──"@);
    assert("── "@ + "WORKTREE"@ + " ──"@ =~= "── WORKTREE ──"@);
    let front = seq!["── STAGED ──"@] + text_lines(lossy(staged));
    let back = text_lines(lossy(worktree));
    assert(front + seq![Seq::<char>::empty()] + (seq!["── WORKTREE ──"@] + back) =~= front + seq![
        Seq::<char>::empty(),
        "── WORKTREE ──"@,
    ] + back);
}

} // verus!
