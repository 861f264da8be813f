//! Command lines and paths of Windows, as UTF-16 code units and as bytes.

use crate::bytes::{
    bytes_equal, lower_byte, lowercase, lowercase_bytes, to_vec, views,
};
use crate::paths::{
    join_path, joined, lies_under, names_wander, path_lies_under, wanders, PathStyle,
};
use crate::text::{copy_text, number_text, push_number};
use vstd::prelude::*;
use vstd::slice::slice_subrange;

verus! {

/// The longest string that a process can be handed, with the zero at its end.
pub const MAX_PROCESS_UNITS: usize = 32_767;

pub const QUOTE: u16 = 34;

pub const BACKSLASH: u16 = 92;

pub const SPACE: u16 = 32;

#[derive(Clone, Copy, Debug, PartialEq, Eq, Structural)]
pub enum ProcessStringError {
    StringHoldsZero,
    StringTooLong,
    ArgumentHoldsZero,
    CommandTooLong,
}

impl ProcessStringError {
    pub fn message(&self) -> (text: &'static str)
        ensures
            text@ == (match self {
                ProcessStringError::StringHoldsZero => "Windows process string contains NUL"@,
                ProcessStringError::StringTooLong =>
                    "Windows process string exceeds 32,767 UTF-16 units"@,
                ProcessStringError::ArgumentHoldsZero => "Windows process argument contains NUL"@,
                ProcessStringError::CommandTooLong =>
                    "Windows command line exceeds 32,767 UTF-16 units"@,
            }),
    {
        match self {
            ProcessStringError::StringHoldsZero => "Windows process string contains NUL",
            ProcessStringError::StringTooLong =>
                "Windows process string exceeds 32,767 UTF-16 units",
            ProcessStringError::ArgumentHoldsZero => "Windows process argument contains NUL",
            ProcessStringError::CommandTooLong =>
                "Windows command line exceeds 32,767 UTF-16 units",
        }
    }
}

fn holds_zero_unit(units: &[u16]) -> (found: bool)
    ensures
        found == units@.contains(0),
{
    let mut index: usize = 0;
    while index < units.len()
        invariant
            index <= units@.len(),
            forall|i: int| 0 <= i < index ==> #[trigger] units@[i] != 0,
        decreases units@.len() - index,
    {
        if units[index] == 0 {
            assert(units@.contains(units@[index as int]));
            return true;
        }
        index = index + 1;
    }
    false
}

fn append_units(target: &mut Vec<u16>, more: &[u16])
    ensures
        final(target)@ == old(target)@ + more@,
{
    let ghost before = target@;
    let mut index: usize = 0;
    assert(target@ =~= before + more@.subrange(0, 0));
    while index < more.len()
        invariant
            index <= more@.len(),
            target@ == before + more@.subrange(0, index as int),
        decreases more@.len() - index,
    {
        target.push(more[index]);
        assert(target@ =~= before + more@.subrange(0, index + 1));
        index = index + 1;
    }
    assert(more@.subrange(0, more@.len() as int) =~= more@);
}

/// A string with a zero behind it.
pub fn wide_nul(value: &[u16]) -> (result: Result<Vec<u16>, ProcessStringError>)
    ensures
        match result {
            Ok(units) => {
                &&& !value@.contains(0)
                &&& value@.len() + 1 <= MAX_PROCESS_UNITS
                &&& units@ == value@.push(0)
            },
            Err(ProcessStringError::StringHoldsZero) => value@.contains(0),
            Err(ProcessStringError::StringTooLong) => !value@.contains(0) && value@.len() + 1
                > MAX_PROCESS_UNITS,
            Err(_) => false,
        },
{
    if holds_zero_unit(value) {
        return Err(ProcessStringError::StringHoldsZero);
    }
    let mut units: Vec<u16> = Vec::new();
    append_units(&mut units, value);
    units.push(0);
    assert(units@ =~= value@.push(0));
    if units.len() > MAX_PROCESS_UNITS {
        return Err(ProcessStringError::StringTooLong);
    }
    Ok(units)
}

/// As many backslashes.
pub open spec fn backslashes(count: nat) -> Seq<u16> {
    Seq::new(count, |i: int| BACKSLASH)
}

/// What stands between the quotes for an argument. Backslashes count double
/// before a quote.
pub open spec fn quoted_body(units: Seq<u16>, from: int, pending: nat) -> Seq<u16>
    decreases units.len() - from,
{
    if from < 0 || from >= units.len() {
        backslashes(pending * 2)
    } else if units[from] == BACKSLASH {
        quoted_body(units, from + 1, pending + 1)
    } else if units[from] == QUOTE {
        backslashes(pending * 2 + 1) + seq![QUOTE] + quoted_body(units, from + 1, 0)
    } else {
        backslashes(pending) + seq![units[from]] + quoted_body(units, from + 1, 0)
    }
}

pub open spec fn quoted(units: Seq<u16>) -> Seq<u16> {
    seq![QUOTE] + quoted_body(units, 0, 0) + seq![QUOTE]
}

fn push_backslashes(target: &mut Vec<u16>, count: usize)
    ensures
        final(target)@ == old(target)@ + backslashes(count as nat),
{
    let ghost before = target@;
    let mut index: usize = 0;
    assert(target@ =~= before + backslashes(0));
    while index < count
        invariant
            index <= count,
            target@ == before + backslashes(index as nat),
        decreases count - index,
    {
        target.push(BACKSLASH);
        assert(target@ =~= before + backslashes((index + 1) as nat));
        index = index + 1;
    }
}

fn push_doubled(target: &mut Vec<u16>, count: usize)
    ensures
        final(target)@ == old(target)@ + backslashes((count * 2) as nat),
{
    let ghost before = target@;
    push_backslashes(target, count);
    push_backslashes(target, count);
    assert(target@ =~= before + backslashes((count * 2) as nat));
}

fn quote_argument(units: &[u16], output: &mut Vec<u16>) -> (result: Result<(), ProcessStringError>)
    ensures
        match result {
            Ok(()) => !units@.contains(0) && final(output)@ == old(output)@ + quoted(units@),
            Err(error) => units@.contains(0) && error == ProcessStringError::ArgumentHoldsZero,
        },
{
    if holds_zero_unit(units) {
        return Err(ProcessStringError::ArgumentHoldsZero);
    }
    let ghost before = output@;
    output.push(QUOTE);
    let mut pending: usize = 0;
    let mut index: usize = 0;
    let ghost whole = before + seq![QUOTE] + quoted_body(units@, 0, 0);
    assert(output@ + quoted_body(units@, 0, 0) =~= whole);
    while index < units.len()
        invariant
            index <= units@.len(),
            pending <= index,
            output@ + quoted_body(units@, index as int, pending as nat) == whole,
        decreases units@.len() - index,
    {
        let unit = units[index];
        let ghost shown = output@;
        if unit == BACKSLASH {
            pending = pending + 1;
        } else if unit == QUOTE {
            push_doubled(output, pending);
            output.push(BACKSLASH);
            output.push(unit);
            proof {
                let rest = quoted_body(units@, index + 1, 0);
                assert(output@ + rest =~= shown + (backslashes((pending * 2 + 1) as nat)
                    + seq![QUOTE] + rest));
            }
            pending = 0;
        } else {
            push_backslashes(output, pending);
            output.push(unit);
            proof {
                let rest = quoted_body(units@, index + 1, 0);
                assert(output@ + rest =~= shown + (backslashes(pending as nat) + seq![unit]
                    + rest));
            }
            pending = 0;
        }
        index = index + 1;
    }
    push_doubled(output, pending);
    output.push(QUOTE);
    assert(output@ =~= before + quoted(units@));
    Ok(())
}

/// The views of a vector of strings of units.
pub open spec fn unit_views(strings: Seq<Vec<u16>>) -> Seq<Seq<u16>> {
    Seq::new(strings.len(), |i: int| strings[i]@)
}

/// Quoted strings with spaces between them.
pub open spec fn spaced(arguments: Seq<Seq<u16>>) -> Seq<u16>
    decreases arguments.len(),
{
    if arguments.len() == 0 {
        Seq::empty()
    } else if arguments.len() == 1 {
        quoted(arguments[0])
    } else {
        spaced(arguments.drop_last()) + seq![SPACE] + quoted(arguments.last())
    }
}

/// The command line of a program and its arguments.
pub open spec fn command_line(program: Seq<u16>, args: Seq<Seq<u16>>) -> Seq<u16> {
    spaced(seq![program] + args).push(0)
}

pub open spec fn some_zero(arguments: Seq<Seq<u16>>) -> bool {
    exists|i: int| 0 <= i < arguments.len() && (#[trigger] arguments[i]).contains(0)
}

pub fn quote_command_line(program: &[u16], args: &Vec<Vec<u16>>) -> (result: Result<
    Vec<u16>,
    ProcessStringError,
>)
    ensures
        match result {
            Ok(command) => {
                &&& !some_zero(seq![program@] + unit_views(args@))
                &&& command@ == command_line(program@, unit_views(args@))
                &&& command@.len() <= MAX_PROCESS_UNITS
            },
            Err(ProcessStringError::ArgumentHoldsZero) => some_zero(
                seq![program@] + unit_views(args@),
            ),
            Err(ProcessStringError::CommandTooLong) => {
                &&& !some_zero(seq![program@] + unit_views(args@))
                &&& command_line(program@, unit_views(args@)).len() > MAX_PROCESS_UNITS
            },
            Err(_) => false,
        },
{
    let ghost all = seq![program@] + unit_views(args@);
    let mut command: Vec<u16> = Vec::new();
    if let Err(error) = quote_argument(program, &mut command) {
        assert(all[0] == program@);
        return Err(error);
    }
    assert(all.subrange(0, 1) =~= seq![program@]);
    assert(command@ =~= spaced(all.subrange(0, 1)));
    let mut index: usize = 0;
    while index < args.len()
        invariant
            index <= args@.len(),
            all == seq![program@] + unit_views(args@),
            command@ == spaced(all.subrange(0, index + 1)),
            forall|i: int| 0 <= i < index + 1 ==> !(#[trigger] all[i]).contains(0),
        decreases args@.len() - index,
    {
        let ghost before = command@;
        command.push(SPACE);
        assert(all[index + 1] == args@[index as int]@);
        if let Err(error) = quote_argument(args[index].as_slice(), &mut command) {
            return Err(error);
        }
        proof {
            let longer = all.subrange(0, index + 2);
            assert(longer.drop_last() =~= all.subrange(0, index + 1));
            assert(longer.last() == all[index + 1]);
            assert(command@ =~= before + seq![SPACE] + quoted(all[index + 1]));
        }
        index = index + 1;
    }
    assert(all.subrange(0, all.len() as int) =~= all);
    command.push(0);
    if command.len() > MAX_PROCESS_UNITS {
        return Err(ProcessStringError::CommandTooLong);
    }
    Ok(command)
}

/// How a program reads a quoted argument: backslashes stand for themselves
/// unless a quote follows them; then each pair is one, and an odd one makes the
/// quote a part of the argument. The argument and what follows its closing quote.
pub open spec fn unquoted(s: Seq<u16>, pending: nat) -> Option<(Seq<u16>, Seq<u16>)>
    decreases s.len(),
{
    if s.len() == 0 {
        None
    } else if s[0] == BACKSLASH {
        unquoted(s.drop_first(), pending + 1)
    } else if s[0] == QUOTE && pending % 2 == 0 {
        Some((backslashes(pending / 2), s.drop_first()))
    } else {
        let front = if s[0] == QUOTE {
            backslashes(pending / 2) + seq![QUOTE]
        } else {
            backslashes(pending) + seq![s[0]]
        };
        match unquoted(s.drop_first(), 0) {
            None => None,
            Some((rest, tail)) => Some((front + rest, tail)),
        }
    }
}

proof fn lemma_backslashes_read(count: nat, s: Seq<u16>, pending: nat)
    ensures
        unquoted(backslashes(count) + s, pending) == unquoted(s, pending + count),
    decreases count,
{
    if count == 0 {
        assert(backslashes(0) + s =~= s);
    } else {
        let all = backslashes(count) + s;
        assert(all[0] == BACKSLASH);
        assert(all.drop_first() =~= backslashes((count - 1) as nat) + s);
        lemma_backslashes_read((count - 1) as nat, s, pending + 1);
    }
}

proof fn lemma_body_read(units: Seq<u16>, from: int, pending: nat, tail: Seq<u16>)
    requires
        0 <= from <= units.len(),
    ensures
        unquoted(quoted_body(units, from, pending) + seq![QUOTE] + tail, 0) == Some(
            (backslashes(pending) + units.subrange(from, units.len() as int), tail),
        ),
    decreases units.len() - from,
{
    let rest = units.subrange(from, units.len() as int);
    if from == units.len() {
        let end = seq![QUOTE] + tail;
        assert(quoted_body(units, from, pending) + seq![QUOTE] + tail =~= backslashes(pending * 2)
            + end);
        lemma_backslashes_read(pending * 2, end, 0);
        assert(end.drop_first() =~= tail);
        assert((pending * 2) / 2 == pending && (pending * 2) % 2 == 0);
        assert(backslashes(pending) + rest =~= backslashes(pending));
    } else if units[from] == BACKSLASH {
        lemma_body_read(units, from + 1, pending + 1, tail);
        assert(backslashes(pending + 1) + units.subrange(from + 1, units.len() as int)
            =~= backslashes(pending) + rest);
    } else {
        let unit = units[from];
        let body = quoted_body(units, from + 1, 0);
        let end = seq![unit] + (body + seq![QUOTE] + tail);
        lemma_body_read(units, from + 1, 0, tail);
        assert(end.drop_first() =~= body + seq![QUOTE] + tail);
        let later = units.subrange(from + 1, units.len() as int);
        assert(backslashes(0) + later =~= later);
        if unit == QUOTE {
            assert(quoted_body(units, from, pending) + seq![QUOTE] + tail =~= backslashes(
                pending * 2 + 1,
            ) + end);
            lemma_backslashes_read(pending * 2 + 1, end, 0);
            assert((pending * 2 + 1) / 2 == pending && (pending * 2 + 1) % 2 == 1);
            assert((backslashes(pending) + seq![QUOTE]) + later =~= backslashes(pending) + rest);
        } else {
            assert(quoted_body(units, from, pending) + seq![QUOTE] + tail =~= backslashes(pending)
                + end);
            lemma_backslashes_read(pending, end, 0);
            assert((backslashes(pending) + seq![unit]) + later =~= backslashes(pending) + rest);
        }
    }
}

/// A program that reads a quoted argument gets the argument, whatever follows it.
pub proof fn law_quoting_is_undone_by_reading(units: Seq<u16>, tail: Seq<u16>)
    ensures
        (quoted(units) + tail).len() > 0,
        (quoted(units) + tail)[0] == QUOTE,
        unquoted((quoted(units) + tail).drop_first(), 0) == Some((units, tail)),
{
    let all = quoted(units) + tail;
    assert(all.drop_first() =~= quoted_body(units, 0, 0) + seq![QUOTE] + tail);
    lemma_body_read(units, 0, 0, tail);
    assert(units.subrange(0, units.len() as int) =~= units);
    assert(backslashes(0) + units =~= units);
}

// Paths -----------------------------------------------------------------------------------

/// What a path begins with. The letter of a drive is held as a small one.
#[derive(Debug)]
pub enum WindowsPrefix {
    Absent,
    Disk(u8),
    VerbatimDisk(u8),
    Unc(Vec<u8>, Vec<u8>),
    VerbatimUnc(Vec<u8>, Vec<u8>),
    Verbatim(Vec<u8>),
    Device(Vec<u8>),
}

pub enum PrefixRecord {
    Absent,
    Disk(u8),
    VerbatimDisk(u8),
    Unc(Seq<u8>, Seq<u8>),
    VerbatimUnc(Seq<u8>, Seq<u8>),
    Verbatim(Seq<u8>),
    Device(Seq<u8>),
}

impl View for WindowsPrefix {
    type V = PrefixRecord;

    open spec fn view(&self) -> PrefixRecord {
        match self {
            WindowsPrefix::Absent => PrefixRecord::Absent,
            WindowsPrefix::Disk(letter) => PrefixRecord::Disk(*letter),
            WindowsPrefix::VerbatimDisk(letter) => PrefixRecord::VerbatimDisk(*letter),
            WindowsPrefix::Unc(server, share) => PrefixRecord::Unc(server@, share@),
            WindowsPrefix::VerbatimUnc(server, share) => PrefixRecord::VerbatimUnc(server@, share@),
            WindowsPrefix::Verbatim(name) => PrefixRecord::Verbatim(name@),
            WindowsPrefix::Device(name) => PrefixRecord::Device(name@),
        }
    }
}

/// Verbatim paths are separated by backslashes only.
pub open spec fn separates(byte: u8, verbatim: bool) -> bool {
    byte == 92 || (byte == 47 && !verbatim)
}

pub(crate) fn is_separator(byte: u8, verbatim: bool) -> (yes: bool)
    ensures
        yes == separates(byte, verbatim),
{
    byte == 92 || (byte == 47 && !verbatim)
}

/// Where the piece that starts at `from` ends.
pub open spec fn piece_end(path: Seq<u8>, from: int, verbatim: bool) -> int
    decreases path.len() - from,
{
    if 0 <= from < path.len() && !separates(path[from], verbatim) {
        piece_end(path, from + 1, verbatim)
    } else {
        from
    }
}

pub proof fn lemma_piece_end(path: Seq<u8>, from: int, verbatim: bool)
    requires
        0 <= from <= path.len(),
    ensures
        from <= piece_end(path, from, verbatim) <= path.len(),
    decreases path.len() - from,
{
    if from < path.len() && !separates(path[from], verbatim) {
        lemma_piece_end(path, from + 1, verbatim);
    }
}

fn end_of_piece(path: &[u8], from: usize, verbatim: bool) -> (end: usize)
    requires
        from <= path@.len(),
    ensures
        end == piece_end(path@, from as int, verbatim),
        from <= end <= path@.len(),
{
    let mut end: usize = from;
    while end < path.len() && !is_separator(path[end], verbatim)
        invariant
            from <= end <= path@.len(),
            piece_end(path@, from as int, verbatim) == piece_end(path@, end as int, verbatim),
        decreases path@.len() - end,
    {
        end = end + 1;
    }
    end
}

pub open spec fn is_letter(byte: u8) -> bool {
    65 <= byte <= 90 || 97 <= byte <= 122
}

/// A drive letter and a colon at this place.
pub open spec fn is_drive(path: Seq<u8>, at: int) -> bool {
    at + 2 <= path.len() && is_letter(path[at]) && path[at + 1] == 58
}

/// The place behind a separator, if there is one.
pub open spec fn step_over(path: Seq<u8>, at: int) -> int {
    if at < path.len() {
        at + 1
    } else {
        at
    }
}

/// The path begins with two separators, a mark and another one.
pub open spec fn is_marked(path: Seq<u8>, mark: u8) -> bool {
    &&& path.len() >= 4
    &&& separates(path[0], false)
    &&& separates(path[1], false)
    &&& path[2] == mark
    &&& separates(path[3], false)
}

/// A slash among the first bytes takes a path its verbatim meaning.
pub open spec fn slash_in_front(path: Seq<u8>) -> bool {
    exists|i: int| 0 <= i < path.len() && i < 8 && #[trigger] path[i] == 47
}

fn has_slash_in_front(path: &[u8]) -> (yes: bool)
    ensures
        yes == slash_in_front(path@),
{
    let mut index: usize = 0;
    while index < path.len() && index < 8
        invariant
            index <= path@.len(),
            forall|i: int| 0 <= i < index ==> #[trigger] path@[i] != 47,
        decreases path@.len() - index,
    {
        if path[index] == 47 {
            return true;
        }
        index = index + 1;
    }
    false
}

/// The server and the share that are named from a place on, and where they end.
pub open spec fn share_at(path: Seq<u8>, from: int, verbatim: bool) -> (Seq<u8>, Seq<u8>, int) {
    let server_end = piece_end(path, from, verbatim);
    let share_start = step_over(path, server_end);
    let share_end = piece_end(path, share_start, verbatim);
    (
        path.subrange(from, server_end),
        path.subrange(share_start, share_end),
        if share_end > share_start {
            share_end
        } else {
            server_end
        },
    )
}

fn read_share(path: &[u8], from: usize, verbatim: bool) -> (result: (Vec<u8>, Vec<u8>, usize))
    requires
        from <= path@.len(),
    ensures
        (result.0@, result.1@, result.2 as int) == share_at(path@, from as int, verbatim),
        from <= result.2 <= path@.len(),
{
    let server_end: usize = end_of_piece(path, from, verbatim);
    let share_start: usize = if server_end < path.len() {
        server_end + 1
    } else {
        server_end
    };
    let share_end: usize = end_of_piece(path, share_start, verbatim);
    (
        to_vec(slice_subrange(path, from, server_end)),
        to_vec(slice_subrange(path, share_start, share_end)),
        if share_end > share_start {
            share_end
        } else {
            server_end
        },
    )
}

/// The prefix of a path and the place behind it.
pub open spec fn prefix_of(path: Seq<u8>) -> (PrefixRecord, int) {
    if is_marked(path, 63) && !slash_in_front(path) {
        if path.len() >= 8 && path.subrange(4, 8) == seq![85u8, 78, 67, 92] {
            let (server, share, end) = share_at(path, 8, true);
            (PrefixRecord::VerbatimUnc(server, share), end)
        } else if is_drive(path, 4) && (path.len() == 6 || path[6] == 92) {
            (PrefixRecord::VerbatimDisk(crate::bytes::lower(path[4])), 6)
        } else {
            let end = piece_end(path, 4, true);
            (PrefixRecord::Verbatim(path.subrange(4, end)), end)
        }
    } else if is_marked(path, 46) {
        let end = piece_end(path, 4, false);
        (PrefixRecord::Device(path.subrange(4, end)), end)
    } else if path.len() >= 2 && separates(path[0], false) && separates(path[1], false) {
        let (server, share, end) = share_at(path, 2, false);
        if server.len() > 0 && share.len() > 0 {
            (PrefixRecord::Unc(server, share), end)
        } else {
            (PrefixRecord::Absent, 0)
        }
    } else if is_drive(path, 0) {
        (PrefixRecord::Disk(crate::bytes::lower(path[0])), 2)
    } else {
        (PrefixRecord::Absent, 0)
    }
}

pub open spec fn is_verbatim(prefix: PrefixRecord) -> bool {
    prefix is VerbatimDisk || prefix is VerbatimUnc || prefix is Verbatim
}

impl WindowsPrefix {
    pub(crate) fn verbatim(&self) -> (yes: bool)
        ensures
            yes == is_verbatim(self@),
    {
        match self {
            WindowsPrefix::VerbatimDisk(_) => true,
            WindowsPrefix::VerbatimUnc(_, _) => true,
            WindowsPrefix::Verbatim(_) => true,
            _ => false,
        }
    }
}

fn letter(byte: u8) -> (yes: bool)
    ensures
        yes == is_letter(byte),
{
    (65 <= byte && byte <= 90) || (97 <= byte && byte <= 122)
}

fn marked(path: &[u8], mark: u8) -> (yes: bool)
    ensures
        yes == is_marked(path@, mark),
{
    path.len() >= 4 && is_separator(path[0], false) && is_separator(path[1], false) && path[2]
        == mark && is_separator(path[3], false)
}

pub(crate) fn read_prefix(path: &[u8]) -> (result: (WindowsPrefix, usize))
    ensures
        result.0@ == prefix_of(path@).0,
        result.1 == prefix_of(path@).1,
        result.1 <= path@.len(),
{
    if marked(path, 63) && !has_slash_in_front(path) {
        if path.len() >= 8 && path[4] == 85 && path[5] == 78 && path[6] == 67 && path[7] == 92 {
            assert(path@.subrange(4, 8) =~= seq![85u8, 78, 67, 92]);
            let (server, share, end) = read_share(path, 8, true);
            (WindowsPrefix::VerbatimUnc(server, share), end)
        } else {
            proof {
                if path@.len() >= 8 && path@.subrange(4, 8) == seq![85u8, 78, 67, 92] {
                    assert(path@.subrange(4, 8)[0] == path@[4]);
                    assert(path@.subrange(4, 8)[1] == path@[5]);
                    assert(path@.subrange(4, 8)[2] == path@[6]);
                    assert(path@.subrange(4, 8)[3] == path@[7]);
                }
            }
            if path.len() >= 6 && letter(path[4]) && path[5] == 58 && (path.len() == 6 || path[6]
                == 92) {
                (WindowsPrefix::VerbatimDisk(lower_byte(path[4])), 6)
            } else {
                let end: usize = end_of_piece(path, 4, true);
                (WindowsPrefix::Verbatim(to_vec(slice_subrange(path, 4, end))), end)
            }
        }
    } else if marked(path, 46) {
        let end: usize = end_of_piece(path, 4, false);
        (WindowsPrefix::Device(to_vec(slice_subrange(path, 4, end))), end)
    } else if path.len() >= 2 && is_separator(path[0], false) && is_separator(path[1], false) {
        let (server, share, end) = read_share(path, 2, false);
        if server.len() > 0 && share.len() > 0 {
            (WindowsPrefix::Unc(server, share), end)
        } else {
            (WindowsPrefix::Absent, 0)
        }
    } else if path.len() >= 2 && letter(path[0]) && path[1] == 58 {
        (WindowsPrefix::Disk(lower_byte(path[0])), 2)
    } else {
        (WindowsPrefix::Absent, 0)
    }
}

/// The pieces between separators from `from` on: names, and the marks of the parent. A
/// single dot counts in verbatim paths only.
pub open spec fn pieces_from(path: Seq<u8>, from: int, verbatim: bool) -> Seq<Seq<u8>>
    decreases path.len() - from,
{
    if from < 0 || from >= path.len() {
        Seq::empty()
    } else if separates(path[from], verbatim) {
        pieces_from(path, from + 1, verbatim)
    } else {
        let end = piece_end(path, from, verbatim);
        proof {
            lemma_piece_end(path, from + 1, verbatim);
        }
        let piece = path.subrange(from, end);
        let rest = pieces_from(path, end, verbatim);
        if piece == seq![46u8] && !verbatim {
            rest
        } else {
            seq![piece] + rest
        }
    }
}

/// The pieces of a path behind its prefix.
pub open spec fn windows_pieces(path: Seq<u8>) -> Seq<Seq<u8>> {
    let (prefix, end) = prefix_of(path);
    pieces_from(path, end, is_verbatim(prefix))
}

/// A path from the root of a volume.
pub struct AbsoluteRecord {
    pub prefix: PrefixRecord,
    pub names: Seq<Seq<u8>>,
}

#[derive(Clone, Copy, Debug, PartialEq, Eq, Structural)]
pub enum WindowsTargetError {
    UnsupportedPrefix,
    NotAbsolute,
    NotNormal,
    Outside,
}

impl WindowsTargetError {
    pub fn message(&self) -> (text: &'static str)
        ensures
            text@ == (match self {
                WindowsTargetError::UnsupportedPrefix =>
                    "navigation target uses an unsupported Windows path prefix"@,
                WindowsTargetError::NotAbsolute =>
                    "navigation target is not an absolute Windows path"@,
                WindowsTargetError::NotNormal =>
                    "navigation target contains a non-normal Windows path component"@,
                WindowsTargetError::Outside => "navigation target is outside the opened workspace"@,
            }),
    {
        match self {
            WindowsTargetError::UnsupportedPrefix =>
                "navigation target uses an unsupported Windows path prefix",
            WindowsTargetError::NotAbsolute => "navigation target is not an absolute Windows path",
            WindowsTargetError::NotNormal =>
                "navigation target contains a non-normal Windows path component",
            WindowsTargetError::Outside => "navigation target is outside the opened workspace",
        }
    }
}

/// A separator follows the prefix.
pub open spec fn root_follows(path: Seq<u8>) -> bool {
    let end = prefix_of(path).1;
    end < path.len() && separates(path[end], false)
}

/// The root of a volume follows the prefix. A share or a device has one even if none is
/// written.
pub open spec fn is_rooted(path: Seq<u8>) -> bool {
    let prefix = prefix_of(path).0;
    prefix is Unc || prefix is Device || root_follows(path)
}

/// The path says all by itself where it leads: its volume, and that it begins at the
/// root. Only a drive has to be followed by one.
pub open spec fn is_windows_absolute(path: Seq<u8>) -> bool {
    match prefix_of(path).0 {
        PrefixRecord::Absent => false,
        PrefixRecord::Disk(_) => root_follows(path),
        _ => true,
    }
}

/// The volume and the names of an absolute path.
pub open spec fn absolute_parts(path: Seq<u8>) -> Result<AbsoluteRecord, WindowsTargetError> {
    let prefix = prefix_of(path).0;
    if prefix is Absent {
        Err(WindowsTargetError::NotAbsolute)
    } else if prefix is Verbatim || prefix is Device {
        Err(WindowsTargetError::UnsupportedPrefix)
    } else if !is_rooted(path) {
        Err(WindowsTargetError::NotAbsolute)
    } else if wanders(windows_pieces(path)) {
        Err(WindowsTargetError::NotNormal)
    } else {
        Ok(AbsoluteRecord { prefix, names: windows_pieces(path) })
    }
}

/// The prefixes name the same volume, however they are written.
pub open spec fn same_volume(left: PrefixRecord, right: PrefixRecord) -> bool {
    match volume_of(left) {
        Volume::Disk(letter) => volume_of(right) == Volume::Disk(letter),
        Volume::Share(server, share) => volume_of(right) == Volume::Share(server, share),
        Volume::Unknown => false,
    }
}

pub enum Volume {
    Disk(u8),
    Share(Seq<u8>, Seq<u8>),
    Unknown,
}

pub open spec fn volume_of(prefix: PrefixRecord) -> Volume {
    match prefix {
        PrefixRecord::Disk(letter) => Volume::Disk(letter),
        PrefixRecord::VerbatimDisk(letter) => Volume::Disk(letter),
        PrefixRecord::Unc(server, share) => Volume::Share(lowercase(server), lowercase(share)),
        PrefixRecord::VerbatimUnc(server, share) => Volume::Share(
            lowercase(server),
            lowercase(share),
        ),
        _ => Volume::Unknown,
    }
}

/// Names in small letters.
pub open spec fn small_names(names: Seq<Seq<u8>>) -> Seq<Seq<u8>> {
    Seq::new(names.len(), |i: int| lowercase(names[i]))
}

/// Names put behind a directory one after the other.
pub open spec fn all_joined(directory: Seq<u8>, names: Seq<Seq<u8>>) -> Seq<u8>
    decreases names.len(),
{
    if names.len() == 0 {
        directory
    } else {
        joined(PathStyle::Windows, all_joined(directory, names.drop_last()), names.last())
    }
}

/// A target as a path under the workspace root, however its volume and the
/// letters of the root are written.
pub open spec fn normalized_target(root: Seq<u8>, path: Seq<u8>) -> Result<
    Seq<u8>,
    WindowsTargetError,
> {
    if lies_under(PathStyle::Windows, path, root) {
        Ok(path)
    } else {
        match absolute_parts(root) {
            Err(error) => Err(error),
            Ok(base) => match absolute_parts(path) {
                Err(error) => Err(error),
                Ok(target) => {
                    let count = base.names.len() as int;
                    if !same_volume(base.prefix, target.prefix) || target.names.len() < count
                        || small_names(target.names).subrange(0, count) != small_names(
                        base.names,
                    ) {
                        Err(WindowsTargetError::Outside)
                    } else {
                        Ok(
                            all_joined(
                                root,
                                target.names.subrange(count, target.names.len() as int),
                            ),
                        )
                    }
                },
            },
        }
    }
}

/// A path taken apart.
#[derive(Debug)]
pub struct WindowsPath<'a> {
    pub prefix: WindowsPrefix,
    pub end: usize,
    pub rooted: bool,
    pub pieces: Vec<&'a [u8]>,
}

impl<'a> WindowsPath<'a> {
    /// These are the parts of the path.
    pub open spec fn is_of(&self, path: Seq<u8>) -> bool {
        &&& self.prefix@ == prefix_of(path).0
        &&& self.end == prefix_of(path).1
        &&& self.end <= path.len()
        &&& self.rooted == is_rooted(path)
        &&& views(self.pieces@) == windows_pieces(path)
    }

    pub(crate) fn read(path: &'a [u8]) -> (parts: Self)
        ensures
            parts.is_of(path@),
    {
        let (prefix, end) = read_prefix(path);
        let implied = match &prefix {
            WindowsPrefix::Unc(_, _) => true,
            WindowsPrefix::Device(_) => true,
            _ => false,
        };
        let rooted = implied || (end < path.len() && is_separator(path[end], false));
        let pieces = read_pieces(path, end, prefix.verbatim());
        WindowsPath { prefix, end, rooted, pieces }
    }

    /// Whether the names from the root of the volume are all names.
    fn check_absolute(&self, Ghost(path): Ghost<Seq<u8>>) -> (result: Result<
        (),
        WindowsTargetError,
    >)
        requires
            self.is_of(path),
        ensures
            match absolute_parts(path) {
                Err(error) => result == Err::<(), _>(error),
                Ok(parts) => {
                    &&& result is Ok
                    &&& self.prefix@ == parts.prefix
                    &&& views(self.pieces@) == parts.names
                },
            },
    {
        match &self.prefix {
            WindowsPrefix::Absent => {
                return Err(WindowsTargetError::NotAbsolute);
            },
            WindowsPrefix::Verbatim(_) => {
                return Err(WindowsTargetError::UnsupportedPrefix);
            },
            WindowsPrefix::Device(_) => {
                return Err(WindowsTargetError::UnsupportedPrefix);
            },
            _ => {},
        }
        if !self.rooted {
            return Err(WindowsTargetError::NotAbsolute);
        }
        if names_wander(&self.pieces) {
            return Err(WindowsTargetError::NotNormal);
        }
        Ok(())
    }
}

fn read_pieces<'a>(path: &'a [u8], start: usize, verbatim: bool) -> (pieces: Vec<&'a [u8]>)
    requires
        start <= path@.len(),
    ensures
        views(pieces@) == pieces_from(path@, start as int, verbatim),
{
    let mut pieces: Vec<&'a [u8]> = Vec::new();
    let mut from: usize = start;
    let ghost all = pieces_from(path@, start as int, verbatim);
    assert(views(pieces@) + all =~= all);
    while from < path.len()
        invariant
            start <= from <= path@.len(),
            views(pieces@) + pieces_from(path@, from as int, verbatim) == all,
        decreases path@.len() - from,
    {
        if is_separator(path[from], verbatim) {
            from = from + 1;
        } else {
            let end: usize = end_of_piece(path, from, verbatim);
            let piece = slice_subrange(path, from, end);
            let ghost before = pieces@;
            let ghost rest = pieces_from(path@, end as int, verbatim);
            proof {
                lemma_piece_end(path@, from + 1, verbatim);
                assert(piece@.len() == 1 && piece@[0] == 46 ==> piece@ =~= seq![46u8]);
            }
            if !(piece.len() == 1 && piece[0] == 46 && !verbatim) {
                pieces.push(piece);
                assert(views(pieces@) =~= views(before).push(piece@));
                assert(views(before) + (seq![piece@] + rest) =~= views(pieces@) + rest);
            }
            from = end;
        }
    }
    assert(views(pieces@) + Seq::<Seq<u8>>::empty() =~= views(pieces@));
    pieces
}

fn volumes_match(left: &WindowsPrefix, right: &WindowsPrefix) -> (same: bool)
    ensures
        same == same_volume(left@, right@),
{
    match left {
        WindowsPrefix::Disk(letter) | WindowsPrefix::VerbatimDisk(letter) => match right {
            WindowsPrefix::Disk(other) | WindowsPrefix::VerbatimDisk(other) => *letter == *other,
            _ => false,
        },
        WindowsPrefix::Unc(server, share) | WindowsPrefix::VerbatimUnc(server, share) =>
            match right {
                WindowsPrefix::Unc(other, place) | WindowsPrefix::VerbatimUnc(other, place) =>
                    bytes_equal(
                    lowercase_bytes(server.as_slice()).as_slice(),
                    lowercase_bytes(other.as_slice()).as_slice(),
                ) && bytes_equal(
                    lowercase_bytes(share.as_slice()).as_slice(),
                    lowercase_bytes(place.as_slice()).as_slice(),
                ),
                _ => false,
            },
        _ => false,
    }
}

pub(crate) fn prefixes_equal(left: &WindowsPrefix, right: &WindowsPrefix) -> (same: bool)
    ensures
        same == (left@ == right@),
{
    match (left, right) {
        (WindowsPrefix::Absent, WindowsPrefix::Absent) => true,
        (WindowsPrefix::Disk(letter), WindowsPrefix::Disk(other)) => *letter == *other,
        (WindowsPrefix::VerbatimDisk(letter), WindowsPrefix::VerbatimDisk(other)) => *letter
            == *other,
        (WindowsPrefix::Unc(server, share), WindowsPrefix::Unc(other, place)) => bytes_equal(
            server.as_slice(),
            other.as_slice(),
        ) && bytes_equal(share.as_slice(), place.as_slice()),
        (WindowsPrefix::VerbatimUnc(server, share), WindowsPrefix::VerbatimUnc(other, place)) =>
            bytes_equal(server.as_slice(), other.as_slice()) && bytes_equal(
            share.as_slice(),
            place.as_slice(),
        ),
        (WindowsPrefix::Verbatim(name), WindowsPrefix::Verbatim(other)) => bytes_equal(
            name.as_slice(),
            other.as_slice(),
        ),
        (WindowsPrefix::Device(name), WindowsPrefix::Device(other)) => bytes_equal(
            name.as_slice(),
            other.as_slice(),
        ),
        _ => false,
    }
}

/// The first names are those of the base but for capitals.
fn front_matches(names: &Vec<&[u8]>, base: &Vec<&[u8]>) -> (alike: bool)
    requires
        base@.len() <= names@.len(),
    ensures
        alike == (small_names(views(names@)).subrange(0, base@.len() as int) == small_names(
            views(base@),
        )),
{
    let ghost shown = views(names@);
    let ghost wanted = views(base@);
    let mut index: usize = 0;
    while index < base.len()
        invariant
            index <= base@.len() <= names@.len(),
            shown == views(names@),
            wanted == views(base@),
            forall|i: int|
                0 <= i < index ==> lowercase(#[trigger] shown[i]) == lowercase(wanted[i]),
        decreases base@.len() - index,
    {
        if !bytes_equal(
            lowercase_bytes(names[index]).as_slice(),
            lowercase_bytes(base[index]).as_slice(),
        ) {
            proof {
                assert(lowercase(shown[index as int]) != lowercase(wanted[index as int]));
                let small = small_names(shown).subrange(0, base@.len() as int);
                assert(small[index as int] == lowercase(shown[index as int]));
                assert(small_names(wanted)[index as int] == lowercase(wanted[index as int]));
            }
            return false;
        }
        index = index + 1;
    }
    assert(small_names(shown).subrange(0, base@.len() as int) =~= small_names(wanted));
    true
}

/// A target as a path under the workspace root.
pub fn normalize_lsp_target_path(workspace_root: &[u8], path: &[u8]) -> (result: Result<
    Vec<u8>,
    WindowsTargetError,
>)
    ensures
        match normalized_target(workspace_root@, path@) {
            Ok(expected) => result matches Ok(found) && found@ == expected,
            Err(error) => result == Err::<Vec<u8>, _>(error),
        },
{
    if path_lies_under(PathStyle::Windows, path, workspace_root) {
        return Ok(to_vec(path));
    }
    let root = WindowsPath::read(workspace_root);
    let asked = WindowsPath::read(path);
    if let Err(error) = root.check_absolute(Ghost(workspace_root@)) {
        return Err(error);
    }
    if let Err(error) = asked.check_absolute(Ghost(path@)) {
        return Err(error);
    }
    let base = &root.pieces;
    let target = &asked.pieces;
    if !volumes_match(&root.prefix, &asked.prefix) || target.len() < base.len() {
        return Err(WindowsTargetError::Outside);
    }
    if !front_matches(target, base) {
        return Err(WindowsTargetError::Outside);
    }
    let mut normalized = to_vec(workspace_root);
    let mut index: usize = base.len();
    let ghost names = views(target@);
    assert(names.subrange(index as int, index as int) =~= Seq::<Seq<u8>>::empty());
    while index < target.len()
        invariant
            base@.len() <= index <= target@.len(),
            names == views(target@),
            normalized@ == all_joined(
                workspace_root@,
                names.subrange(base@.len() as int, index as int),
            ),
        decreases target@.len() - index,
    {
        proof {
            let longer = names.subrange(base@.len() as int, index + 1);
            assert(longer.drop_last() =~= names.subrange(base@.len() as int, index as int));
            assert(longer.last() == target@[index as int]@);
        }
        normalized = join_path(PathStyle::Windows, normalized.as_slice(), target[index]);
        index = index + 1;
    }
    Ok(normalized)
}

// Processes -------------------------------------------------------------------------------

/// What waiting for a process came to.
#[derive(Clone, Copy, Debug, PartialEq, Eq, Structural)]
pub enum WaitOutcome {
    Signaled,
    TimedOut,
    Failed,
    Other(u32),
}

/// A process tree is gone when its first process ended and its job is empty.
pub fn tree_is_gone(direct_exited: bool, active_processes: u32) -> (gone: bool)
    ensures
        gone == (direct_exited && active_processes == 0),
{
    direct_exited && active_processes == 0
}

/// After a forced end the first process must have ended.
pub fn after_forced_wait(outcome: WaitOutcome, code: u32, error: &str) -> (result: Result<
    (),
    String,
>)
    ensures
        match outcome {
            WaitOutcome::Signaled => result is Ok,
            WaitOutcome::TimedOut => result matches Err(message) && message@
                == "language server process did not terminate after Job cleanup"@,
            _ => result matches Err(message) && message@ == "cannot reap language server process ("@
                + number_text(code as nat) + "): "@ + error@,
        },
{
    match outcome {
        WaitOutcome::Signaled => Ok(()),
        WaitOutcome::TimedOut => Err(
            copy_text("language server process did not terminate after Job cleanup"),
        ),
        _ => {
            let mut message = copy_text("cannot reap language server process (");
            push_number(&mut message, code as u64);
            message.push_str("): ");
            message.push_str(error);
            Err(message)
        },
    }
}

/// After a forced end the job must be empty.
pub fn after_forced_count(active: Result<u32, String>) -> (result: Result<(), String>)
    ensures
        match active {
            Ok(count) => if count == 0 {
                result is Ok
            } else {
                result matches Err(message) && message@
                    == "language server Job Object still contains "@ + number_text(count as nat)
                    + " active processes"@
            },
            Err(error) => result == Err::<(), _>(error),
        },
{
    match active {
        Ok(count) => {
            if count == 0 {
                return Ok(());
            }
            let mut message = copy_text("language server Job Object still contains ");
            push_number(&mut message, count as u64);
            message.push_str(" active processes");
            Err(message)
        },
        Err(error) => Err(error),
    }
}

/// The message of a process that could be neither used nor cleaned up.
pub fn retained_failure(original: &str, cleanup: &str) -> (message: String)
    ensures
        message@ == original@ + "; secondary cleanup failure: "@ + cleanup@,
{
    let mut message = copy_text(original);
    message.push_str("; secondary cleanup failure: ");
    message.push_str(cleanup);
    message
}

// Volumes ---------------------------------------------------------------------------------

/// A path that begins with a letter and a colon is on that drive, in whatever case the letter
/// is written, and it is absolute exactly if a separator follows.
pub proof fn law_drives_are_letters(path: Seq<u8>)
    requires
        path.len() >= 2,
        65 <= path[0] <= 90 || 97 <= path[0] <= 122,
        path[1] == 58,
    ensures
        prefix_of(path).0 == PrefixRecord::Disk(
            if path[0] <= 90 {
                (path[0] + 32) as u8
            } else {
                path[0]
            },
        ),
        prefix_of(path).1 == 2,
        is_windows_absolute(path) <==> path.len() > 2 && (path[2] == 92 || path[2] == 47),
{
}

/// A path without a drive, a share or a device is not absolute.
pub proof fn law_plain_names_are_not_absolute(path: Seq<u8>)
    requires
        path.len() == 0 || (path[0] != 92 && path[0] != 47),
        path.len() < 2 || path[1] != 58,
    ensures
        !is_windows_absolute(path),
        prefix_of(path).1 == 0,
{
}

/// Two prefixes name the same volume exactly if they name the same drive, or the same share
/// in whatever case, with the mark of a literal path or without it.
pub proof fn law_volumes_are_the_same_in_any_case(
    letter: u8,
    other: u8,
    server: Seq<u8>,
    share: Seq<u8>,
    second_server: Seq<u8>,
    second_share: Seq<u8>,
)
    ensures
        same_volume(PrefixRecord::Disk(letter), PrefixRecord::VerbatimDisk(other)) <==> letter
            == other,
        same_volume(PrefixRecord::VerbatimDisk(letter), PrefixRecord::Disk(other)) <==> letter
            == other,
        same_volume(PrefixRecord::Disk(letter), PrefixRecord::Disk(other)) <==> letter == other,
        same_volume(
            PrefixRecord::Unc(server, share),
            PrefixRecord::VerbatimUnc(second_server, second_share),
        ) <==> lowercase(server) == lowercase(second_server) && lowercase(share) == lowercase(
            second_share,
        ),
        same_volume(
            PrefixRecord::Unc(server, share),
            PrefixRecord::Unc(second_server, second_share),
        ) <==> lowercase(server) == lowercase(second_server) && lowercase(share) == lowercase(
            second_share,
        ),
        !same_volume(PrefixRecord::Disk(letter), PrefixRecord::Unc(server, share)),
        !same_volume(PrefixRecord::Absent, PrefixRecord::Absent),
{
}

} // verus!
