//! What users are shown of instances, and what they are told when something cannot be opened.

use crate::bytes::{lower, lowercase, same_letters, trim};
use crate::framing::{content_type, header_line, FrameError};
use crate::git::failure_text;
use crate::ipc::{
    chosen_root, default_root, error_record, is_socket_name, sockets_among, BodyRecord, InfoRecord,
};
use crate::paths::PathStyle;
use crate::routing::{
    choices_text, list_text, opened_text, padded, prompt_text, rows_text, running_for, table_text,
    uncovered_text, uptime_text,
};
use crate::suggestions::{
    capped_distance, fault_text, names_text, near_names, nearness, parent_text, CandidateRecord,
    NameRecord, OpenFault, ParentState,
};
use crate::text::{lossy, number_text, trimmed};
use vstd::prelude::*;
use vstd::utf8::encode_utf8;

verus! {

/// Instances are listed one to a line, with their process and their root.
pub proof fn law_instances_are_listed_line_by_line(infos: Seq<InfoRecord>, last: InfoRecord)
    ensures
        list_text(Seq::empty()).len() == 0,
        infos.len() == 0 ==> list_text(infos.push(last)) == "  pid "@ + number_text(
            last.pid as nat,
        ) + "  "@ + last.root,
        infos.len() > 0 ==> list_text(infos.push(last)) == list_text(infos) + "\n"@ + ("  pid "@
            + number_text(last.pid as nat) + "  "@ + last.root),
{
    assert(infos.push(last).drop_last() =~= infos);
}

/// The instances to choose from are numbered from one on, and the prompt asks for one of
/// these numbers.
pub proof fn law_choices_are_numbered_from_one(
    infos: Seq<InfoRecord>,
    last: InfoRecord,
    scope: Seq<char>,
)
    ensures
        choices_text(Seq::empty()).len() == 0,
        choices_text(infos.push(last)) == choices_text(infos) + "  ["@ + number_text(infos.len() + 1)
            + "] pid "@ + number_text(last.pid as nat) + "  "@ + last.root + "\n"@,
        prompt_text(infos, scope) == "No running instance covers "@ + scope + "; choose one:\n"@
            + choices_text(infos) + "Enter a number 1-"@ + number_text(infos.len())
            + " (q to cancel): "@,
{
    assert(infos.push(last).drop_last() =~= infos);
}

/// The table of instances has a row for each: process, time, version and root, in columns of
/// eight, nine and twelve characters.
pub proof fn law_instances_are_shown_row_by_row(infos: Seq<InfoRecord>, last: InfoRecord, now: u64)
    ensures
        table_text(Seq::empty(), now) == "no running instances\n"@,
        rows_text(Seq::empty(), now).len() == 0,
        infos.len() > 0 ==> table_text(infos, now) == padded("PID"@, 8) + " "@ + padded(
            "UPTIME"@,
            9,
        ) + " "@ + padded("VERSION"@, 12) + " "@ + "ROOT"@ + "\n"@ + rows_text(infos, now),
        rows_text(infos.push(last), now) == rows_text(infos, now) + (padded(
            number_text(last.pid as nat),
            8,
        ) + " "@ + padded(uptime_text(running_for(last, now)), 9) + " "@ + padded(last.version, 12)
            + " "@ + last.root + "\n"@),
{
    assert(infos.push(last).drop_last() =~= infos);
}

/// What was opened is told file by file, with the instance that has it.
pub proof fn law_opened_files_are_told(opened: Seq<Seq<char>>, last: Seq<char>, pid: u32)
    ensures
        opened_text(Seq::empty(), pid).len() == 0,
        opened_text(opened.push(last), pid) == opened_text(opened, pid) + "opened "@ + last
            + " in instance "@ + number_text(pid as nat) + "\n"@,
{
    assert(opened.push(last).drop_last() =~= opened);
}

/// Where no instance covers a file, the instances are listed, and how to choose one.
pub proof fn law_uncovered_files_are_told(infos: Seq<InfoRecord>, scope: Seq<char>)
    ensures
        uncovered_text(infos, scope) == "no running instance covers "@ + scope
            + "\nrunning instances:\n"@ + list_text(infos)
            + "\nre-run with --target <pid>, or run from a terminal to choose interactively"@,
{
}

/// What cannot be opened is named, with why, and with the names that are near it.
pub proof fn law_faults_name_what_was_tried(
    path: Seq<char>,
    attempted: Seq<char>,
    parent: ParentState,
)
    ensures
        fault_text(path, attempted, OpenFault::NotFound, parent) == "cannot open "@ + path
            + "\n\n"@ + attempted + " does not exist"@ + parent_text(parent),
        fault_text(path, attempted, OpenFault::Denied, parent) == "cannot open "@ + path + "\n\n"@
            + attempted + ": permission denied"@,
        fault_text(path, attempted, OpenFault::Other, parent) == "cannot open "@ + path,
        parent is Absent ==> parent_text(parent).len() == 0,
        parent matches ParentState::Missing(shown) ==> parent_text(parent) == "\n\ndirectory "@
            + shown@ + " does not exist"@,
        parent matches ParentState::Directory(near) ==> {
            &&& near@.len() == 0 ==> parent_text(parent).len() == 0
            &&& near@.len() == 1 ==> parent_text(parent) == "\n\nDid you mean '"@ + near@[0]@
                + "'?"@
            &&& near@.len() > 1 ==> parent_text(parent)
                == "\n\nDid you mean one of the following?"@ + names_text(
                crate::text::string_views(near@),
            )
        },
{
}

/// The names that are near stand below each other.
pub proof fn law_near_names_stand_below_each_other(near: Seq<Seq<char>>, last: Seq<char>)
    ensures
        names_text(Seq::empty()).len() == 0,
        names_text(near.push(last)) == names_text(near) + "\n  "@ + last,
{
    assert(near.push(last).drop_last() =~= near);
}

/// A command that failed is told with what it said.
pub proof fn law_failures_tell_what_was_said(action: Seq<char>, stderr: Seq<u8>)
    ensures
        failure_text(action, stderr) == "failed to "@ + action + ": "@ + trimmed(lossy(stderr)),
{
}

/// Sockets lie where the user says, else in a directory of the user's own: below the running
/// directory where there is one, and else in the temporary one under the user's number.
pub proof fn law_sockets_lie_in_a_directory_of_the_user(
    set: Option<Seq<u8>>,
    usual: Seq<u8>,
    running: Seq<u8>,
    user: nat,
    temporary: Seq<u8>,
)
    ensures
        set is Some && set->0.len() > 0 ==> chosen_root(set, usual) == set->0,
        set is None || set->0.len() == 0 ==> chosen_root(set, usual) == usual,
        running.len() > 0 ==> default_root(PathStyle::Unix, Some(running), user, temporary)
            == crate::paths::joined(PathStyle::Unix, running, encode_utf8("latte-lens"@)),
        default_root(PathStyle::Unix, None, user, temporary) == crate::paths::joined(
            PathStyle::Unix,
            temporary,
            encode_utf8("latte-lens-"@ + number_text(user)),
        ),
        default_root(PathStyle::Unix, Some(Seq::empty()), user, temporary) == default_root(
            PathStyle::Unix,
            None,
            user,
            temporary,
        ),
        default_root(PathStyle::Windows, Some(running), user, temporary) == crate::paths::joined(
            PathStyle::Windows,
            temporary,
            encode_utf8("latte-lens"@),
        ),
{
}

/// An error is answered in the version of the protocol that is spoken.
pub proof fn law_errors_are_answered_in_the_first_version(message: Seq<char>)
    ensures
        error_record(message).proto == 1,
        error_record(message).body == BodyRecord::Error(message),
{
}

/// Letters are alike whatever their case, and no other bytes are.
pub proof fn law_only_letters_have_a_case(byte: u8, left: Seq<u8>, right: Seq<u8>)
    ensures
        'A' as u8 <= byte <= 'Z' as u8 ==> lower(byte) == byte + 32,
        !('A' as u8 <= byte <= 'Z' as u8) ==> lower(byte) == byte,
        same_letters(left, right) <==> left.len() == right.len() && forall|i: int|
            0 <= i < left.len() ==> lower(#[trigger] left[i]) == lower(right[i]),
{
    if same_letters(left, right) {
        assert(lowercase(left).len() == lowercase(right).len());
        assert forall|i: int| 0 <= i < left.len() implies lower(#[trigger] left[i]) == lower(
            right[i],
        ) by {
            assert(lowercase(left)[i] == lowercase(right)[i]);
        }
    }
    if left.len() == right.len() && forall|i: int|
        0 <= i < left.len() ==> lower(#[trigger] left[i]) == lower(right[i]) {
        assert(lowercase(left) =~= lowercase(right));
    }
}

/// A line of a header that tells the length of the body: the length is what its digits say,
/// it is told once, and it lies between one byte and four mebibytes.
pub proof fn law_lengths_are_told_once(
    value: Seq<u8>,
    length: Option<usize>,
    media: Option<Seq<u8>>,
)
    requires
        value.len() > 0,
        crate::bytes::all_digits(value),
    ensures
        ({
            let line = encode_utf8("Content-Length: "@) + value;
            let told = header_line(line, length, media);
            let number = crate::bytes::decimal_value(value);
            &&& told is Ok <==> length is None && 1 <= number <= 4194304
            &&& told matches Ok((found, kept)) ==> found is Some && found->0 == number && kept
                == media
            &&& length is Some ==> told == Err::<(Option<usize>, Option<Seq<u8>>), _>(
                FrameError::DuplicateContentLength,
            )
        }),
{
    let head = encode_utf8("Content-Length: "@);
    lemma_length_header();
    let line = head + value;
    let colon = crate::bytes::text(":");
    assert(line.subrange(14, 15) =~= colon);
    assert forall|k: int| 0 <= k < 14 implies !#[trigger] crate::bytes::occurs_at(
        line,
        colon,
        k,
    ) by {
        if crate::bytes::occurs_at(line, colon, k) {
            assert(line.subrange(k, k + 1)[0] == head[k]);
        }
    }
    crate::bytes::lemma_first_is_found(line, colon, 14);
    assert(line.subrange(0, 14) =~= head.subrange(0, 14));
    let rest = line.subrange(15, line.len() as int);
    assert(rest =~= seq![32u8] + value);
    assert(rest.subrange(1, rest.len() as int) =~= value);
    assert(crate::bytes::is_digit(value[0]));
    assert(crate::bytes::is_digit(value[value.len() - 1]));
    assert(crate::bytes::trim_start(value) == value);
    assert(crate::bytes::trim_start(rest) == value);
    assert(crate::bytes::trim_end(value) == value);
}

proof fn lemma_length_header()
    ensures
        ({
            let head = encode_utf8("Content-Length: "@);
            &&& head.len() == 16
            &&& forall|k: int| 0 <= k < 14 ==> #[trigger] head[k] != 58
            &&& head[14] == 58
            &&& head[15] == 32
            &&& same_letters(head.subrange(0, 14), crate::bytes::text("content-length"))
            &&& crate::bytes::text(":") == seq![58u8]
        }),
{
    broadcast use vstd::utf8::group_utf8_lib;

    reveal_strlit("Content-Length: ");
    reveal_strlit("content-length");
    reveal_strlit(":");
    assert(vstd::utf8::is_ascii_chars("Content-Length: "@));
    assert(vstd::utf8::is_ascii_chars("content-length"@));
    assert(vstd::utf8::is_ascii_chars(":"@));
    let head = encode_utf8("Content-Length: "@);
    assert(crate::bytes::text(":") =~= seq![58u8]);
    assert(lowercase(head.subrange(0, 14)) =~= lowercase(crate::bytes::text("content-length")));
}

/// A body is in the one media type that is spoken, in whatever case it is written.
pub proof fn law_one_media_type_is_spoken(value: Seq<u8>)
    requires
        !value.contains(59),
    ensures
        content_type(value) is Ok <==> same_letters(
            trim(value),
            encode_utf8("application/vscode-jsonrpc"@),
        ),
{
    broadcast use vstd::utf8::group_utf8_lib;

    reveal_strlit(";");
    assert(vstd::utf8::is_ascii_chars(";"@));
    let mark = crate::bytes::text(";");
    assert(mark =~= seq![59u8]);
    crate::bytes::lemma_find_from_is_first(value, mark, 0);
    if crate::bytes::find(value, mark) is Some {
        let at = crate::bytes::find(value, mark)->0;
        assert(value.subrange(at, at + 1)[0] == value[at]);
        assert(value.contains(value[at]));
    }
    assert(crate::bytes::split(value, mark) == seq![value]);
    assert(seq![value].subrange(1, 1) =~= Seq::<Seq<u8>>::empty());
}

/// A name is suggested if it is another one, as hidden as the one that was meant, and at most
/// two letters away from it or begun by it or by its own beginning.
pub proof fn law_only_near_names_are_suggested(
    name: Seq<char>,
    needle: Seq<char>,
    entry: NameRecord,
    entries: Seq<NameRecord>,
)
    ensures
        ({
            let hidden = needle.len() > 0 && needle[0] == '.';
            let also = entry.lower.len() > 0 && entry.lower[0] == '.';
            let apart = capped_distance(needle, entry.lower, 3);
            let begun = (needle.len() <= entry.lower.len() && entry.lower.take(needle.len() as int)
                == needle) || (entry.lower.len() <= needle.len() && needle.take(
                entry.lower.len() as int,
            ) == entry.lower);
            &&& nearness(name, needle, entry) is Some <==> entry.name != name && hidden == also && (
            apart <= 2 || begun)
            &&& nearness(name, needle, entry) matches Some(found) ==> found == apart
            &&& near_names(name, needle, entries.push(entry)) == (match nearness(
                name,
                needle,
                entry,
            ) {
                None => near_names(name, needle, entries),
                Some(found) => near_names(name, needle, entries).push(
                    CandidateRecord { distance: found, name: entry.name },
                ),
            })
        }),
        near_names(name, needle, Seq::empty()).len() == 0,
{
    assert(entries.push(entry).drop_last() =~= entries);
    if needle.len() <= entry.lower.len() {
        assert(entry.lower.take(needle.len() as int) =~= entry.lower.subrange(
            0,
            needle.len() as int,
        ));
    }
    if entry.lower.len() <= needle.len() {
        assert(needle.take(entry.lower.len() as int) =~= needle.subrange(
            0,
            entry.lower.len() as int,
        ));
    }
}

/// A socket is known by the end of its name.
pub proof fn law_sockets_are_known_by_their_ending(front: Seq<char>, all: Seq<Seq<char>>)
    ensures
        is_socket_name(front + ".sock"@),
        is_socket_name(front) ==> encode_utf8(front).len() >= 5,
        sockets_among(Seq::empty()).len() == 0,
        sockets_among(all.push(front + ".sock"@)) == sockets_among(all).push(front + ".sock"@),
        !is_socket_name(front) ==> sockets_among(all.push(front)) == sockets_among(all),
{
    broadcast use vstd::utf8::group_utf8_lib;

    reveal_strlit(".sock");
    assert(vstd::utf8::is_ascii_chars(".sock"@));
    let end = encode_utf8(".sock"@);
    assert(end.len() == 5);
    crate::positions::lemma_encode_append(front, ".sock"@);
    let whole = encode_utf8(front + ".sock"@);
    assert(whole.subrange(whole.len() - 5, whole.len() as int) =~= end);
    assert(all.push(front + ".sock"@).drop_last() =~= all);
    assert(all.push(front).drop_last() =~= all);
}

} // verus!
