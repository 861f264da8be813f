//! Paths on the drives of Windows.

use crate::paths::{joined, names, slashed, PathStyle};
use crate::windows::{piece_end, pieces_from, prefix_of};
use vstd::prelude::*;

verus! {

/// A name on Windows: it is not empty, not the mark of the directory itself, and it holds no
/// separator.
pub open spec fn is_plain_name(name: Seq<u8>) -> bool {
    name.len() > 0 && name != seq![46u8] && !name.contains(47) && !name.contains(92)
}

/// Names on a drive, from its root on.
pub open spec fn on_drive(letter: u8, all: Seq<Seq<u8>>) -> Seq<u8> {
    seq![letter, 58u8, 92u8] + slashed(92, all)
}

proof fn lemma_first_name(first: Seq<u8>, rest: Seq<Seq<u8>>)
    requires
        rest.len() > 0,
    ensures
        slashed(92, seq![first] + rest) == first + seq![92u8] + slashed(92, rest),
    decreases rest.len(),
{
    let all = seq![first] + rest;
    assert(all.last() == rest.last());
    if rest.len() == 1 {
        assert(all.drop_last() =~= seq![first]);
        assert(slashed(92, seq![first]) == first);
    } else {
        lemma_first_name(first, rest.drop_last());
        assert(all.drop_last() =~= seq![first] + rest.drop_last());
        assert(slashed(92, all) =~= first + seq![92u8] + slashed(92, rest));
    }
}

proof fn lemma_piece_ends(path: Seq<u8>, from: int, end: int)
    requires
        0 <= from <= end <= path.len(),
        end < path.len() ==> path[end] == 92,
        forall|i: int| from <= i < end ==> #[trigger] path[i] != 92 && path[i] != 47,
    ensures
        piece_end(path, from, false) == end,
    decreases end - from,
{
    if from < end {
        lemma_piece_ends(path, from + 1, end);
    }
}

proof fn lemma_pieces_found(path: Seq<u8>, from: int, all: Seq<Seq<u8>>)
    requires
        0 <= from <= path.len(),
        path.subrange(from, path.len() as int) == slashed(92, all),
        forall|i: int| 0 <= i < all.len() ==> is_plain_name(#[trigger] all[i]),
    ensures
        pieces_from(path, from, false) == all,
    decreases all.len(),
{
    let tail = path.subrange(from, path.len() as int);
    if all.len() == 0 {
        assert(tail.len() == 0);
        assert(all =~= Seq::<Seq<u8>>::empty());
    } else {
        let first = all[0];
        let rest = all.drop_first();
        assert(is_plain_name(all[0]));
        assert(all =~= seq![first] + rest);
        if rest.len() > 0 {
            lemma_first_name(first, rest);
        } else {
            assert(all =~= seq![first]);
        }
        let end = from + first.len();
        assert(tail.len() >= first.len());
        assert(tail.len() == path.len() - from);
        assert forall|i: int| from <= i < end implies #[trigger] path[i] != 92 && path[i] != 47 by {
            assert(path[i] == tail[i - from]);
            assert(tail[i - from] == first[i - from]);
            assert(first.contains(first[i - from]));
        }
        if rest.len() > 0 {
            assert(tail[first.len() as int] == 92);
            assert(path[end] == 92);
        }
        lemma_piece_ends(path, from, end);
        assert(path[from] == tail[0]);
        assert(path.subrange(from, end) =~= first);
        if rest.len() > 0 {
            assert(path.subrange(end + 1, path.len() as int) =~= slashed(92, rest)) by {
                assert(tail.subrange(first.len() as int + 1, tail.len() as int) =~= slashed(
                    92,
                    rest,
                ));
            }
            assert forall|i: int| 0 <= i < rest.len() implies is_plain_name(#[trigger] rest[i]) by {
                assert(rest[i] == all[i + 1]);
            }
            lemma_pieces_found(path, end + 1, rest);
            assert(pieces_from(path, end, false) == pieces_from(path, end + 1, false));
        } else {
            assert(end == path.len());
            assert(rest =~= Seq::<Seq<u8>>::empty());
            assert(pieces_from(path, end, false) =~= Seq::<Seq<u8>>::empty());
        }
        assert(seq![first] + rest =~= all);
    }
}

/// The names that a path on a drive was put together from are read back.
pub proof fn law_names_on_drives_are_read_back(letter: u8, all: Seq<Seq<u8>>)
    requires
        65 <= letter <= 90 || 97 <= letter <= 122,
        forall|i: int| 0 <= i < all.len() ==> is_plain_name(#[trigger] all[i]),
    ensures
        names(PathStyle::Windows, on_drive(letter, all)) == all,
        prefix_of(on_drive(letter, all)).0 is Disk,
{
    let path = on_drive(letter, all);
    assert(path[0] == letter && path[1] == 58 && path[2] == 92);
    assert(prefix_of(path).1 == 2);
    assert(path.subrange(3, path.len() as int) =~= slashed(92, all));
    lemma_pieces_found(path, 3, all);
    assert(pieces_from(path, 2, false) == pieces_from(path, 3, false));
}

/// A name that is joined to a path on a drive is its last one.
pub proof fn law_joining_on_drives_adds_the_name(letter: u8, all: Seq<Seq<u8>>, name: Seq<u8>)
    requires
        65 <= letter <= 90 || 97 <= letter <= 122,
        forall|i: int| 0 <= i < all.len() ==> is_plain_name(#[trigger] all[i]),
        is_plain_name(name),
        name.len() < 2 || name[1] != 58,
    ensures
        names(PathStyle::Windows, joined(PathStyle::Windows, on_drive(letter, all), name))
            == all.push(name),
{
    let path = on_drive(letter, all);
    let longer = all.push(name);
    assert(path[0] == letter && path[1] == 58 && path[2] == 92);
    assert(name.contains(name[0]));
    assert(prefix_of(name).0 is Absent);
    assert(longer.drop_last() =~= all);
    assert(longer.last() == name);
    if all.len() == 0 {
        assert(slashed(92, all) =~= Seq::<u8>::empty());
        assert(path.last() == 92);
        assert(path + name =~= on_drive(letter, longer));
    } else {
        let last = all[all.len() - 1];
        assert(is_plain_name(last));
        assert(last.contains(last.last()));
        assert(slashed(92, all).last() == last.last()) by {
            if all.len() > 1 {
                assert(slashed(92, all) == slashed(92, all.drop_last()) + seq![92u8] + all.last());
            }
        }
        assert(slashed(92, all).len() > 0) by {
            if all.len() > 1 {
                assert(slashed(92, all) == slashed(92, all.drop_last()) + seq![92u8] + all.last());
            }
        }
        assert(path.last() == last.last());
        assert(path + seq![92u8] + name =~= on_drive(letter, longer));
    }
    assert forall|i: int| 0 <= i < longer.len() implies is_plain_name(#[trigger] longer[i]) by {
        if i < all.len() {
            assert(longer[i] == all[i]);
        }
    }
    law_names_on_drives_are_read_back(letter, longer);
}

} // verus!
