//! Paths as byte strings, in the styles of Unix and of Windows.

use crate::bytes::{
    byte_views, bytes_equal, find, lemma_find_from_is_first, lemma_find_in_extension,
    lemma_first_is_found, occurs_at, split, split_bytes, text, to_vec, views,
};
use crate::windows::{
    is_rooted, is_separator, is_verbatim, is_windows_absolute, prefix_of, prefixes_equal,
    read_prefix, root_follows, separates, windows_pieces, PrefixRecord, WindowsPath, WindowsPrefix,
};
use vstd::prelude::*;
use vstd::slice::slice_subrange;

verus! {

/// How paths are written on the platform.
#[derive(Clone, Copy, Debug, PartialEq, Eq, Structural)]
pub enum PathStyle {
    /// Names between slashes.
    Unix,
    /// Names between slashes or backslashes behind the prefix of a volume.
    Windows,
}

impl PathStyle {
    /// The byte that is written between two names.
    pub open spec fn mark(self) -> u8 {
        match self {
            PathStyle::Unix => 47,
            PathStyle::Windows => 92,
        }
    }

    fn separator(self) -> (byte: u8)
        ensures
            byte == self.mark(),
    {
        match self {
            PathStyle::Unix => 47,
            PathStyle::Windows => 92,
        }
    }
}

// Names -----------------------------------------------------------------------------------

/// A piece between slashes that names nothing.
pub open spec fn is_hollow(piece: Seq<u8>) -> bool {
    piece.len() == 0 || piece == seq![46u8]
}

/// The pieces that name something.
pub open spec fn named_pieces(pieces: Seq<Seq<u8>>) -> Seq<Seq<u8>>
    decreases pieces.len(),
{
    if pieces.len() == 0 {
        Seq::empty()
    } else if is_hollow(pieces.last()) {
        named_pieces(pieces.drop_last())
    } else {
        named_pieces(pieces.drop_last()).push(pieces.last())
    }
}

/// The names of a path, from its beginning down. The mark of the parent counts as one.
pub open spec fn names(style: PathStyle, path: Seq<u8>) -> Seq<Seq<u8>> {
    match style {
        PathStyle::Unix => named_pieces(split(path, text("/"))),
        PathStyle::Windows => windows_pieces(path),
    }
}

pub proof fn lemma_slash()
    ensures
        text("/") == seq![47u8],
        text("/").len() == 1,
{
    broadcast use vstd::utf8::group_utf8_lib;

    reveal_strlit("/");
    assert(vstd::utf8::is_ascii_chars("/"@));
    assert(text("/") =~= seq![47u8]);
}

fn slash_pieces<'a>(path: &'a [u8]) -> (found: Vec<&'a [u8]>)
    ensures
        views(found@) == named_pieces(split(path@, text("/"))),
{
    proof {
        lemma_slash();
    }
    let pieces = split_bytes(path, "/".as_bytes());
    let mut found: Vec<&'a [u8]> = Vec::new();
    let mut index: usize = 0;
    let ghost shown = views(pieces@);
    assert(views(found@) =~= named_pieces(shown.subrange(0, 0)));
    while index < pieces.len()
        invariant
            index <= pieces@.len(),
            shown == views(pieces@),
            views(found@) == named_pieces(shown.subrange(0, index as int)),
        decreases pieces@.len() - index,
    {
        let piece = pieces[index];
        let ghost before = found@;
        proof {
            let longer = shown.subrange(0, index + 1);
            assert(longer.drop_last() =~= shown.subrange(0, index as int));
            assert(longer.last() == piece@);
            assert(piece@.len() == 1 && piece@[0] == 46 ==> piece@ =~= seq![46u8]);
        }
        if !(piece.len() == 0 || (piece.len() == 1 && piece[0] == 46)) {
            found.push(piece);
            assert(views(found@) =~= views(before).push(piece@));
        }
        index = index + 1;
    }
    assert(shown.subrange(0, shown.len() as int) =~= shown);
    found
}

pub fn path_names<'a>(style: PathStyle, path: &'a [u8]) -> (found: Vec<&'a [u8]>)
    ensures
        views(found@) == names(style, path@),
{
    match style {
        PathStyle::Unix => slash_pieces(path),
        PathStyle::Windows => WindowsPath::read(path).pieces,
    }
}

/// A piece that is a mark and no name.
pub open spec fn is_mark(piece: Seq<u8>) -> bool {
    piece == seq![46u8] || piece == seq![46u8, 46u8]
}

fn piece_is_mark(piece: &[u8]) -> (yes: bool)
    ensures
        yes == is_mark(piece@),
{
    proof {
        assert(piece@.len() == 1 && piece@[0] == 46 ==> piece@ =~= seq![46u8]);
        assert(piece@.len() == 2 && piece@[0] == 46 && piece@[1] == 46 ==> piece@ =~= seq![
            46u8,
            46u8,
        ]);
    }
    (piece.len() == 1 && piece[0] == 46) || (piece.len() == 2 && piece[0] == 46 && piece[1] == 46)
}

/// The name at the end of a path; a mark is none.
pub open spec fn file_name(style: PathStyle, path: Seq<u8>) -> Option<Seq<u8>> {
    let all = names(style, path);
    if all.len() == 0 || is_mark(all.last()) {
        None
    } else {
        Some(all.last())
    }
}

/// The place of the last dot in a name.
pub open spec fn last_dot(name: Seq<u8>) -> int
    decreases name.len(),
{
    if name.len() == 0 {
        -1
    } else if name.last() == 46 {
        name.len() - 1
    } else {
        last_dot(name.drop_last())
    }
}

/// What follows the last dot of the file name, unless the name begins with it.
pub open spec fn extension(style: PathStyle, path: Seq<u8>) -> Option<Seq<u8>> {
    match file_name(style, path) {
        Some(name) => if last_dot(name) <= 0 {
            None
        } else {
            Some(name.subrange(last_dot(name) + 1, name.len() as int))
        },
        None => None,
    }
}

pub fn path_file_name<'a>(style: PathStyle, path: &'a [u8]) -> (name: Option<&'a [u8]>)
    ensures
        match file_name(style, path@) {
            None => name is None,
            Some(expected) => name matches Some(found) && found@ == expected,
        },
{
    let all = path_names(style, path);
    if all.len() == 0 {
        return None;
    }
    let last = all[all.len() - 1];
    assert(views(all@).last() == last@);
    if piece_is_mark(last) {
        None
    } else {
        Some(last)
    }
}

pub fn path_extension<'a>(style: PathStyle, path: &'a [u8]) -> (found: Option<&'a [u8]>)
    ensures
        match extension(style, path@) {
            None => found is None,
            Some(expected) => found matches Some(bytes) && bytes@ == expected,
        },
{
    match path_file_name(style, path) {
        None => None,
        Some(name) => {
            let mut dot: usize = name.len();
            assert(name@.subrange(0, dot as int) =~= name@);
            while dot > 0 && name[dot - 1] != 46
                invariant
                    dot <= name@.len(),
                    last_dot(name@.subrange(0, dot as int)) == last_dot(name@),
                decreases dot,
            {
                assert(name@.subrange(0, dot as int).drop_last() =~= name@.subrange(0, dot - 1));
                dot = dot - 1;
            }
            assert(last_dot(name@) == dot - 1);
            if dot <= 1 {
                None
            } else {
                Some(slice_subrange(name, dot, name.len()))
            }
        },
    }
}

/// The path does not depend on where it is looked up from.
pub open spec fn is_absolute(style: PathStyle, path: Seq<u8>) -> bool {
    match style {
        PathStyle::Unix => path.len() > 0 && path[0] == 47,
        PathStyle::Windows => is_windows_absolute(path),
    }
}

pub fn absolute(style: PathStyle, path: &[u8]) -> (yes: bool)
    ensures
        yes == is_absolute(style, path@),
{
    match style {
        PathStyle::Unix => path.len() > 0 && path[0] == 47,
        PathStyle::Windows => {
            let (prefix, end) = read_prefix(path);
            match prefix {
                WindowsPrefix::Absent => false,
                WindowsPrefix::Disk(_) => end < path.len() && is_separator(path[end], false),
                _ => true,
            }
        },
    }
}

// Parts -----------------------------------------------------------------------------------

/// A part of a path.
pub enum Part {
    Prefix(PrefixRecord),
    Root,
    /// The mark of the current directory at the beginning.
    Current,
    Name(Seq<u8>),
}

#[derive(Debug)]
pub enum PathPart<'a> {
    Prefix(WindowsPrefix),
    Root,
    Current,
    Name(&'a [u8]),
}

impl<'a> View for PathPart<'a> {
    type V = Part;

    open spec fn view(&self) -> Part {
        match self {
            PathPart::Prefix(prefix) => Part::Prefix(prefix@),
            PathPart::Root => Part::Root,
            PathPart::Current => Part::Current,
            PathPart::Name(name) => Part::Name(name@),
        }
    }
}

pub open spec fn part_records(parts: Seq<PathPart<'_>>) -> Seq<Part> {
    Seq::new(parts.len(), |i: int| parts[i]@)
}

pub open spec fn name_parts(names: Seq<Seq<u8>>) -> Seq<Part> {
    Seq::new(names.len(), |i: int| Part::Name(names[i]))
}

/// A dot that is a whole piece stands at the place.
pub open spec fn dot_at(style: PathStyle, path: Seq<u8>, at: int) -> bool {
    &&& at < path.len()
    &&& path[at] == 46
    &&& at + 1 == path.len() || path[at + 1] == 47 || (style == PathStyle::Windows && path[at + 1]
        == 92)
}

/// The parts in front of the names.
pub open spec fn lead(style: PathStyle, path: Seq<u8>) -> Seq<Part> {
    match style {
        PathStyle::Unix => if is_absolute(style, path) {
            seq![Part::Root]
        } else if dot_at(style, path, 0) {
            seq![Part::Current]
        } else {
            Seq::empty()
        },
        PathStyle::Windows => {
            let (prefix, end) = prefix_of(path);
            (if prefix is Absent {
                Seq::empty()
            } else {
                seq![Part::Prefix(prefix)]
            }) + (if is_rooted(path) {
                seq![Part::Root]
            } else if !is_verbatim(prefix) && dot_at(style, path, end) {
                seq![Part::Current]
            } else {
                Seq::empty()
            })
        },
    }
}

/// All parts of a path.
pub open spec fn parts(style: PathStyle, path: Seq<u8>) -> Seq<Part> {
    lead(style, path) + name_parts(names(style, path))
}

fn dot_stands_at(style: PathStyle, path: &[u8], at: usize) -> (yes: bool)
    requires
        at <= path@.len(),
    ensures
        yes == dot_at(style, path@, at as int),
{
    at < path.len() && path[at] == 46 && (at + 1 == path.len() || path[at + 1] == 47 || (style
        == PathStyle::Windows && path[at + 1] == 92))
}

fn path_lead<'a>(style: PathStyle, path: &'a [u8]) -> (found: Vec<PathPart<'a>>)
    ensures
        part_records(found@) == lead(style, path@),
{
    let mut found: Vec<PathPart<'a>> = Vec::new();
    match style {
        PathStyle::Unix => {
            if absolute(style, path) {
                found.push(PathPart::Root);
            } else if dot_stands_at(style, path, 0) {
                found.push(PathPart::Current);
            }
            assert(part_records(found@) =~= lead(style, path@));
        },
        PathStyle::Windows => {
            let read = WindowsPath::read(path);
            let rooted = read.rooted;
            let end: usize = read.end;
            let verbatim = read.prefix.verbatim();
            let present = match &read.prefix {
                WindowsPrefix::Absent => false,
                _ => true,
            };
            if present {
                found.push(PathPart::Prefix(read.prefix));
            }
            if rooted {
                found.push(PathPart::Root);
            } else if !verbatim && dot_stands_at(style, path, end) {
                found.push(PathPart::Current);
            }
            assert(part_records(found@) =~= lead(style, path@));
        },
    }
    found
}

pub fn path_parts<'a>(style: PathStyle, path: &'a [u8]) -> (found: Vec<PathPart<'a>>)
    ensures
        part_records(found@) == parts(style, path@),
{
    let mut found = path_lead(style, path);
    let all = path_names(style, path);
    let ghost front = lead(style, path@);
    let ghost shown = name_parts(names(style, path@));
    let mut index: usize = 0;
    assert(part_records(found@) =~= front + shown.subrange(0, 0));
    while index < all.len()
        invariant
            index <= all@.len(),
            views(all@) == names(style, path@),
            shown == name_parts(names(style, path@)),
            part_records(found@) == front + shown.subrange(0, index as int),
        decreases all@.len() - index,
    {
        let ghost before = found@;
        found.push(PathPart::Name(all[index]));
        proof {
            assert(views(all@)[index as int] == all@[index as int]@);
            assert(part_records(found@) =~= part_records(before).push(shown[index as int]));
            assert(shown.subrange(0, index + 1) =~= shown.subrange(0, index as int).push(
                shown[index as int],
            ));
            assert(part_records(found@) =~= front + shown.subrange(0, index + 1));
        }
        index = index + 1;
    }
    assert(shown.subrange(0, shown.len() as int) =~= shown);
    found
}

/// The first sequence begins with the second.
pub open spec fn begins_with(all: Seq<Part>, front: Seq<Part>) -> bool {
    front.len() <= all.len() && all.subrange(0, front.len() as int) == front
}

/// The path lies at or under the base: its parts begin with those of the base.
pub open spec fn lies_under(style: PathStyle, path: Seq<u8>, base: Seq<u8>) -> bool {
    begins_with(parts(style, path), parts(style, base))
}

fn same_part(left: &PathPart<'_>, right: &PathPart<'_>) -> (same: bool)
    ensures
        same == (left@ == right@),
{
    match (left, right) {
        (PathPart::Prefix(prefix), PathPart::Prefix(other)) => prefixes_equal(prefix, other),
        (PathPart::Root, PathPart::Root) => true,
        (PathPart::Current, PathPart::Current) => true,
        (PathPart::Name(name), PathPart::Name(other)) => bytes_equal(name, other),
        _ => false,
    }
}

pub fn parts_begin_with(all: &Vec<PathPart<'_>>, front: &Vec<PathPart<'_>>) -> (yes: bool)
    ensures
        yes == begins_with(part_records(all@), part_records(front@)),
{
    if front.len() > all.len() {
        return false;
    }
    let ghost shown = part_records(all@);
    let ghost wanted = part_records(front@);
    let mut index: usize = 0;
    while index < front.len()
        invariant
            index <= front@.len() <= all@.len(),
            shown == part_records(all@),
            wanted == part_records(front@),
            forall|i: int| 0 <= i < index ==> #[trigger] shown[i] == wanted[i],
        decreases front@.len() - index,
    {
        if !same_part(&all[index], &front[index]) {
            proof {
                assert(shown[index as int] != wanted[index as int]);
                let cut = shown.subrange(0, front@.len() as int);
                assert(cut[index as int] == shown[index as int]);
            }
            return false;
        }
        assert(shown[index as int] == wanted[index as int]);
        index = index + 1;
    }
    assert(shown.subrange(0, front@.len() as int) =~= wanted);
    true
}

pub fn path_lies_under(style: PathStyle, path: &[u8], base: &[u8]) -> (yes: bool)
    ensures
        yes == lies_under(style, path@, base@),
{
    parts_begin_with(&path_parts(style, path), &path_parts(style, base))
}

/// The paths have the same parts, however they are written.
pub open spec fn same_path(style: PathStyle, left: Seq<u8>, right: Seq<u8>) -> bool {
    parts(style, left) == parts(style, right)
}

pub fn parts_equal(left: &Vec<PathPart<'_>>, right: &Vec<PathPart<'_>>) -> (same: bool)
    ensures
        same == (part_records(left@) == part_records(right@)),
{
    if left.len() != right.len() {
        assert(part_records(left@).len() != part_records(right@).len());
        return false;
    }
    let whole = parts_begin_with(left, right);
    proof {
        let all = part_records(left@);
        assert(all.subrange(0, all.len() as int) =~= all);
    }
    whole
}

pub fn paths_equal(style: PathStyle, left: &[u8], right: &[u8]) -> (same: bool)
    ensures
        same == same_path(style, left@, right@),
{
    parts_equal(&path_parts(style, left), &path_parts(style, right))
}

// Writing ---------------------------------------------------------------------------------

/// Names put behind each other with a separator between each two.
pub open spec fn slashed(separator: u8, names: Seq<Seq<u8>>) -> Seq<u8>
    decreases names.len(),
{
    if names.len() == 0 {
        Seq::empty()
    } else if names.len() == 1 {
        names[0]
    } else {
        slashed(separator, names.drop_last()) + seq![separator] + names.last()
    }
}

/// What is left of a path below a base that begins at the same place.
pub open spec fn below(style: PathStyle, path: Seq<u8>, base: Seq<u8>) -> Option<Seq<u8>> {
    if lies_under(style, path, base) {
        let all = names(style, path);
        Some(slashed(style.mark(), all.subrange(names(style, base).len() as int, all.len() as int)))
    } else {
        None
    }
}

proof fn lemma_fewer_names(style: PathStyle, path: Seq<u8>, base: Seq<u8>)
    requires
        lies_under(style, path, base),
    ensures
        names(style, base).len() <= names(style, path).len(),
{
    let all = parts(style, path);
    let front = parts(style, base);
    let from = lead(style, path).len() as int;
    let to = lead(style, base).len() as int;
    let count = names(style, base).len() as int;
    if count > 0 && to < from {
        assert(front[to] is Name);
        assert(all.subrange(0, front.len() as int)[to] == all[to]);
        assert(all[to] == lead(style, path)[to]);
    }
}

pub fn path_below(style: PathStyle, path: &[u8], base: &[u8]) -> (rest: Option<Vec<u8>>)
    ensures
        match below(style, path@, base@) {
            None => rest is None,
            Some(expected) => rest matches Some(found) && found@ == expected,
        },
{
    if !path_lies_under(style, path, base) {
        return None;
    }
    proof {
        lemma_fewer_names(style, path@, base@);
    }
    let all = path_names(style, path);
    let front = path_names(style, base);
    assert(views(front@).len() == front@.len());
    assert(views(all@).len() == all@.len());
    Some(slash_names(style, &all, front.len(), all.len()))
}

fn slash_names(style: PathStyle, all: &Vec<&[u8]>, from: usize, to: usize) -> (joined: Vec<u8>)
    requires
        from <= to <= all@.len(),
    ensures
        joined@ == slashed(style.mark(), views(all@).subrange(from as int, to as int)),
{
    let separator: u8 = style.separator();
    let mut joined: Vec<u8> = Vec::new();
    let mut index: usize = from;
    let ghost shown = views(all@);
    assert(joined@ =~= slashed(separator, shown.subrange(from as int, from as int)));
    while index < to
        invariant
            from <= index <= to <= all@.len(),
            separator == style.mark(),
            shown == views(all@),
            joined@ == slashed(separator, shown.subrange(from as int, index as int)),
        decreases to - index,
    {
        let ghost before = joined@;
        proof {
            let longer = shown.subrange(from as int, index + 1);
            assert(longer.drop_last() =~= shown.subrange(from as int, index as int));
            assert(longer.last() == all@[index as int]@);
            if index == from {
                assert(shown.subrange(from as int, index as int) =~= Seq::<Seq<u8>>::empty());
            }
        }
        if index > from {
            joined.push(separator);
        }
        append_bytes(&mut joined, all[index]);
        assert(index > from ==> joined@ =~= before + seq![separator] + all@[index as int]@);
        assert(index == from ==> joined@ =~= all@[index as int]@);
        index = index + 1;
    }
    joined
}

pub fn append_bytes(target: &mut Vec<u8>, more: &[u8])
    ensures
        final(target)@ == old(target)@ + more@,
{
    let ghost before = target@;
    let mut index: usize = 0;
    assert(target@ =~= before + more@.subrange(0, 0));
    while index < more.len()
        invariant
            index <= more@.len(),
            target@ == before + more@.subrange(0, index as int),
        decreases more@.len() - index,
    {
        target.push(more[index]);
        assert(target@ =~= before + more@.subrange(0, index + 1));
        index = index + 1;
    }
    assert(more@.subrange(0, more@.len() as int) =~= more@);
}

/// The names of a verbatim directory after the pieces of a path were followed from it.
/// Marks are carried out, since a verbatim path takes them for names.
pub open spec fn followed(names: Seq<Seq<u8>>, pieces: Seq<Seq<u8>>) -> Seq<Seq<u8>>
    decreases pieces.len(),
{
    if pieces.len() == 0 {
        names
    } else {
        let earlier = followed(names, pieces.drop_last());
        let piece = pieces.last();
        if piece == seq![46u8] {
            earlier
        } else if piece == seq![46u8, 46u8] {
            if earlier.len() > 0 && !is_mark(earlier.last()) {
                earlier.drop_last()
            } else {
                earlier
            }
        } else {
            earlier.push(piece)
        }
    }
}

/// A path put behind a verbatim directory.
pub open spec fn verbatim_joined(directory: Seq<u8>, path: Seq<u8>) -> Seq<u8> {
    let end = prefix_of(directory).1;
    let restarts = root_follows(path);
    let all = followed(
        if restarts {
            Seq::empty()
        } else {
            windows_pieces(directory)
        },
        windows_pieces(path),
    );
    directory.subrange(0, end) + (if restarts || is_rooted(directory) || all.len() > 0 {
        seq![92u8]
    } else {
        Seq::empty()
    }) + slashed(92, all)
}

/// A path put behind a directory. One that names its own volume stands for itself, and
/// one that begins at the root keeps the volume of the directory only.
pub open spec fn windows_joined(directory: Seq<u8>, path: Seq<u8>) -> Seq<u8> {
    let (prefix, end) = prefix_of(directory);
    if !(prefix_of(path).0 is Absent) {
        path
    } else if is_verbatim(prefix) && path.len() > 0 {
        verbatim_joined(directory, path)
    } else if root_follows(path) {
        directory.subrange(0, end) + path
    } else if directory.len() == 0 || separates(directory.last(), false) || (prefix is Disk && end
        == directory.len()) {
        directory + path
    } else {
        directory + seq![92u8] + path
    }
}

/// A path put behind a directory. An absolute one stands for itself.
pub open spec fn joined(style: PathStyle, directory: Seq<u8>, path: Seq<u8>) -> Seq<u8> {
    match style {
        PathStyle::Unix => if is_absolute(style, path) {
            path
        } else if directory.len() == 0 || directory.last() == 47 {
            directory + path
        } else {
            directory + seq![47u8] + path
        },
        PathStyle::Windows => windows_joined(directory, path),
    }
}

fn follow<'a>(names: Vec<&'a [u8]>, pieces: &Vec<&'a [u8]>) -> (found: Vec<&'a [u8]>)
    ensures
        views(found@) == followed(views(names@), views(pieces@)),
{
    let ghost first = views(names@);
    let ghost shown = views(pieces@);
    let mut found = names;
    let mut index: usize = 0;
    assert(shown.subrange(0, 0) =~= Seq::<Seq<u8>>::empty());
    while index < pieces.len()
        invariant
            index <= pieces@.len(),
            shown == views(pieces@),
            views(found@) == followed(first, shown.subrange(0, index as int)),
        decreases pieces@.len() - index,
    {
        let piece = pieces[index];
        let ghost before = found@;
        proof {
            let longer = shown.subrange(0, index + 1);
            assert(longer.drop_last() =~= shown.subrange(0, index as int));
            assert(longer.last() == piece@);
            assert(piece@.len() == 1 && piece@[0] == 46 ==> piece@ =~= seq![46u8]);
            assert(piece@.len() == 2 && piece@[0] == 46 && piece@[1] == 46 ==> piece@ =~= seq![
                46u8,
                46u8,
            ]);
        }
        if piece.len() == 1 && piece[0] == 46 {
        } else if piece.len() == 2 && piece[0] == 46 && piece[1] == 46 {
            if found.len() > 0 && !piece_is_mark(found[found.len() - 1]) {
                assert(views(found@).last() == found@.last()@);
                found.pop();
                assert(views(found@) =~= views(before).drop_last());
            } else if found.len() > 0 {
                assert(views(found@).last() == found@.last()@);
            }
        } else {
            found.push(piece);
            assert(views(found@) =~= views(before).push(piece@));
        }
        index = index + 1;
    }
    assert(shown.subrange(0, shown.len() as int) =~= shown);
    found
}

fn join_verbatim(directory: &[u8], path: &[u8]) -> (all: Vec<u8>)
    ensures
        all@ == verbatim_joined(directory@, path@),
{
    let base = WindowsPath::read(directory);
    let (_, end) = read_prefix(path);
    let restarts = end < path.len() && is_separator(path[end], false);
    let pieces = WindowsPath::read(path).pieces;
    let rooted = base.rooted;
    let mut all = to_vec(slice_subrange(directory, 0, base.end));
    let start: Vec<&[u8]> = if restarts {
        Vec::new()
    } else {
        base.pieces
    };
    assert(restarts ==> views(start@) =~= Seq::<Seq<u8>>::empty());
    let names = follow(start, &pieces);
    assert(views(names@).len() == names@.len());
    if restarts || rooted || names.len() > 0 {
        all.push(92);
    }
    let ghost front = all@;
    let rest = slash_names(PathStyle::Windows, &names, 0, names.len());
    append_bytes(&mut all, rest.as_slice());
    assert(views(names@).subrange(0, names@.len() as int) =~= views(names@));
    assert(all@ =~= verbatim_joined(directory@, path@));
    all
}

fn join_windows(directory: &[u8], path: &[u8]) -> (all: Vec<u8>)
    ensures
        all@ == windows_joined(directory@, path@),
{
    let (prefix, end) = read_prefix(directory);
    let (own, own_end) = read_prefix(path);
    match own {
        WindowsPrefix::Absent => {},
        _ => {
            return to_vec(path);
        },
    }
    if prefix.verbatim() && path.len() > 0 {
        return join_verbatim(directory, path);
    }
    if own_end < path.len() && is_separator(path[own_end], false) {
        let mut all = to_vec(slice_subrange(directory, 0, end));
        append_bytes(&mut all, path);
        return all;
    }
    let bare = match prefix {
        WindowsPrefix::Disk(_) => end == directory.len(),
        _ => false,
    };
    let mut all = to_vec(directory);
    if directory.len() > 0 && !is_separator(directory[directory.len() - 1], false) && !bare {
        all.push(92);
    }
    append_bytes(&mut all, path);
    all
}

pub fn join_path(style: PathStyle, directory: &[u8], name: &[u8]) -> (path: Vec<u8>)
    ensures
        path@ == joined(style, directory@, name@),
{
    match style {
        PathStyle::Unix => {
            if absolute(style, name) {
                return to_vec(name);
            }
            let mut path = to_vec(directory);
            if directory.len() > 0 && directory[directory.len() - 1] != 47 {
                path.push(47);
            }
            append_bytes(&mut path, name);
            path
        },
        PathStyle::Windows => join_windows(directory, name),
    }
}

/// The absolute path that is made of the first `count` names of a path.
pub open spec fn rooted(style: PathStyle, path: Seq<u8>, count: int) -> Seq<u8> {
    (match style {
        PathStyle::Unix => Seq::empty(),
        PathStyle::Windows => path.subrange(0, prefix_of(path).1),
    }) + seq![style.mark()] + slashed(style.mark(), names(style, path).subrange(0, count))
}

/// The paths on the way to a path: one for each of its names, from the root down.
pub open spec fn stations(style: PathStyle, path: Seq<u8>) -> Seq<Seq<u8>> {
    Seq::new(names(style, path).len(), |i: int| rooted(style, path, i + 1))
}

pub fn rooted_path(style: PathStyle, path: &[u8], count: usize) -> (made: Vec<u8>)
    requires
        count <= names(style, path@).len(),
    ensures
        made@ == rooted(style, path@, count as int),
{
    let mut made: Vec<u8> = match style {
        PathStyle::Unix => Vec::new(),
        PathStyle::Windows => {
            let (_, end) = read_prefix(path);
            to_vec(slice_subrange(path, 0, end))
        },
    };
    made.push(style.separator());
    let all = path_names(style, path);
    assert(views(all@).len() == all@.len());
    let rest = slash_names(style, &all, 0, count);
    append_bytes(&mut made, rest.as_slice());
    assert(made@ =~= rooted(style, path@, count as int));
    made
}

/// One of the names is the mark of the parent.
pub open spec fn climbs(names: Seq<Seq<u8>>) -> bool {
    exists|i: int| 0 <= i < names.len() && #[trigger] names[i] == seq![46u8, 46u8]
}

/// One of the names is a mark.
pub open spec fn wanders(names: Seq<Seq<u8>>) -> bool {
    exists|i: int| 0 <= i < names.len() && is_mark(#[trigger] names[i])
}

pub fn names_climb(all: &Vec<&[u8]>) -> (yes: bool)
    ensures
        yes == climbs(views(all@)),
{
    let mut index: usize = 0;
    while index < all.len()
        invariant
            index <= all@.len(),
            forall|i: int| 0 <= i < index ==> (#[trigger] all@[i])@ != seq![46u8, 46u8],
        decreases all@.len() - index,
    {
        let name = all[index];
        if name.len() == 2 && name[0] == 46 && name[1] == 46 {
            assert(name@ =~= seq![46u8, 46u8]);
            assert(views(all@)[index as int] == name@);
            return true;
        }
        assert(name@ != seq![46u8, 46u8]) by {
            if name@ == seq![46u8, 46u8] {
                assert(name@.len() == 2);
            }
        }
        index = index + 1;
    }
    false
}

pub fn names_wander(all: &Vec<&[u8]>) -> (yes: bool)
    ensures
        yes == wanders(views(all@)),
{
    let mut index: usize = 0;
    while index < all.len()
        invariant
            index <= all@.len(),
            forall|i: int| 0 <= i < index ==> !is_mark((#[trigger] all@[i])@),
        decreases all@.len() - index,
    {
        if piece_is_mark(all[index]) {
            assert(is_mark(views(all@)[index as int]));
            return true;
        }
        index = index + 1;
    }
    false
}

#[derive(Clone, Copy, Debug, PartialEq, Eq, Structural)]
pub enum PathFault {
    NotAbsolute,
    Relative,
}

/// The paths that must not be links for a path to be reached without one.
/// A relative path, or one with marks among its names, has none.
pub fn link_checkpoints(style: PathStyle, path: &[u8]) -> (result: Result<Vec<Vec<u8>>, PathFault>)
    ensures
        match result {
            Ok(found) => is_absolute(style, path@) && !wanders(names(style, path@)) && byte_views(
                found@,
            ) == stations(style, path@),
            Err(PathFault::NotAbsolute) => !is_absolute(style, path@),
            Err(PathFault::Relative) => is_absolute(style, path@) && wanders(names(style, path@)),
        },
{
    if !absolute(style, path) {
        return Err(PathFault::NotAbsolute);
    }
    let all = path_names(style, path);
    if names_wander(&all) {
        return Err(PathFault::Relative);
    }
    let total: usize = all.len();
    assert(views(all@).len() == all@.len());
    let mut found: Vec<Vec<u8>> = Vec::new();
    let mut count: usize = 0;
    while count < total
        invariant
            count <= total == names(style, path@).len(),
            found@.len() == count,
            forall|i: int| 0 <= i < count ==> (#[trigger] found@[i])@ == rooted(style, path@, i + 1),
        decreases total - count,
    {
        found.push(rooted_path(style, path, count + 1));
        count = count + 1;
    }
    assert(byte_views(found@) =~= stations(style, path@));
    Ok(found)
}

/// The directories over an absolute path, from the nearest up to the root, but
/// not more than `limit`.
pub open spec fn directories_over(style: PathStyle, path: Seq<u8>, limit: int) -> Seq<Seq<u8>> {
    let count = names(style, path).len();
    Seq::new(
        (if count < limit {
            count
        } else {
            limit as nat
        }),
        |i: int| rooted(style, path, count - 1 - i),
    )
}

pub fn directories_above(style: PathStyle, path: &[u8], limit: usize) -> (found: Vec<Vec<u8>>)
    ensures
        byte_views(found@) == directories_over(style, path@, limit as int),
{
    let all = path_names(style, path);
    let total: usize = all.len();
    assert(views(all@).len() == all@.len());
    let mut found: Vec<Vec<u8>> = Vec::new();
    let mut index: usize = 0;
    while index < total && index < limit
        invariant
            index <= total == names(style, path@).len(),
            index <= limit,
            found@.len() == index,
            forall|i: int|
                0 <= i < index ==> (#[trigger] found@[i])@ == rooted(
                    style,
                    path@,
                    names(style, path@).len() - 1 - i,
                ),
        decreases total - index,
    {
        found.push(rooted_path(style, path, total - 1 - index));
        index = index + 1;
    }
    assert(byte_views(found@) =~= directories_over(style, path@, limit as int));
    found
}

// What paths are made of ------------------------------------------------------------------

proof fn lemma_one_piece(piece: Seq<u8>)
    requires
        !piece.contains(47),
    ensures
        split(piece, seq![47u8]) == seq![piece],
{
    let slash = seq![47u8];
    lemma_find_from_is_first(piece, slash, 0);
    if find(piece, slash) is Some {
        let at = find(piece, slash)->0;
        assert(piece.subrange(at, at + 1)[0] == piece[at]);
        assert(piece.contains(piece[at]));
    }
}

proof fn lemma_pieces_joined(front: Seq<u8>, back: Seq<u8>)
    ensures
        split(front + seq![47u8] + back, seq![47u8]) == split(front, seq![47u8]) + split(
            back,
            seq![47u8],
        ),
    decreases front.len(),
{
    let slash = seq![47u8];
    let all = front + slash + back;
    lemma_find_from_is_first(front, slash, 0);
    if find(front, slash) is Some {
        let at = find(front, slash)->0;
        lemma_find_in_extension(front, slash + back, slash);
        assert(front + (slash + back) =~= all);
        let rest = front.subrange(at + 1, front.len() as int);
        assert(all.subrange(at + 1, all.len() as int) =~= rest + slash + back);
        assert(all.subrange(0, at) =~= front.subrange(0, at));
        lemma_pieces_joined(rest, back);
        assert(split(all, slash) =~= split(front, slash) + split(back, slash));
    } else {
        let at = front.len() as int;
        assert(all.subrange(at, at + 1) =~= slash);
        assert forall|k: int| 0 <= k < at implies !#[trigger] occurs_at(all, slash, k) by {
            if occurs_at(all, slash, k) {
                assert(all.subrange(k, k + 1)[0] == front[k]);
                assert(front.subrange(k, k + 1) =~= slash);
                assert(occurs_at(front, slash, k));
            }
        }
        lemma_first_is_found(all, slash, at);
        assert(all.subrange(0, at) =~= front);
        assert(all.subrange(at + 1, all.len() as int) =~= back);
        assert(split(front, slash) == seq![front]);
    }
}

proof fn lemma_named_apart(left: Seq<Seq<u8>>, right: Seq<Seq<u8>>)
    ensures
        named_pieces(left + right) == named_pieces(left) + named_pieces(right),
    decreases right.len(),
{
    if right.len() == 0 {
        assert(left + right =~= left);
        assert(named_pieces(left) + named_pieces(right) =~= named_pieces(left));
    } else {
        lemma_named_apart(left, right.drop_last());
        assert((left + right).drop_last() =~= left + right.drop_last());
        assert((left + right).last() == right.last());
        assert(named_pieces(left + right) =~= named_pieces(left) + named_pieces(right));
    }
}

proof fn lemma_names_joined(front: Seq<u8>, back: Seq<u8>)
    ensures
        names(PathStyle::Unix, front + seq![47u8] + back) == names(PathStyle::Unix, front) + names(
            PathStyle::Unix,
            back,
        ),
{
    lemma_slash();
    lemma_pieces_joined(front, back);
    lemma_named_apart(split(front, seq![47u8]), split(back, seq![47u8]));
}

proof fn lemma_no_names()
    ensures
        names(PathStyle::Unix, Seq::empty()) == Seq::<Seq<u8>>::empty(),
{
    lemma_slash();
    lemma_one_piece(Seq::empty());
    let pieces = seq![Seq::<u8>::empty()];
    assert(pieces.drop_last() =~= Seq::<Seq<u8>>::empty());
    assert(named_pieces(pieces.drop_last()) =~= Seq::<Seq<u8>>::empty());
    assert(named_pieces(pieces) =~= Seq::<Seq<u8>>::empty());
}

proof fn lemma_plain_pieces(path: Seq<u8>)
    ensures
        forall|i: int|
            0 <= i < split(path, seq![47u8]).len() ==> !(#[trigger] split(
                path,
                seq![47u8],
            )[i]).contains(47),
    decreases path.len(),
{
    let slash = seq![47u8];
    lemma_find_from_is_first(path, slash, 0);
    if find(path, slash) is Some {
        let at = find(path, slash)->0;
        let first = path.subrange(0, at);
        let rest = path.subrange(at + 1, path.len() as int);
        if first.contains(47) {
            let k = choose|k: int| 0 <= k < first.len() && first[k] == 47;
            assert(path.subrange(k, k + 1) =~= slash);
            assert(occurs_at(path, slash, k));
        }
        lemma_plain_pieces(rest);
        assert(split(path, slash) == seq![first] + split(rest, slash));
        assert forall|i: int| 0 <= i < split(path, slash).len() implies !(#[trigger] split(
            path,
            slash,
        )[i]).contains(47) by {
            if i > 0 {
                assert(split(path, slash)[i] == split(rest, slash)[i - 1]);
            }
        }
    } else {
        if path.contains(47) {
            let k = choose|k: int| 0 <= k < path.len() && path[k] == 47;
            assert(path.subrange(k, k + 1) =~= slash);
            assert(occurs_at(path, slash, k));
        }
    }
}

proof fn lemma_named_are_pieces(pieces: Seq<Seq<u8>>)
    ensures
        forall|i: int|
            0 <= i < named_pieces(pieces).len() ==> pieces.contains(
                #[trigger] named_pieces(pieces)[i],
            ) && named_pieces(pieces)[i].len() > 0 && named_pieces(pieces)[i] != seq![46u8],
    decreases pieces.len(),
{
    if pieces.len() > 0 {
        let front = pieces.drop_last();
        lemma_named_are_pieces(front);
        assert forall|i: int| 0 <= i < named_pieces(pieces).len() implies pieces.contains(
            #[trigger] named_pieces(pieces)[i],
        ) && named_pieces(pieces)[i].len() > 0 && named_pieces(pieces)[i] != seq![46u8] by {
            if i < named_pieces(front).len() {
                let name = named_pieces(front)[i];
                assert(front.contains(name));
                let k = choose|k: int| 0 <= k < front.len() && front[k] == name;
                assert(pieces[k] == name);
            } else {
                assert(pieces[pieces.len() - 1] == pieces.last());
            }
        }
    }
}

/// A name of a path of Unix: it is not empty, not the mark of the directory itself, and it
/// holds no slash.
pub open spec fn is_name(name: Seq<u8>) -> bool {
    name.len() > 0 && name != seq![46u8] && !name.contains(47)
}

/// Between the slashes of a path of Unix stand its names.
pub proof fn law_names_stand_between_slashes(path: Seq<u8>)
    ensures
        forall|i: int|
            0 <= i < names(PathStyle::Unix, path).len() ==> is_name(
                #[trigger] names(PathStyle::Unix, path)[i],
            ),
{
    lemma_slash();
    lemma_plain_pieces(path);
    let pieces = split(path, seq![47u8]);
    lemma_named_are_pieces(pieces);
    assert forall|i: int| 0 <= i < names(PathStyle::Unix, path).len() implies is_name(
        #[trigger] names(PathStyle::Unix, path)[i],
    ) by {
        let name = named_pieces(pieces)[i];
        assert(pieces.contains(name));
        let k = choose|k: int| 0 <= k < pieces.len() && pieces[k] == name;
        assert(!pieces[k].contains(47));
    }
}

/// Names that are written with slashes between them are read back.
pub proof fn law_slashed_names_are_read_back(all: Seq<Seq<u8>>)
    requires
        forall|i: int| 0 <= i < all.len() ==> is_name(#[trigger] all[i]),
    ensures
        names(PathStyle::Unix, slashed(47, all)) == all,
    decreases all.len(),
{
    if all.len() == 0 {
        lemma_no_names();
        assert(all =~= Seq::<Seq<u8>>::empty());
    } else {
        let name = all.last();
        assert(is_name(all[all.len() - 1]));
        lemma_slash();
        lemma_one_piece(name);
        let pieces = seq![name];
        assert(pieces.drop_last() =~= Seq::<Seq<u8>>::empty());
        assert(named_pieces(pieces.drop_last()) =~= Seq::<Seq<u8>>::empty());
        assert(named_pieces(pieces) =~= seq![name]);
        if all.len() == 1 {
            assert(all =~= seq![name]);
        } else {
            let front = all.drop_last();
            assert forall|i: int| 0 <= i < front.len() implies is_name(#[trigger] front[i]) by {
                assert(front[i] == all[i]);
            }
            law_slashed_names_are_read_back(front);
            lemma_names_joined(slashed(47, front), name);
            assert(front + seq![name] =~= all);
        }
    }
}

/// A relative path that is joined to a directory of Unix adds its names to those of the
/// directory; an absolute one takes its place.
pub proof fn law_joining_adds_names(directory: Seq<u8>, path: Seq<u8>)
    ensures
        path.len() > 0 && path[0] == 47 ==> joined(PathStyle::Unix, directory, path) == path,
        path.len() == 0 || path[0] != 47 ==> names(
            PathStyle::Unix,
            joined(PathStyle::Unix, directory, path),
        ) == names(PathStyle::Unix, directory) + names(PathStyle::Unix, path),
{
    lemma_no_names();
    if directory.len() == 0 {
        assert(directory + path =~= path);
        assert(directory =~= Seq::<u8>::empty());
        assert(names(PathStyle::Unix, directory) + names(PathStyle::Unix, path) =~= names(
            PathStyle::Unix,
            path,
        ));
    } else if directory.last() == 47 {
        let front = directory.drop_last();
        assert(directory =~= front + seq![47u8] + Seq::<u8>::empty());
        lemma_names_joined(front, Seq::empty());
        assert(names(PathStyle::Unix, front) + Seq::<Seq<u8>>::empty() =~= names(
            PathStyle::Unix,
            front,
        ));
        assert(directory + path =~= front + seq![47u8] + path);
        lemma_names_joined(front, path);
    } else {
        lemma_names_joined(directory, path);
    }
}

/// An absolute path of Unix lies under another exactly if it begins with its names, and what
/// lies below are the names that follow.
pub proof fn law_paths_below_follow(path: Seq<u8>, base: Seq<u8>)
    requires
        path.len() > 0 && path[0] == 47,
        base.len() > 0 && base[0] == 47,
    ensures
        lies_under(PathStyle::Unix, path, base) <==> exists|more: Seq<Seq<u8>>|
            names(PathStyle::Unix, path) == #[trigger] (names(PathStyle::Unix, base) + more),
        below(PathStyle::Unix, path, base) is Some <==> lies_under(PathStyle::Unix, path, base),
        below(PathStyle::Unix, path, base) matches Some(rest) ==> names(PathStyle::Unix, path)
            == names(PathStyle::Unix, base) + names(PathStyle::Unix, rest),
        same_path(PathStyle::Unix, path, base) <==> names(PathStyle::Unix, path) == names(
            PathStyle::Unix,
            base,
        ),
{
    let all = names(PathStyle::Unix, path);
    let front = names(PathStyle::Unix, base);
    let long = parts(PathStyle::Unix, path);
    let short = parts(PathStyle::Unix, base);
    assert(long[0] == Part::Root && short[0] == Part::Root);
    assert(forall|i: int| 0 <= i < all.len() ==> long[i + 1] == Part::Name(#[trigger] all[i]));
    assert(forall|i: int| 0 <= i < front.len() ==> short[i + 1] == Part::Name(#[trigger] front[i]));
    if lies_under(PathStyle::Unix, path, base) {
        let cut = long.subrange(0, short.len() as int);
        assert forall|i: int| 0 <= i < front.len() implies #[trigger] front[i] == all[i] by {
            assert(cut[i + 1] == short[i + 1]);
            assert(long[i + 1] == Part::Name(all[i]));
        }
        let more = all.subrange(front.len() as int, all.len() as int);
        assert(all =~= front + more);
        law_names_stand_between_slashes(path);
        assert forall|i: int| 0 <= i < more.len() implies is_name(#[trigger] more[i]) by {
            assert(is_name(all[front.len() + i]));
        }
        law_slashed_names_are_read_back(more);
    }
    if exists|more: Seq<Seq<u8>>| all == #[trigger] (front + more) {
        let more = choose|more: Seq<Seq<u8>>| all == #[trigger] (front + more);
        let cut = long.subrange(0, short.len() as int);
        assert forall|i: int| 0 <= i < short.len() implies #[trigger] cut[i] == short[i] by {
            if i > 0 {
                assert(all[i - 1] == front[i - 1]);
                assert(short[i] == Part::Name(front[i - 1]));
            }
        }
        assert(cut =~= short);
    }
    if all == front {
        assert(long =~= short);
    }
    if long == short {
        assert forall|i: int| 0 <= i < all.len() implies all[i] == front[i] by {
            assert(long[i + 1] == Part::Name(all[i]));
            assert(short[i + 1] == Part::Name(front[i]));
        }
        assert(all =~= front);
    }
}

/// The directories over a path of Unix hold its first names.
pub proof fn law_directories_hold_the_first_names(path: Seq<u8>, count: int)
    requires
        0 <= count <= names(PathStyle::Unix, path).len(),
    ensures
        ({
            let directory = rooted(PathStyle::Unix, path, count);
            &&& directory.len() > 0 && directory[0] == 47
            &&& names(PathStyle::Unix, directory) == names(PathStyle::Unix, path).take(count)
        }),
{
    let first = names(PathStyle::Unix, path).subrange(0, count);
    law_names_stand_between_slashes(path);
    assert forall|i: int| 0 <= i < first.len() implies is_name(#[trigger] first[i]) by {
        assert(is_name(names(PathStyle::Unix, path)[i]));
    }
    law_slashed_names_are_read_back(first);
    lemma_no_names();
    lemma_names_joined(Seq::empty(), slashed(47, first));
    assert(Seq::<Seq<u8>>::empty() + first =~= first);
    assert(first =~= names(PathStyle::Unix, path).take(count));
}

/// A name that is made of a stem, a dot, and an ending without one.
pub open spec fn is_ending(name: Seq<u8>, stem: Seq<u8>, ending: Seq<u8>) -> bool {
    stem.len() > 0 && !ending.contains(46) && name == stem + seq![46u8] + ending
}

/// The name of a file is the last name of its path, and its extension stands behind the last
/// dot of that name, unless the name begins with this dot.
pub proof fn law_extensions_stand_behind_the_last_dot(style: PathStyle, path: Seq<u8>)
    ensures
        extension(style, path) matches Some(ending) ==> names(style, path).len() > 0 && exists|
            stem: Seq<u8>,
        | #[trigger]
            is_ending(names(style, path).last(), stem, ending),
        extension(style, path) is None && names(style, path).len() > 0 && names(style, path).last()
            != seq![46u8, 46u8] ==> forall|i: int|
            1 <= i < names(style, path).last().len() ==> #[trigger] names(style, path).last()[i]
                != 46,
        file_name(style, path) is Some ==> names(style, path).len() > 0 && file_name(style, path)
            == Some(names(style, path).last()),
{
    if names(style, path).len() > 0 {
        let name = names(style, path).last();
        lemma_last_dot(name);
        if extension(style, path) is Some {
            let at = last_dot(name);
            let stem = name.subrange(0, at);
            let ending = extension(style, path)->0;
            assert(ending == name.subrange(at + 1, name.len() as int));
            assert(name =~= stem + seq![46u8] + ending);
            if ending.contains(46) {
                let k = choose|k: int| 0 <= k < ending.len() && ending[k] == 46;
                assert(name[at + 1 + k] == 46);
            }
            assert(is_ending(names(style, path).last(), stem, ending));
        } else if !is_mark(name) {
            assert(file_name(style, path) == Some(name));
            assert(last_dot(name) <= 0);
            assert forall|i: int| 1 <= i < name.len() implies #[trigger] name[i] != 46 by {
            }
        } else if name == seq![46u8] {
            assert(name.len() == 1);
            assert forall|i: int| 1 <= i < name.len() implies #[trigger] name[i] != 46 by {
            }
        } else {
            assert(name == seq![46u8, 46u8]);
        }
    } else {
        assert(extension(style, path) is None);
    }
}

proof fn lemma_last_dot(name: Seq<u8>)
    ensures
        -1 <= last_dot(name) < name.len(),
        last_dot(name) >= 0 ==> name[last_dot(name)] == 46,
        forall|i: int| last_dot(name) < i < name.len() ==> #[trigger] name[i] != 46,
    decreases name.len(),
{
    if name.len() > 0 && name.last() != 46 {
        lemma_last_dot(name.drop_last());
        assert forall|i: int| last_dot(name) < i < name.len() implies #[trigger] name[i] != 46 by {
            if i < name.len() - 1 {
                assert(name.drop_last()[i] == name[i]);
            }
        }
    }
}

} // verus!
