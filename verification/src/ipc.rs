//! How the running instances of the viewer find each other and pass requests on.
//!
//! Every instance listens on a socket of its own. A connection carries one
//! request, a document on one line, and at most one answer. Both are of limited
//! size, and both name the version of the protocol.

use crate::bytes::{
    bytes_before, is_bytes_before, lemma_bytes_chain, lemma_bytes_order, lemma_decimal_round_trip,
    to_vec,
};
use crate::order::{
    is_order, is_ranked, law_ranking_keeps_every_item, law_ranking_puts_in_order, rank_of, ranked,
};
use crate::paths::{
    absolute, climbs, is_absolute, join_path, joined, names, names_climb, path_names, PathStyle,
};
use crate::text::{
    copy_text, lossy, lossy_text, number_text, push_number, string_views,
};
use vstd::prelude::*;
use vstd::utf8::encode_utf8;

verus! {

/// The version of the protocol that is spoken here. Others are turned down, so
/// that a newer and an older build do not misread each other.
pub const PROTOCOL_VERSION: u32 = 1;

/// How long a request or an answer may be, in bytes.
pub const MAX_REQUEST_BYTES: usize = 64 * 1024;

/// How many connections are served at a time.
pub const MAX_ACTIVE_CONNECTIONS: usize = 4;

/// How many sockets are asked when instances are looked for.
pub const MAX_DISCOVERED_INSTANCES: usize = 64;

/// How long one exchange may take, in milliseconds.
pub const IO_TIMEOUT: u64 = 2_000;

/// How much of a request that is too long is read before it is answered.
pub const MAX_DRAIN_BYTES: usize = MAX_REQUEST_BYTES;

/// How long a socket is asked when instances are looked for, in milliseconds.
pub const DISCOVERY_TIMEOUT: u64 = 500;

/// How long an instance may take to open what it was asked to, in milliseconds.
pub const OPEN_REPLY_TIMEOUT: u64 = 5_000;

/// Who a live instance is.
#[derive(Debug, Clone, PartialEq, Eq)]
pub struct InstanceInfo {
    pub proto: u32,
    pub pid: u32,
    pub root: String,
    pub version: String,
    pub started_at_ms: u64,
}

pub struct InfoRecord {
    pub proto: u32,
    pub pid: u32,
    pub root: Seq<char>,
    pub version: Seq<char>,
    pub started_at_ms: u64,
}

impl View for InstanceInfo {
    type V = InfoRecord;

    open spec fn view(&self) -> InfoRecord {
        InfoRecord {
            proto: self.proto,
            pid: self.pid,
            root: self.root@,
            version: self.version@,
            started_at_ms: self.started_at_ms,
        }
    }
}

impl InstanceInfo {
    pub fn copy(&self) -> (info: InstanceInfo)
        ensures
            info@ == self@,
    {
        InstanceInfo {
            proto: self.proto,
            pid: self.pid,
            root: copy_text(self.root.as_str()),
            version: copy_text(self.version.as_str()),
            started_at_ms: self.started_at_ms,
        }
    }
}

/// What is asked of an instance.
#[derive(Debug, Clone, PartialEq, Eq)]
pub struct Request {
    pub proto: u32,
    pub body: RequestBody,
}

#[derive(Debug, Clone, PartialEq, Eq)]
pub enum RequestBody {
    /// Who are you?
    Info,
    /// Open these files.
    Open { paths: Vec<String>, focus: Focus },
}

/// Where a file is shown that was opened.
#[derive(Debug, Clone, Copy, PartialEq, Eq, Structural)]
pub enum Focus {
    /// In the tab that is shown.
    Active,
    /// In a tab of its own.
    NewTab,
}

impl Default for Focus {
    fn default() -> (focus: Self)
        ensures
            focus is Active,
    {
        Focus::Active
    }
}

/// What an instance answers.
#[derive(Debug, Clone, PartialEq, Eq)]
pub struct Response {
    pub proto: u32,
    pub body: ResponseBody,
}

#[derive(Debug, Clone, PartialEq, Eq)]
pub enum ResponseBody {
    Info { info: InstanceInfo },
    Opened { opened: Vec<String> },
    Error { message: String },
}

pub struct ResponseRecord {
    pub proto: u32,
    pub body: BodyRecord,
}

pub enum BodyRecord {
    Info(InfoRecord),
    Opened(Seq<Seq<char>>),
    Error(Seq<char>),
}

impl View for ResponseBody {
    type V = BodyRecord;

    open spec fn view(&self) -> BodyRecord {
        match self {
            ResponseBody::Info { info } => BodyRecord::Info(info@),
            ResponseBody::Opened { opened } => BodyRecord::Opened(string_views(opened@)),
            ResponseBody::Error { message } => BodyRecord::Error(message@),
        }
    }
}

impl View for Response {
    type V = ResponseRecord;

    open spec fn view(&self) -> ResponseRecord {
        ResponseRecord { proto: self.proto, body: self.body@ }
    }
}

/// What goes wrong when an instance is asked.
#[derive(Debug)]
pub enum IpcError {
    /// The instance cannot be reached.
    Io { path: Vec<u8>, source: String },
    /// The instance does not keep to the protocol.
    Protocol(String),
}

impl IpcError {
    pub open spec fn text(&self) -> Seq<char> {
        match self {
            IpcError::Io { path, source } => "cannot reach instance socket "@ + lossy(path@)
                + ": "@ + source@,
            IpcError::Protocol(message) => "instance protocol error: "@ + message@,
        }
    }

    pub fn message(&self) -> (words: String)
        ensures
            words@ == self.text(),
    {
        match self {
            IpcError::Io { path, source } => {
                let shown = lossy_text(path.as_slice());
                let mut words = copy_text("cannot reach instance socket ");
                words.push_str(shown.as_str());
                words.push_str(": ");
                words.push_str(source.as_str());
                words
            },
            IpcError::Protocol(message) => {
                let mut words = copy_text("instance protocol error: ");
                words.push_str(message.as_str());
                words
            },
        }
    }
}

// The directory ---------------------------------------------------------------------------

/// The directory under which sockets are kept where none is set: the one for
/// running programs, or one of the user's own among the temporary ones. The temporary
/// directory of Windows is the user's own.
pub open spec fn default_root(
    style: PathStyle,
    running: Option<Seq<u8>>,
    user: nat,
    temporary: Seq<u8>,
) -> Seq<u8> {
    let own = joined(style, temporary, encode_utf8("latte-lens-"@ + number_text(user)));
    match style {
        PathStyle::Windows => joined(style, temporary, encode_utf8("latte-lens"@)),
        PathStyle::Unix => match running {
            Some(path) => if path.len() > 0 {
                joined(style, path, encode_utf8("latte-lens"@))
            } else {
                own
            },
            None => own,
        },
    }
}

pub fn default_runtime_root(
    style: PathStyle,
    running: Option<&[u8]>,
    user: u32,
    temporary: &[u8],
) -> (root: Vec<u8>)
    ensures
        root@ == default_root(
            style,
            match running {
                Some(path) => Some(path@),
                None => None,
            },
            user as nat,
            temporary@,
        ),
{
    if style == PathStyle::Windows {
        return join_path(style, temporary, "latte-lens".as_bytes());
    }
    if let Some(path) = running {
        if path.len() > 0 {
            return join_path(style, path, "latte-lens".as_bytes());
        }
    }
    let mut name = copy_text("latte-lens-");
    push_number(&mut name, user as u64);
    join_path(style, temporary, name.as_str().as_bytes())
}

/// The root that is used.
pub open spec fn chosen_root(set: Option<Seq<u8>>, usual: Seq<u8>) -> Seq<u8> {
    match set {
        Some(path) => if path.len() > 0 {
            path
        } else {
            usual
        },
        None => usual,
    }
}

/// The directory of the sockets, or the root that cannot be used for it: it must
/// be absolute and must not climb.
pub fn runtime_dir(style: PathStyle, set: Option<&[u8]>, usual: &[u8]) -> (result: Result<
    Vec<u8>,
    Vec<u8>,
>)
    ensures
        ({
            let root = chosen_root(
                match set {
                    Some(path) => Some(path@),
                    None => None,
                },
                usual@,
            );
            match result {
                Ok(directory) => is_absolute(style, root) && !climbs(names(style, root))
                    && directory@ == joined(style, root, encode_utf8("instances"@)),
                Err(refused) => (!is_absolute(style, root) || climbs(names(style, root)))
                    && refused@ == root,
            }
        }),
{
    let root: &[u8] = match set {
        Some(path) => if path.len() > 0 {
            path
        } else {
            usual
        },
        None => usual,
    };
    if !absolute(style, root) || names_climb(&path_names(style, root)) {
        return Err(to_vec(root));
    }
    Ok(join_path(style, root, "instances".as_bytes()))
}

/// Whether the permissions of a directory have to be narrowed to its owner.
pub fn wants_narrowing(mode: u32) -> (yes: bool)
    ensures
        yes == (mode & 0o777 != 0o700),
{
    mode & 0o777 != 0o700
}

/// Whether others than its owner can use a directory.
pub fn is_exposed(mode: u32) -> (yes: bool)
    ensures
        yes == (mode & 0o077 != 0),
{
    mode & 0o077 != 0
}

// Names of sockets ------------------------------------------------------------------------

/// A digit to the base of sixteen.
pub open spec fn hex_digit(value: u32) -> char {
    if value < 10 {
        ((48 + value) as u8) as char
    } else {
        ((87 + value) as u8) as char
    }
}

/// Four bits of a number, the highest first.
pub open spec fn nibble(value: u32, place: int) -> u32 {
    (value >> ((28 - 4 * place) as u32)) & 15
}

/// The eight digits of a number to the base of sixteen.
pub open spec fn hex_text(value: u32) -> Seq<char> {
    Seq::new(8, |i: int| hex_digit(nibble(value, i)))
}

/// The name of the socket of a process. The salt tells apart processes that had
/// the same number at different times.
pub open spec fn socket_name(pid: u32, salt: u32) -> Seq<char> {
    number_text(pid as nat) + "-"@ + hex_text(salt) + ".sock"@
}

pub fn socket_file_name(pid: u32, salt: u32) -> (name: String)
    ensures
        name@ == socket_name(pid, salt),
{
    let mut name = String::new();
    push_number(&mut name, pid as u64);
    name.push_str("-");
    let ghost before = name@;
    let mut place: u32 = 0;
    assert(name@ =~= before + hex_text(salt).subrange(0, 0));
    while place < 8
        invariant
            place <= 8,
            name@ == before + hex_text(salt).subrange(0, place as int),
        decreases 8 - place,
    {
        let bits: u32 = (salt >> (28 - 4 * place)) & 15;
        assert(bits <= 15) by {
            let shifted = salt >> ((28 - 4 * place) as u32);
            assert(shifted & 15 <= 15) by (bit_vector);
        }
        let digit: u8 = if bits < 10 {
            48 + bits as u8
        } else {
            87 + bits as u8
        };
        name.push(digit as char);
        assert(name@ =~= before + hex_text(salt).subrange(0, place + 1));
        place = place + 1;
    }
    assert(hex_text(salt).subrange(0, 8) =~= hex_text(salt));
    name.push_str(".sock");
    assert(name@ =~= socket_name(pid, salt));
    name
}

proof fn lemma_digits_are_told_apart(left: u32, right: u32)
    requires
        left <= 15,
        right <= 15,
        hex_digit(left) == hex_digit(right),
    ensures
        left == right,
{
    let a: u8 = if left < 10 {
        (48 + left) as u8
    } else {
        (87 + left) as u8
    };
    let b: u8 = if right < 10 {
        (48 + right) as u8
    } else {
        (87 + right) as u8
    };
    assert(a as char == b as char);
    assert(a == b);
}

proof fn lemma_hex_is_injective(left: u32, right: u32)
    requires
        hex_text(left) == hex_text(right),
    ensures
        left == right,
{
    assert forall|i: int| 0 <= i < 8 implies nibble(left, i) == nibble(right, i) by {
        assert(hex_text(left)[i] == hex_digit(nibble(left, i)));
        assert(hex_text(right)[i] == hex_digit(nibble(right, i)));
        let a = left >> ((28 - 4 * i) as u32);
        let b = right >> ((28 - 4 * i) as u32);
        assert(a & 15 <= 15) by (bit_vector);
        assert(b & 15 <= 15) by (bit_vector);
        lemma_digits_are_told_apart(nibble(left, i), nibble(right, i));
    }
    assert(nibble(left, 0) == nibble(right, 0));
    assert(nibble(left, 1) == nibble(right, 1));
    assert(nibble(left, 2) == nibble(right, 2));
    assert(nibble(left, 3) == nibble(right, 3));
    assert(nibble(left, 4) == nibble(right, 4));
    assert(nibble(left, 5) == nibble(right, 5));
    assert(nibble(left, 6) == nibble(right, 6));
    assert(nibble(left, 7) == nibble(right, 7));
    assert(left == right) by (bit_vector)
        requires
            (left >> 28u32) & 15 == (right >> 28u32) & 15,
            (left >> 24u32) & 15 == (right >> 24u32) & 15,
            (left >> 20u32) & 15 == (right >> 20u32) & 15,
            (left >> 16u32) & 15 == (right >> 16u32) & 15,
            (left >> 12u32) & 15 == (right >> 12u32) & 15,
            (left >> 8u32) & 15 == (right >> 8u32) & 15,
            (left >> 4u32) & 15 == (right >> 4u32) & 15,
            (left >> 0u32) & 15 == (right >> 0u32) & 15,
    ;
}

proof fn lemma_number_is_injective(left: nat, right: nat)
    requires
        number_text(left) == number_text(right),
    ensures
        left == right,
{
    let a = crate::bytes::decimal_digits(left);
    let b = crate::bytes::decimal_digits(right);
    lemma_decimal_round_trip(left);
    lemma_decimal_round_trip(right);
    assert(a.len() == number_text(left).len());
    assert forall|i: int| 0 <= i < a.len() implies a[i] == b[i] by {
        assert(number_text(left)[i] == a[i] as char);
        assert(number_text(right)[i] == b[i] as char);
    }
    assert(a =~= b);
}

/// No two sockets have the same name unless they belong to the same process number
/// with the same salt.
pub proof fn law_socket_names_are_told_apart(pid: u32, salt: u32, other_pid: u32, other_salt: u32)
    requires
        socket_name(pid, salt) == socket_name(other_pid, other_salt),
    ensures
        pid == other_pid,
        salt == other_salt,
{
    reveal_strlit("-");
    reveal_strlit(".sock");
    let left = socket_name(pid, salt);
    let right = socket_name(other_pid, other_salt);
    let a = number_text(pid as nat);
    let b = number_text(other_pid as nat);
    assert(left.len() == a.len() + 14);
    assert(right.len() == b.len() + 14);
    assert(a =~= left.subrange(0, a.len() as int));
    assert(b =~= right.subrange(0, a.len() as int));
    lemma_number_is_injective(pid as nat, other_pid as nat);
    assert(hex_text(salt) =~= left.subrange((a.len() + 1) as int, (a.len() + 9) as int));
    assert(hex_text(other_salt) =~= right.subrange((a.len() + 1) as int, (a.len() + 9) as int));
    lemma_hex_is_injective(salt, other_salt);
}

/// A number that differs from one start to the next, out of the time since 1970.
pub open spec fn salt_of(seconds: u64, nanos: u32) -> u32 {
    (seconds as u32) ^ ((nanos << 16u32) | (nanos >> 16u32))
}

/// The salt of an instance that starts at a time; a time before 1970 gives none.
pub fn startup_salt(since_epoch: Option<(u64, u32)>) -> (salt: u32)
    ensures
        salt == (match since_epoch {
            Some((seconds, nanos)) => salt_of(seconds, nanos),
            None => 0,
        }),
{
    match since_epoch {
        Some((seconds, nanos)) => {
            let low: u32 = #[verifier::truncate] (seconds as u32);
            low ^ ((nanos << 16u32) | (nanos >> 16u32))
        },
        None => 0,
    }
}

/// Milliseconds as far as they fit; none before 1970.
pub fn unix_millis(since_epoch: Option<u128>) -> (millis: u64)
    ensures
        millis == (match since_epoch {
            None => 0,
            Some(elapsed) => if elapsed <= u64::MAX {
                elapsed as int
            } else {
                u64::MAX as int
            },
        }),
{
    match since_epoch {
        None => 0,
        Some(elapsed) => if elapsed <= 18_446_744_073_709_551_615 {
            elapsed as u64
        } else {
            18_446_744_073_709_551_615
        },
    }
}

// Reading requests ------------------------------------------------------------------------

/// What was read of a request so far.
#[derive(Debug)]
pub struct RequestBuffer {
    pub bytes: Vec<u8>,
}

/// What a look at more bytes comes to.
#[derive(Debug)]
pub enum RequestRead {
    /// The end of the request is not there yet.
    More,
    /// The request is complete.
    Complete(Vec<u8>),
    /// The request is too long, and not at its end.
    Oversized,
}

pub enum ReadRecord {
    More,
    Complete(Seq<u8>),
    Oversized,
}

impl View for RequestRead {
    type V = ReadRecord;

    open spec fn view(&self) -> ReadRecord {
        match self {
            RequestRead::More => ReadRecord::More,
            RequestRead::Complete(bytes) => ReadRecord::Complete(bytes@),
            RequestRead::Oversized => ReadRecord::Oversized,
        }
    }
}

/// The place of the first line feed from a place on, or the end.
pub open spec fn feed_place(bytes: Seq<u8>, from: int) -> int
    decreases bytes.len() - from,
{
    if 0 <= from < bytes.len() && bytes[from] != 10 {
        feed_place(bytes, from + 1)
    } else {
        from
    }
}

/// The bytes before the first line feed.
pub open spec fn first_line(bytes: Seq<u8>) -> Seq<u8> {
    bytes.subrange(0, feed_place(bytes, 0))
}

/// What more bytes make of a request. What follows its end is not looked at.
pub open spec fn after_chunk(before: Seq<u8>, chunk: Seq<u8>) -> ReadRecord {
    if feed_place(chunk, 0) < chunk.len() {
        ReadRecord::Complete(before + first_line(chunk))
    } else if before.len() + chunk.len() > MAX_REQUEST_BYTES {
        ReadRecord::Oversized
    } else {
        ReadRecord::More
    }
}

proof fn lemma_feed_place(bytes: Seq<u8>, from: int)
    requires
        0 <= from <= bytes.len(),
    ensures
        from <= feed_place(bytes, from) <= bytes.len(),
        feed_place(bytes, from) < bytes.len() ==> bytes[feed_place(bytes, from)] == 10,
        forall|i: int| from <= i < feed_place(bytes, from) ==> #[trigger] bytes[i] != 10,
    decreases bytes.len() - from,
{
    if from < bytes.len() && bytes[from] != 10 {
        lemma_feed_place(bytes, from + 1);
        assert forall|i: int| from <= i < feed_place(bytes, from) implies #[trigger] bytes[i]
            != 10 by {
            if i > from {
                assert(from + 1 <= i);
            }
        }
    }
}

impl RequestBuffer {
    pub fn new() -> (buffer: Self)
        ensures
            buffer.bytes@.len() == 0,
    {
        RequestBuffer { bytes: Vec::new() }
    }

    /// Takes more bytes of a request.
    pub fn push(&mut self, chunk: &[u8]) -> (read: RequestRead)
        ensures
            read@ == after_chunk(old(self).bytes@, chunk@),
            read is Complete ==> final(self).bytes@ == old(self).bytes@,
            !(read is Complete) ==> final(self).bytes@ == old(self).bytes@ + chunk@,
    {
        let mut end: usize = 0;
        while end < chunk.len() && chunk[end] != 10
            invariant
                end <= chunk@.len(),
                feed_place(chunk@, 0) == feed_place(chunk@, end as int),
            decreases chunk@.len() - end,
        {
            end = end + 1;
        }
        if end < chunk.len() {
            let mut bytes = to_vec(self.bytes.as_slice());
            let line = vstd::slice::slice_subrange(chunk, 0, end);
            bytes.extend_from_slice(line);
            assert(bytes@ =~= self.bytes@ + first_line(chunk@));
            return RequestRead::Complete(bytes);
        }
        self.bytes.extend_from_slice(chunk);
        assert(self.bytes@ =~= old(self).bytes@ + chunk@);
        if self.bytes.len() > MAX_REQUEST_BYTES {
            RequestRead::Oversized
        } else {
            RequestRead::More
        }
    }
}

/// What a whole request that comes in parts is read as: its bytes, or nothing if
/// it is too long. The last part is followed by the end of the connection.
pub open spec fn read_whole(before: Seq<u8>, chunks: Seq<Seq<u8>>) -> Option<Seq<u8>>
    decreases chunks.len(),
{
    if chunks.len() == 0 {
        if before.len() <= MAX_REQUEST_BYTES {
            Some(before)
        } else {
            None
        }
    } else {
        match after_chunk(before, chunks[0]) {
            ReadRecord::Complete(bytes) => if bytes.len() <= MAX_REQUEST_BYTES {
                Some(bytes)
            } else {
                None
            },
            ReadRecord::Oversized => None,
            ReadRecord::More => read_whole(before + chunks[0], chunks.drop_first()),
        }
    }
}

/// Parts put together.
pub open spec fn put_together(chunks: Seq<Seq<u8>>) -> Seq<u8>
    decreases chunks.len(),
{
    if chunks.len() == 0 {
        Seq::empty()
    } else {
        chunks[0] + put_together(chunks.drop_first())
    }
}

proof fn lemma_feed_behind(front: Seq<u8>, rest: Seq<u8>, from: int)
    requires
        0 <= from <= front.len(),
        forall|i: int| from <= i < front.len() ==> #[trigger] front[i] != 10,
    ensures
        feed_place(front + rest, from) == front.len() + feed_place(rest, 0),
    decreases front.len() - from,
{
    let all = front + rest;
    if from < front.len() {
        assert(all[from] == front[from]);
        lemma_feed_behind(front, rest, from + 1);
    } else {
        lemma_feed_shift(front, rest, 0);
    }
}

proof fn lemma_feed_shift(front: Seq<u8>, rest: Seq<u8>, from: int)
    requires
        0 <= from <= rest.len(),
    ensures
        feed_place(front + rest, front.len() + from) == front.len() + feed_place(rest, from),
    decreases rest.len() - from,
{
    let all = front + rest;
    if from < rest.len() {
        assert(all[front.len() + from] == rest[from]);
        if rest[from] != 10 {
            lemma_feed_shift(front, rest, from + 1);
        }
    }
}

proof fn lemma_feed_inside(front: Seq<u8>, rest: Seq<u8>, from: int)
    requires
        0 <= from <= front.len(),
        feed_place(front, from) < front.len(),
    ensures
        feed_place(front + rest, from) == feed_place(front, from),
    decreases front.len() - from,
{
    let all = front + rest;
    if from < front.len() {
        assert(all[from] == front[from]);
        if front[from] != 10 {
            lemma_feed_inside(front, rest, from + 1);
        }
    }
}

proof fn lemma_read_whole(before: Seq<u8>, chunks: Seq<Seq<u8>>)
    requires
        before.len() <= MAX_REQUEST_BYTES,
        forall|i: int| 0 <= i < before.len() ==> #[trigger] before[i] != 10,
    ensures
        ({
            let line = first_line(before + put_together(chunks));
            read_whole(before, chunks) == (if line.len() <= MAX_REQUEST_BYTES {
                Some(line)
            } else {
                None
            })
        }),
    decreases chunks.len(),
{
    let all = before + put_together(chunks);
    if chunks.len() == 0 {
        assert(all =~= before);
        lemma_feed_place(before, 0);
        assert(first_line(before) =~= before);
    } else {
        let chunk = chunks[0];
        let rest = put_together(chunks.drop_first());
        let front = before + chunk;
        assert(all =~= front + rest);
        lemma_feed_place(chunk, 0);
        lemma_feed_behind(before, chunk, 0);
        if feed_place(chunk, 0) < chunk.len() {
            lemma_feed_inside(front, rest, 0);
            assert(first_line(all) =~= before + first_line(chunk));
        } else {
            assert forall|i: int| 0 <= i < front.len() implies #[trigger] front[i] != 10 by {
                if i >= before.len() {
                    assert(front[i] == chunk[i - before.len()]);
                }
            }
            lemma_feed_behind(front, rest, 0);
            lemma_feed_place(rest, 0);
            if front.len() <= MAX_REQUEST_BYTES {
                lemma_read_whole(front, chunks.drop_first());
            }
        }
    }
}

/// However a connection cuts what it carries, the request is its first line, and it
/// is taken exactly if that line is not too long.
pub proof fn law_cuts_do_not_change_a_request(chunks: Seq<Seq<u8>>)
    ensures
        ({
            let line = first_line(put_together(chunks));
            read_whole(Seq::empty(), chunks) == (if line.len() <= MAX_REQUEST_BYTES {
                Some(line)
            } else {
                None
            })
        }),
{
    lemma_read_whole(Seq::empty(), chunks);
    assert(Seq::<u8>::empty() + put_together(chunks) =~= put_together(chunks));
}

/// Whether more of a request that is too long is read: not behind its end, and not
/// without a limit.
pub fn keep_draining(consumed: usize, chunk: &[u8]) -> (more: Option<usize>)
    ensures
        ({
            let total = consumed + chunk@.len();
            if chunk@.len() == 0 || feed_place(chunk@, 0) < chunk@.len() || total
                >= MAX_DRAIN_BYTES {
                more is None
            } else {
                more == Some(total as usize)
            }
        }),
{
    let mut end: usize = 0;
    while end < chunk.len() && chunk[end] != 10
        invariant
            end <= chunk@.len(),
            feed_place(chunk@, 0) == feed_place(chunk@, end as int),
        decreases chunk@.len() - end,
    {
        end = end + 1;
    }
    if chunk.len() == 0 || end < chunk.len() {
        return None;
    }
    match consumed.checked_add(chunk.len()) {
        None => None,
        Some(total) => if total >= MAX_DRAIN_BYTES {
            None
        } else {
            Some(total)
        },
    }
}

/// Whether one more connection is served.
pub fn admits_connection(active: usize) -> (admitted: bool)
    ensures
        admitted == (active < MAX_ACTIVE_CONNECTIONS),
{
    active < MAX_ACTIVE_CONNECTIONS
}

// Answers ---------------------------------------------------------------------------------

/// A request to open files that waits until the viewer gets to it.
#[derive(Debug)]
pub struct InstanceRequest {
    pub paths: Vec<String>,
    pub focus: Focus,
    /// The number under which the answer is handed back.
    pub ticket: u64,
}

/// The requests that wait for the viewer, the oldest first.
#[derive(Debug)]
pub struct RequestInbox {
    pub waiting: Vec<InstanceRequest>,
    pub next_ticket: u64,
}

pub fn new_request_inbox() -> (inbox: RequestInbox)
    ensures
        inbox.waiting@.len() == 0,
        inbox.next_ticket == 0,
{
    RequestInbox { waiting: Vec::new(), next_ticket: 0 }
}

impl RequestInbox {
    /// Takes the oldest request.
    pub fn take(&mut self) -> (request: Option<InstanceRequest>)
        ensures
            final(self).next_ticket == old(self).next_ticket,
            if old(self).waiting@.len() == 0 {
                request is None && final(self).waiting@ == old(self).waiting@
            } else {
                &&& request == Some(old(self).waiting@[0])
                &&& final(self).waiting@ == old(self).waiting@.remove(0)
            },
    {
        if self.waiting.len() == 0 {
            return None;
        }
        Some(self.waiting.remove(0))
    }
}

pub open spec fn error_record(message: Seq<char>) -> ResponseRecord {
    ResponseRecord { proto: PROTOCOL_VERSION, body: BodyRecord::Error(message) }
}

pub fn error_response(message: &str) -> (response: Response)
    ensures
        response@ == error_record(message@),
{
    Response {
        proto: PROTOCOL_VERSION,
        body: ResponseBody::Error { message: copy_text(message) },
    }
}

/// What is done about a request.
#[derive(Debug)]
pub enum RequestAction {
    /// It is answered at once.
    Reply(Response),
    /// It waits for the viewer under this number.
    Wait(u64),
}

/// What becomes of a request to open files: it waits for the viewer, if the viewer
/// takes any.
pub open spec fn is_forwarded(
    paths: Vec<String>,
    focus: Focus,
    before: Option<RequestInbox>,
    after: Option<RequestInbox>,
    action: RequestAction,
) -> bool {
    match before {
        None => {
            &&& after == before
            &&& action matches RequestAction::Reply(response)
            &&& response@ == error_record("this instance does not accept 'open' requests"@)
        },
        Some(inbox) => if paths@.len() == 0 {
            &&& after == before
            &&& action matches RequestAction::Reply(response)
            &&& response@ == error_record("open requires at least one path"@)
        } else {
            &&& action == RequestAction::Wait(inbox.next_ticket)
            &&& after matches Some(kept)
            &&& kept.waiting@ == inbox.waiting@.push(
                InstanceRequest { paths, focus, ticket: inbox.next_ticket },
            )
            &&& kept.next_ticket == (if inbox.next_ticket == u64::MAX {
                0
            } else {
                inbox.next_ticket + 1
            })
        },
    }
}

pub fn forward_open(paths: Vec<String>, focus: Focus, inbox: &mut Option<RequestInbox>) -> (action:
    RequestAction)
    ensures
        is_forwarded(paths, focus, *old(inbox), *final(inbox), action),
{
    match inbox.take() {
        None => RequestAction::Reply(
            error_response("this instance does not accept 'open' requests"),
        ),
        Some(open) => {
            let mut open = open;
            if paths.len() == 0 {
                *inbox = Some(open);
                return RequestAction::Reply(error_response("open requires at least one path"));
            }
            let ticket: u64 = open.next_ticket;
            open.waiting.push(InstanceRequest { paths, focus, ticket });
            open.next_ticket = if ticket == u64::MAX {
                0
            } else {
                ticket + 1
            };
            *inbox = Some(open);
            RequestAction::Wait(ticket)
        },
    }
}

/// The answer to a request that waited for the viewer.
pub fn finish_open(answer: Option<ResponseBody>) -> (response: Response)
    ensures
        response@ == (match answer {
            Some(body) => ResponseRecord { proto: PROTOCOL_VERSION, body: body@ },
            None => error_record("the instance did not answer the open request in time"@),
        }),
{
    match answer {
        Some(body) => Response { proto: PROTOCOL_VERSION, body },
        None => error_response("the instance did not answer the open request in time"),
    }
}

/// Answers a request. `request` is what was read out of its bytes.
pub fn respond(
    request: Result<Request, String>,
    identity: &InstanceInfo,
    inbox: &mut Option<RequestInbox>,
) -> (action: RequestAction)
    ensures
        match request {
            Err(fault) => {
                &&& *final(inbox) == *old(inbox)
                &&& action matches RequestAction::Reply(response)
                &&& response@ == error_record("malformed request: "@ + fault@)
            },
            Ok(request) => if request.proto != PROTOCOL_VERSION {
                &&& *final(inbox) == *old(inbox)
                &&& action matches RequestAction::Reply(response)
                &&& response@ == error_record(
                    "unsupported protocol version; this instance speaks 1"@,
                )
            } else {
                match request.body {
                    RequestBody::Info => {
                        &&& *final(inbox) == *old(inbox)
                        &&& action matches RequestAction::Reply(response)
                        &&& response@ == (ResponseRecord {
                            proto: PROTOCOL_VERSION,
                            body: BodyRecord::Info(identity@),
                        })
                    },
                    RequestBody::Open { paths, focus } => is_forwarded(
                        paths,
                        focus,
                        *old(inbox),
                        *final(inbox),
                        action,
                    ),
                }
            },
        },
{
    match request {
        Err(fault) => {
            let mut words = copy_text("malformed request: ");
            words.push_str(fault.as_str());
            RequestAction::Reply(error_response(words.as_str()))
        },
        Ok(request) => {
            if request.proto != PROTOCOL_VERSION {
                return RequestAction::Reply(
                    error_response("unsupported protocol version; this instance speaks 1"),
                );
            }
            match request.body {
                RequestBody::Info => RequestAction::Reply(
                    Response {
                        proto: PROTOCOL_VERSION,
                        body: ResponseBody::Info { info: identity.copy() },
                    },
                ),
                RequestBody::Open { paths, focus } => forward_open(paths, focus, inbox),
            }
        },
    }
}

// Finding instances -----------------------------------------------------------------------

/// An instance that answered.
#[derive(Debug, Clone, PartialEq, Eq)]
pub struct Instance {
    pub socket_path: Vec<u8>,
    pub info: InstanceInfo,
}

/// A text ends with another.
pub open spec fn ends_with(words: Seq<u8>, end: Seq<u8>) -> bool {
    words.len() >= end.len() && words.subrange(words.len() - end.len(), words.len() as int) == end
}

/// The name is one of a socket.
pub open spec fn is_socket_name(name: Seq<char>) -> bool {
    ends_with(encode_utf8(name), encode_utf8(".sock"@))
}

fn socket_like(name: &str) -> (yes: bool)
    ensures
        yes == is_socket_name(name@),
{
    let bytes = name.as_bytes();
    let end = ".sock".as_bytes();
    if bytes.len() < end.len() {
        return false;
    }
    let tail = vstd::slice::slice_subrange(bytes, bytes.len() - end.len(), bytes.len());
    crate::bytes::bytes_equal(tail, end)
}

/// Names as a dictionary orders their bytes.
pub open spec fn name_before() -> spec_fn(Seq<char>, Seq<char>) -> bool {
    |left: Seq<char>, right: Seq<char>| bytes_before(encode_utf8(left), encode_utf8(right))
}

/// The names that are those of sockets.
pub open spec fn sockets_among(names: Seq<Seq<char>>) -> Seq<Seq<char>>
    decreases names.len(),
{
    if names.len() == 0 {
        Seq::empty()
    } else if is_socket_name(names.last()) {
        sockets_among(names.drop_last()).push(names.last())
    } else {
        sockets_among(names.drop_last())
    }
}

/// The sockets that are asked: in order, and not too many.
pub open spec fn sockets_asked(names: Seq<Seq<char>>) -> Seq<Seq<char>> {
    let all = ranked(sockets_among(names), name_before());
    if all.len() > MAX_DISCOVERED_INSTANCES {
        all.subrange(0, MAX_DISCOVERED_INSTANCES as int)
    } else {
        all
    }
}

/// Which sockets are asked, out of the names in the directory.
pub fn socket_names(names: &Vec<String>) -> (asked: Vec<String>)
    ensures
        string_views(asked@) == sockets_asked(string_views(names@)),
{
    let ghost shown = string_views(names@);
    let mut asked: Vec<String> = Vec::new();
    let mut index: usize = 0;
    assert(string_views(asked@) =~= ranked(
        sockets_among(shown.subrange(0, 0)),
        name_before(),
    ));
    while index < names.len()
        invariant
            index <= names@.len(),
            shown == string_views(names@),
            string_views(asked@) == ranked(
                sockets_among(shown.subrange(0, index as int)),
                name_before(),
            ),
        decreases names@.len() - index,
    {
        proof {
            let longer = shown.subrange(0, index + 1);
            assert(longer.drop_last() =~= shown.subrange(0, index as int));
            assert(longer.last() == names@[index as int]@);
        }
        if socket_like(names[index].as_str()) {
            let ghost before = sockets_among(shown.subrange(0, index as int));
            insert_name(&mut asked, copy_text(names[index].as_str()));
            proof {
                assert(before.push(names@[index as int]@).drop_last() =~= before);
            }
        }
        index = index + 1;
    }
    assert(shown.subrange(0, shown.len() as int) =~= shown);
    let ghost all = asked@;
    if asked.len() > MAX_DISCOVERED_INSTANCES {
        asked.truncate(MAX_DISCOVERED_INSTANCES);
        assert(string_views(asked@) =~= string_views(all).subrange(
            0,
            MAX_DISCOVERED_INSTANCES as int,
        ));
    }
    asked
}

/// Puts a name into its place among names in order.
pub fn insert_name(ranked_names: &mut Vec<String>, name: String)
    ensures
        ({
            let before = string_views(old(ranked_names)@);
            string_views(final(ranked_names)@) == before.insert(
                rank_of(before, name@, name_before(), 0),
                name@,
            )
        }),
{
    let ghost before = string_views(ranked_names@);
    let ghost had = ranked_names@;
    let mut place: usize = 0;
    let mut found = false;
    while place < ranked_names.len() && !found
        invariant
            place <= ranked_names@.len(),
            ranked_names@ == had,
            before == string_views(had),
            rank_of(before, name@, name_before(), 0) == rank_of(
                before,
                name@,
                name_before(),
                place as int,
            ),
            found ==> place < had.len() && name_before()(name@, before[place as int]),
        decreases had.len() - place + (if found {
            0int
        } else {
            1int
        }),
    {
        assert(before[place as int] == had[place as int]@);
        if is_bytes_before(
            name.as_str().as_bytes(),
            ranked_names[place].as_str().as_bytes(),
        ) {
            found = true;
        } else {
            place = place + 1;
        }
    }
    let ghost said = name@;
    ranked_names.insert(place, name);
    assert(string_views(ranked_names@) =~= before.insert(place as int, said));
}

/// Names are ordered as a dictionary orders.
proof fn lemma_name_order()
    ensures
        is_order(name_before()),
{
    assert forall|x: Seq<u8>, y: Seq<u8>| #[trigger] bytes_before(x, y) implies !bytes_before(
        y,
        x,
    ) by {
        lemma_bytes_order(x, y);
    }
    assert forall|x: Seq<u8>, y: Seq<u8>, z: Seq<u8>|
        #![trigger bytes_before(y, x), bytes_before(z, y)]
        !bytes_before(y, x) && !bytes_before(z, y) implies !bytes_before(z, x) by {
        lemma_bytes_order(x, y);
        lemma_bytes_order(y, z);
        lemma_bytes_order(x, z);
        if x != y && y != z {
            lemma_bytes_chain(x, y, z);
        }
    }
}

/// The sockets that are asked are in the order of their names, and one that is not asked
/// does not come before one that is.
pub proof fn law_sockets_are_asked_in_order(names: Seq<Seq<char>>)
    ensures
        sockets_asked(names).len() <= MAX_DISCOVERED_INSTANCES,
        is_ranked(sockets_asked(names), name_before()),
        forall|i: int, j: int|
            0 <= i < sockets_asked(names).len() && sockets_asked(names).len() <= j < ranked(
                sockets_among(names),
                name_before(),
            ).len() ==> !name_before()(
                #[trigger] ranked(sockets_among(names), name_before())[j],
                #[trigger] sockets_asked(names)[i],
            ),
        ranked(sockets_among(names), name_before()).to_multiset() == sockets_among(
            names,
        ).to_multiset(),
{
    lemma_name_order();
    law_ranking_puts_in_order(sockets_among(names), name_before());
    law_ranking_keeps_every_item(sockets_among(names), name_before());
    let all = ranked(sockets_among(names), name_before());
    let asked = sockets_asked(names);
    assert forall|i: int| 0 <= i < asked.len() implies #[trigger] asked[i] == all[i] by {
    }
}

/// Instances by the time of their start, then by their numbers.
pub open spec fn instance_before() -> spec_fn(Instance, Instance) -> bool {
    |left: Instance, right: Instance|
        left.info.started_at_ms < right.info.started_at_ms || (left.info.started_at_ms
            == right.info.started_at_ms && left.info.pid < right.info.pid)
}

/// Puts instances in order, the oldest first.
pub fn order_instances(found: Vec<Instance>) -> (ordered: Vec<Instance>)
    ensures
        ordered@ == ranked(found@, instance_before()),
{
    let mut found = found;
    let ghost all = found@;
    let mut ordered: Vec<Instance> = Vec::new();
    let ghost mut done: int = 0;
    assert(ordered@ =~= ranked(all.subrange(0, 0), instance_before()));
    while found.len() > 0
        invariant
            0 <= done <= all.len(),
            found@ == all.subrange(done, all.len() as int),
            ordered@ == ranked(all.subrange(0, done), instance_before()),
        decreases found@.len(),
    {
        let instance = found.remove(0);
        proof {
            assert(instance == all[done]);
            assert(all.subrange(0, done + 1).drop_last() =~= all.subrange(0, done));
            assert(all.subrange(0, done + 1).last() == instance);
            assert(found@ =~= all.subrange(done + 1, all.len() as int));
        }
        insert_instance(&mut ordered, instance);
        proof {
            done = done + 1;
        }
    }
    assert(all.subrange(0, all.len() as int) =~= all);
    ordered
}

fn insert_instance(ordered: &mut Vec<Instance>, instance: Instance)
    ensures
        final(ordered)@ == old(ordered)@.insert(
            rank_of(old(ordered)@, instance, instance_before(), 0),
            instance,
        ),
{
    let ghost had = ordered@;
    let mut place: usize = 0;
    let mut found = false;
    while place < ordered.len() && !found
        invariant
            place <= ordered@.len(),
            ordered@ == had,
            rank_of(had, instance, instance_before(), 0) == rank_of(
                had,
                instance,
                instance_before(),
                place as int,
            ),
            found ==> place < had.len() && instance_before()(instance, had[place as int]),
        decreases had.len() - place + (if found {
            0int
        } else {
            1int
        }),
    {
        let other = &ordered[place];
        if instance.info.started_at_ms < other.info.started_at_ms || (instance.info.started_at_ms
            == other.info.started_at_ms && instance.info.pid < other.info.pid) {
            found = true;
        } else {
            place = place + 1;
        }
    }
    ordered.insert(place, instance);
}

/// Every instance that answered is listed once, the oldest first; of two that started at
/// the same time the one with the smaller number is first.
pub proof fn law_instances_are_listed_oldest_first(found: Seq<Instance>)
    ensures
        is_ranked(ranked(found, instance_before()), instance_before()),
        ranked(found, instance_before()).to_multiset() == found.to_multiset(),
{
    law_ranking_puts_in_order(found, instance_before());
    law_ranking_keeps_every_item(found, instance_before());
}

// Asking instances ------------------------------------------------------------------------

/// A request as it is sent.
#[derive(Debug)]
pub struct Outgoing {
    pub request: Request,
    /// How long its answer is waited for, in milliseconds.
    pub timeout: u64,
}

/// Sends a request: it names the version of the protocol, and its answer is waited
/// for as long as the instance may take. One to open files may take longest.
pub fn send(body: RequestBody) -> (outgoing: Outgoing)
    ensures
        outgoing.request == (Request { proto: PROTOCOL_VERSION, body }),
        outgoing.timeout == (match body {
            RequestBody::Open { .. } => OPEN_REPLY_TIMEOUT + 1_000,
            RequestBody::Info => IO_TIMEOUT as int,
        }),
{
    let timeout: u64 = match &body {
        RequestBody::Open { .. } => OPEN_REPLY_TIMEOUT + 1_000,
        RequestBody::Info => IO_TIMEOUT,
    };
    Outgoing { request: Request { proto: PROTOCOL_VERSION, body }, timeout }
}

/// A request that is too long is not sent.
pub fn check_request(length: usize) -> (result: Result<(), IpcError>)
    ensures
        if length > MAX_REQUEST_BYTES {
            &&& result matches Err(IpcError::Protocol(words))
            &&& words@ == "request exceeds the protocol size bound"@
        } else {
            result is Ok
        },
{
    if length > MAX_REQUEST_BYTES {
        return Err(
            IpcError::Protocol(copy_text("request exceeds the protocol size bound")),
        );
    }
    Ok(())
}

/// What an answer comes to. `response` is what was read out of its bytes.
pub fn check_reply(length: usize, response: Result<Response, String>) -> (result: Result<
    ResponseBody,
    IpcError,
>)
    ensures
        if length > MAX_REQUEST_BYTES {
            &&& result matches Err(IpcError::Protocol(words))
            &&& words@ == "reply exceeds the protocol size bound"@
        } else {
            match response {
                Err(fault) => {
                    &&& result matches Err(IpcError::Protocol(words))
                    &&& words@ == "malformed reply: "@ + fault@
                },
                Ok(response) => if response.proto != PROTOCOL_VERSION {
                    &&& result matches Err(IpcError::Protocol(words))
                    &&& words@ == "unsupported protocol version "@ + number_text(
                        response.proto as nat,
                    ) + "; this build speaks 1"@
                } else {
                    result == Ok::<_, IpcError>(response.body)
                },
            }
        },
{
    if length > MAX_REQUEST_BYTES {
        return Err(IpcError::Protocol(copy_text("reply exceeds the protocol size bound")));
    }
    match response {
        Err(fault) => {
            let mut words = copy_text("malformed reply: ");
            words.push_str(fault.as_str());
            Err(IpcError::Protocol(words))
        },
        Ok(response) => {
            if response.proto != PROTOCOL_VERSION {
                let mut words = copy_text("unsupported protocol version ");
                push_number(&mut words, response.proto as u64);
                words.push_str("; this build speaks 1");
                return Err(IpcError::Protocol(words));
            }
            Ok(response.body)
        },
    }
}

/// A line that is not too long is the request, whatever comes behind it.
pub proof fn law_the_first_line_is_the_request(line: Seq<u8>, behind: Seq<u8>)
    requires
        !line.contains(10),
    ensures
        first_line(line + seq![10u8] + behind) == line,
        first_line(line) == line,
{
    let all = line + seq![10u8] + behind;
    lemma_feed_place(all, 0);
    lemma_feed_place(line, 0);
    let at = feed_place(all, 0);
    assert(all[line.len() as int] == 10);
    if at < line.len() {
        assert(line.contains(line[at]));
    }
    assert(at == line.len());
    assert(all.subrange(0, at) =~= line);
    let end = feed_place(line, 0);
    if end < line.len() {
        assert(line.contains(line[end]));
    }
    assert(line.subrange(0, end) =~= line);
}

/// The name of a socket is the number of its process, a dash, eight hexadecimal digits, and
/// an ending.
pub proof fn law_socket_names_begin_with_their_process(pid: u32, salt: u32)
    ensures
        ({
            let name = socket_name(pid, salt);
            let front = number_text(pid as nat);
            &&& name.len() == front.len() + 14
            &&& name.take(front.len() as int) == front
            &&& name[front.len() as int] == '-'
            &&& forall|i: int|
                front.len() < i <= front.len() + 8 ==> '0' <= #[trigger] name[i] <= '9' || 'a'
                    <= name[i] <= 'f'
            &&& name.skip(front.len() as int + 9) == ".sock"@
        }),
{
    let name = socket_name(pid, salt);
    let front = number_text(pid as nat);
    reveal_strlit("-");
    reveal_strlit(".sock");
    assert(".sock"@.len() == 5);
    assert(name.take(front.len() as int) =~= front);
    assert(name.skip(front.len() as int + 9) =~= ".sock"@);
    assert forall|i: int| front.len() < i <= front.len() + 8 implies '0' <= #[trigger] name[i]
        <= '9' || 'a' <= name[i] <= 'f' by {
        let value = nibble(salt, i - front.len() - 1);
        assert(name[i] == hex_digit(value));
        let moved = salt >> ((28 - 4 * (i - front.len() - 1)) as u32);
        assert(moved & 15 <= 15) by (bit_vector);
    }
}

} // verus!
