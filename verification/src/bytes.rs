//! Searching, splitting, trimming and comparing byte strings.

use vstd::prelude::*;
use vstd::slice::slice_subrange;

verus! {

/// The bytes of a text literal.
pub open spec fn text(literal: &str) -> Seq<u8> {
    vstd::utf8::encode_utf8(literal@)
}

/// `pattern` occurs in `s` at `at`.
pub open spec fn occurs_at(s: Seq<u8>, pattern: Seq<u8>, at: int) -> bool {
    &&& 0 <= at
    &&& at + pattern.len() <= s.len()
    &&& s.subrange(at, at + pattern.len()) == pattern
}

/// The first place at or after `from` where `pattern` occurs in `s`.
pub open spec fn find_from(s: Seq<u8>, pattern: Seq<u8>, from: int) -> Option<int>
    decreases s.len() - from,
{
    if from < 0 || from + pattern.len() > s.len() {
        None
    } else if occurs_at(s, pattern, from) {
        Some(from)
    } else if from >= s.len() {
        None
    } else {
        find_from(s, pattern, from + 1)
    }
}

/// The first place where `pattern` occurs in `s`.
pub open spec fn find(s: Seq<u8>, pattern: Seq<u8>) -> Option<int> {
    find_from(s, pattern, 0)
}

pub proof fn lemma_find_from_is_first(s: Seq<u8>, pattern: Seq<u8>, from: int)
    requires
        from >= 0,
    ensures
        match find_from(s, pattern, from) {
            Some(at) => from <= at && occurs_at(s, pattern, at) && forall|k: int|
                from <= k < at ==> !#[trigger] occurs_at(s, pattern, k),
            None => forall|k: int| from <= k ==> !#[trigger] occurs_at(s, pattern, k),
        },
    decreases s.len() - from,
{
    if from + pattern.len() > s.len() {
    } else if occurs_at(s, pattern, from) {
    } else if from >= s.len() {
        assert forall|k: int| from <= k implies !#[trigger] occurs_at(s, pattern, k) by {
            if k > from {
                assert(k + pattern.len() > s.len());
            }
        }
    } else {
        lemma_find_from_is_first(s, pattern, from + 1);
    }
}

/// A place where the pattern occurs and before which it does not is the one found.
pub proof fn lemma_first_is_found(s: Seq<u8>, pattern: Seq<u8>, at: int)
    requires
        occurs_at(s, pattern, at),
        forall|k: int| 0 <= k < at ==> !#[trigger] occurs_at(s, pattern, k),
    ensures
        find(s, pattern) == Some(at),
{
    lemma_find_from_is_first(s, pattern, 0);
}

/// Appending bytes does not move a match that is already there.
pub proof fn lemma_find_in_extension(s: Seq<u8>, more: Seq<u8>, pattern: Seq<u8>)
    ensures
        find(s, pattern) is Some ==> find(s + more, pattern) == find(s, pattern),
        find(s, pattern) is None ==> match find(s + more, pattern) {
            Some(at) => at + pattern.len() > s.len(),
            None => true,
        },
{
    lemma_find_from_is_first(s, pattern, 0);
    lemma_find_from_is_first(s + more, pattern, 0);
    assert forall|k: int| 0 <= k && k + pattern.len() <= s.len() implies occurs_at(
        s + more,
        pattern,
        k,
    ) == #[trigger] occurs_at(s, pattern, k) by {
        assert((s + more).subrange(k, k + pattern.len()) == s.subrange(k, k + pattern.len()));
    }
    if find(s, pattern) is Some {
        let at = find(s, pattern)->0;
        assert(occurs_at(s, pattern, at));
        assert(occurs_at(s + more, pattern, at));
        assert forall|k: int| 0 <= k < at implies !#[trigger] occurs_at(s + more, pattern, k) by {
            assert(!occurs_at(s, pattern, k));
        }
        lemma_first_is_found(s + more, pattern, at);
    } else {
        if find(s + more, pattern) is Some {
            let at = find(s + more, pattern)->0;
            assert(!occurs_at(s, pattern, at));
        }
    }
}

pub fn bytes_equal(left: &[u8], right: &[u8]) -> (equal: bool)
    ensures
        equal == (left@ == right@),
{
    if left.len() != right.len() {
        return false;
    }
    let mut index: usize = 0;
    while index < left.len()
        invariant
            index <= left.len(),
            left@.len() == right@.len(),
            forall|k: int| 0 <= k < index ==> left@[k] == right@[k],
        decreases left.len() - index,
    {
        if left[index] != right[index] {
            return false;
        }
        index = index + 1;
    }
    assert(left@ =~= right@);
    true
}

pub fn find_bytes(bytes: &[u8], pattern: &[u8]) -> (found: Option<usize>)
    ensures
        match found {
            Some(at) => find(bytes@, pattern@) == Some(at as int),
            None => find(bytes@, pattern@) is None,
        },
{
    if bytes.len() < pattern.len() {
        return None;
    }
    let last: usize = bytes.len() - pattern.len();
    let mut at: usize = 0;
    while at <= last
        invariant
            last + pattern.len() == bytes.len(),
            at <= last,
            find(bytes@, pattern@) == find_from(bytes@, pattern@, at as int),
        decreases last - at,
    {
        if bytes_equal(slice_subrange(bytes, at, at + pattern.len()), pattern) {
            assert(occurs_at(bytes@, pattern@, at as int));
            return Some(at);
        }
        assert(find_from(bytes@, pattern@, last + 1) is None);
        if at == last {
            return None;
        }
        at = at + 1;
    }
    None
}

/// `s` cut at every occurrence of `separator`, found from the left.
pub open spec fn split(s: Seq<u8>, separator: Seq<u8>) -> Seq<Seq<u8>>
    decreases s.len(),
{
    match find(s, separator) {
        Some(at) => if separator.len() == 0 || at < 0 || at + separator.len() > s.len() {
            seq![s]
        } else {
            seq![s.subrange(0, at)] + split(
                s.subrange(at + separator.len(), s.len() as int),
                separator,
            )
        },
        None => seq![s],
    }
}

/// The views of a vector of slices.
pub open spec fn views(parts: Seq<&[u8]>) -> Seq<Seq<u8>> {
    Seq::new(parts.len(), |i: int| parts[i]@)
}

/// The views of a vector of byte vectors.
pub open spec fn byte_views(vectors: Seq<Vec<u8>>) -> Seq<Seq<u8>> {
    Seq::new(vectors.len(), |i: int| vectors[i]@)
}

pub fn split_bytes<'a>(bytes: &'a [u8], separator: &[u8]) -> (parts: Vec<&'a [u8]>)
    requires
        separator@.len() > 0,
    ensures
        views(parts@) == split(bytes@, separator@),
        parts@.len() > 0,
{
    let mut parts: Vec<&'a [u8]> = Vec::new();
    let mut start: usize = 0;
    proof {
        assert(bytes@.subrange(0, bytes@.len() as int) =~= bytes@);
        assert(views(parts@) + split(bytes@, separator@) =~= split(bytes@, separator@));
    }
    loop
        invariant
            start <= bytes.len(),
            separator@.len() > 0,
            views(parts@) + split(bytes@.subrange(start as int, bytes@.len() as int), separator@)
                == split(bytes@, separator@),
        decreases bytes.len() - start,
    {
        let rest = slice_subrange(bytes, start, bytes.len());
        proof {
            lemma_find_from_is_first(rest@, separator@, 0);
        }
        match find_bytes(rest, separator) {
            None => {
                let ghost before = parts@;
                parts.push(rest);
                assert(views(parts@) =~= views(before) + seq![rest@]);
                return parts;
            },
            Some(at) => {
                let ghost before = parts@;
                let part = slice_subrange(rest, 0, at);
                parts.push(part);
                let next: usize = start + at + separator.len();
                proof {
                    assert(views(parts@) =~= views(before) + seq![part@]);
                    assert(rest@.subrange(at + separator@.len(), rest@.len() as int)
                        =~= bytes@.subrange(next as int, bytes@.len() as int));
                    assert((views(before) + seq![part@]) + split(
                        bytes@.subrange(next as int, bytes@.len() as int),
                        separator@,
                    ) =~= views(before) + (seq![part@] + split(
                        bytes@.subrange(next as int, bytes@.len() as int),
                        separator@,
                    )));
                }
                start = next;
            },
        }
    }
}

/// The ASCII bytes with the Unicode property White_Space.
pub open spec fn is_space(byte: u8) -> bool {
    byte == 32 || 9 <= byte <= 13
}

pub open spec fn trim_start(s: Seq<u8>) -> Seq<u8>
    decreases s.len(),
{
    if s.len() > 0 && is_space(s[0]) {
        trim_start(s.subrange(1, s.len() as int))
    } else {
        s
    }
}

pub open spec fn trim_end(s: Seq<u8>) -> Seq<u8>
    decreases s.len(),
{
    if s.len() > 0 && is_space(s.last()) {
        trim_end(s.drop_last())
    } else {
        s
    }
}

/// `s` without the ASCII whitespace at its two ends.
pub open spec fn trim(s: Seq<u8>) -> Seq<u8> {
    trim_end(trim_start(s))
}

pub fn is_space_byte(byte: u8) -> (space: bool)
    ensures
        space == is_space(byte),
{
    byte == 32 || (9 <= byte && byte <= 13)
}

pub fn trim_bytes<'a>(bytes: &'a [u8]) -> (trimmed: &'a [u8])
    ensures
        trimmed@ == trim(bytes@),
{
    let mut start: usize = 0;
    proof {
        assert(bytes@.subrange(0, bytes@.len() as int) =~= bytes@);
    }
    while start < bytes.len() && is_space_byte(bytes[start])
        invariant
            start <= bytes.len(),
            trim_start(bytes@.subrange(start as int, bytes@.len() as int)) == trim_start(bytes@),
        decreases bytes.len() - start,
    {
        proof {
            let s = bytes@.subrange(start as int, bytes@.len() as int);
            assert(s.subrange(1, s.len() as int) =~= bytes@.subrange(
                start + 1,
                bytes@.len() as int,
            ));
        }
        start = start + 1;
    }
    let mut end: usize = bytes.len();
    proof {
        let s = bytes@.subrange(start as int, bytes@.len() as int);
        assert(trim_start(s) == s);
    }
    while start < end && is_space_byte(bytes[end - 1])
        invariant
            start <= end <= bytes.len(),
            trim_end(bytes@.subrange(start as int, end as int)) == trim(bytes@),
        decreases end,
    {
        proof {
            let s = bytes@.subrange(start as int, end as int);
            assert(s.drop_last() =~= bytes@.subrange(start as int, end - 1));
        }
        end = end - 1;
    }
    proof {
        let s = bytes@.subrange(start as int, end as int);
        assert(trim_end(s) == s);
    }
    slice_subrange(bytes, start, end)
}

pub open spec fn lower(byte: u8) -> u8 {
    if 65 <= byte <= 90 {
        (byte + 32) as u8
    } else {
        byte
    }
}

/// `s` with its ASCII capitals made small.
pub open spec fn lowercase(s: Seq<u8>) -> Seq<u8> {
    Seq::new(s.len(), |i: int| lower(s[i]))
}

pub fn lower_byte(byte: u8) -> (small: u8)
    ensures
        small == lower(byte),
{
    if 65 <= byte && byte <= 90 {
        byte + 32
    } else {
        byte
    }
}

pub fn lowercase_bytes(bytes: &[u8]) -> (small: Vec<u8>)
    ensures
        small@ == lowercase(bytes@),
{
    let mut small: Vec<u8> = Vec::new();
    let mut index: usize = 0;
    while index < bytes.len()
        invariant
            index <= bytes.len(),
            small@.len() == index,
            forall|k: int| 0 <= k < index ==> small@[k] == lower(bytes@[k]),
        decreases bytes.len() - index,
    {
        small.push(lower_byte(bytes[index]));
        index = index + 1;
    }
    assert(small@ =~= lowercase(bytes@));
    small
}

/// The two byte strings are equal but for the case of ASCII letters.
pub open spec fn same_letters(left: Seq<u8>, right: Seq<u8>) -> bool {
    lowercase(left) == lowercase(right)
}

pub fn equal_ignoring_case(left: &[u8], right: &[u8]) -> (equal: bool)
    ensures
        equal == same_letters(left@, right@),
{
    let left = lowercase_bytes(left);
    let right = lowercase_bytes(right);
    bytes_equal(left.as_slice(), right.as_slice())
}

pub open spec fn is_digit(byte: u8) -> bool {
    48 <= byte <= 57
}

pub open spec fn all_digits(s: Seq<u8>) -> bool {
    forall|i: int| 0 <= i < s.len() ==> is_digit(#[trigger] s[i])
}

pub fn all_digit_bytes(bytes: &[u8]) -> (digits: bool)
    ensures
        digits == all_digits(bytes@),
{
    let mut index: usize = 0;
    while index < bytes.len()
        invariant
            index <= bytes.len(),
            forall|k: int| 0 <= k < index ==> is_digit(#[trigger] bytes@[k]),
        decreases bytes.len() - index,
    {
        if bytes[index] < 48 || bytes[index] > 57 {
            return false;
        }
        index = index + 1;
    }
    true
}

/// The number that decimal digits write.
pub open spec fn decimal_value(s: Seq<u8>) -> nat
    decreases s.len(),
{
    if s.len() == 0 {
        0
    } else {
        (decimal_value(s.drop_last()) * 10 + (s.last() - 48)) as nat
    }
}

proof fn lemma_decimal_prefix_is_smaller(s: Seq<u8>, prefix: int)
    requires
        0 <= prefix <= s.len(),
        all_digits(s),
    ensures
        decimal_value(s.subrange(0, prefix)) <= decimal_value(s),
    decreases s.len(),
{
    if prefix == s.len() {
        assert(s.subrange(0, prefix) =~= s);
    } else {
        assert(all_digits(s.drop_last()));
        lemma_decimal_prefix_is_smaller(s.drop_last(), prefix);
        assert(s.drop_last().subrange(0, prefix) =~= s.subrange(0, prefix));
        assert(is_digit(s.last()));
    }
}

/// The value of a string of digits, or none if it does not fit.
pub fn parse_decimal(bytes: &[u8]) -> (value: Option<usize>)
    requires
        all_digits(bytes@),
    ensures
        match value {
            Some(number) => number == decimal_value(bytes@),
            None => decimal_value(bytes@) > usize::MAX,
        },
{
    let mut value: usize = 0;
    let mut index: usize = 0;
    while index < bytes.len()
        invariant
            index <= bytes.len(),
            all_digits(bytes@),
            value == decimal_value(bytes@.subrange(0, index as int)),
        decreases bytes.len() - index,
    {
        let digit: usize = (bytes[index] - 48) as usize;
        proof {
            let next = bytes@.subrange(0, index + 1);
            assert(next.drop_last() =~= bytes@.subrange(0, index as int));
            assert(is_digit(bytes@[index as int]));
            assert(decimal_value(next) == value * 10 + digit);
            lemma_decimal_prefix_is_smaller(bytes@, index + 1);
        }
        match value.checked_mul(10) {
            None => {
                return None;
            },
            Some(tens) => {
                match tens.checked_add(digit) {
                    None => {
                        return None;
                    },
                    Some(next) => {
                        value = next;
                    },
                }
            },
        }
        index = index + 1;
    }
    assert(bytes@.subrange(0, bytes@.len() as int) =~= bytes@);
    Some(value)
}

/// The decimal digits of a number, without leading zeros.
pub open spec fn decimal_digits(value: nat) -> Seq<u8>
    decreases value,
{
    if value < 10 {
        seq![(48 + value) as u8]
    } else {
        decimal_digits(value / 10).push((48 + value % 10) as u8)
    }
}

/// Writing a number and reading it gives the number back.
pub proof fn lemma_decimal_round_trip(value: nat)
    ensures
        all_digits(decimal_digits(value)),
        decimal_digits(value).len() > 0,
        decimal_value(decimal_digits(value)) == value,
    decreases value,
{
    if value < 10 {
        let s = decimal_digits(value);
        assert(s.drop_last() =~= Seq::<u8>::empty());
        assert(decimal_value(s.drop_last()) == 0);
    } else {
        lemma_decimal_round_trip(value / 10);
        let s = decimal_digits(value);
        assert(s.drop_last() =~= decimal_digits(value / 10));
    }
}

pub fn decimal_bytes(value: u64) -> (digits: Vec<u8>)
    ensures
        digits@ == decimal_digits(value as nat),
    decreases value,
{
    if value < 10 {
        let mut digits: Vec<u8> = Vec::new();
        digits.push((48 + value) as u8);
        assert(digits@ =~= decimal_digits(value as nat));
        digits
    } else {
        let mut digits = decimal_bytes(value / 10);
        digits.push((48 + value % 10) as u8);
        digits
    }
}

pub fn to_vec(bytes: &[u8]) -> (copy: Vec<u8>)
    ensures
        copy@ == bytes@,
{
    let mut copy: Vec<u8> = Vec::new();
    copy.extend_from_slice(bytes);
    assert(copy@ =~= bytes@);
    copy
}

/// Bytes in the order of a dictionary.
pub open spec fn bytes_before(left: Seq<u8>, right: Seq<u8>) -> bool
    decreases left.len(),
{
    if right.len() == 0 {
        false
    } else if left.len() == 0 {
        true
    } else if left[0] != right[0] {
        left[0] < right[0]
    } else {
        bytes_before(left.drop_first(), right.drop_first())
    }
}

pub proof fn lemma_bytes_order(left: Seq<u8>, right: Seq<u8>)
    ensures
        left != right ==> bytes_before(left, right) || bytes_before(right, left),
        !(bytes_before(left, right) && bytes_before(right, left)),
        left == right ==> !bytes_before(left, right),
    decreases left.len(),
{
    if left.len() == 0 && right.len() == 0 {
        assert(left =~= right);
    } else if left.len() > 0 && right.len() > 0 && left[0] == right[0] {
        lemma_bytes_order(left.drop_first(), right.drop_first());
        if left.drop_first() == right.drop_first() {
            assert(left =~= seq![left[0]] + left.drop_first());
            assert(right =~= seq![right[0]] + right.drop_first());
        }
    }
}

pub proof fn lemma_bytes_chain(left: Seq<u8>, middle: Seq<u8>, right: Seq<u8>)
    requires
        bytes_before(left, middle),
        bytes_before(middle, right),
    ensures
        bytes_before(left, right),
    decreases left.len(),
{
    if left.len() > 0 && left[0] == middle[0] && middle[0] == right[0] {
        lemma_bytes_chain(left.drop_first(), middle.drop_first(), right.drop_first());
    }
}

pub fn is_bytes_before(left: &[u8], right: &[u8]) -> (before: bool)
    ensures
        before == bytes_before(left@, right@),
{
    let mut index: usize = 0;
    proof {
        assert(left@.subrange(0, left@.len() as int) =~= left@);
        assert(right@.subrange(0, right@.len() as int) =~= right@);
    }
    while index < left.len() && index < right.len() && left[index] == right[index]
        invariant
            index <= left@.len(),
            index <= right@.len(),
            bytes_before(left@, right@) == bytes_before(
                left@.subrange(index as int, left@.len() as int),
                right@.subrange(index as int, right@.len() as int),
            ),
        decreases left@.len() - index,
    {
        proof {
            assert(left@.subrange(index as int, left@.len() as int).drop_first() =~= left@.subrange(
                index + 1,
                left@.len() as int,
            ));
            assert(right@.subrange(index as int, right@.len() as int).drop_first()
                =~= right@.subrange(index + 1, right@.len() as int));
        }
        index = index + 1;
    }
    if index >= right.len() {
        return false;
    }
    if index >= left.len() {
        return true;
    }
    left[index] < right[index]
}

} // verus!
