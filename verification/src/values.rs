//! JSON values, and how a compact JSON text is read as one.

use crate::text::number_text;
use vstd::prelude::*;

verus! {

/// A JSON value whose numbers are whole.
pub enum Value {
    Null,
    Bool(bool),
    Number(int),
    Text(Seq<char>),
    List(Seq<Value>),
    Object(Seq<(Seq<char>, Value)>),
}

impl Value {
    /// The first member of this name.
    pub open spec fn member(self, name: Seq<char>) -> Option<Value> {
        match self {
            Value::Object(members) => first_member(members, name),
            _ => None,
        }
    }
}

pub open spec fn first_member(members: Seq<(Seq<char>, Value)>, name: Seq<char>) -> Option<Value>
    decreases members.len(),
{
    if members.len() == 0 {
        None
    } else if members[0].0 == name {
        Some(members[0].1)
    } else {
        first_member(members.drop_first(), name)
    }
}

// Reading ---------------------------------------------------------------------------------

/// The value of a digit in base sixteen.
pub open spec fn hex_value(digit: char) -> Option<int> {
    if '0' <= digit <= '9' {
        Some(digit as int - '0' as int)
    } else if 'a' <= digit <= 'f' {
        Some(10 + digit as int - 'a' as int)
    } else if 'A' <= digit <= 'F' {
        Some(10 + digit as int - 'A' as int)
    } else {
        None
    }
}

/// The number that four digits in base sixteen write at the front.
pub open spec fn read_code(s: Seq<char>) -> Option<int> {
    if s.len() < 4 {
        None
    } else {
        match (hex_value(s[0]), hex_value(s[1]), hex_value(s[2]), hex_value(s[3])) {
            (Some(a), Some(b), Some(c), Some(d)) => Some(a * 4096 + b * 256 + c * 16 + d),
            _ => None,
        }
    }
}

/// The character at the front of the inside of a string, and how long it is written.
pub open spec fn read_char(s: Seq<char>) -> Option<(char, int)> {
    if s.len() == 0 || (s[0] as int) < 32 || s[0] == '"' {
        None
    } else if s[0] != '\\' {
        Some((s[0], 1))
    } else if s.len() < 2 {
        None
    } else if s[1] == '"' || s[1] == '\\' || s[1] == '/' {
        Some((s[1], 2))
    } else if s[1] == 'b' {
        Some((8u8 as char, 2))
    } else if s[1] == 'f' {
        Some((12u8 as char, 2))
    } else if s[1] == 'n' {
        Some(('\n', 2))
    } else if s[1] == 'r' {
        Some(('\r', 2))
    } else if s[1] == 't' {
        Some(('\t', 2))
    } else if s[1] == 'u' {
        match read_code(s.skip(2)) {
            Some(code) => if code < 0xd800 {
                Some((code as char, 6))
            } else {
                None
            },
            None => None,
        }
    } else {
        None
    }
}

/// The rest of a string up to its closing mark, and what comes behind it.
pub open spec fn read_rest(s: Seq<char>, fuel: nat) -> Option<(Seq<char>, Seq<char>)>
    decreases fuel,
{
    if fuel == 0 || s.len() == 0 {
        None
    } else if s[0] == '"' {
        Some((Seq::empty(), s.skip(1)))
    } else {
        match read_char(s) {
            None => None,
            Some((character, length)) => match read_rest(s.skip(length), (fuel - 1) as nat) {
                None => None,
                Some((words, behind)) => Some((seq![character] + words, behind)),
            },
        }
    }
}

/// A string at the front, and what comes behind it.
pub open spec fn read_text(s: Seq<char>) -> Option<(Seq<char>, Seq<char>)> {
    if s.len() > 0 && s[0] == '"' {
        read_rest(s.skip(1), s.len())
    } else {
        None
    }
}

pub open spec fn is_digit(character: char) -> bool {
    '0' <= character <= '9'
}

/// How many digits stand at the front.
pub open spec fn digits_ahead(s: Seq<char>) -> int
    decreases s.len(),
{
    if s.len() > 0 && is_digit(s[0]) {
        1 + digits_ahead(s.skip(1))
    } else {
        0
    }
}

/// The number that digits write.
pub open spec fn digits_value(digits: Seq<char>) -> int
    decreases digits.len(),
{
    if digits.len() == 0 {
        0
    } else {
        10 * digits_value(digits.drop_last()) + (digits.last() as int - '0' as int)
    }
}

/// A number at the front, and what comes behind it.
pub open spec fn read_number(s: Seq<char>) -> Option<(int, Seq<char>)> {
    let count = digits_ahead(s);
    if count == 0 {
        None
    } else {
        Some((digits_value(s.take(count)), s.skip(count)))
    }
}

/// The text begins with the words.
pub open spec fn begins(s: Seq<char>, words: Seq<char>) -> bool {
    words.len() <= s.len() && s.take(words.len() as int) == words
}

/// A value at the front, and what comes behind it.
pub open spec fn read_value(s: Seq<char>, fuel: nat) -> Option<(Value, Seq<char>)>
    decreases fuel,
{
    if fuel == 0 || s.len() == 0 {
        None
    } else if s[0] == '"' {
        match read_text(s) {
            None => None,
            Some((words, behind)) => Some((Value::Text(words), behind)),
        }
    } else if s[0] == '-' {
        match read_number(s.skip(1)) {
            None => None,
            Some((number, behind)) => Some((Value::Number(-number), behind)),
        }
    } else if is_digit(s[0]) {
        match read_number(s) {
            None => None,
            Some((number, behind)) => Some((Value::Number(number), behind)),
        }
    } else if begins(s, seq!['n', 'u', 'l', 'l']) {
        Some((Value::Null, s.skip(4)))
    } else if begins(s, seq!['t', 'r', 'u', 'e']) {
        Some((Value::Bool(true), s.skip(4)))
    } else if begins(s, seq!['f', 'a', 'l', 's', 'e']) {
        Some((Value::Bool(false), s.skip(5)))
    } else if s[0] == '[' {
        if s.len() > 1 && s[1] == ']' {
            Some((Value::List(Seq::empty()), s.skip(2)))
        } else {
            match read_items(s.skip(1), (fuel - 1) as nat) {
                None => None,
                Some((items, behind)) => Some((Value::List(items), behind)),
            }
        }
    } else if s[0] == '{' {
        if s.len() > 1 && s[1] == '}' {
            Some((Value::Object(Seq::empty()), s.skip(2)))
        } else {
            match read_members(s.skip(1), (fuel - 1) as nat) {
                None => None,
                Some((members, behind)) => Some((Value::Object(members), behind)),
            }
        }
    } else {
        None
    }
}

/// The items of a list up to its closing mark, and what comes behind it.
pub open spec fn read_items(s: Seq<char>, fuel: nat) -> Option<(Seq<Value>, Seq<char>)>
    decreases fuel,
{
    if fuel == 0 {
        None
    } else {
        match read_value(s, (fuel - 1) as nat) {
            None => None,
            Some((item, behind)) => if behind.len() > 0 && behind[0] == ']' {
                Some((seq![item], behind.skip(1)))
            } else if behind.len() > 0 && behind[0] == ',' {
                match read_items(behind.skip(1), (fuel - 1) as nat) {
                    None => None,
                    Some((items, behind)) => Some((seq![item] + items, behind)),
                }
            } else {
                None
            },
        }
    }
}

/// The members of an object up to its closing mark, and what comes behind it.
pub open spec fn read_members(s: Seq<char>, fuel: nat) -> Option<
    (Seq<(Seq<char>, Value)>, Seq<char>),
>
    decreases fuel,
{
    if fuel == 0 {
        None
    } else {
        match read_text(s) {
            None => None,
            Some((name, behind)) => if behind.len() > 0 && behind[0] == ':' {
                match read_value(behind.skip(1), (fuel - 1) as nat) {
                    None => None,
                    Some((value, behind)) => if behind.len() > 0 && behind[0] == '}' {
                        Some((seq![(name, value)], behind.skip(1)))
                    } else if behind.len() > 0 && behind[0] == ',' {
                        match read_members(behind.skip(1), (fuel - 1) as nat) {
                            None => None,
                            Some((members, behind)) => Some(
                                (seq![(name, value)] + members, behind),
                            ),
                        }
                    } else {
                        None
                    },
                }
            } else {
                None
            },
        }
    }
}

/// The value that a compact JSON text writes: one without blanks between its parts.
pub open spec fn read_json(s: Seq<char>) -> Option<Value> {
    match read_value(s, s.len()) {
        Some((value, behind)) => if behind.len() == 0 {
            Some(value)
        } else {
            None
        },
        None => None,
    }
}

// Putting together ------------------------------------------------------------------------

/// No digit stands at the front.
pub open spec fn ends(rest: Seq<char>) -> bool {
    rest.len() == 0 || !is_digit(rest[0])
}

/// The text is read as the value wherever it stands.
pub open spec fn writes(s: Seq<char>, value: Value) -> bool {
    &&& s.len() > 0
    &&& s[0] != ']'
    &&& forall|rest: Seq<char>, fuel: nat|
        ends(rest) && fuel >= s.len() ==> #[trigger] read_value(s + rest, fuel) == Some(
            (value, rest),
        )
}

/// The text is read as the items of a list, with the mark that closes it.
pub open spec fn writes_items(s: Seq<char>, items: Seq<Value>) -> bool {
    &&& s.len() > 0
    &&& s[0] != ']'
    &&& forall|rest: Seq<char>, fuel: nat|
        fuel >= s.len() ==> #[trigger] read_items(s + rest, fuel) == Some((items, rest))
}

/// The text is read as the members of an object, with the mark that closes it.
pub open spec fn writes_members(s: Seq<char>, members: Seq<(Seq<char>, Value)>) -> bool {
    &&& s.len() > 0
    &&& s[0] == '"'
    &&& forall|rest: Seq<char>, fuel: nat|
        fuel >= s.len() ==> #[trigger] read_members(s + rest, fuel) == Some((members, rest))
}

/// Characters that a string shows as they are.
pub open spec fn is_plain(words: Seq<char>) -> bool {
    forall|i: int|
        0 <= i < words.len() ==> (#[trigger] words[i]) as int >= 32 && words[i] != '"' && words[i]
            != '\\'
}

/// Characters between quotation marks.
pub open spec fn quoted(words: Seq<char>) -> Seq<char> {
    seq!['"'] + words + seq!['"']
}

pub proof fn lemma_written_value(s: Seq<char>, value: Value)
    requires
        writes(s, value),
    ensures
        read_json(s) == Some(value),
{
    let rest = Seq::<char>::empty();
    assert(s + rest =~= s);
    assert(read_value(s + rest, s.len()) == Some((value, rest)));
}

proof fn lemma_plain_rest(words: Seq<char>, rest: Seq<char>, fuel: nat)
    requires
        is_plain(words),
        fuel > words.len(),
    ensures
        read_rest(words + seq!['"'] + rest, fuel) == Some((words, rest)),
    decreases words.len(),
{
    let s = words + seq!['"'] + rest;
    if words.len() == 0 {
        assert(s.skip(1) =~= rest);
        assert(words =~= Seq::<char>::empty());
    } else {
        let tail = words.skip(1);
        assert forall|i: int| 0 <= i < tail.len() implies (#[trigger] tail[i]) as int >= 32
            && tail[i] != '"' && tail[i] != '\\' by {
            assert(tail[i] == words[i + 1]);
        }
        lemma_plain_rest(tail, rest, (fuel - 1) as nat);
        assert(s[0] == words[0]);
        assert(s.skip(1) =~= tail + seq!['"'] + rest);
        assert(seq![words[0]] + tail =~= words);
    }
}

pub proof fn lemma_plain_text(words: Seq<char>, rest: Seq<char>)
    requires
        is_plain(words),
    ensures
        read_text(quoted(words) + rest) == Some((words, rest)),
{
    let s = quoted(words) + rest;
    assert(s.skip(1) =~= words + seq!['"'] + rest);
    lemma_plain_rest(words, rest, s.len());
}

pub proof fn lemma_plain_value(words: Seq<char>)
    requires
        is_plain(words),
    ensures
        writes(quoted(words), Value::Text(words)),
{
    let s = quoted(words);
    assert forall|rest: Seq<char>, fuel: nat| ends(rest) && fuel >= s.len() implies #[trigger] read_value(
        s + rest,
        fuel,
    ) == Some((Value::Text(words), rest)) by {
        lemma_plain_text(words, rest);
        assert((s + rest)[0] == '"');
    }
}

proof fn lemma_digits_ahead(digits: Seq<char>, rest: Seq<char>)
    requires
        forall|i: int| 0 <= i < digits.len() ==> is_digit(#[trigger] digits[i]),
        ends(rest),
    ensures
        digits_ahead(digits + rest) == digits.len(),
    decreases digits.len(),
{
    let s = digits + rest;
    if digits.len() == 0 {
        assert(s =~= rest);
    } else {
        assert(s[0] == digits[0]);
        assert(s.skip(1) =~= digits.skip(1) + rest);
        assert forall|i: int| 0 <= i < digits.skip(1).len() implies is_digit(
            #[trigger] digits.skip(1)[i],
        ) by {
            assert(digits.skip(1)[i] == digits[i + 1]);
        }
        lemma_digits_ahead(digits.skip(1), rest);
    }
}

/// The digits of a number are read as the number.
pub proof fn lemma_number_digits(value: nat)
    ensures
        number_text(value).len() > 0,
        digits_value(number_text(value)) == value,
        forall|i: int|
            0 <= i < number_text(value).len() ==> is_digit(#[trigger] number_text(value)[i]),
    decreases value,
{
    let s = number_text(value);
    if value < 10 {
        assert(s.len() == 1);
        assert(s.drop_last() =~= Seq::<char>::empty());
        assert(digits_value(s.drop_last()) == 0);
        assert(s[0] as int == 48 + value);
    } else {
        lemma_number_digits(value / 10);
        let front = number_text(value / 10);
        assert(s.drop_last() =~= front);
        assert(s.last() as int == 48 + value % 10);
        assert forall|i: int| 0 <= i < s.len() implies is_digit(#[trigger] s[i]) by {
            if i < front.len() {
                assert(s[i] == front[i]);
            }
        }
    }
}

pub proof fn lemma_number_value(value: nat)
    ensures
        writes(number_text(value), Value::Number(value as int)),
{
    let s = number_text(value);
    lemma_number_digits(value);
    assert(is_digit(s[0]));
    assert forall|rest: Seq<char>, fuel: nat| ends(rest) && fuel >= s.len() implies #[trigger] read_value(
        s + rest,
        fuel,
    ) == Some((Value::Number(value as int), rest)) by {
        let whole = s + rest;
        lemma_digits_ahead(s, rest);
        assert(whole[0] == s[0]);
        assert(whole.take(s.len() as int) =~= s);
        assert(whole.skip(s.len() as int) =~= rest);
    }
}

pub proof fn lemma_negative_value(value: nat)
    ensures
        writes(seq!['-'] + number_text(value), Value::Number(-value)),
{
    let digits = number_text(value);
    let s = seq!['-'] + digits;
    lemma_number_digits(value);
    assert forall|rest: Seq<char>, fuel: nat| ends(rest) && fuel >= s.len() implies #[trigger] read_value(
        s + rest,
        fuel,
    ) == Some((Value::Number(-value), rest)) by {
        let whole = s + rest;
        lemma_digits_ahead(digits, rest);
        assert(whole[0] == '-');
        assert(whole.skip(1) =~= digits + rest);
        assert((digits + rest).take(digits.len() as int) =~= digits);
        assert((digits + rest).skip(digits.len() as int) =~= rest);
    }
}

pub proof fn lemma_fixed_values()
    ensures
        writes(seq!['n', 'u', 'l', 'l'], Value::Null),
        writes(seq!['t', 'r', 'u', 'e'], Value::Bool(true)),
        writes(seq!['f', 'a', 'l', 's', 'e'], Value::Bool(false)),
        writes(seq!['{', '}'], Value::Object(Seq::empty())),
        writes(seq!['[', ']'], Value::List(Seq::empty())),
{
    lemma_fixed(seq!['n', 'u', 'l', 'l'], Value::Null);
    lemma_fixed(seq!['t', 'r', 'u', 'e'], Value::Bool(true));
    lemma_fixed(seq!['f', 'a', 'l', 's', 'e'], Value::Bool(false));
    lemma_fixed(seq!['{', '}'], Value::Object(Seq::empty()));
    lemma_fixed(seq!['[', ']'], Value::List(Seq::empty()));
}

proof fn lemma_fixed(s: Seq<char>, value: Value)
    requires
        ({
            ||| s == seq!['n', 'u', 'l', 'l'] && value == Value::Null
            ||| s == seq!['t', 'r', 'u', 'e'] && value == Value::Bool(true)
            ||| s == seq!['f', 'a', 'l', 's', 'e'] && value == Value::Bool(false)
            ||| s == seq!['{', '}'] && value == Value::Object(Seq::empty())
            ||| s == seq!['[', ']'] && value == Value::List(Seq::empty())
        }),
    ensures
        writes(s, value),
{
    assert forall|rest: Seq<char>, fuel: nat| ends(rest) && fuel >= s.len() implies #[trigger] read_value(
        s + rest,
        fuel,
    ) == Some((value, rest)) by {
        let whole = s + rest;
        assert(whole[0] == s[0]);
        assert(whole[1] == s[1]);
        assert(whole.take(s.len() as int) =~= s);
        assert(whole.skip(s.len() as int) =~= rest);
        let null = seq!['n', 'u', 'l', 'l'];
        let yes = seq!['t', 'r', 'u', 'e'];
        let no = seq!['f', 'a', 'l', 's', 'e'];
        if begins(whole, null) {
            assert(whole.take(4)[0] == whole[0]);
        }
        if begins(whole, yes) {
            assert(whole.take(4)[0] == whole[0]);
        }
        if begins(whole, no) {
            assert(whole.take(5)[0] == whole[0]);
        }
    }
}

/// No word of three stands at the front of a text that begins otherwise.
proof fn lemma_no_word(s: Seq<char>)
    requires
        s.len() > 0,
        s[0] == '[' || s[0] == '{',
    ensures
        !begins(s, seq!['n', 'u', 'l', 'l']),
        !begins(s, seq!['t', 'r', 'u', 'e']),
        !begins(s, seq!['f', 'a', 'l', 's', 'e']),
{
    if begins(s, seq!['n', 'u', 'l', 'l']) {
        assert(s.take(4)[0] == s[0]);
    }
    if begins(s, seq!['t', 'r', 'u', 'e']) {
        assert(s.take(4)[0] == s[0]);
    }
    if begins(s, seq!['f', 'a', 'l', 's', 'e']) {
        assert(s.take(5)[0] == s[0]);
    }
}

pub proof fn lemma_list(s: Seq<char>, items: Seq<Value>)
    requires
        writes_items(s, items),
    ensures
        writes(seq!['['] + s, Value::List(items)),
{
    let t = seq!['['] + s;
    assert forall|rest: Seq<char>, fuel: nat| ends(rest) && fuel >= t.len() implies #[trigger] read_value(
        t + rest,
        fuel,
    ) == Some((Value::List(items), rest)) by {
        let whole = t + rest;
        lemma_no_word(whole);
        assert(whole[1] == s[0]);
        assert(whole.skip(1) =~= s + rest);
        assert(read_items(s + rest, (fuel - 1) as nat) == Some((items, rest)));
    }
}

pub proof fn lemma_last_item(text: Seq<char>, item: Value)
    requires
        writes(text, item),
    ensures
        writes_items(text + seq![']'], seq![item]),
{
    let s = text + seq![']'];
    assert forall|rest: Seq<char>, fuel: nat| fuel >= s.len() implies #[trigger] read_items(
        s + rest,
        fuel,
    ) == Some((seq![item], rest)) by {
        let tail = seq![']'] + rest;
        assert(s + rest =~= text + tail);
        assert(read_value(text + tail, (fuel - 1) as nat) == Some((item, tail)));
        assert(tail.skip(1) =~= rest);
    }
}

pub proof fn lemma_more_items(text: Seq<char>, item: Value, later: Seq<char>, items: Seq<Value>)
    requires
        writes(text, item),
        writes_items(later, items),
    ensures
        writes_items(text + seq![','] + later, seq![item] + items),
{
    let s = text + seq![','] + later;
    assert forall|rest: Seq<char>, fuel: nat| fuel >= s.len() implies #[trigger] read_items(
        s + rest,
        fuel,
    ) == Some((seq![item] + items, rest)) by {
        let tail = seq![','] + (later + rest);
        assert(s + rest =~= text + tail);
        assert(read_value(text + tail, (fuel - 1) as nat) == Some((item, tail)));
        assert(tail.skip(1) =~= later + rest);
        assert(read_items(later + rest, (fuel - 1) as nat) == Some((items, rest)));
    }
}

pub proof fn lemma_object(s: Seq<char>, members: Seq<(Seq<char>, Value)>)
    requires
        writes_members(s, members),
    ensures
        writes(seq!['{'] + s, Value::Object(members)),
{
    let t = seq!['{'] + s;
    assert forall|rest: Seq<char>, fuel: nat| ends(rest) && fuel >= t.len() implies #[trigger] read_value(
        t + rest,
        fuel,
    ) == Some((Value::Object(members), rest)) by {
        let whole = t + rest;
        lemma_no_word(whole);
        assert(whole[1] == s[0]);
        assert(whole.skip(1) =~= s + rest);
        assert(read_members(s + rest, (fuel - 1) as nat) == Some((members, rest)));
    }
}

/// A member with a plain name.
pub open spec fn member_text(name: Seq<char>, text: Seq<char>) -> Seq<char> {
    quoted(name) + seq![':'] + text
}

pub proof fn lemma_last_member(name: Seq<char>, text: Seq<char>, value: Value)
    requires
        is_plain(name),
        writes(text, value),
    ensures
        writes_members(member_text(name, text) + seq!['}'], seq![(name, value)]),
{
    let s = member_text(name, text) + seq!['}'];
    assert forall|rest: Seq<char>, fuel: nat| fuel >= s.len() implies #[trigger] read_members(
        s + rest,
        fuel,
    ) == Some((seq![(name, value)], rest)) by {
        let tail = seq!['}'] + rest;
        let behind = seq![':'] + (text + tail);
        assert(s + rest =~= quoted(name) + behind);
        lemma_plain_text(name, behind);
        assert(behind.skip(1) =~= text + tail);
        assert(read_value(text + tail, (fuel - 1) as nat) == Some((value, tail)));
        assert(tail.skip(1) =~= rest);
    }
}

pub proof fn lemma_more_members(
    name: Seq<char>,
    text: Seq<char>,
    value: Value,
    later: Seq<char>,
    members: Seq<(Seq<char>, Value)>,
)
    requires
        is_plain(name),
        writes(text, value),
        writes_members(later, members),
    ensures
        writes_members(
            member_text(name, text) + seq![','] + later,
            seq![(name, value)] + members,
        ),
{
    let s = member_text(name, text) + seq![','] + later;
    assert forall|rest: Seq<char>, fuel: nat| fuel >= s.len() implies #[trigger] read_members(
        s + rest,
        fuel,
    ) == Some((seq![(name, value)] + members, rest)) by {
        let tail = seq![','] + (later + rest);
        let behind = seq![':'] + (text + tail);
        assert(s + rest =~= quoted(name) + behind);
        lemma_plain_text(name, behind);
        assert(behind.skip(1) =~= text + tail);
        assert(read_value(text + tail, (fuel - 1) as nat) == Some((value, tail)));
        assert(tail.skip(1) =~= later + rest);
        assert(read_members(later + rest, (fuel - 1) as nat) == Some((members, rest)));
    }
}

} // verus!
