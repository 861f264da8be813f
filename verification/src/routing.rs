//! Which running instance a file is handed to, and what is shown about instances.

use crate::bytes::{
    all_digit_bytes, all_digits, decimal_value, equal_ignoring_case, parse_decimal, same_letters,
    to_vec, views,
};
use crate::ipc::{BodyRecord, InfoRecord, Instance, ResponseBody};
use crate::paths::{
    absolute, is_absolute, join_path, joined, lies_under, names, parts, path_lies_under, path_names,
    path_parts, rooted, rooted_path, PathStyle,
};
use crate::text::{
    chars_of, copy_text, lossy, lossy_text, number_text, push_number, string_views, trim_text,
    trimmed,
};
use vstd::prelude::*;
use vstd::slice::slice_subrange;
use vstd::utf8::encode_utf8;

verus! {

// Paths -----------------------------------------------------------------------------------

/// A root covers a path that begins with it, part by part.
pub open spec fn covers(style: PathStyle, root: Seq<u8>, path: Seq<u8>) -> bool {
    lies_under(style, path, root)
}

pub fn is_covered(style: PathStyle, root: &[u8], path: &[u8]) -> (covered: bool)
    ensures
        covered == covers(style, root@, path@),
{
    path_lies_under(style, path, root)
}

/// A path as it is looked up from a directory.
pub open spec fn looked_up(style: PathStyle, path: Seq<u8>, current: Option<Seq<u8>>) -> Seq<u8> {
    match current {
        Some(directory) => if is_absolute(style, path) {
            path
        } else {
            joined(style, directory, path)
        },
        None => path,
    }
}

pub fn absolute_candidate(style: PathStyle, path: &[u8], current: Option<&[u8]>) -> (found: Vec<u8>)
    ensures
        found@ == looked_up(
            style,
            path@,
            match current {
                Some(directory) => Some(directory@),
                None => None,
            },
        ),
{
    match current {
        Some(directory) => if absolute(style, path) {
            to_vec(path)
        } else {
            join_path(style, directory, path)
        },
        None => to_vec(path),
    }
}

// Numbers ---------------------------------------------------------------------------------

/// The digits of a number that may have a plus before it.
pub open spec fn digits_of(words: Seq<u8>) -> Seq<u8> {
    if words.len() > 0 && words[0] == 43 {
        words.subrange(1, words.len() as int)
    } else {
        words
    }
}

/// The number that a text says, if it says one that is not too large.
pub open spec fn number_in(words: Seq<u8>, most: int) -> Option<int> {
    let digits = digits_of(words);
    if digits.len() == 0 || !all_digits(digits) || decimal_value(digits) > most {
        None
    } else {
        Some(decimal_value(digits) as int)
    }
}

fn read_number(words: &[u8], most: usize) -> (number: Option<usize>)
    ensures
        match number_in(words@, most as int) {
            None => number is None,
            Some(value) => number matches Some(found) && found == value,
        },
{
    let digits: &[u8] = if words.len() > 0 && words[0] == 43 {
        slice_subrange(words, 1, words.len())
    } else {
        words
    };
    if digits.len() == 0 || !all_digit_bytes(digits) {
        return None;
    }
    match parse_decimal(digits) {
        None => None,
        Some(value) => if value > most {
            None
        } else {
            Some(value)
        },
    }
}

// Choosing an instance --------------------------------------------------------------------

/// Who receives a file.
#[derive(Debug)]
pub enum Route<'a> {
    Instance(&'a Instance),
    /// Any of them could; the user has to say which.
    Ambiguous(Vec<&'a Instance>),
}

#[derive(Debug)]
pub enum RouteError {
    NoPid(u32),
    NoMatch { scope: Vec<u8>, listed: String },
}

impl RouteError {
    pub open spec fn text(&self) -> Seq<char> {
        match self {
            RouteError::NoPid(pid) => "no running instance has pid "@ + number_text(*pid as nat),
            RouteError::NoMatch { scope, listed } => "no running instance matches "@ + lossy(
                scope@,
            ) + "\nrunning instances:\n"@ + listed@,
        }
    }

    pub fn message(&self) -> (words: String)
        ensures
            words@ == self.text(),
    {
        match self {
            RouteError::NoPid(pid) => {
                let mut words = copy_text("no running instance has pid ");
                push_number(&mut words, *pid as u64);
                words
            },
            RouteError::NoMatch { scope, listed } => {
                let shown = lossy_text(scope.as_slice());
                let mut words = copy_text("no running instance matches ");
                words.push_str(shown.as_str());
                words.push_str("\nrunning instances:\n");
                words.push_str(listed.as_str());
                words
            },
        }
    }
}

/// The first instance with a process number, from a place on.
pub open spec fn place_of_pid(instances: Seq<Instance>, pid: u32, from: int) -> Option<int>
    decreases instances.len() - from,
{
    if from < 0 || from >= instances.len() {
        None
    } else if instances[from].info.pid == pid {
        Some(from)
    } else {
        place_of_pid(instances, pid, from + 1)
    }
}

/// The root of an instance.
pub open spec fn root_of(instance: Instance) -> Seq<u8> {
    encode_utf8(instance.info.root@)
}

/// The instance with the deepest root that covers a path; the last of several.
pub open spec fn deepest(style: PathStyle, instances: Seq<Instance>, scope: Seq<u8>) -> Option<int>
    decreases instances.len(),
{
    if instances.len() == 0 {
        None
    } else {
        let before = deepest(style, instances.drop_last(), scope);
        let root = root_of(instances.last());
        let better = match before {
            None => true,
            Some(at) => parts(style, root_of(instances[at])).len() <= parts(style, root).len(),
        };
        if covers(style, root, scope) && better {
            Some(instances.len() - 1)
        } else {
            before
        }
    }
}

proof fn lemma_deepest(style: PathStyle, instances: Seq<Instance>, scope: Seq<u8>)
    ensures
        match deepest(style, instances, scope) {
            Some(at) => {
                &&& 0 <= at < instances.len()
                &&& covers(style, root_of(instances[at]), scope)
                &&& forall|i: int|
                    0 <= i < instances.len() && covers(style, root_of(#[trigger] instances[i]), scope)
                        ==> {
                        &&& parts(style, root_of(instances[i])).len() <= parts(
                            style,
                            root_of(instances[at]),
                        ).len()
                        &&& parts(style, root_of(instances[i])).len() == parts(
                            style,
                            root_of(instances[at]),
                        ).len() ==> i <= at
                    }
            },
            None => forall|i: int|
                0 <= i < instances.len() ==> !covers(style, root_of(#[trigger] instances[i]), scope),
        },
    decreases instances.len(),
{
    if instances.len() > 0 {
        let front = instances.drop_last();
        lemma_deepest(style, front, scope);
        assert forall|i: int| 0 <= i < front.len() implies instances[i] == #[trigger] front[i] by {}
        match deepest(style, instances, scope) {
            Some(at) => {
                assert forall|i: int|
                    0 <= i < instances.len() && covers(
                        style,
                        root_of(#[trigger] instances[i]),
                        scope,
                    ) implies {
                    &&& parts(style, root_of(instances[i])).len() <= parts(
                            style,
                        root_of(instances[at]),
                    ).len()
                    &&& parts(style, root_of(instances[i])).len() == parts(
                            style,
                        root_of(instances[at]),
                    ).len() ==> i <= at
                } by {
                    if i < front.len() {
                        assert(front[i] == instances[i]);
                    }
                }
            },
            None => {
                assert forall|i: int| 0 <= i < instances.len() implies !covers(
                    style,
                    root_of(#[trigger] instances[i]),
                    scope,
                ) by {
                    if i < front.len() {
                        assert(front[i] == instances[i]);
                    }
                }
            },
        }
    }
}

/// The instance that is chosen for a path covers it, no other that covers it has a
/// deeper root, and of those with a root as deep it is the one that started last.
/// None is chosen only where none covers it.
pub proof fn law_the_deepest_root_wins(
    style: PathStyle,
    instances: Seq<Instance>,
    scope: Seq<u8>,
    other: int,
)
    requires
        0 <= other < instances.len(),
        covers(style, root_of(instances[other]), scope),
    ensures
        deepest(style, instances, scope) matches Some(at) && 0 <= at < instances.len() && covers(
            style,
            root_of(instances[at]),
            scope,
        ) && parts(style, root_of(instances[other])).len() <= parts(
                            style,
            root_of(instances[at]),
        ).len() && (parts(style, root_of(instances[other])).len() == parts(
                            style,
            root_of(instances[at]),
        ).len() ==> other <= at),
{
    lemma_deepest(style, instances, scope);
}

/// What instances are called in a list.
pub open spec fn list_text(infos: Seq<InfoRecord>) -> Seq<char>
    decreases infos.len(),
{
    if infos.len() == 0 {
        Seq::empty()
    } else {
        let line = "  pid "@ + number_text(infos.last().pid as nat) + "  "@ + infos.last().root;
        if infos.len() == 1 {
            line
        } else {
            list_text(infos.drop_last()) + "\n"@ + line
        }
    }
}

pub open spec fn infos_of(instances: Seq<&Instance>) -> Seq<InfoRecord> {
    Seq::new(instances.len(), |i: int| instances[i].info@)
}

pub open spec fn own_infos(instances: Seq<Instance>) -> Seq<InfoRecord> {
    Seq::new(instances.len(), |i: int| instances[i].info@)
}

fn push_listed(target: &mut String, instance: &Instance)
    ensures
        final(target)@ == old(target)@ + ("  pid "@ + number_text(instance.info.pid as nat)
            + "  "@ + instance.info.root@),
{
    let ghost before = target@;
    target.push_str("  pid ");
    push_number(target, instance.info.pid as u64);
    target.push_str("  ");
    target.push_str(instance.info.root.as_str());
    assert(target@ =~= before + ("  pid "@ + number_text(instance.info.pid as nat) + "  "@
        + instance.info.root@));
}

/// A list of instances, one on a line.
pub fn format_instance_list(instances: &Vec<&Instance>) -> (words: String)
    ensures
        words@ == list_text(infos_of(instances@)),
{
    let mut words = String::new();
    let ghost infos = infos_of(instances@);
    let mut index: usize = 0;
    assert(words@ =~= list_text(infos.subrange(0, 0)));
    while index < instances.len()
        invariant
            index <= instances@.len(),
            infos == infos_of(instances@),
            words@ == list_text(infos.subrange(0, index as int)),
        decreases instances@.len() - index,
    {
        proof {
            let longer = infos.subrange(0, index + 1);
            assert(longer.drop_last() =~= infos.subrange(0, index as int));
            assert(longer.last() == instances@[index as int].info@);
        }
        if index > 0 {
            words.push_str("\n");
        }
        push_listed(&mut words, instances[index]);
        assert(words@ =~= list_text(infos.subrange(0, index + 1)));
        index = index + 1;
    }
    assert(infos.subrange(0, infos.len() as int) =~= infos);
    words
}

/// Pointers to instances, in their order.
pub fn borrowed<'a>(instances: &'a Vec<Instance>) -> (found: Vec<&'a Instance>)
    ensures
        found@.len() == instances@.len(),
        forall|i: int| 0 <= i < instances@.len() ==> *(#[trigger] found@[i]) == instances@[i],
{
    let mut found: Vec<&'a Instance> = Vec::new();
    let mut index: usize = 0;
    while index < instances.len()
        invariant
            index <= instances@.len(),
            found@.len() == index,
            forall|i: int| 0 <= i < index ==> *(#[trigger] found@[i]) == instances@[i],
        decreases instances@.len() - index,
    {
        found.push(&instances[index]);
        index = index + 1;
    }
    found
}

/// What a target says: the number of a process, or a path.
pub open spec fn target_pid(target: Option<Seq<char>>) -> Option<int> {
    match target {
        Some(words) => number_in(encode_utf8(words), u32::MAX as int),
        None => None,
    }
}

/// The path that instances are matched with.
pub open spec fn scope_of(
    style: PathStyle,
    target: Option<Seq<char>>,
    requested: Seq<u8>,
    current: Option<Seq<u8>>,
) -> Seq<u8> {
    match target {
        Some(words) => looked_up(style, encode_utf8(words), current),
        None => requested,
    }
}

/// Chooses the instance that receives a file. A target that is a number is that of
/// a process. Otherwise the deepest root that covers the path wins. Where none does,
/// an only instance takes what no target was named for, and of several the user
/// has to choose.
pub fn select_instance<'a>(
    style: PathStyle,
    instances: &'a Vec<Instance>,
    target: Option<&str>,
    requested: &[u8],
    current: Option<&[u8]>,
) -> (route: Result<Route<'a>, RouteError>)
    ensures
        ({
            let words = match target {
                Some(words) => Some(words@),
                None => None,
            };
            let directory = match current {
                Some(directory) => Some(directory@),
                None => None,
            };
            let scope = scope_of(style, words, requested@, directory);
            match target_pid(words) {
                Some(pid) => match place_of_pid(instances@, pid as u32, 0) {
                    Some(at) => route matches Ok(Route::Instance(chosen)) && *chosen
                        == instances@[at],
                    None => route == Err::<Route, _>(RouteError::NoPid(pid as u32)),
                },
                None => match deepest(style, instances@, scope) {
                    Some(at) => route matches Ok(Route::Instance(chosen)) && *chosen
                        == instances@[at],
                    None => if words is Some {
                        &&& route matches Err(RouteError::NoMatch { scope: shown, listed })
                        &&& shown@ == scope
                        &&& listed@ == list_text(own_infos(instances@))
                    } else if instances@.len() == 1 {
                        route matches Ok(Route::Instance(chosen)) && *chosen == instances@[0]
                    } else {
                        &&& route matches Ok(Route::Ambiguous(candidates))
                        &&& candidates@.len() == instances@.len()
                        &&& forall|i: int|
                            0 <= i < instances@.len() ==> *(#[trigger] candidates@[i])
                                == instances@[i]
                    },
                },
            }
        }),
{
    if let Some(words) = target {
        if let Some(number) = read_number(words.as_bytes(), 4_294_967_295) {
            let pid: u32 = number as u32;
            let mut index: usize = 0;
            while index < instances.len()
                invariant
                    index <= instances@.len(),
                    place_of_pid(instances@, pid, 0) == place_of_pid(
                        instances@,
                        pid,
                        index as int,
                    ),
                    target == Some(words),
                    number_in(encode_utf8(words@), u32::MAX as int) == Some(pid as int),
                decreases instances@.len() - index,
            {
                if instances[index].info.pid == pid {
                    return Ok(Route::Instance(&instances[index]));
                }
                index = index + 1;
            }
            return Err(RouteError::NoPid(pid));
        }
    }
    let scope = match target {
        Some(words) => absolute_candidate(style, words.as_bytes(), current),
        None => to_vec(requested),
    };
    let mut best: Option<usize> = None;
    let mut depth: usize = 0;
    let mut index: usize = 0;
    while index < instances.len()
        invariant
            index <= instances@.len(),
            match deepest(style, instances@.subrange(0, index as int), scope@) {
                None => best is None,
                Some(at) => best == Some(at as usize) && 0 <= at < index && depth == parts(
                            style,
                    root_of(instances@[at]),
                ).len(),
            },
        decreases instances@.len() - index,
    {
        let root = instances[index].info.root.as_str().as_bytes();
        proof {
            let longer = instances@.subrange(0, index + 1);
            assert(longer.drop_last() =~= instances@.subrange(0, index as int));
            assert(longer.last() == instances@[index as int]);
            assert forall|i: int| 0 <= i < index implies longer[i] == #[trigger] instances@[i] by {}
        }
        if is_covered(style, root, scope.as_slice()) {
            let own = path_parts(style, root);
            assert(crate::paths::part_records(own@).len() == own@.len());
            let better = match best {
                None => true,
                Some(_) => depth <= own.len(),
            };
            if better {
                best = Some(index);
                depth = own.len();
            }
        }
        index = index + 1;
    }
    assert(instances@.subrange(0, instances@.len() as int) =~= instances@);
    if let Some(at) = best {
        return Ok(Route::Instance(&instances[at]));
    }
    if target.is_none() {
        if instances.len() == 1 {
            return Ok(Route::Instance(&instances[0]));
        }
        return Ok(Route::Ambiguous(borrowed(instances)));
    }
    let all = borrowed(instances);
    let listed = format_instance_list(&all);
    assert(infos_of(all@) =~= own_infos(instances@));
    Err(RouteError::NoMatch { scope, listed })
}

// Asking the user -------------------------------------------------------------------------

/// The instances that can be chosen, with their numbers.
pub open spec fn choices_text(infos: Seq<InfoRecord>) -> Seq<char>
    decreases infos.len(),
{
    if infos.len() == 0 {
        Seq::empty()
    } else {
        choices_text(infos.drop_last()) + "  ["@ + number_text(infos.len()) + "] pid "@
            + number_text(infos.last().pid as nat) + "  "@ + infos.last().root + "\n"@
    }
}

/// What the user is asked.
pub open spec fn prompt_text(infos: Seq<InfoRecord>, scope: Seq<char>) -> Seq<char> {
    "No running instance covers "@ + scope + "; choose one:\n"@ + choices_text(infos)
        + "Enter a number 1-"@ + number_text(infos.len()) + " (q to cancel): "@
}

pub fn choice_prompt(instances: &Vec<&Instance>, scope: &str) -> (prompt: String)
    ensures
        prompt@ == prompt_text(infos_of(instances@), scope@),
{
    let ghost infos = infos_of(instances@);
    let mut prompt = copy_text("No running instance covers ");
    prompt.push_str(scope);
    prompt.push_str("; choose one:\n");
    let ghost first = prompt@;
    let mut index: usize = 0;
    assert(prompt@ =~= first + choices_text(infos.subrange(0, 0)));
    while index < instances.len()
        invariant
            index <= instances@.len(),
            infos == infos_of(instances@),
            prompt@ == first + choices_text(infos.subrange(0, index as int)),
        decreases instances@.len() - index,
    {
        let instance: &Instance = instances[index];
        proof {
            let longer = infos.subrange(0, index + 1);
            assert(longer.drop_last() =~= infos.subrange(0, index as int));
            assert(longer.last() == instances@[index as int].info@);
        }
        prompt.push_str("  [");
        push_number(&mut prompt, index as u64 + 1);
        prompt.push_str("] pid ");
        push_number(&mut prompt, instance.info.pid as u64);
        prompt.push_str("  ");
        prompt.push_str(instance.info.root.as_str());
        prompt.push_str("\n");
        assert(prompt@ =~= first + choices_text(infos.subrange(0, index + 1)));
        index = index + 1;
    }
    assert(infos.subrange(0, infos.len() as int) =~= infos);
    prompt.push_str("Enter a number 1-");
    push_number(&mut prompt, instances.len() as u64);
    prompt.push_str(" (q to cancel): ");
    assert(prompt@ =~= prompt_text(infos, scope@));
    prompt
}

/// Why a choice is not taken.
#[derive(Debug)]
pub enum ChoiceError {
    Cancelled,
    Invalid(String),
    BelowRange,
    AboveRange(usize),
}

impl ChoiceError {
    pub open spec fn text(&self) -> Seq<char> {
        match self {
            ChoiceError::Cancelled => "cancelled"@,
            ChoiceError::Invalid(answer) => "not a valid choice: "@ + answer@,
            ChoiceError::BelowRange => "choice out of range"@,
            ChoiceError::AboveRange(number) => "choice out of range: "@ + number_text(
                *number as nat,
            ),
        }
    }

    pub fn message(&self) -> (words: String)
        ensures
            words@ == self.text(),
    {
        match self {
            ChoiceError::Cancelled => copy_text("cancelled"),
            ChoiceError::Invalid(answer) => {
                let mut words = copy_text("not a valid choice: ");
                words.push_str(answer.as_str());
                words
            },
            ChoiceError::BelowRange => copy_text("choice out of range"),
            ChoiceError::AboveRange(number) => {
                let mut words = copy_text("choice out of range: ");
                push_number(&mut words, *number as u64);
                words
            },
        }
    }
}

/// The instance that the user chose by its number, counted from one.
pub fn prompt_instance_choice<'a>(instances: &Vec<&'a Instance>, line: &str) -> (chosen: Result<
    &'a Instance,
    ChoiceError,
>)
    ensures
        ({
            let answer = trimmed(line@);
            let bytes = encode_utf8(answer);
            if answer.len() == 0 || same_letters(bytes, encode_utf8("q"@)) {
                chosen matches Err(ChoiceError::Cancelled)
            } else {
                match number_in(bytes, usize::MAX as int) {
                    None => chosen matches Err(ChoiceError::Invalid(words)) && words@ == answer,
                    Some(number) => if number == 0 {
                        chosen matches Err(ChoiceError::BelowRange)
                    } else if number > instances@.len() {
                        chosen == Err::<&Instance, _>(ChoiceError::AboveRange(number as usize))
                    } else {
                        chosen == Ok::<_, ChoiceError>(instances@[number - 1])
                    },
                }
            }
        }),
{
    let answer = trim_text(line);
    let characters = chars_of(answer.as_str());
    if characters.len() == 0 || equal_ignoring_case(answer.as_str().as_bytes(), "q".as_bytes()) {
        return Err(ChoiceError::Cancelled);
    }
    match read_number(answer.as_str().as_bytes(), usize::MAX) {
        None => Err(ChoiceError::Invalid(answer)),
        Some(number) => if number == 0 {
            Err(ChoiceError::BelowRange)
        } else if number > instances.len() {
            Err(ChoiceError::AboveRange(number))
        } else {
            Ok(instances[number - 1])
        },
    }
}

// What is shown about instances -----------------------------------------------------------

/// A number with at least two digits.
pub open spec fn two_digits(value: nat) -> Seq<char> {
    if value < 10 {
        "0"@ + number_text(value)
    } else {
        number_text(value)
    }
}

/// A time span in its two largest units.
pub open spec fn uptime_text(seconds: nat) -> Seq<char> {
    if seconds < 60 {
        number_text(seconds) + "s"@
    } else if seconds < 3_600 {
        number_text(seconds / 60) + "m"@ + two_digits(seconds % 60) + "s"@
    } else if seconds < 86_400 {
        number_text(seconds / 3_600) + "h"@ + two_digits((seconds % 3_600) / 60) + "m"@
    } else {
        number_text(seconds / 86_400) + "d"@ + two_digits((seconds % 86_400) / 3_600) + "h"@
    }
}

fn push_two_digits(target: &mut String, value: u64)
    ensures
        final(target)@ == old(target)@ + two_digits(value as nat),
{
    let ghost before = target@;
    if value < 10 {
        target.push_str("0");
    }
    push_number(target, value);
    assert(target@ =~= before + two_digits(value as nat));
}

fn push_span(target: &mut String, large: u64, unit: &str, small: u64, part: &str)
    ensures
        final(target)@ == old(target)@ + (number_text(large as nat) + unit@ + two_digits(
            small as nat,
        ) + part@),
{
    let ghost before = target@;
    push_number(target, large);
    target.push_str(unit);
    push_two_digits(target, small);
    target.push_str(part);
    assert(target@ =~= before + (number_text(large as nat) + unit@ + two_digits(small as nat)
        + part@));
}

pub fn format_uptime(seconds: u64) -> (words: String)
    ensures
        words@ == uptime_text(seconds as nat),
{
    let mut words = String::new();
    if seconds < 60 {
        push_number(&mut words, seconds);
        words.push_str("s");
    } else if seconds < 3_600 {
        push_span(&mut words, seconds / 60, "m", seconds % 60, "s");
    } else if seconds < 86_400 {
        push_span(&mut words, seconds / 3_600, "h", (seconds % 3_600) / 60, "m");
    } else {
        push_span(&mut words, seconds / 86_400, "d", (seconds % 86_400) / 3_600, "h");
    }
    assert(words@ =~= uptime_text(seconds as nat));
    words
}

/// Blanks.
pub open spec fn blanks(count: int) -> Seq<char> {
    Seq::new(
        if count > 0 {
            count as nat
        } else {
            0
        },
        |i: int| ' ',
    )
}

/// A text with blanks behind it up to a width.
pub open spec fn padded(words: Seq<char>, width: nat) -> Seq<char> {
    words + blanks(width - words.len())
}

fn push_padded(target: &mut String, words: &str, width: usize)
    ensures
        final(target)@ == old(target)@ + padded(words@, width as nat),
{
    let ghost before = target@;
    target.push_str(words);
    let mut length: usize = chars_of(words).len();
    assert(target@ =~= before + words@ + blanks(0));
    while length < width
        invariant
            words@.len() <= length,
            words@.len() <= width ==> length <= width,
            words@.len() > width ==> length == words@.len(),
            target@ == before + words@ + blanks(length - words@.len()),
        decreases width - length,
    {
        target.push(' ');
        assert(target@ =~= before + words@ + blanks(length + 1 - words@.len()));
        length = length + 1;
    }
    assert(target@ =~= before + padded(words@, width as nat));
}

/// A line of the table of instances.
pub open spec fn row_text(first: Seq<char>, second: Seq<char>, third: Seq<char>, last: Seq<char>) -> Seq<char> {
    padded(first, 8) + " "@ + padded(second, 9) + " "@ + padded(third, 12) + " "@ + last + "\n"@
}

/// How long an instance runs, in seconds.
pub open spec fn running_for(info: InfoRecord, now: u64) -> nat {
    if now >= info.started_at_ms {
        ((now - info.started_at_ms) / 1_000) as nat
    } else {
        0
    }
}

/// The table of instances without its head.
pub open spec fn rows_text(infos: Seq<InfoRecord>, now: u64) -> Seq<char>
    decreases infos.len(),
{
    if infos.len() == 0 {
        Seq::empty()
    } else {
        let info = infos.last();
        rows_text(infos.drop_last(), now) + row_text(
            number_text(info.pid as nat),
            uptime_text(running_for(info, now)),
            info.version,
            info.root,
        )
    }
}

/// What is listed of the running instances.
pub open spec fn table_text(infos: Seq<InfoRecord>, now: u64) -> Seq<char> {
    if infos.len() == 0 {
        "no running instances\n"@
    } else {
        row_text("PID"@, "UPTIME"@, "VERSION"@, "ROOT"@) + rows_text(infos, now)
    }
}

fn push_row(target: &mut String, first: &str, second: &str, third: &str, last: &str)
    ensures
        final(target)@ == old(target)@ + row_text(first@, second@, third@, last@),
{
    let ghost before = target@;
    push_padded(target, first, 8);
    target.push_str(" ");
    push_padded(target, second, 9);
    target.push_str(" ");
    push_padded(target, third, 12);
    target.push_str(" ");
    target.push_str(last);
    target.push_str("\n");
    assert(target@ =~= before + row_text(first@, second@, third@, last@));
}

/// The table of the running instances, at a time in milliseconds.
pub fn instance_table(instances: &Vec<Instance>, now: u64) -> (table: String)
    ensures
        table@ == table_text(own_infos(instances@), now),
{
    if instances.len() == 0 {
        return copy_text("no running instances\n");
    }
    let ghost infos = own_infos(instances@);
    let mut table = String::new();
    push_row(&mut table, "PID", "UPTIME", "VERSION", "ROOT");
    let ghost head = table@;
    let mut index: usize = 0;
    assert(table@ =~= head + rows_text(infos.subrange(0, 0), now));
    while index < instances.len()
        invariant
            index <= instances@.len(),
            infos == own_infos(instances@),
            table@ == head + rows_text(infos.subrange(0, index as int), now),
        decreases instances@.len() - index,
    {
        let info = &instances[index].info;
        proof {
            let longer = infos.subrange(0, index + 1);
            assert(longer.drop_last() =~= infos.subrange(0, index as int));
            assert(longer.last() == instances@[index as int].info@);
        }
        let mut pid = String::new();
        push_number(&mut pid, info.pid as u64);
        assert(pid@ =~= number_text(info.pid as nat));
        let elapsed: u64 = if now >= info.started_at_ms {
            (now - info.started_at_ms) / 1_000
        } else {
            0
        };
        let uptime = format_uptime(elapsed);
        push_row(
            &mut table,
            pid.as_str(),
            uptime.as_str(),
            info.version.as_str(),
            info.root.as_str(),
        );
        assert(table@ =~= head + rows_text(infos.subrange(0, index + 1), now));
        index = index + 1;
    }
    proof {
        assert(infos.subrange(0, infos.len() as int) =~= infos);
        assert(head =~= row_text("PID"@, "UPTIME"@, "VERSION"@, "ROOT"@));
    }
    table
}

// Starting and attaching ------------------------------------------------------------------

/// What a viewer starts with.
#[derive(Debug)]
pub struct ViewerStart {
    pub workspace: Vec<u8>,
    /// The one file that is shown, if a file was named.
    pub initial_file: Option<Vec<u8>>,
}

#[derive(Clone, Copy, Debug, PartialEq, Eq, Structural)]
pub enum StartFault {
    NoParent,
    NeitherFileNorDirectory,
}

/// The directory that an absolute path is in.
pub open spec fn parent_of(style: PathStyle, path: Seq<u8>) -> Option<Seq<u8>> {
    if names(style, path).len() == 0 {
        None
    } else {
        Some(rooted(style, path, names(style, path).len() - 1))
    }
}

/// What a viewer shows for an absolute path: a directory is the workspace, and a
/// file is shown alone in the directory it is in.
pub fn viewer_start(style: PathStyle, requested: &[u8], directory: bool, file: bool) -> (start: Result<
    ViewerStart,
    StartFault,
>)
    ensures
        if directory {
            start matches Ok(found) && found.workspace@ == requested@ && found.initial_file is None
        } else if file {
            match parent_of(style, requested@) {
                None => start == Err::<ViewerStart, _>(StartFault::NoParent),
                Some(parent) => {
                    &&& start matches Ok(found)
                    &&& found.workspace@ == parent
                    &&& found.initial_file matches Some(shown)
                    &&& shown@ == requested@
                },
            }
        } else {
            start == Err::<ViewerStart, _>(StartFault::NeitherFileNorDirectory)
        },
{
    if directory {
        return Ok(ViewerStart { workspace: to_vec(requested), initial_file: None });
    }
    if !file {
        return Err(StartFault::NeitherFileNorDirectory);
    }
    let all = path_names(style, requested);
    assert(views(all@).len() == all@.len());
    if all.len() == 0 {
        return Err(StartFault::NoParent);
    }
    Ok(
        ViewerStart {
            workspace: rooted_path(style, requested, all.len() - 1),
            initial_file: Some(to_vec(requested)),
        },
    )
}

/// Two warnings in one, if there are any.
pub fn merged_warning(first: Option<String>, second: Option<String>) -> (warning: Option<String>)
    ensures
        match (first, second) {
            (Some(left), Some(right)) => warning matches Some(words) && words@ == left@ + " · "@
                + right@,
            (Some(left), None) => warning == Some(left),
            (None, right) => warning == right,
        },
{
    match (first, second) {
        (Some(left), Some(right)) => {
            let mut words = copy_text(left.as_str());
            words.push_str(" · ");
            words.push_str(right.as_str());
            Some(words)
        },
        (Some(left), None) => Some(left),
        (None, right) => right,
    }
}

/// What is reported of files that were opened.
pub open spec fn opened_text(opened: Seq<Seq<char>>, pid: u32) -> Seq<char>
    decreases opened.len(),
{
    if opened.len() == 0 {
        Seq::empty()
    } else {
        opened_text(opened.drop_last(), pid) + "opened "@ + opened.last() + " in instance "@
            + number_text(pid as nat) + "\n"@
    }
}

/// What is reported of the answer of an instance that was asked to open files, or
/// the fault that it means.
pub fn attach_report(reply: &ResponseBody, pid: u32) -> (report: Result<String, String>)
    ensures
        match reply@ {
            BodyRecord::Opened(opened) => report matches Ok(words) && words@ == opened_text(
                opened,
                pid,
            ),
            BodyRecord::Error(message) => report matches Err(words) && words@ == "instance "@
                + number_text(pid as nat) + ": "@ + message,
            BodyRecord::Info(_) => report matches Err(words) && words@ == "instance "@
                + number_text(pid as nat) + " returned an unexpected reply"@,
        },
{
    match reply {
        ResponseBody::Opened { opened } => {
            let ghost shown = string_views(opened@);
            let mut words = String::new();
            let mut index: usize = 0;
            assert(words@ =~= opened_text(shown.subrange(0, 0), pid));
            while index < opened.len()
                invariant
                    index <= opened@.len(),
                    shown == string_views(opened@),
                    words@ == opened_text(shown.subrange(0, index as int), pid),
                decreases opened@.len() - index,
            {
                proof {
                    let longer = shown.subrange(0, index + 1);
                    assert(longer.drop_last() =~= shown.subrange(0, index as int));
                    assert(longer.last() == opened@[index as int]@);
                }
                words.push_str("opened ");
                words.push_str(opened[index].as_str());
                words.push_str(" in instance ");
                push_number(&mut words, pid as u64);
                words.push_str("\n");
                index = index + 1;
            }
            assert(shown.subrange(0, shown.len() as int) =~= shown);
            Ok(words)
        },
        ResponseBody::Error { message } => {
            let mut words = copy_text("instance ");
            push_number(&mut words, pid as u64);
            words.push_str(": ");
            words.push_str(message.as_str());
            Err(words)
        },
        ResponseBody::Info { .. } => {
            let mut words = copy_text("instance ");
            push_number(&mut words, pid as u64);
            words.push_str(" returned an unexpected reply");
            Err(words)
        },
    }
}

impl StartFault {
    pub open spec fn text(self, requested: Seq<char>) -> Seq<char> {
        match self {
            StartFault::NoParent => "opened file has no parent directory"@,
            StartFault::NeitherFileNorDirectory => requested
                + " is neither a directory nor a regular file"@,
        }
    }

    pub fn message(&self, requested: &str) -> (words: String)
        ensures
            words@ == self.text(requested@),
    {
        match self {
            StartFault::NoParent => copy_text("opened file has no parent directory"),
            StartFault::NeitherFileNorDirectory => {
                let mut words = copy_text(requested);
                words.push_str(" is neither a directory nor a regular file");
                words
            },
        }
    }
}

/// What is said where none of several instances covers a path and nobody can be asked.
pub open spec fn uncovered_text(infos: Seq<InfoRecord>, scope: Seq<char>) -> Seq<char> {
    "no running instance covers "@ + scope + "\nrunning instances:\n"@ + list_text(infos)
        + "\nre-run with --target <pid>, or run from a terminal to choose interactively"@
}

pub fn uncovered_error(instances: &Vec<&Instance>, scope: &str) -> (words: String)
    ensures
        words@ == uncovered_text(infos_of(instances@), scope@),
{
    let mut words = copy_text("no running instance covers ");
    words.push_str(scope);
    words.push_str("\nrunning instances:\n");
    let listed = format_instance_list(instances);
    words.push_str(listed.as_str());
    words.push_str(
        "\nre-run with --target <pid>, or run from a terminal to choose interactively",
    );
    words
}

// What is typed and shown -----------------------------------------------------------------

/// The first instance with a process number is found, and no other.
pub proof fn law_instances_are_found_by_number(instances: Seq<Instance>, pid: u32)
    ensures
        match place_of_pid(instances, pid, 0) {
            Some(at) => 0 <= at < instances.len() && instances[at].info.pid == pid && forall|i: int|
                0 <= i < at ==> (#[trigger] instances[i]).info.pid != pid,
            None => forall|i: int|
                0 <= i < instances.len() ==> (#[trigger] instances[i]).info.pid != pid,
        },
{
    lemma_first_with_pid(instances, pid, 0);
}

proof fn lemma_first_with_pid(instances: Seq<Instance>, pid: u32, from: int)
    requires
        0 <= from <= instances.len(),
    ensures
        match place_of_pid(instances, pid, from) {
            Some(at) => from <= at < instances.len() && instances[at].info.pid == pid && forall|
                i: int,
            |
                from <= i < at ==> (#[trigger] instances[i]).info.pid != pid,
            None => forall|i: int|
                from <= i < instances.len() ==> (#[trigger] instances[i]).info.pid != pid,
        },
    decreases instances.len() - from,
{
    if from < instances.len() && instances[from].info.pid != pid {
        lemma_first_with_pid(instances, pid, from + 1);
    }
}

/// A number that is written in digits, with a plus sign or without one, is read back if it
/// is not too large; what holds anything else is no number.
pub proof fn law_typed_numbers_are_read_back(digits: Seq<u8>, most: int)
    requires
        digits.len() > 0,
    ensures
        all_digits(digits) ==> number_in(digits, most) == (if decimal_value(digits) <= most {
            Some(decimal_value(digits) as int)
        } else {
            None
        }),
        all_digits(digits) ==> number_in(seq![43u8] + digits, most) == number_in(digits, most),
        digits[0] != 43 && !all_digits(digits) ==> number_in(digits, most) is None,
        number_in(Seq::empty(), most) is None,
        number_in(seq![43u8], most) is None,
{
    assert((seq![43u8] + digits).subrange(1, digits.len() as int + 1) =~= digits);
    assert(seq![43u8].subrange(1, 1) =~= Seq::<u8>::empty());
    assert(digits_of(seq![43u8]).len() == 0);
    if all_digits(digits) {
        assert(crate::bytes::is_digit(digits[0]));
    }
}

/// How long an instance has run is told in the two largest units that fit: `high` of one and
/// `low` of the next.
pub open spec fn tells_time(
    shown: Seq<char>,
    high: nat,
    high_unit: Seq<char>,
    low: nat,
    low_unit: Seq<char>,
) -> bool {
    shown == number_text(high) + high_unit + (if low < 10 {
        "0"@
    } else {
        Seq::empty()
    }) + number_text(low) + low_unit
}

/// The time that an instance has run is shown rounded down to its second unit: seconds under
/// an hour, minutes under a day, hours from there on.
pub proof fn law_times_are_rounded_down(seconds: nat)
    ensures
        seconds < 60 ==> uptime_text(seconds) == number_text(seconds) + "s"@,
        60 <= seconds < 3600 ==> exists|high: nat, low: nat|
            low < 60 && seconds == 60 * high + low && #[trigger] tells_time(
                uptime_text(seconds),
                high,
                "m"@,
                low,
                "s"@,
            ),
        3600 <= seconds < 86400 ==> exists|high: nat, low: nat|
            low < 60 && 60 * (60 * high + low) <= seconds < 60 * (60 * high + low + 1)
                && #[trigger] tells_time(uptime_text(seconds), high, "h"@, low, "m"@),
        86400 <= seconds ==> exists|high: nat, low: nat|
            low < 24 && 3600 * (24 * high + low) <= seconds < 3600 * (24 * high + low + 1)
                && #[trigger] tells_time(uptime_text(seconds), high, "d"@, low, "h"@),
{
    if 60 <= seconds < 3600 {
        lemma_told(seconds / 60, "m"@, seconds % 60, "s"@);
        assert(tells_time(uptime_text(seconds), seconds / 60, "m"@, seconds % 60, "s"@));
    } else if 3600 <= seconds < 86400 {
        let low = (seconds % 3600) / 60;
        lemma_told(seconds / 3600, "h"@, low, "m"@);
        assert(tells_time(uptime_text(seconds), seconds / 3600, "h"@, low, "m"@));
    } else if 86400 <= seconds {
        let low = (seconds % 86400) / 3600;
        lemma_told(seconds / 86400, "d"@, low, "h"@);
        assert(tells_time(uptime_text(seconds), seconds / 86400, "d"@, low, "h"@));
    }
}

proof fn lemma_told(high: nat, high_unit: Seq<char>, low: nat, low_unit: Seq<char>)
    ensures
        tells_time(
            number_text(high) + high_unit + two_digits(low) + low_unit,
            high,
            high_unit,
            low,
            low_unit,
        ),
{
    let front = number_text(high) + high_unit;
    if low < 10 {
        assert(front + ("0"@ + number_text(low)) =~= front + "0"@ + number_text(low));
    } else {
        assert(front + Seq::<char>::empty() =~= front);
    }
}

/// An instance has run for the whole seconds since it was started, and for none if its start
/// lies ahead.
pub proof fn law_instances_run_since_their_start(info: InfoRecord, now: u64)
    ensures
        now >= info.started_at_ms ==> 1000 * running_for(info, now) <= now - info.started_at_ms
            < 1000 * (running_for(info, now) + 1),
        now < info.started_at_ms ==> running_for(info, now) == 0,
{
}

/// A column is filled with blanks to its width, and a longer text is not cut.
pub proof fn law_columns_are_filled(words: Seq<char>, width: nat)
    ensures
        padded(words, width).len() == (if words.len() > width {
            words.len()
        } else {
            width
        }),
        padded(words, width).take(words.len() as int) == words,
        forall|i: int|
            words.len() <= i < padded(words, width).len() ==> #[trigger] padded(words, width)[i]
                == ' ',
{
    assert(padded(words, width).take(words.len() as int) =~= words);
}

/// What is asked for is looked up where it says, or from the current directory if it does
/// not begin at the root.
pub proof fn law_relative_paths_begin_at_the_current_directory(path: Seq<u8>, current: Seq<u8>)
    ensures
        path.len() > 0 && path[0] == 47 ==> looked_up(PathStyle::Unix, path, Some(current))
            == path,
        path.len() == 0 || path[0] != 47 ==> names(
            PathStyle::Unix,
            looked_up(PathStyle::Unix, path, Some(current)),
        ) == names(PathStyle::Unix, current) + names(PathStyle::Unix, path),
        looked_up(PathStyle::Unix, path, None) == path,
{
    crate::paths::law_joining_adds_names(current, path);
}

} // verus!
