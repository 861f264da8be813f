//! Which language servers a user lets navigation start.
//!
//! The program reads the environment and the disk; every decision on what it
//! found is made here.

use crate::bytes::{byte_views, bytes_equal, lowercase_bytes, text, to_vec};
use crate::git::holds_zero;
use crate::json::{normalize_jsonc, plain_json};
use crate::language::LanguageFamily;
use crate::paths::{
    absolute, extension, is_absolute, join_path, joined, lies_under, parts, path_extension,
    path_lies_under, path_parts, paths_equal, same_path, PathStyle,
};
use crate::text::{
    chars_of, control, copy_text, is_control, lossy, lossy_text, number_text, push_number,
    string_views, utf8_text,
};
use vstd::prelude::*;
use vstd::utf8::encode_utf8;

verus! {

pub const MAX_CONFIG_BYTES: usize = 64 * 1024;

pub const MAX_PROGRAM_BYTES: usize = 4_096;

pub const MAX_ARGS: usize = 16;

pub const MAX_ARG_BYTES: usize = 4_096;

pub const MAX_ARGS_BYTES: usize = 16 * 1024;

pub const MAX_WARNING_BYTES: usize = 240;

// Configuration ---------------------------------------------------------------------------

#[derive(Clone, Copy, Debug, PartialEq, Eq, Structural)]
pub enum ConfigError {
    TooLarge,
    ByteOrderMark,
    NotUtf8,
    UnterminatedComment,
}

impl ConfigError {
    pub fn message(&self) -> (text: &'static str)
        ensures
            text@ == (match self {
                ConfigError::TooLarge => "Latte Lens config exceeds 64 KiB"@,
                ConfigError::ByteOrderMark => "Latte Lens config must not contain a UTF-8 BOM"@,
                ConfigError::NotUtf8 => "Latte Lens config is not strict UTF-8"@,
                ConfigError::UnterminatedComment =>
                    "invalid Latte Lens config: unterminated block comment"@,
            }),
    {
        match self {
            ConfigError::TooLarge => "Latte Lens config exceeds 64 KiB",
            ConfigError::ByteOrderMark => "Latte Lens config must not contain a UTF-8 BOM",
            ConfigError::NotUtf8 => "Latte Lens config is not strict UTF-8",
            ConfigError::UnterminatedComment =>
                "invalid Latte Lens config: unterminated block comment",
        }
    }
}

/// The bytes begin with the mark that some editors put before UTF-8.
pub open spec fn is_marked(bytes: Seq<u8>) -> bool {
    bytes.len() >= 3 && bytes[0] == 0xef && bytes[1] == 0xbb && bytes[2] == 0xbf
}

/// The plain JSON of a configuration file, or why it is turned down.
pub open spec fn config_json(bytes: Seq<u8>) -> Result<Seq<u8>, ConfigError> {
    if bytes.len() > MAX_CONFIG_BYTES {
        Err(ConfigError::TooLarge)
    } else if is_marked(bytes) {
        Err(ConfigError::ByteOrderMark)
    } else if !vstd::utf8::valid_utf8(bytes) {
        Err(ConfigError::NotUtf8)
    } else {
        match plain_json(bytes) {
            None => Err(ConfigError::UnterminatedComment),
            Some(plain) => Ok(plain),
        }
    }
}

/// Checks the bytes of a configuration file and makes plain JSON of them.
pub fn parse_raw_config(bytes: &[u8]) -> (result: Result<Vec<u8>, ConfigError>)
    ensures
        match config_json(bytes@) {
            Err(error) => result == Err::<Vec<u8>, _>(error),
            Ok(plain) => result matches Ok(found) && found@ == plain,
        },
{
    if bytes.len() > MAX_CONFIG_BYTES {
        return Err(ConfigError::TooLarge);
    }
    if bytes.len() >= 3 && bytes[0] == 0xef && bytes[1] == 0xbb && bytes[2] == 0xbf {
        return Err(ConfigError::ByteOrderMark);
    }
    if utf8_text(bytes).is_none() {
        return Err(ConfigError::NotUtf8);
    }
    match normalize_jsonc(bytes) {
        Err(_) => Err(ConfigError::UnterminatedComment),
        Ok(plain) => Ok(plain),
    }
}

/// The configuration file as it was written.
#[derive(Debug)]
pub struct RawConfig {
    pub code_navigation: Option<RawCodeNavigation>,
}

#[derive(Debug)]
pub struct RawCodeNavigation {
    pub enabled: Option<bool>,
    pub languages: Option<RawLanguages>,
}

#[derive(Debug)]
pub struct RawLanguages {
    pub rust: Option<RawLanguage>,
    pub typescript: Option<RawLanguage>,
    pub python: Option<RawLanguage>,
    pub go: Option<RawLanguage>,
}

impl RawLanguages {
    pub open spec fn of(&self, family: LanguageFamily) -> Option<RawLanguage> {
        match family {
            LanguageFamily::Rust => self.rust,
            LanguageFamily::TypeScript => self.typescript,
            LanguageFamily::Python => self.python,
            LanguageFamily::Go => self.go,
        }
    }
}

#[derive(Debug)]
pub struct RawLanguage {
    pub enabled: Option<bool>,
    /// The command of the language server that was written down.
    pub engine: Option<Vec<String>>,
}

/// What is to be done for a language.
#[derive(Debug)]
pub enum LanguagePlan {
    /// The language stays without a server.
    Skip,
    /// The command that the user wrote must work.
    Configured(Vec<String>),
    /// The usual command is tried.
    BuiltIn(Vec<String>),
}

/// What a plan says.
pub enum PlanRecord {
    Skip,
    Configured(Seq<Seq<char>>),
    BuiltIn(Seq<Seq<char>>),
}

impl View for LanguagePlan {
    type V = PlanRecord;

    open spec fn view(&self) -> PlanRecord {
        match self {
            LanguagePlan::Skip => PlanRecord::Skip,
            LanguagePlan::Configured(command) => PlanRecord::Configured(string_views(command@)),
            LanguagePlan::BuiltIn(command) => PlanRecord::BuiltIn(string_views(command@)),
        }
    }
}

/// The command that is tried for a family.
pub open spec fn usual_command(family: LanguageFamily) -> Seq<Seq<char>> {
    match family {
        LanguageFamily::Rust => seq!["rust-analyzer"@],
        LanguageFamily::TypeScript => seq!["typescript-language-server"@, "--stdio"@],
        LanguageFamily::Python => seq!["pyright-langserver"@, "--stdio"@],
        LanguageFamily::Go => seq!["gopls"@, "serve"@],
    }
}

fn words(first: &str, second: Option<&str>) -> (command: Vec<String>)
    ensures
        string_views(command@) == (match second {
            None => seq![first@],
            Some(second) => seq![first@, second@],
        }),
{
    let mut command: Vec<String> = Vec::new();
    command.push(copy_text(first));
    if let Some(second) = second {
        command.push(copy_text(second));
        assert(string_views(command@) =~= seq![first@, second@]);
    } else {
        assert(string_views(command@) =~= seq![first@]);
    }
    command
}

pub fn default_language_server_command(family: LanguageFamily) -> (command: Vec<String>)
    ensures
        string_views(command@) == usual_command(family),
{
    match family {
        LanguageFamily::Rust => words("rust-analyzer", None),
        LanguageFamily::TypeScript => words("typescript-language-server", Some("--stdio")),
        LanguageFamily::Python => words("pyright-langserver", Some("--stdio")),
        LanguageFamily::Go => words("gopls", Some("serve")),
    }
}

/// What is done for a language by what was written for it.
pub open spec fn language_plan(raw: Option<RawLanguage>, family: LanguageFamily) -> PlanRecord {
    match raw {
        None => PlanRecord::BuiltIn(usual_command(family)),
        Some(language) => if language.enabled == Some(false) {
            PlanRecord::Skip
        } else {
            match language.engine {
                Some(command) => PlanRecord::Configured(string_views(command@)),
                None => PlanRecord::BuiltIn(usual_command(family)),
            }
        },
    }
}

pub fn plan_language(raw: Option<RawLanguage>, family: LanguageFamily) -> (plan: LanguagePlan)
    ensures
        plan@ == language_plan(raw, family),
{
    match raw {
        None => LanguagePlan::BuiltIn(default_language_server_command(family)),
        Some(language) => {
            if let Some(false) = language.enabled {
                LanguagePlan::Skip
            } else {
                match language.engine {
                    Some(command) => LanguagePlan::Configured(command),
                    None => LanguagePlan::BuiltIn(default_language_server_command(family)),
                }
            }
        },
    }
}

/// A plan for every language.
#[derive(Debug)]
pub struct SettingsPlan {
    pub rust: LanguagePlan,
    pub typescript: LanguagePlan,
    pub python: LanguagePlan,
    pub go: LanguagePlan,
}

impl SettingsPlan {
    pub open spec fn of(&self, family: LanguageFamily) -> PlanRecord {
        match family {
            LanguageFamily::Rust => self.rust@,
            LanguageFamily::TypeScript => self.typescript@,
            LanguageFamily::Python => self.python@,
            LanguageFamily::Go => self.go@,
        }
    }
}

/// What was written on navigation.
pub open spec fn navigation_of(raw: Option<RawConfig>) -> Option<RawCodeNavigation> {
    match raw {
        None => None,
        Some(config) => config.code_navigation,
    }
}

/// Navigation as a whole is switched off.
pub open spec fn is_switched_off(raw: Option<RawConfig>) -> bool {
    navigation_of(raw) matches Some(navigation) && navigation.enabled == Some(false)
}

/// What was written on a language.
pub open spec fn language_in(raw: Option<RawConfig>, family: LanguageFamily) -> Option<
    RawLanguage,
> {
    match navigation_of(raw) {
        Some(navigation) => match navigation.languages {
            Some(languages) => languages.of(family),
            None => None,
        },
        None => None,
    }
}

/// What is done for each language by the configuration; nothing if navigation
/// is switched off.
pub fn plan_settings(raw: Option<RawConfig>) -> (plan: Option<SettingsPlan>)
    ensures
        plan is None <==> is_switched_off(raw),
        plan matches Some(plan) ==> forall|family: LanguageFamily| #[trigger]
            plan.of(family) == language_plan(language_in(raw, family), family),
{
    let navigation = match raw {
        None => None,
        Some(config) => config.code_navigation,
    };
    let languages = match navigation {
        None => None,
        Some(navigation) => {
            if let Some(false) = navigation.enabled {
                return None;
            }
            navigation.languages
        },
    };
    let (rust, typescript, python, go) = match languages {
        None => (None, None, None, None),
        Some(languages) => (
            languages.rust,
            languages.typescript,
            languages.python,
            languages.go,
        ),
    };
    Some(
        SettingsPlan {
            rust: plan_language(rust, LanguageFamily::Rust),
            typescript: plan_language(typescript, LanguageFamily::TypeScript),
            python: plan_language(python, LanguageFamily::Python),
            go: plan_language(go, LanguageFamily::Go),
        },
    )
}

/// Where a variable of the environment points.
pub open spec fn absolute_variable(
    style: PathStyle,
    name: Seq<char>,
    value: Option<Seq<u8>>,
) -> Result<
    Seq<u8>,
    Seq<char>,
> {
    match value {
        None => Err(name + " is not set"@),
        Some(path) => if is_absolute(style, path) {
            Ok(path)
        } else {
            Err(name + " must be absolute"@)
        },
    }
}

pub fn absolute_env_path(style: PathStyle, name: &str, value: Option<Vec<u8>>) -> (result: Result<
    Vec<u8>,
    String,
>)
    ensures
        match absolute_variable(
            style,
            name@,
            match value {
                Some(path) => Some(path@),
                None => None,
            },
        ) {
            Ok(path) => result matches Ok(found) && found@ == path,
            Err(message) => result matches Err(found) && found@ == message,
        },
{
    match value {
        None => {
            let mut message = copy_text(name);
            message.push_str(" is not set");
            Err(message)
        },
        Some(path) => {
            if absolute(style, path.as_slice()) {
                Ok(path)
            } else {
                let mut message = copy_text(name);
                message.push_str(" must be absolute");
                Err(message)
            }
        },
    }
}

/// Where the configuration is: at the path that the user set, or under the home
/// directory. The flag says that the user set it.
pub fn user_config_path(
    style: PathStyle,
    explicit: Option<Vec<u8>>,
    home_variable: &str,
    home: Option<Vec<u8>>,
) -> (result: Result<(Vec<u8>, bool), String>)
    ensures
        match explicit {
            Some(path) => if is_absolute(style, path@) {
                result matches Ok(found) && found.0@ == path@ && found.1
            } else {
                result matches Err(message) && message@
                    == "LATTELENS_CONFIG must be an absolute path"@
            },
            None => match absolute_variable(
                style,
                home_variable@,
                match home {
                    Some(path) => Some(path@),
                    None => None,
                },
            ) {
                Ok(path) => result matches Ok(found) && found.0@ == joined(
                    style,
                    path,
                    text(".latte/latte-lens.jsonc"),
                ) && !found.1,
                Err(message) => result matches Err(found) && found@ == message,
            },
        },
{
    if let Some(path) = explicit {
        if !absolute(style, path.as_slice()) {
            return Err(copy_text("LATTELENS_CONFIG must be an absolute path"));
        }
        return Ok((path, true));
    }
    match absolute_env_path(style, home_variable, home) {
        Err(message) => Err(message),
        Ok(path) => Ok(
            (join_path(style, path.as_slice(), ".latte/latte-lens.jsonc".as_bytes()), false),
        ),
    }
}

/// What a configuration that is not there means: an error if the user asked for it.
pub fn missing_config(path: &[u8], explicit: bool) -> (error: Option<String>)
    ensures
        error is Some <==> explicit,
        error matches Some(message) ==> message@ == "explicit Latte Lens config does not exist: "@
            + lossy(path@),
{
    if !explicit {
        return None;
    }
    let mut message = copy_text("explicit Latte Lens config does not exist: ");
    let shown = lossy_text(path);
    message.push_str(shown.as_str());
    Some(message)
}

// Commands --------------------------------------------------------------------------------

/// A text that may be handed to a process: not empty, not too long, no zero byte.
pub open spec fn is_sound(value: Seq<u8>, max: int) -> bool {
    0 < value.len() <= max && !value.contains(0)
}

pub open spec fn unsound_text(label: Seq<char>, max: nat) -> Seq<char> {
    label + " must be 1..="@ + number_text(max) + " bytes and contain no NUL"@
}

pub fn validate_string(label: &str, value: &str, max: usize) -> (result: Result<(), String>)
    ensures
        match result {
            Ok(()) => is_sound(text(value), max as int),
            Err(message) => !is_sound(text(value), max as int) && message@ == unsound_text(
                label@,
                max as nat,
            ),
        },
{
    let bytes = value.as_bytes();
    if bytes.len() == 0 || bytes.len() > max || holds_zero(bytes) {
        let mut message = copy_text(label);
        message.push_str(" must be 1..=");
        push_number(&mut message, max as u64);
        message.push_str(" bytes and contain no NUL");
        return Err(message);
    }
    Ok(())
}

/// The length of all texts together.
pub open spec fn total_bytes(values: Seq<Seq<char>>) -> int
    decreases values.len(),
{
    if values.len() == 0 {
        0
    } else {
        total_bytes(values.drop_last()) + encode_utf8(values.last()).len()
    }
}

pub open spec fn are_sound(values: Seq<Seq<char>>) -> bool {
    forall|i: int|
        0 <= i < values.len() ==> is_sound(
            encode_utf8(#[trigger] values[i]),
            MAX_ARG_BYTES as int,
        )
}

/// Why arguments are turned down, if they are.
pub open spec fn argument_fault(values: Seq<Seq<char>>) -> Option<Seq<char>> {
    if values.len() > MAX_ARGS {
        Some("language server args exceed 16 items"@)
    } else if !are_sound(values) {
        Some(unsound_text("language server argument"@, MAX_ARG_BYTES as nat))
    } else if total_bytes(values) > MAX_ARGS_BYTES {
        Some("language server args exceed 16384 bytes"@)
    } else {
        None
    }
}

pub fn validate_args(args: &Vec<String>) -> (result: Result<(), String>)
    ensures
        match argument_fault(string_views(args@)) {
            None => result is Ok,
            Some(fault) => result matches Err(message) && message@ == fault,
        },
{
    if args.len() > MAX_ARGS {
        return Err(copy_text("language server args exceed 16 items"));
    }
    let ghost shown = string_views(args@);
    let mut total: usize = 0;
    let mut index: usize = 0;
    while index < args.len()
        invariant
            index <= args@.len() <= MAX_ARGS,
            shown == string_views(args@),
            total == total_bytes(shown.subrange(0, index as int)),
            total <= index * MAX_ARG_BYTES,
            forall|i: int|
                0 <= i < index ==> is_sound(encode_utf8(#[trigger] shown[i]), MAX_ARG_BYTES as int),
        decreases args@.len() - index,
    {
        let value = args[index].as_str();
        if let Err(message) = validate_string("language server argument", value, MAX_ARG_BYTES) {
            assert(!is_sound(encode_utf8(shown[index as int]), MAX_ARG_BYTES as int));
            return Err(message);
        }
        proof {
            let longer = shown.subrange(0, index + 1);
            assert(longer.drop_last() =~= shown.subrange(0, index as int));
            assert(longer.last() == shown[index as int]);
        }
        total = total + value.as_bytes().len();
        index = index + 1;
    }
    assert(shown.subrange(0, shown.len() as int) =~= shown);
    if total > MAX_ARGS_BYTES {
        return Err(copy_text("language server args exceed 16384 bytes"));
    }
    Ok(())
}

/// A command that was checked: the program and its arguments.
#[derive(Debug)]
pub struct CheckedCommand {
    pub program: String,
    pub args: Vec<String>,
}

pub open spec fn command_fault(command: Seq<Seq<char>>, family: LanguageFamily) -> Option<
    Seq<char>,
> {
    if command.len() == 0 {
        Some("enabled "@ + family.key_text() + " code navigation has an empty command"@)
    } else if !is_sound(encode_utf8(command[0]), MAX_PROGRAM_BYTES as int) {
        Some(unsound_text("code navigation command"@, MAX_PROGRAM_BYTES as nat))
    } else {
        argument_fault(command.subrange(1, command.len() as int))
    }
}

/// Takes a command apart if it may be run at all.
pub fn check_command(command: &Vec<String>, family: LanguageFamily) -> (result: Result<
    CheckedCommand,
    String,
>)
    ensures
        match command_fault(string_views(command@), family) {
            None => {
                &&& result matches Ok(checked)
                &&& checked.program@ == command@[0]@
                &&& string_views(checked.args@) == string_views(command@).subrange(
                    1,
                    command@.len() as int,
                )
            },
            Some(fault) => result matches Err(message) && message@ == fault,
        },
{
    if command.len() == 0 {
        let mut message = copy_text("enabled ");
        message.push_str(family.config_key());
        message.push_str(" code navigation has an empty command");
        return Err(message);
    }
    let ghost shown = string_views(command@);
    if let Err(message) = validate_string(
        "code navigation command",
        command[0].as_str(),
        MAX_PROGRAM_BYTES,
    ) {
        return Err(message);
    }
    let mut args: Vec<String> = Vec::new();
    let mut index: usize = 1;
    while index < command.len()
        invariant
            1 <= index <= command@.len(),
            shown == string_views(command@),
            string_views(args@) == shown.subrange(1, index as int),
        decreases command@.len() - index,
    {
        let ghost before = args@;
        args.push(copy_text(command[index].as_str()));
        proof {
            assert(string_views(args@) =~= string_views(before).push(shown[index as int]));
            assert(shown.subrange(1, index + 1) =~= shown.subrange(1, index as int).push(
                shown[index as int],
            ));
        }
        index = index + 1;
    }
    if let Err(message) = validate_args(&args) {
        return Err(message);
    }
    Ok(CheckedCommand { program: copy_text(command[0].as_str()), args })
}

/// How a program is found.
#[derive(Debug)]
pub enum ProgramPlan {
    /// At this path.
    At(Vec<u8>),
    /// Under this name, in the directories of the search path.
    Search(Vec<u8>),
}

/// The name holds a separator of any platform.
pub open spec fn is_separated(name: Seq<u8>) -> bool {
    name.contains(47) || name.contains(92)
}

fn has_path_separator(name: &[u8]) -> (yes: bool)
    ensures
        yes == is_separated(name@),
{
    let mut index: usize = 0;
    while index < name.len()
        invariant
            index <= name@.len(),
            forall|i: int| 0 <= i < index ==> #[trigger] name@[i] != 47 && name@[i] != 92,
        decreases name@.len() - index,
    {
        if name[index] == 47 || name[index] == 92 {
            assert(name@.contains(name@[index as int]));
            return true;
        }
        index = index + 1;
    }
    false
}

/// The text is one part of a path and no more.
pub open spec fn is_bare(style: PathStyle, name: Seq<u8>) -> bool {
    parts(style, name).len() == 1 && !is_separated(name)
}

/// A program is named by an absolute path or by a bare name.
pub fn resolve_program(style: PathStyle, program: &str) -> (result: Result<ProgramPlan, String>)
    ensures
        match result {
            Ok(ProgramPlan::At(path)) => is_absolute(style, text(program)) && path@ == text(
                program,
            ),
            Ok(ProgramPlan::Search(name)) => !is_absolute(style, text(program)) && is_bare(
                style,
                text(program),
            ) && name@ == text(program),
            Err(message) => {
                &&& !is_absolute(style, text(program))
                &&& !is_bare(style, text(program))
                &&& message@ == "language server program must be absolute or a basename"@
            },
        },
{
    let name = program.as_bytes();
    if absolute(style, name) {
        return Ok(ProgramPlan::At(to_vec(name)));
    }
    let all = path_parts(style, name);
    assert(crate::paths::part_records(all@).len() == all@.len());
    if all.len() != 1 || has_path_separator(name) {
        return Err(copy_text("language server program must be absolute or a basename"));
    }
    Ok(ProgramPlan::Search(to_vec(name)))
}

/// The names put behind a directory, each on its own.
pub open spec fn placed(style: PathStyle, directory: Seq<u8>, names: Seq<Seq<u8>>) -> Seq<Seq<u8>> {
    Seq::new(names.len(), |i: int| joined(style, directory, names[i]))
}

/// The places where a program may be, in the order in which they are tried: in each
/// directory all of its names. Only absolute directories count.
pub open spec fn places(
    style: PathStyle,
    directories: Seq<Seq<u8>>,
    names: Seq<Seq<u8>>,
) -> Seq<Seq<u8>>
    decreases directories.len(),
{
    if directories.len() == 0 {
        Seq::empty()
    } else {
        let earlier = places(style, directories.drop_last(), names);
        if is_absolute(style, directories.last()) {
            earlier + placed(style, directories.last(), names)
        } else {
            earlier
        }
    }
}

fn push_placed(
    style: PathStyle,
    found: &mut Vec<Vec<u8>>,
    directory: &[u8],
    names: &Vec<Vec<u8>>,
)
    ensures
        byte_views(final(found)@) == byte_views(old(found)@) + placed(
            style,
            directory@,
            byte_views(names@),
        ),
{
    let ghost first = byte_views(found@);
    let ghost shown = placed(style, directory@, byte_views(names@));
    let mut index: usize = 0;
    assert(byte_views(found@) =~= first + shown.subrange(0, 0));
    while index < names.len()
        invariant
            index <= names@.len(),
            shown == placed(style, directory@, byte_views(names@)),
            byte_views(found@) == first + shown.subrange(0, index as int),
        decreases names@.len() - index,
    {
        let ghost before = found@;
        let path = join_path(style, directory, names[index].as_slice());
        let ghost said = path@;
        found.push(path);
        proof {
            assert(byte_views(names@)[index as int] == names@[index as int]@);
            assert(byte_views(found@) =~= byte_views(before).push(said));
            assert(shown.subrange(0, index + 1) =~= shown.subrange(0, index as int).push(
                shown[index as int],
            ));
            assert(byte_views(found@) =~= first + shown.subrange(0, index + 1));
        }
        index = index + 1;
    }
    assert(shown.subrange(0, shown.len() as int) =~= shown);
}

/// The places where a bare name is looked for. On Windows only a native program is.
pub fn resolve_basename(style: PathStyle, directories: &Vec<Vec<u8>>, name: &[u8]) -> (result:
    Result<Vec<Vec<u8>>, String>)
    ensures
        match program_names(style, name@) {
            Ok(names) => result matches Ok(found) && byte_views(found@) == places(
                style,
                byte_views(directories@),
                names,
            ),
            Err(message) => result matches Err(found) && found@ == message,
        },
{
    let names = match style {
        PathStyle::Unix => {
            let mut names: Vec<Vec<u8>> = Vec::new();
            names.push(to_vec(name));
            assert(byte_views(names@) =~= seq![name@]);
            names
        },
        PathStyle::Windows => match windows_candidates(name) {
            Err(message) => {
                return Err(message);
            },
            Ok(names) => names,
        },
    };
    let mut found: Vec<Vec<u8>> = Vec::new();
    let mut index: usize = 0;
    let ghost shown = byte_views(directories@);
    let ghost tried = byte_views(names@);
    assert(byte_views(found@) =~= places(style, shown.subrange(0, 0), tried));
    while index < directories.len()
        invariant
            index <= directories@.len(),
            shown == byte_views(directories@),
            tried == byte_views(names@),
            byte_views(found@) == places(style, shown.subrange(0, index as int), tried),
        decreases directories@.len() - index,
    {
        proof {
            let longer = shown.subrange(0, index + 1);
            assert(longer.drop_last() =~= shown.subrange(0, index as int));
            assert(longer.last() == directories@[index as int]@);
        }
        let directory = directories[index].as_slice();
        if absolute(style, directory) {
            push_placed(style, &mut found, directory, &names);
        }
        index = index + 1;
    }
    assert(shown.subrange(0, shown.len() as int) =~= shown);
    Ok(found)
}

/// The bytes end with the text.
pub open spec fn ends_in(bytes: Seq<u8>, ending: Seq<u8>) -> bool {
    bytes.len() >= ending.len() && bytes.subrange(
        bytes.len() - ending.len(),
        bytes.len() as int,
    ) == ending
}

fn bytes_end_in(bytes: &[u8], ending: &[u8]) -> (yes: bool)
    ensures
        yes == ends_in(bytes@, ending@),
{
    bytes.len() >= ending.len() && bytes_equal(
        vstd::slice::slice_subrange(bytes, bytes.len() - ending.len(), bytes.len()),
        ending,
    )
}

/// The names that a program may have: on Windows scripts are not taken, and a name
/// without its ending is tried with it too.
pub open spec fn program_names(style: PathStyle, name: Seq<u8>) -> Result<
    Seq<Seq<u8>>,
    Seq<char>,
> {
    let small = crate::bytes::lowercase(name);
    match style {
        PathStyle::Unix => Ok(seq![name]),
        PathStyle::Windows => if ends_in(small, text(".cmd")) || ends_in(small, text(".bat"))
            || ends_in(small, text(".com")) || ends_in(small, text(".ps1")) {
            Err("Windows language server must be a native .exe"@)
        } else if ends_in(small, text(".exe")) {
            Ok(seq![name])
        } else {
            Ok(seq![name, name + text(".exe")])
        },
    }
}

fn windows_candidates(name: &[u8]) -> (result: Result<Vec<Vec<u8>>, String>)
    ensures
        match program_names(PathStyle::Windows, name@) {
            Ok(names) => result matches Ok(found) && byte_views(found@) == names,
            Err(message) => result matches Err(found) && found@ == message,
        },
{
    let small = lowercase_bytes(name);
    if bytes_end_in(small.as_slice(), ".cmd".as_bytes()) || bytes_end_in(
        small.as_slice(),
        ".bat".as_bytes(),
    ) || bytes_end_in(small.as_slice(), ".com".as_bytes()) || bytes_end_in(
        small.as_slice(),
        ".ps1".as_bytes(),
    ) {
        return Err(copy_text("Windows language server must be a native .exe"));
    }
    let mut found: Vec<Vec<u8>> = Vec::new();
    found.push(to_vec(name));
    if bytes_end_in(small.as_slice(), ".exe".as_bytes()) {
        assert(byte_views(found@) =~= seq![name@]);
        return Ok(found);
    }
    let mut longer = to_vec(name);
    crate::paths::append_bytes(&mut longer, ".exe".as_bytes());
    let ghost said = longer@;
    found.push(longer);
    assert(byte_views(found@) =~= seq![name@, said]);
    Ok(found)
}

// Executables -----------------------------------------------------------------------------

/// What tells one file from another that took its place.
#[derive(Clone, Copy, Debug, PartialEq, Eq, Structural)]
pub enum ExecutableIdentity {
    Unix { device: u64, inode: u64, mode: u32 },
    Windows { volume_serial: u32, file_index: u64, attributes: u32 },
    Portable { length: u64, modified: Option<u128> },
}

/// A program at the end of all links, and what it was.
#[derive(Debug)]
pub struct ValidatedExecutable {
    pub path: Vec<u8>,
    pub identity: ExecutableIdentity,
}

/// A program may be looked at: it is named from the root and lies outside the workspace.
pub fn check_executable_entry(style: PathStyle, path: &[u8], workspace_root: &[u8]) -> (result:
    Result<(), String>)
    ensures
        match result {
            Ok(()) => is_absolute(style, path@) && !lies_under(style, path@, workspace_root@),
            Err(message) => if !is_absolute(style, path@) {
                message@ == "language server executable must be absolute"@
            } else {
                lies_under(style, path@, workspace_root@) && message@
                    == "language server executable entry must be outside the opened workspace"@
            },
        },
{
    if !absolute(style, path) {
        return Err(copy_text("language server executable must be absolute"));
    }
    if path_lies_under(style, path, workspace_root) {
        return Err(
            copy_text("language server executable entry must be outside the opened workspace"),
        );
    }
    Ok(())
}

/// The mode lets somebody execute the file.
pub open spec fn is_executable(mode: u32) -> bool {
    mode & 0o111 != 0
}

/// The file can be executed as it is: its mode says so, or its ending on Windows.
pub open spec fn is_native(style: PathStyle, path: Seq<u8>, mode: Option<u32>) -> bool {
    match style {
        PathStyle::Unix => mode matches Some(bits) ==> is_executable(bits),
        PathStyle::Windows => extension(style, path) matches Some(ending)
            && crate::bytes::lowercase(ending) == text("exe"),
    }
}

/// What the file at the end of the links must be. `mode` is known where files
/// have one.
pub fn check_executable_target(
    style: PathStyle,
    canonical: &[u8],
    workspace_root: &[u8],
    is_file: bool,
    mode: Option<u32>,
) -> (result: Result<(), String>)
    ensures
        match result {
            Ok(()) => {
                &&& is_file
                &&& !lies_under(style, canonical@, workspace_root@)
                &&& is_native(style, canonical@, mode)
            },
            Err(message) => if !is_file {
                message@ == "language server executable is not a regular file"@
            } else if lies_under(style, canonical@, workspace_root@) {
                message@ == "language server executable must be outside the opened workspace"@
            } else {
                &&& !is_native(style, canonical@, mode)
                &&& message@ == (match style {
                    PathStyle::Unix => "language server executable has no execute bit"@,
                    PathStyle::Windows => "Windows language server must be a native .exe"@,
                })
            },
        },
{
    if !is_file {
        return Err(copy_text("language server executable is not a regular file"));
    }
    if path_lies_under(style, canonical, workspace_root) {
        return Err(copy_text("language server executable must be outside the opened workspace"));
    }
    match style {
        PathStyle::Unix => {
            if let Some(bits) = mode {
                if bits & 0o111 == 0 {
                    return Err(copy_text("language server executable has no execute bit"));
                }
            }
        },
        PathStyle::Windows => {
            let native = match path_extension(style, canonical) {
                Some(ending) => bytes_equal(
                    lowercase_bytes(ending).as_slice(),
                    "exe".as_bytes(),
                ),
                None => false,
            };
            if !native {
                return Err(copy_text("Windows language server must be a native .exe"));
            }
        },
    }
    Ok(())
}

/// A server that the user let in.
#[derive(Debug)]
pub struct TrustedServer {
    pub program: Vec<u8>,
    pub args: Vec<String>,
    pub identity: ExecutableIdentity,
}

impl TrustedServer {
    pub fn program(&self) -> (program: &Vec<u8>)
        ensures
            *program == self.program,
    {
        &self.program
    }

    pub fn args(&self) -> (args: &Vec<String>)
        ensures
            *args == self.args,
    {
        &self.args
    }

    /// What was validated just now is what the user let in.
    pub fn revalidate_before_spawn(&self, style: PathStyle, validated: &ValidatedExecutable) -> (result:
        Result<(), String>)
        ensures
            result is Ok <==> same_path(style, validated.path@, self.program@)
                && validated.identity == self.identity,
            result matches Err(message) ==> message@
                == "Configured language server changed since validation."@,
    {
        if !paths_equal(style, validated.path.as_slice(), self.program.as_slice())
            || validated.identity != self.identity {
            return Err(copy_text("Configured language server changed since validation."));
        }
        Ok(())
    }
}

// Settings --------------------------------------------------------------------------------

/// The servers that may be started, one for each family at most.
#[derive(Debug)]
pub struct NavigationSettings {
    pub rust: Option<TrustedServer>,
    pub typescript: Option<TrustedServer>,
    pub python: Option<TrustedServer>,
    pub go: Option<TrustedServer>,
}

impl NavigationSettings {
    pub open spec fn of(&self, family: LanguageFamily) -> Option<TrustedServer> {
        match family {
            LanguageFamily::Rust => self.rust,
            LanguageFamily::TypeScript => self.typescript,
            LanguageFamily::Python => self.python,
            LanguageFamily::Go => self.go,
        }
    }

    pub fn disabled() -> (settings: Self)
        ensures
            forall|family: LanguageFamily| #[trigger] settings.of(family) is None,
    {
        NavigationSettings { rust: None, typescript: None, python: None, go: None }
    }

    pub fn is_enabled(&self) -> (enabled: bool)
        ensures
            enabled <==> exists|family: LanguageFamily| #[trigger] self.of(family) is Some,
    {
        let enabled = self.rust.is_some() || self.typescript.is_some() || self.python.is_some()
            || self.go.is_some();
        proof {
            assert(self.of(LanguageFamily::Rust) == self.rust);
            assert(self.of(LanguageFamily::TypeScript) == self.typescript);
            assert(self.of(LanguageFamily::Python) == self.python);
            assert(self.of(LanguageFamily::Go) == self.go);
        }
        enabled
    }

    pub fn server(&self, family: LanguageFamily) -> (server: Option<&TrustedServer>)
        ensures
            match self.of(family) {
                None => server is None,
                Some(expected) => server matches Some(found) && *found == expected,
            },
    {
        match family {
            LanguageFamily::Rust => self.rust.as_ref(),
            LanguageFamily::TypeScript => self.typescript.as_ref(),
            LanguageFamily::Python => self.python.as_ref(),
            LanguageFamily::Go => self.go.as_ref(),
        }
    }

    /// What came of loading the configuration. A failure switches navigation
    /// off and leaves a warning.
    pub fn load_user_config(outcome: Result<NavigationSettings, String>) -> (loaded:
        LoadedNavigationSettings)
        ensures
            match outcome {
                Ok(settings) => loaded.settings == settings && loaded.warning is None,
                Err(error) => {
                    &&& forall|family: LanguageFamily| #[trigger]
                        loaded.settings.of(family) is None
                    &&& loaded.warning matches Some(warning)
                    &&& warning@ == warning_text(error@)
                },
            },
    {
        match outcome {
            Ok(settings) => LoadedNavigationSettings { settings, warning: None },
            Err(error) => LoadedNavigationSettings {
                settings: NavigationSettings::disabled(),
                warning: Some(clean_warning(error.as_str())),
            },
        }
    }
}

impl Default for NavigationSettings {
    fn default() -> (settings: Self)
        ensures
            forall|family: LanguageFamily| #[trigger] settings.of(family) is None,
    {
        NavigationSettings::disabled()
    }
}

/// What an application is started with.
#[derive(Debug)]
pub struct AppOptions {
    pub navigation: NavigationSettings,
    pub navigation_config_warning: Option<String>,
}

impl Default for AppOptions {
    fn default() -> (options: Self)
        ensures
            forall|family: LanguageFamily| #[trigger] options.navigation.of(family) is None,
            options.navigation_config_warning is None,
    {
        AppOptions { navigation: NavigationSettings::disabled(), navigation_config_warning: None }
    }
}

#[derive(Debug)]
pub struct LoadedNavigationSettings {
    pub settings: NavigationSettings,
    pub warning: Option<String>,
}

/// What a plan and the attempt to follow it come to.
pub open spec fn settled(plan: PlanRecord, attempt: Result<TrustedServer, String>) -> Result<
    Option<TrustedServer>,
    String,
> {
    match plan {
        PlanRecord::Skip => Ok(None),
        PlanRecord::Configured(_) => match attempt {
            Ok(server) => Ok(Some(server)),
            Err(error) => Err(error),
        },
        PlanRecord::BuiltIn(_) => match attempt {
            Ok(server) => Ok(Some(server)),
            Err(_) => Ok(None),
        },
    }
}

pub fn settle(plan: &LanguagePlan, attempt: Result<TrustedServer, String>) -> (result: Result<
    Option<TrustedServer>,
    String,
>)
    ensures
        result == settled(plan@, attempt),
{
    match plan {
        LanguagePlan::Skip => Ok(None),
        LanguagePlan::Configured(_) => match attempt {
            Ok(server) => Ok(Some(server)),
            Err(error) => Err(error),
        },
        LanguagePlan::BuiltIn(_) => match attempt {
            Ok(server) => Ok(Some(server)),
            Err(_) => Ok(None),
        },
    }
}

/// Puts the settings together. A configured server that cannot be had fails
/// them all; a usual one only leaves its language without a server.
pub fn assemble_settings(
    plan: &SettingsPlan,
    rust: Result<TrustedServer, String>,
    typescript: Result<TrustedServer, String>,
    python: Result<TrustedServer, String>,
    go: Result<TrustedServer, String>,
) -> (result: Result<NavigationSettings, String>)
    ensures
        match settled(plan.rust@, rust) {
            Err(error) => result == Err::<NavigationSettings, _>(error),
            Ok(rust) => match settled(plan.typescript@, typescript) {
                Err(error) => result == Err::<NavigationSettings, _>(error),
                Ok(typescript) => match settled(plan.python@, python) {
                    Err(error) => result == Err::<NavigationSettings, _>(error),
                    Ok(python) => match settled(plan.go@, go) {
                        Err(error) => result == Err::<NavigationSettings, _>(error),
                        Ok(go) => result == Ok::<_, String>(
                            NavigationSettings { rust, typescript, python, go },
                        ),
                    },
                },
            },
        },
{
    let rust = match settle(&plan.rust, rust) {
        Err(error) => {
            return Err(error);
        },
        Ok(server) => server,
    };
    let typescript = match settle(&plan.typescript, typescript) {
        Err(error) => {
            return Err(error);
        },
        Ok(server) => server,
    };
    let python = match settle(&plan.python, python) {
        Err(error) => {
            return Err(error);
        },
        Ok(server) => server,
    };
    let go = match settle(&plan.go, go) {
        Err(error) => {
            return Err(error);
        },
        Ok(server) => server,
    };
    Ok(NavigationSettings { rust, typescript, python, go })
}

// Warnings --------------------------------------------------------------------------------

/// A message without control characters, cut behind the character that fills it.
pub open spec fn warning_from(message: Seq<char>, from: int, cleaned: Seq<char>) -> Seq<char>
    decreases message.len() - from,
{
    if from < 0 || from >= message.len() || encode_utf8(cleaned).len() >= MAX_WARNING_BYTES {
        cleaned
    } else if is_control(message[from]) {
        warning_from(message, from + 1, cleaned)
    } else {
        warning_from(message, from + 1, cleaned.push(message[from]))
    }
}

pub open spec fn warning_text(message: Seq<char>) -> Seq<char> {
    warning_from(message, 0, Seq::empty())
}

pub fn clean_warning(message: &str) -> (warning: String)
    ensures
        warning@ == warning_text(message@),
{
    let characters = chars_of(message);
    let mut cleaned = String::new();
    let mut index: usize = 0;
    assert(cleaned@ =~= Seq::<char>::empty());
    while index < characters.len() && cleaned.as_str().as_bytes().len() < MAX_WARNING_BYTES
        invariant
            index <= characters@.len(),
            characters@ == message@,
            warning_from(message@, index as int, cleaned@) == warning_text(message@),
        decreases characters@.len() - index,
    {
        if !control(characters[index]) {
            cleaned.push(characters[index]);
        }
        index = index + 1;
    }
    cleaned
}

/// A warning holds no control characters and is not much longer than its limit.
pub proof fn law_warnings_are_short_and_plain(message: Seq<char>)
    ensures
        encode_utf8(warning_text(message)).len() < MAX_WARNING_BYTES + 4,
        forall|i: int|
            0 <= i < warning_text(message).len() ==> !is_control(
                #[trigger] warning_text(message)[i],
            ),
{
    assert(encode_utf8(Seq::<char>::empty()).len() == 0);
    lemma_warning(message, 0, Seq::empty());
}

proof fn lemma_warning(message: Seq<char>, from: int, cleaned: Seq<char>)
    requires
        encode_utf8(cleaned).len() < MAX_WARNING_BYTES + 4,
        forall|i: int| 0 <= i < cleaned.len() ==> !is_control(#[trigger] cleaned[i]),
    ensures
        encode_utf8(warning_from(message, from, cleaned)).len() < MAX_WARNING_BYTES + 4,
        forall|i: int|
            0 <= i < warning_from(message, from, cleaned).len() ==> !is_control(
                #[trigger] warning_from(message, from, cleaned)[i],
            ),
    decreases message.len() - from,
{
    if from < 0 || from >= message.len() || encode_utf8(cleaned).len() >= MAX_WARNING_BYTES {
    } else if is_control(message[from]) {
        lemma_warning(message, from + 1, cleaned);
    } else {
        let longer = cleaned.push(message[from]);
        crate::positions::lemma_byte_step(longer, cleaned.len() as int);
        assert(longer.subrange(0, cleaned.len() as int) =~= cleaned);
        assert(longer.subrange(0, longer.len() as int) =~= longer);
        lemma_warning(message, from + 1, longer);
    }
}

// What is decided of a setting ------------------------------------------------------------

/// A language that is switched off is skipped. A command that the user gave is taken as it
/// is, and else the usual one of the language.
pub proof fn law_users_decide_on_their_servers(raw: Option<RawLanguage>, family: LanguageFamily)
    ensures
        language_plan(raw, family) is Skip <==> (raw matches Some(language)
            && language.enabled == Some(false)),
        raw matches Some(language) && language.enabled != Some(false) && language.engine is Some
            ==> language_plan(raw, family) == PlanRecord::Configured(
            string_views(raw->0.engine->0@),
        ),
        raw is None || (raw->0.enabled != Some(false) && raw->0.engine is None) ==> (language_plan(
            raw,
            family,
        ) matches PlanRecord::BuiltIn(command) && match family {
            LanguageFamily::Rust => command == seq!["rust-analyzer"@],
            LanguageFamily::TypeScript => command == seq![
                "typescript-language-server"@,
                "--stdio"@,
            ],
            LanguageFamily::Python => command == seq!["pyright-langserver"@, "--stdio"@],
            LanguageFamily::Go => command == seq!["gopls"@, "serve"@],
        }),
{
}

/// A server that was found is used. One that the user named and that was not found is a
/// fault; a usual one is gone without.
pub proof fn law_only_named_servers_are_missed(
    plan: PlanRecord,
    attempt: Result<TrustedServer, String>,
)
    ensures
        plan is Skip ==> settled(plan, attempt) == Ok::<Option<TrustedServer>, String>(None),
        !(plan is Skip) ==> (attempt matches Ok(server) ==> settled(plan, attempt) == Ok::<
            _,
            String,
        >(Some(server))),
        plan is Configured ==> (attempt matches Err(error) ==> settled(plan, attempt) == Err::<
            Option<TrustedServer>,
            _,
        >(error)),
        plan is BuiltIn && attempt is Err ==> settled(plan, attempt) == Ok::<
            Option<TrustedServer>,
            String,
        >(None),
{
}

/// A program is looked for in one directory after the other, and only in those that are
/// named absolutely.
pub proof fn law_directories_are_searched_in_order(
    style: PathStyle,
    directories: Seq<Seq<u8>>,
    last: Seq<u8>,
    all: Seq<Seq<u8>>,
)
    ensures
        places(style, Seq::empty(), all).len() == 0,
        !is_absolute(style, last) ==> places(style, directories.push(last), all) == places(
            style,
            directories,
            all,
        ),
        is_absolute(style, last) ==> {
            let before = places(style, directories, all);
            let now = places(style, directories.push(last), all);
            &&& now.len() == before.len() + all.len()
            &&& now.take(before.len() as int) == before
            &&& forall|i: int|
                0 <= i < all.len() ==> now[before.len() + i] == joined(
                    style,
                    last,
                    #[trigger] all[i],
                )
        },
{
    assert(directories.push(last).drop_last() =~= directories);
    if is_absolute(style, last) {
        let before = places(style, directories, all);
        assert(places(style, directories.push(last), all).take(before.len() as int) =~= before);
    }
}

/// A name of Windows ends, in whatever case, in the mark of a native program or has it
/// added; scripts are refused. Elsewhere a name is taken as it is.
pub proof fn law_scripts_are_no_servers(name: Seq<u8>)
    ensures
        program_names(PathStyle::Unix, name) == Ok::<_, Seq<char>>(seq![name]),
        ({
            let small = crate::bytes::lowercase(name);
            let script = ends_in(small, text(".cmd")) || ends_in(small, text(".bat")) || ends_in(
                small,
                text(".com"),
            ) || ends_in(small, text(".ps1"));
            &&& program_names(PathStyle::Windows, name) is Err <==> script
            &&& !script && ends_in(small, text(".exe")) ==> program_names(PathStyle::Windows, name)
                == Ok::<_, Seq<char>>(seq![name])
            &&& !script && !ends_in(small, text(".exe")) ==> program_names(PathStyle::Windows, name)
                == Ok::<_, Seq<char>>(seq![name, name + text(".exe")])
        }),
{
}

/// A short message of printable characters is shown as it is.
pub proof fn law_plain_warnings_are_kept(message: Seq<char>)
    requires
        encode_utf8(message).len() <= 240,
        forall|i: int| 0 <= i < message.len() ==> (#[trigger] message[i]) as u32 >= 0xa0 || 0x20
            <= message[i] as u32 <= 0x7e,
    ensures
        warning_text(message) == message,
{
    assert(message.subrange(0, 0) =~= Seq::<char>::empty());
    lemma_plain_warning(message, 0);
}

proof fn lemma_plain_warning(message: Seq<char>, from: int)
    requires
        0 <= from <= message.len(),
        encode_utf8(message).len() <= 240,
        forall|i: int| 0 <= i < message.len() ==> (#[trigger] message[i]) as u32 >= 0xa0 || 0x20
            <= message[i] as u32 <= 0x7e,
    ensures
        warning_from(message, from, message.subrange(0, from)) == message,
    decreases message.len() - from,
{
    let front = message.subrange(0, from);
    if from == message.len() {
        assert(front =~= message);
    } else {
        let longer = message.subrange(0, from + 1);
        assert(front.push(message[from]) =~= longer);
        crate::positions::lemma_byte_step(message, from);
        lemma_no_longer(message, from + 1);
        assert(!is_control(message[from]));
        lemma_plain_warning(message, from + 1);
    }
}

proof fn lemma_no_longer(message: Seq<char>, count: int)
    requires
        0 <= count <= message.len(),
    ensures
        encode_utf8(message.subrange(0, count)).len() <= encode_utf8(message).len(),
    decreases message.len() - count,
{
    if count == message.len() {
        assert(message.subrange(0, count) =~= message);
    } else {
        lemma_no_longer(message, count + 1);
        crate::positions::lemma_byte_step(message, count);
    }
}

/// A setting is read if it is short, is text and begins without a mark; and only an open
/// comment is a fault then.
pub proof fn law_settings_are_plain_text(bytes: Seq<u8>)
    ensures
        config_json(bytes) is Ok <==> bytes.len() <= 65536 && !(bytes.len() >= 3 && bytes[0] == 0xef
            && bytes[1] == 0xbb && bytes[2] == 0xbf) && vstd::utf8::valid_utf8(bytes)
            && plain_json(bytes) is Some,
        config_json(bytes) matches Ok(plain) ==> plain_json(bytes) == Some(plain),
{
}

/// A command names a program in 1 to 4096 bytes without a zero, with at most sixteen
/// arguments that are as sound and hold no more than sixteen kibibytes.
pub proof fn law_commands_are_sound(command: Seq<Seq<char>>, family: LanguageFamily)
    ensures
        command_fault(command, family) is None <==> {
            &&& command.len() > 0
            &&& 0 < encode_utf8(command[0]).len() <= 4096 && !encode_utf8(command[0]).contains(0)
            &&& command.len() <= 17
            &&& forall|i: int|
                1 <= i < command.len() ==> 0 < encode_utf8(#[trigger] command[i]).len() <= 4096
                    && !encode_utf8(command[i]).contains(0)
            &&& total_bytes(command.subrange(1, command.len() as int)) <= 16384
        },
{
    if command.len() > 0 {
        let arguments = command.subrange(1, command.len() as int);
        assert forall|i: int| 1 <= i < command.len() implies command[i] == #[trigger] arguments[i
            - 1] by {
        }
        assert(are_sound(arguments) <==> forall|i: int|
            1 <= i < command.len() ==> 0 < encode_utf8(#[trigger] command[i]).len() <= 4096
                && !encode_utf8(command[i]).contains(0)) by {
            if are_sound(arguments) {
                assert forall|i: int| 1 <= i < command.len() implies 0 < encode_utf8(
                    #[trigger] command[i],
                ).len() <= 4096 && !encode_utf8(command[i]).contains(0) by {
                    assert(arguments[i - 1] == command[i]);
                }
            }
            if forall|i: int|
                1 <= i < command.len() ==> 0 < encode_utf8(#[trigger] command[i]).len() <= 4096
                    && !encode_utf8(command[i]).contains(0) {
                assert forall|i: int| 0 <= i < arguments.len() implies is_sound(
                    encode_utf8(#[trigger] arguments[i]),
                    MAX_ARG_BYTES as int,
                ) by {
                    assert(arguments[i] == command[i + 1]);
                }
            }
        }
    }
}

/// A variable names a directory exactly if it is set and absolute.
pub proof fn law_variables_are_absolute(style: PathStyle, name: Seq<char>, value: Option<Seq<u8>>)
    ensures
        absolute_variable(style, name, value) is Ok <==> value is Some && is_absolute(
            style,
            value->0,
        ),
        absolute_variable(style, name, value) matches Ok(path) ==> value == Some(path),
{
}

} // verus!
