//! The languages that navigation knows, by the extension of a path.

use crate::bytes::{bytes_equal, lowercase, lowercase_bytes, text};
use crate::paths::{extension, path_extension, PathStyle};
use crate::snapshot::small_extension;
use vstd::prelude::*;

verus! {

#[derive(Clone, Copy, Debug, PartialEq, Eq, PartialOrd, Ord, Hash, Structural)]
pub enum LanguageFamily {
    Rust,
    TypeScript,
    Python,
    Go,
}

impl LanguageFamily {
    /// The key of the family in the configuration.
    pub open spec fn key_text(self) -> Seq<char> {
        match self {
            LanguageFamily::Rust => "rust"@,
            LanguageFamily::TypeScript => "typescript"@,
            LanguageFamily::Python => "python"@,
            LanguageFamily::Go => "go"@,
        }
    }

    pub open spec fn name_text(self) -> Seq<char> {
        match self {
            LanguageFamily::Rust => "Rust"@,
            LanguageFamily::TypeScript => "TypeScript/JavaScript"@,
            LanguageFamily::Python => "Python"@,
            LanguageFamily::Go => "Go"@,
        }
    }

    pub fn config_key(self) -> (key: &'static str)
        ensures
            key@ == self.key_text(),
    {
        match self {
            LanguageFamily::Rust => "rust",
            LanguageFamily::TypeScript => "typescript",
            LanguageFamily::Python => "python",
            LanguageFamily::Go => "go",
        }
    }

    pub fn display_name(self) -> (name: &'static str)
        ensures
            name@ == self.name_text(),
    {
        match self {
            LanguageFamily::Rust => "Rust",
            LanguageFamily::TypeScript => "TypeScript/JavaScript",
            LanguageFamily::Python => "Python",
            LanguageFamily::Go => "Go",
        }
    }
}

#[derive(Clone, Copy, Debug, PartialEq, Eq)]
pub struct LanguageDescriptor {
    /// The family whose server answers for the language, if there is one.
    pub family: Option<LanguageFamily>,
    pub language_id: &'static str,
    pub local_structure: bool,
}

/// A language that has structure and perhaps a server.
pub open spec fn described(family: Option<LanguageFamily>, language_id: &'static str) -> Option<
    LanguageDescriptor,
> {
    Some(LanguageDescriptor { family, language_id, local_structure: true })
}

/// The language of a path.
pub open spec fn language_of(style: PathStyle, path: Seq<u8>) -> Option<LanguageDescriptor> {
    let ending = small_extension(style, path);
    if ending == text("rs") {
        described(Some(LanguageFamily::Rust), "rust")
    } else if ending == text("ts") || ending == text("mts") || ending == text("cts") {
        described(Some(LanguageFamily::TypeScript), "typescript")
    } else if ending == text("tsx") {
        described(Some(LanguageFamily::TypeScript), "typescriptreact")
    } else if ending == text("js") || ending == text("mjs") || ending == text("cjs") {
        described(Some(LanguageFamily::TypeScript), "javascript")
    } else if ending == text("jsx") {
        described(Some(LanguageFamily::TypeScript), "javascriptreact")
    } else if ending == text("py") || ending == text("pyi") {
        described(Some(LanguageFamily::Python), "python")
    } else if ending == text("go") {
        described(Some(LanguageFamily::Go), "go")
    } else if ending == text("md") || ending == text("markdown") {
        described(None, "markdown")
    } else {
        None
    }
}

fn describe(family: Option<LanguageFamily>, language_id: &'static str) -> (descriptor: Option<
    LanguageDescriptor,
>)
    ensures
        descriptor == described(family, language_id),
{
    Some(LanguageDescriptor { family, language_id, local_structure: true })
}

fn ends_with(ending: &Vec<u8>, literal: &str) -> (same: bool)
    ensures
        same == (ending@ == text(literal)),
{
    bytes_equal(ending.as_slice(), literal.as_bytes())
}

pub fn language_for_path(style: PathStyle, path: &[u8]) -> (descriptor: Option<LanguageDescriptor>)
    ensures
        descriptor == language_of(style, path@),
{
    let ending = match path_extension(style, path) {
        Some(bytes) => lowercase_bytes(bytes),
        None => Vec::new(),
    };
    if ends_with(&ending, "rs") {
        describe(Some(LanguageFamily::Rust), "rust")
    } else if ends_with(&ending, "ts") || ends_with(&ending, "mts") || ends_with(&ending, "cts") {
        describe(Some(LanguageFamily::TypeScript), "typescript")
    } else if ends_with(&ending, "tsx") {
        describe(Some(LanguageFamily::TypeScript), "typescriptreact")
    } else if ends_with(&ending, "js") || ends_with(&ending, "mjs") || ends_with(&ending, "cjs") {
        describe(Some(LanguageFamily::TypeScript), "javascript")
    } else if ends_with(&ending, "jsx") {
        describe(Some(LanguageFamily::TypeScript), "javascriptreact")
    } else if ends_with(&ending, "py") || ends_with(&ending, "pyi") {
        describe(Some(LanguageFamily::Python), "python")
    } else if ends_with(&ending, "go") {
        describe(Some(LanguageFamily::Go), "go")
    } else if ends_with(&ending, "md") || ends_with(&ending, "markdown") {
        describe(None, "markdown")
    } else {
        None
    }
}

/// The language has this name and this server family.
pub open spec fn is_language(
    found: Option<LanguageDescriptor>,
    family: Option<LanguageFamily>,
    name: Seq<char>,
) -> bool {
    found matches Some(language) && language.family == family && language.language_id@ == name
        && language.local_structure
}

proof fn lemma_same_words(left: &str, right: &str)
    ensures
        text(left) == text(right) ==> left@ == right@,
{
    vstd::utf8::encode_utf8_decode_utf8(left@);
    vstd::utf8::encode_utf8_decode_utf8(right@);
}

/// The extension of a path decides on its language, in whatever case it is written: who
/// serves it, and under which name a server knows it. Markdown has no server, and any other
/// extension no language.
pub proof fn law_languages_go_by_extension(style: PathStyle, path: Seq<u8>, ending: &str)
    requires
        extension(style, path) matches Some(bytes) && lowercase(bytes) == text(ending),
    ensures
        ending@ == "rs"@ ==> is_language(
            language_of(style, path),
            Some(LanguageFamily::Rust),
            "rust"@,
        ),
        ending@ == "ts"@ || ending@ == "mts"@ || ending@ == "cts"@ ==> is_language(
            language_of(style, path),
            Some(LanguageFamily::TypeScript),
            "typescript"@,
        ),
        ending@ == "tsx"@ ==> is_language(
            language_of(style, path),
            Some(LanguageFamily::TypeScript),
            "typescriptreact"@,
        ),
        ending@ == "js"@ || ending@ == "mjs"@ || ending@ == "cjs"@ ==> is_language(
            language_of(style, path),
            Some(LanguageFamily::TypeScript),
            "javascript"@,
        ),
        ending@ == "jsx"@ ==> is_language(
            language_of(style, path),
            Some(LanguageFamily::TypeScript),
            "javascriptreact"@,
        ),
        ending@ == "py"@ || ending@ == "pyi"@ ==> is_language(
            language_of(style, path),
            Some(LanguageFamily::Python),
            "python"@,
        ),
        ending@ == "go"@ ==> is_language(language_of(style, path), Some(LanguageFamily::Go), "go"@),
        ending@ == "md"@ || ending@ == "markdown"@ ==> is_language(
            language_of(style, path),
            None,
            "markdown"@,
        ),
        language_of(style, path) is Some ==> ending@ == "rs"@ || ending@ == "ts"@ || ending@
            == "mts"@ || ending@ == "cts"@ || ending@ == "tsx"@ || ending@ == "js"@ || ending@
            == "mjs"@ || ending@ == "cjs"@ || ending@ == "jsx"@ || ending@ == "py"@ || ending@
            == "pyi"@ || ending@ == "go"@ || ending@ == "md"@ || ending@ == "markdown"@,
{
    lemma_same_words(ending, "rs");
    lemma_same_words(ending, "ts");
    lemma_same_words(ending, "mts");
    lemma_same_words(ending, "cts");
    lemma_same_words(ending, "tsx");
    lemma_same_words(ending, "js");
    lemma_same_words(ending, "mjs");
    lemma_same_words(ending, "cjs");
    lemma_same_words(ending, "jsx");
    lemma_same_words(ending, "py");
    lemma_same_words(ending, "pyi");
    lemma_same_words(ending, "go");
    lemma_same_words(ending, "md");
    lemma_same_words(ending, "markdown");
    reveal_strlit("rs");
    reveal_strlit("ts");
    reveal_strlit("mts");
    reveal_strlit("cts");
    reveal_strlit("tsx");
    reveal_strlit("js");
    reveal_strlit("mjs");
    reveal_strlit("cjs");
    reveal_strlit("jsx");
    reveal_strlit("py");
    reveal_strlit("pyi");
    reveal_strlit("go");
    reveal_strlit("md");
    reveal_strlit("markdown");
    assert("rs"@[0] == 'r' && "ts"@[0] == 't' && "mts"@[0] == 'm' && "cts"@[0] == 'c'
        && "tsx"@[0] == 't' && "js"@[0] == 'j' && "mjs"@[0] == 'm' && "cjs"@[0] == 'c'
        && "jsx"@[0] == 'j' && "py"@[0] == 'p' && "pyi"@[0] == 'p' && "go"@[0] == 'g'
        && "md"@[0] == 'm' && "markdown"@[0] == 'm');
    assert("mts"@[1] == 't' && "mjs"@[1] == 'j' && "cts"@[1] == 't' && "cjs"@[1] == 'j'
        && "md"@[1] == 'd' && "markdown"@[1] == 'a');
    assert("rs"@.len() == 2 && "ts"@.len() == 2 && "tsx"@.len() == 3 && "js"@.len() == 2
        && "jsx"@.len() == 3 && "py"@.len() == 2 && "pyi"@.len() == 3);
}

/// A path without an extension has no language.
pub proof fn law_no_extension_has_no_language(style: PathStyle, path: Seq<u8>)
    requires
        extension(style, path) is None || extension(style, path)->0.len() == 0,
    ensures
        language_of(style, path) is None,
{
    lemma_never_empty("rs");
    lemma_never_empty("ts");
    lemma_never_empty("mts");
    lemma_never_empty("cts");
    lemma_never_empty("tsx");
    lemma_never_empty("js");
    lemma_never_empty("mjs");
    lemma_never_empty("cjs");
    lemma_never_empty("jsx");
    lemma_never_empty("py");
    lemma_never_empty("pyi");
    lemma_never_empty("go");
    lemma_never_empty("md");
    lemma_never_empty("markdown");
    reveal_strlit("rs");
    reveal_strlit("ts");
    reveal_strlit("mts");
    reveal_strlit("cts");
    reveal_strlit("tsx");
    reveal_strlit("js");
    reveal_strlit("mjs");
    reveal_strlit("cjs");
    reveal_strlit("jsx");
    reveal_strlit("py");
    reveal_strlit("pyi");
    reveal_strlit("go");
    reveal_strlit("md");
    reveal_strlit("markdown");
    assert(small_extension(style, path).len() == 0);
}

proof fn lemma_never_empty(word: &str)
    ensures
        word@.len() > 0 ==> text(word).len() > 0,
{
    if text(word).len() == 0 {
        vstd::utf8::encode_utf8_decode_utf8(word@);
        lemma_same_words(word, "");
        reveal_strlit("");
        assert(""@ =~= Seq::<char>::empty());
        assert(text("") =~= Seq::<u8>::empty());
        assert(text(word) =~= text(""));
    }
}

/// Families are told apart by their keys and by their names.
pub proof fn law_families_are_told_apart(left: LanguageFamily, right: LanguageFamily)
    ensures
        left.key_text() == right.key_text() ==> left == right,
        left.name_text() == right.name_text() ==> left == right,
        LanguageFamily::Rust.key_text() == "rust"@,
        LanguageFamily::TypeScript.key_text() == "typescript"@,
        LanguageFamily::Python.key_text() == "python"@,
        LanguageFamily::Go.key_text() == "go"@,
{
    reveal_strlit("rust");
    reveal_strlit("typescript");
    reveal_strlit("python");
    reveal_strlit("go");
    reveal_strlit("Rust");
    reveal_strlit("TypeScript/JavaScript");
    reveal_strlit("Python");
    reveal_strlit("Go");
    assert("rust"@[0] == 'r' && "typescript"@[0] == 't' && "python"@[0] == 'p' && "go"@[0] == 'g');
    assert("Rust"@[0] == 'R' && "TypeScript/JavaScript"@[0] == 'T' && "Python"@[0] == 'P'
        && "Go"@[0] == 'G');
}

} // verus!
