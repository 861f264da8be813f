//! Files that a language server points at, as URIs and as paths.

use crate::bytes::{byte_views, text, views};
use crate::git::ContentPathKind;
use crate::paths::{
    absolute, below, directories_above, directories_over, is_absolute, names, path_below,
    path_names, rooted, wanders, PathStyle,
};
use crate::text::{copy_text, text_equal, utf8_text};
use std::str::FromStr;
use vstd::prelude::*;

verus! {

/// The longest text that is read as a URI.
pub const MAX_URI_BYTES: usize = 0x7fff_ffff;

/// The longest path of which it is said that its URI leads back to it.
pub const MAX_PLAIN_PATH_BYTES: usize = 0x1000_0000;

/// How far up a package is looked for.
pub const MAX_DEPENDENCY_ROOT_ANCESTORS: usize = 32;

/// How many files mark a package.
pub const DEPENDENCY_MANIFEST_COUNT: usize = 5;

/// The text of the URL that `url::Url::from_file_path` makes of a path.
pub uninterp spec fn file_url_text(path: Seq<char>) -> Option<Seq<char>>;

/// An absolute path of Unix that is written out in names, of which none is a mark. The
/// marks of drives and of shares are not in it.
pub open spec fn is_plain_unix_path(path: Seq<u8>) -> bool {
    &&& path == rooted(PathStyle::Unix, path, names(PathStyle::Unix, path).len() as int)
    &&& !wanders(names(PathStyle::Unix, path))
    &&& !path.contains(58)
    &&& !path.contains(92)
    &&& !path.contains(124)
}

/// An absolute path of Windows that is written out in names behind the capital letter of
/// a drive, of which none is a mark.
pub open spec fn is_plain_windows_path(path: Seq<u8>) -> bool {
    &&& path.len() >= 3
    &&& 65 <= path[0] <= 90
    &&& path[1] == 58
    &&& path[2] == 92
    &&& path == rooted(PathStyle::Windows, path, names(PathStyle::Windows, path).len() as int)
    &&& !wanders(names(PathStyle::Windows, path))
    &&& !path.contains(47)
    &&& !path.contains(124)
    &&& !path.subrange(2, path.len() as int).contains(58)
}

/// A path of the style of which it is said that its URI leads back to it.
pub open spec fn is_plain_path(style: PathStyle, path: Seq<u8>) -> bool {
    &&& path.len() <= MAX_PLAIN_PATH_BYTES
    &&& !path.contains(0)
    &&& match style {
        PathStyle::Unix => is_plain_unix_path(path),
        PathStyle::Windows => is_plain_windows_path(path),
    }
}

/// `url::Url::from_file_path` on the platform that the crate is built for. A
/// path that is not absolute has no URL; how the others are escaped has only a
/// name here. What the escapes of a plain path stand for is read back: the URL is an
/// unqualified one of a file, and `url::Url::to_file_path` gives the path again. A name
/// of a letter and a colon or a bar would be taken for a drive, and a backslash at the
/// front for the beginning of a share.
#[verifier::external_body]
fn file_url(path: &str) -> (url: Option<String>)
    ensures
        url is Some <==> file_url_text(path@) is Some,
        url is Some ==> url->0@ == file_url_text(path@)->0,
        url is Some && (is_plain_path(PathStyle::Unix, text(path)) || is_plain_path(
            PathStyle::Windows,
            text(path),
        )) ==> url_parts(url->0@) == Some(
            UrlRecord {
                scheme: "file"@,
                has_query: false,
                has_fragment: false,
                path: Some(text(path)),
            },
        ),
{
    url::Url::from_file_path(std::path::Path::new(path)).ok().map(|url| String::from(url))
}

/// The texts that `lsp_types::Uri::from_str` reads.
pub uninterp spec fn is_uri(words: Seq<char>) -> bool;

/// `lsp_types::Uri::from_str` says whether a text is a URI reference. It panics
/// on texts that are longer than a signed 32-bit number can say.
#[verifier::external_body]
fn reads_as_uri(words: &str) -> (yes: bool)
    requires
        text(words).len() <= MAX_URI_BYTES,
    ensures
        yes == is_uri(words@),
{
    lsp_types::Uri::from_str(words).is_ok()
}

/// What `url::Url` finds in a text.
#[derive(Debug)]
pub struct UrlParts {
    pub scheme: String,
    pub has_query: bool,
    pub has_fragment: bool,
    /// The path of the file that the URL names, if it names one.
    pub path: Option<Vec<u8>>,
}

/// What is said of the parts of a URL.
pub struct UrlRecord {
    pub scheme: Seq<char>,
    pub has_query: bool,
    pub has_fragment: bool,
    pub path: Option<Seq<u8>>,
}

impl View for UrlParts {
    type V = UrlRecord;

    open spec fn view(&self) -> UrlRecord {
        UrlRecord {
            scheme: self.scheme@,
            has_query: self.has_query,
            has_fragment: self.has_fragment,
            path: match self.path {
                Some(path) => Some(path@),
                None => None,
            },
        }
    }
}

/// What `url::Url::parse` reads out of a text.
pub uninterp spec fn url_parts(words: Seq<char>) -> Option<UrlRecord>;

/// `url::Url::parse`, taken apart by `scheme`, `query`, `fragment` and, for the
/// platform that the crate is built for, `to_file_path`.
#[verifier::external_body]
fn read_url(words: &str) -> (parts: Option<UrlParts>)
    ensures
        parts is Some <==> url_parts(words@) is Some,
        parts is Some ==> parts->0@ == url_parts(words@)->0,
{
    let url = url::Url::parse(words).ok()?;
    Some(UrlParts {
        scheme: url.scheme().to_owned(),
        has_query: url.query().is_some(),
        has_fragment: url.fragment().is_some(),
        path: url.to_file_path().ok().map(|path| path.into_os_string().into_encoded_bytes()),
    })
}

#[derive(Clone, Copy, Debug, PartialEq, Eq, Structural)]
pub enum UriError {
    NoFileUrl,
    TooLong,
    NotForProtocol,
    Invalid,
    Qualified,
    NotRepresentable,
    NotAbsolute,
}

impl UriError {
    pub open spec fn text(self) -> Seq<char> {
        match self {
            UriError::NoFileUrl => "path cannot be represented as a file URI"@,
            UriError::TooLong => "file URI is too long"@,
            UriError::NotForProtocol => "file URI is not valid for LSP"@,
            UriError::Invalid => "invalid LSP URI"@,
            UriError::Qualified => "navigation target must be an unqualified file URI"@,
            UriError::NotRepresentable => "file URI cannot be represented on this platform"@,
            UriError::NotAbsolute => "navigation target is not an absolute file path"@,
        }
    }

    pub fn message(&self) -> (text: &'static str)
        ensures
            text@ == self.text(),
    {
        match self {
            UriError::NoFileUrl => "path cannot be represented as a file URI",
            UriError::TooLong => "file URI is too long",
            UriError::NotForProtocol => "file URI is not valid for LSP",
            UriError::Invalid => "invalid LSP URI",
            UriError::Qualified => "navigation target must be an unqualified file URI",
            UriError::NotRepresentable => "file URI cannot be represented on this platform",
            UriError::NotAbsolute => "navigation target is not an absolute file path",
        }
    }
}

/// The URI that a URL makes for the protocol.
pub open spec fn uri_of(url: Option<Seq<char>>) -> Result<Seq<char>, UriError> {
    match url {
        None => Err(UriError::NoFileUrl),
        Some(words) => if vstd::utf8::encode_utf8(words).len() > MAX_URI_BYTES {
            Err(UriError::TooLong)
        } else if is_uri(words) {
            Ok(words)
        } else {
            Err(UriError::NotForProtocol)
        },
    }
}

/// A byte that is written as it is in the path of a URL.
pub open spec fn is_kept(byte: u8) -> bool {
    &&& 33 <= byte <= 126
    &&& byte != 34 && byte != 35 && byte != 37 && byte != 47
    &&& byte != 60 && byte != 62 && byte != 63 && byte != 92
    &&& byte != 96 && byte != 123 && byte != 125
}

/// A capital digit of a number in base sixteen.
pub open spec fn capital_digit(value: int) -> char {
    if value < 10 {
        (48 + value) as char
    } else {
        (55 + value) as char
    }
}

/// Bytes as they are written in the path of a URL.
pub open spec fn percent_text(bytes: Seq<u8>) -> Seq<char>
    decreases bytes.len(),
{
    if bytes.len() == 0 {
        Seq::empty()
    } else {
        let byte = bytes.last();
        percent_text(bytes.drop_last()) + (if is_kept(byte) {
            seq![byte as char]
        } else {
            seq!['%', capital_digit(byte as int / 16), capital_digit(byte as int % 16)]
        })
    }
}

/// Names as they follow each other in a URL.
pub open spec fn percent_names(names: Seq<Seq<u8>>) -> Seq<char>
    decreases names.len(),
{
    if names.len() == 0 {
        Seq::empty()
    } else {
        percent_names(names.drop_last()) + "/"@ + percent_text(names.last())
    }
}

/// The URL of an absolute path whose names need not be text.
pub open spec fn bytes_url(path: Seq<u8>) -> Seq<char> {
    let all = names(PathStyle::Unix, path);
    if all.len() == 0 {
        "file:///"@
    } else {
        "file://"@ + percent_names(all)
    }
}

/// The URL of a path. Only Unix has paths that are no text and yet have one.
pub open spec fn path_url(style: PathStyle, path: Seq<u8>) -> Option<Seq<char>> {
    if vstd::utf8::valid_utf8(path) {
        file_url_text(vstd::utf8::decode_utf8(path))
    } else if style == PathStyle::Unix && is_absolute(style, path) {
        Some(bytes_url(path))
    } else {
        None
    }
}

/// The URI of a path.
pub open spec fn path_uri(style: PathStyle, path: Seq<u8>) -> Result<Seq<char>, UriError> {
    uri_of(path_url(style, path))
}

fn digit_of(value: u8) -> (digit: char)
    requires
        value < 16,
    ensures
        digit == capital_digit(value as int),
{
    if value < 10 {
        (48 + value) as char
    } else {
        (55 + value) as char
    }
}

fn kept(byte: u8) -> (yes: bool)
    ensures
        yes == is_kept(byte),
{
    33 <= byte && byte <= 126 && byte != 34 && byte != 35 && byte != 37 && byte != 47 && byte != 60
        && byte != 62 && byte != 63 && byte != 92 && byte != 96 && byte != 123 && byte != 125
}

fn push_percent(target: &mut String, bytes: &[u8])
    ensures
        final(target)@ == old(target)@ + percent_text(bytes@),
{
    let ghost first = target@;
    let mut index: usize = 0;
    assert(target@ =~= first + percent_text(bytes@.subrange(0, 0)));
    while index < bytes.len()
        invariant
            index <= bytes@.len(),
            target@ == first + percent_text(bytes@.subrange(0, index as int)),
        decreases bytes@.len() - index,
    {
        let byte: u8 = bytes[index];
        let ghost before = target@;
        if kept(byte) {
            target.push(byte as char);
        } else {
            target.push('%');
            target.push(digit_of(byte / 16));
            target.push(digit_of(byte % 16));
        }
        proof {
            let longer = bytes@.subrange(0, index + 1);
            assert(longer.drop_last() =~= bytes@.subrange(0, index as int));
            assert(longer.last() == byte);
            assert(target@ =~= first + percent_text(longer));
        }
        index = index + 1;
    }
    assert(bytes@.subrange(0, bytes@.len() as int) =~= bytes@);
}

fn url_of_bytes(path: &[u8]) -> (url: String)
    ensures
        url@ == bytes_url(path@),
{
    let all = path_names(PathStyle::Unix, path);
    let ghost shown = views(all@);
    assert(shown.len() == all@.len());
    if all.len() == 0 {
        return copy_text("file:///");
    }
    let mut url = copy_text("file://");
    let ghost first = url@;
    let mut index: usize = 0;
    assert(url@ =~= first + percent_names(shown.subrange(0, 0)));
    while index < all.len()
        invariant
            index <= all@.len(),
            shown == views(all@),
            url@ == first + percent_names(shown.subrange(0, index as int)),
        decreases all@.len() - index,
    {
        let ghost before = url@;
        url.push_str("/");
        push_percent(&mut url, all[index]);
        proof {
            let longer = shown.subrange(0, index + 1);
            assert(longer.drop_last() =~= shown.subrange(0, index as int));
            assert(longer.last() == all@[index as int]@);
            assert(url@ =~= first + percent_names(longer));
        }
        index = index + 1;
    }
    assert(shown.subrange(0, shown.len() as int) =~= shown);
    url
}

/// Makes a URI for the protocol of a URL, if there is one.
pub fn url_to_lsp_uri(url: Option<String>) -> (result: Result<String, UriError>)
    ensures
        match uri_of(
            match url {
                Some(words) => Some(words@),
                None => None,
            },
        ) {
            Ok(uri) => result matches Ok(found) && found@ == uri,
            Err(error) => result == Err::<String, _>(error),
        },
{
    match url {
        None => Err(UriError::NoFileUrl),
        Some(words) => {
            if words.as_str().as_bytes().len() > MAX_URI_BYTES {
                Err(UriError::TooLong)
            } else if reads_as_uri(words.as_str()) {
                Ok(words)
            } else {
                Err(UriError::NotForProtocol)
            }
        },
    }
}

/// Makes the URI of a path. The URI of a plain path that is text leads back to it.
pub fn path_to_lsp_uri(style: PathStyle, path: &[u8]) -> (result: Result<String, UriError>)
    ensures
        match path_uri(style, path@) {
            Ok(uri) => result matches Ok(found) && found@ == uri,
            Err(error) => result == Err::<String, _>(error),
        },
        is_plain_path(style, path@) && vstd::utf8::valid_utf8(path@) ==> (result matches Ok(uri)
            ==> file_of(style, url_parts(uri@)) == Ok::<Seq<u8>, UriError>(path@)),
{
    match utf8_text(path) {
        Some(words) => {
            proof {
                vstd::utf8::encode_utf8_decode_utf8(words@);
            }
            url_to_lsp_uri(file_url(words))
        },
        None => {
            if style == PathStyle::Unix && absolute(style, path) {
                url_to_lsp_uri(Some(url_of_bytes(path)))
            } else {
                url_to_lsp_uri(None)
            }
        },
    }
}

/// The text is a URI that is not too long to be read as one.
pub open spec fn is_short_uri(words: Seq<char>) -> bool {
    vstd::utf8::encode_utf8(words).len() <= MAX_URI_BYTES && is_uri(words)
}

pub fn short_uri(words: &str) -> (yes: bool)
    ensures
        yes == is_short_uri(words@),
{
    words.as_bytes().len() <= MAX_URI_BYTES && reads_as_uri(words)
}

/// The file that the parts of a URL name.
pub open spec fn file_of(style: PathStyle, parts: Option<UrlRecord>) -> Result<Seq<u8>, UriError> {
    match parts {
        None => Err(UriError::Invalid),
        Some(url) => if url.scheme != "file"@ || url.has_query || url.has_fragment {
            Err(UriError::Qualified)
        } else {
            match url.path {
                None => Err(UriError::NotRepresentable),
                Some(path) => if is_absolute(style, path) {
                    Ok(path)
                } else {
                    Err(UriError::NotAbsolute)
                },
            }
        },
    }
}

/// The file that the parts of a URL name: an absolute path with nothing behind it.
pub fn url_to_file_path(style: PathStyle, parts: Option<UrlParts>) -> (result: Result<
    Vec<u8>,
    UriError,
>)
    ensures
        match file_of(
            style,
            match parts {
                Some(url) => Some(url@),
                None => None,
            },
        ) {
            Ok(path) => result matches Ok(found) && found@ == path,
            Err(error) => result == Err::<Vec<u8>, _>(error),
        },
{
    match parts {
        None => Err(UriError::Invalid),
        Some(url) => {
            if !text_equal(url.scheme.as_str(), "file") || url.has_query || url.has_fragment {
                return Err(UriError::Qualified);
            }
            match url.path {
                None => Err(UriError::NotRepresentable),
                Some(path) => {
                    if absolute(style, path.as_slice()) {
                        Ok(path)
                    } else {
                        Err(UriError::NotAbsolute)
                    }
                },
            }
        },
    }
}

pub fn lsp_uri_to_file_path(style: PathStyle, uri: &str) -> (result: Result<Vec<u8>, UriError>)
    ensures
        match file_of(style, url_parts(uri@)) {
            Ok(path) => result matches Ok(found) && found@ == path,
            Err(error) => result == Err::<Vec<u8>, _>(error),
        },
{
    url_to_file_path(style, read_url(uri))
}

/// What a path turned out to be when it was looked at without following links.
#[derive(Clone, Copy, Debug, PartialEq, Eq, Structural)]
pub struct Inspection {
    pub kind: ContentPathKind,
    /// The path that was found is the path that was asked for.
    pub same_path: bool,
}

impl Inspection {
    pub open spec fn is_plain_file(self) -> bool {
        self.kind == ContentPathKind::Regular && self.same_path
    }

    pub open spec fn is_plain_directory(self) -> bool {
        self.kind == ContentPathKind::Directory && self.same_path
    }
}

/// A target in the workspace must be a regular file at the very path.
pub fn lsp_uri_to_safe_path(path: Vec<u8>, inspection: Inspection) -> (result: Result<
    Vec<u8>,
    &'static str,
>)
    ensures
        match result {
            Ok(found) => inspection.is_plain_file() && found == path,
            Err(message) => !inspection.is_plain_file() && message@
                == "navigation target is not a safe regular workspace file"@,
        },
{
    if inspection.kind != ContentPathKind::Regular || !inspection.same_path {
        return Err("navigation target is not a safe regular workspace file");
    }
    Ok(path)
}

/// The source of a package outside the workspace.
#[derive(Debug, PartialEq, Eq)]
pub struct DependencyTarget {
    pub root: Vec<u8>,
    pub relative: Vec<u8>,
}

#[derive(Debug, PartialEq, Eq)]
pub enum NavigationFileTarget {
    Workspace(Vec<u8>),
    Dependency(DependencyTarget),
}

/// What a target comes to: a file of the workspace if it is one, else the source
/// of a package if it is one.
pub fn lsp_uri_to_navigation_target(
    workspace: Option<Vec<u8>>,
    dependency: Result<DependencyTarget, String>,
) -> (result: Result<NavigationFileTarget, String>)
    ensures
        match workspace {
            Some(path) => result == Ok::<_, String>(NavigationFileTarget::Workspace(path)),
            None => match dependency {
                Ok(target) => result == Ok::<_, String>(NavigationFileTarget::Dependency(target)),
                Err(error) => result == Err::<NavigationFileTarget, _>(error),
            },
        },
{
    match workspace {
        Some(path) => Ok(NavigationFileTarget::Workspace(path)),
        None => match dependency {
            Ok(target) => Ok(NavigationFileTarget::Dependency(target)),
            Err(error) => Err(error),
        },
    }
}

/// The file that marks a package, by its place in the order of trial.
pub open spec fn manifest_text(index: int) -> Seq<char> {
    if index == 0 {
        "go.mod"@
    } else if index == 1 {
        "Cargo.toml"@
    } else if index == 2 {
        "package.json"@
    } else if index == 3 {
        "pyproject.toml"@
    } else {
        "setup.py"@
    }
}

pub fn dependency_manifest(index: usize) -> (name: &'static str)
    ensures
        name@ == manifest_text(index as int),
{
    if index == 0 {
        "go.mod"
    } else if index == 1 {
        "Cargo.toml"
    } else if index == 2 {
        "package.json"
    } else if index == 3 {
        "pyproject.toml"
    } else {
        "setup.py"
    }
}

/// The directories in which a package is looked for, the nearest first.
pub fn dependency_candidates(style: PathStyle, path: &[u8]) -> (directories: Vec<Vec<u8>>)
    ensures
        byte_views(directories@) == directories_over(
            style,
            path@,
            MAX_DEPENDENCY_ROOT_ANCESTORS as int,
        ),
{
    directories_above(style, path, MAX_DEPENDENCY_ROOT_ANCESTORS)
}

/// What a directory over a target says.
#[derive(Clone, Copy, Debug, PartialEq, Eq, Structural)]
pub enum DirectoryVerdict {
    /// No package starts here.
    Climb,
    /// The package starts here, marked by the manifest at this place.
    Package(usize),
    /// The target is on the way through something that is not a directory.
    NotADirectory,
    /// The mark is there and is not a regular file.
    UnsafeManifest,
}

/// The place of the first manifest that is there.
pub open spec fn first_manifest(manifests: Seq<Option<Inspection>>, from: int) -> Option<int>
    decreases manifests.len() - from,
{
    if from < 0 || from >= manifests.len() {
        None
    } else if manifests[from] is Some {
        Some(from)
    } else {
        first_manifest(manifests, from + 1)
    }
}

pub open spec fn directory_verdict(
    directory: Inspection,
    manifests: Seq<Option<Inspection>>,
) -> DirectoryVerdict {
    if !directory.is_plain_directory() {
        DirectoryVerdict::NotADirectory
    } else {
        match first_manifest(manifests, 0) {
            None => DirectoryVerdict::Climb,
            Some(index) => if manifests[index]->0.is_plain_file() {
                DirectoryVerdict::Package(index as usize)
            } else {
                DirectoryVerdict::UnsafeManifest
            },
        }
    }
}

/// Judges a directory by what it is and by the manifests in it.
pub fn judge_directory(directory: Inspection, manifests: &Vec<Option<Inspection>>) -> (verdict:
    DirectoryVerdict)
    ensures
        verdict == directory_verdict(directory, manifests@),
{
    if directory.kind != ContentPathKind::Directory || !directory.same_path {
        return DirectoryVerdict::NotADirectory;
    }
    let mut index: usize = 0;
    while index < manifests.len()
        invariant
            index <= manifests@.len(),
            directory.is_plain_directory(),
            first_manifest(manifests@, 0) == first_manifest(manifests@, index as int),
        decreases manifests@.len() - index,
    {
        if let Some(manifest) = manifests[index] {
            if manifest.kind != ContentPathKind::Regular || !manifest.same_path {
                return DirectoryVerdict::UnsafeManifest;
            }
            return DirectoryVerdict::Package(index);
        }
        index = index + 1;
    }
    DirectoryVerdict::Climb
}

#[derive(Clone, Copy, Debug, PartialEq, Eq, Structural)]
pub enum DependencyError {
    UnsafeFile,
    NotADirectory,
    UnsafeManifest,
    Escaped,
    PackageDirectory,
    UnsafeCanonicalFile,
    UnsafeCanonicalManifest,
    NoPackage,
}

impl DependencyError {
    pub fn message(&self) -> (text: &'static str)
        ensures
            text@ == (match self {
                DependencyError::UnsafeFile => "dependency target is not a safe regular file"@,
                DependencyError::NotADirectory =>
                    "dependency target traverses a non-directory path component"@,
                DependencyError::UnsafeManifest =>
                    "dependency package manifest is not a safe regular file"@,
                DependencyError::Escaped => "dependency target escaped its package root"@,
                DependencyError::PackageDirectory =>
                    "dependency target cannot be a package directory"@,
                DependencyError::UnsafeCanonicalFile =>
                    "canonical dependency target is not a safe regular file"@,
                DependencyError::UnsafeCanonicalManifest =>
                    "canonical dependency package manifest is not a safe regular file"@,
                DependencyError::NoPackage =>
                    "navigation target is outside the opened workspace and not a recognized dependency source"@,
            }),
    {
        match self {
            DependencyError::UnsafeFile => "dependency target is not a safe regular file",
            DependencyError::NotADirectory =>
                "dependency target traverses a non-directory path component",
            DependencyError::UnsafeManifest =>
                "dependency package manifest is not a safe regular file",
            DependencyError::Escaped => "dependency target escaped its package root",
            DependencyError::PackageDirectory => "dependency target cannot be a package directory",
            DependencyError::UnsafeCanonicalFile =>
                "canonical dependency target is not a safe regular file",
            DependencyError::UnsafeCanonicalManifest =>
                "canonical dependency package manifest is not a safe regular file",
            DependencyError::NoPackage =>
                "navigation target is outside the opened workspace and not a recognized dependency source",
        }
    }
}

/// A target under a package root, once links are out of both paths: what is left
/// of the target below the root, if the target and the manifest are regular files.
pub open spec fn dependency_target(
    style: PathStyle,
    root: Seq<u8>,
    path: Seq<u8>,
    target: Inspection,
    manifest: Inspection,
) -> Result<Seq<u8>, DependencyError> {
    match below(style, path, root) {
        None => Err(DependencyError::Escaped),
        Some(relative) => if relative.len() == 0 {
            Err(DependencyError::PackageDirectory)
        } else if !target.is_plain_file() {
            Err(DependencyError::UnsafeCanonicalFile)
        } else if !manifest.is_plain_file() {
            Err(DependencyError::UnsafeCanonicalManifest)
        } else {
            Ok(relative)
        },
    }
}

pub fn dependency_target_for_path(
    style: PathStyle,
    canonical_root: Vec<u8>,
    canonical_path: &[u8],
    target: Inspection,
    manifest: Inspection,
) -> (result: Result<DependencyTarget, DependencyError>)
    ensures
        match dependency_target(style, canonical_root@, canonical_path@, target, manifest) {
            Ok(relative) => result matches Ok(found) && found.root == canonical_root
                && found.relative@ == relative,
            Err(error) => result == Err::<DependencyTarget, _>(error),
        },
{
    match path_below(style, canonical_path, canonical_root.as_slice()) {
        None => Err(DependencyError::Escaped),
        Some(relative) => {
            if relative.len() == 0 {
                return Err(DependencyError::PackageDirectory);
            }
            if target.kind != ContentPathKind::Regular || !target.same_path {
                return Err(DependencyError::UnsafeCanonicalFile);
            }
            if manifest.kind != ContentPathKind::Regular || !manifest.same_path {
                return Err(DependencyError::UnsafeCanonicalManifest);
            }
            Ok(DependencyTarget { root: canonical_root, relative })
        },
    }
}

/// The words of a URI, if there is one.
pub open spec fn uri_words(uri: Result<String, UriError>) -> Result<Seq<char>, UriError> {
    match uri {
        Ok(words) => Ok(words@),
        Err(error) => Err(error),
    }
}

// What URLs are made of -------------------------------------------------------------------

/// The value of a digit of the sixteen, with capital letters.
pub open spec fn capital_value(digit: char) -> int {
    if '0' <= digit <= '9' {
        digit as int - '0' as int
    } else {
        digit as int - 'A' as int + 10
    }
}

/// A byte of a name stands in a URL as its character, if that is printable and means nothing
/// there, and else as its two hexadecimal digits behind a percent sign. A longer name is
/// written byte by byte.
pub proof fn law_names_are_escaped_byte_by_byte(front: Seq<u8>, byte: u8)
    ensures
        percent_text(Seq::empty()) == Seq::<char>::empty(),
        ({
            let before = percent_text(front);
            let all = percent_text(front.push(byte));
            let plain = 0x21 <= byte <= 0x7e && byte != '"' as u8 && byte != '#' as u8 && byte
                != '%' as u8 && byte != '/' as u8 && byte != '<' as u8 && byte != '>' as u8 && byte
                != '?' as u8 && byte != '\\' as u8 && byte != '`' as u8 && byte != '{' as u8 && byte
                != '}' as u8;
            &&& plain ==> all == before.push(byte as char)
            &&& !plain ==> {
                &&& all.len() == before.len() + 3
                &&& all.take(before.len() as int) == before
                &&& all[before.len() as int] == '%'
                &&& 16 * capital_value(all[before.len() as int + 1]) + capital_value(
                    all[before.len() as int + 2],
                ) == byte
                &&& 0 <= capital_value(all[before.len() as int + 1]) < 16
                &&& 0 <= capital_value(all[before.len() as int + 2]) < 16
            }
        }),
{
    let all = front.push(byte);
    assert(all.drop_last() =~= front);
    let high = byte as int / 16;
    let low = byte as int % 16;
    assert(capital_value(capital_digit(high)) == high);
    assert(capital_value(capital_digit(low)) == low);
    assert(percent_text(all).take(percent_text(front).len() as int) =~= percent_text(front)
        || is_kept(byte));
    if is_kept(byte) {
        assert(percent_text(all) =~= percent_text(front).push(byte as char));
    }
}

/// A directory is a package if it is a plain directory and the first of the five manifests
/// that is there is a plain file. Where none is there, the package is further up.
pub proof fn law_packages_have_a_plain_manifest(
    directory: Inspection,
    manifests: Seq<Option<Inspection>>,
)
    requires
        manifests.len() <= usize::MAX,
    ensures
        ({
            let plain = directory.kind == ContentPathKind::Directory && directory.same_path;
            let verdict = directory_verdict(directory, manifests);
            &&& verdict is NotADirectory <==> !plain
            &&& verdict is Climb <==> plain && forall|i: int|
                0 <= i < manifests.len() ==> (#[trigger] manifests[i]) is None
            &&& verdict matches DirectoryVerdict::Package(index) ==> {
                &&& plain && index < manifests.len() && manifests[index as int] is Some
                &&& manifests[index as int]->0.kind == ContentPathKind::Regular
                &&& manifests[index as int]->0.same_path
                &&& forall|i: int| 0 <= i < index ==> (#[trigger] manifests[i]) is None
            }
            &&& verdict is UnsafeManifest ==> exists|i: int|
                0 <= i < manifests.len() && (#[trigger] manifests[i]) is Some && (
                manifests[i]->0.kind != ContentPathKind::Regular || !manifests[i]->0.same_path)
                    && forall|j: int| 0 <= j < i ==> (#[trigger] manifests[j]) is None
        }),
{
    lemma_first_manifest(manifests, 0);
}

proof fn lemma_first_manifest(manifests: Seq<Option<Inspection>>, from: int)
    requires
        0 <= from <= manifests.len(),
    ensures
        match first_manifest(manifests, from) {
            Some(index) => from <= index < manifests.len() && manifests[index] is Some && forall|
                i: int,
            |
                from <= i < index ==> (#[trigger] manifests[i]) is None,
            None => forall|i: int|
                from <= i < manifests.len() ==> (#[trigger] manifests[i]) is None,
        },
    decreases manifests.len() - from,
{
    if from < manifests.len() && manifests[from] is None {
        lemma_first_manifest(manifests, from + 1);
    }
}

/// What marks a package of each kind.
pub proof fn law_manifests_are_told_apart(left: int, right: int)
    requires
        0 <= left < DEPENDENCY_MANIFEST_COUNT,
        0 <= right < DEPENDENCY_MANIFEST_COUNT,
    ensures
        manifest_text(left) == manifest_text(right) ==> left == right,
        manifest_text(left) == "go.mod"@ || manifest_text(left) == "Cargo.toml"@ || manifest_text(
            left,
        ) == "package.json"@ || manifest_text(left) == "pyproject.toml"@ || manifest_text(left)
            == "setup.py"@,
{
    reveal_strlit("go.mod");
    reveal_strlit("Cargo.toml");
    reveal_strlit("package.json");
    reveal_strlit("pyproject.toml");
    reveal_strlit("setup.py");
    assert("go.mod"@.len() == 6 && "Cargo.toml"@.len() == 10 && "package.json"@.len() == 12
        && "pyproject.toml"@.len() == 14 && "setup.py"@.len() == 8);
}

/// A URL leads to a file exactly if it has the scheme of files, neither a query nor a
/// fragment, and an absolute path; and then to that path.
pub proof fn law_urls_of_files_lead_to_their_path(style: PathStyle, url: UrlRecord, path: Seq<u8>)
    ensures
        file_of(style, Some(url)) == Ok::<_, UriError>(path) <==> url.scheme == "file"@
            && !url.has_query && !url.has_fragment && url.path == Some(path) && is_absolute(
            style,
            path,
        ),
        file_of(style, None) is Err,
{
}

/// A file of a dependency is named by its path below the package, and it is taken only if it
/// lies there and both it and the manifest are plain files.
pub proof fn law_dependency_files_lie_in_their_package(
    root: Seq<u8>,
    path: Seq<u8>,
    target: Inspection,
    manifest: Inspection,
)
    requires
        root.len() > 0 && root[0] == 47,
        path.len() > 0 && path[0] == 47,
    ensures
        dependency_target(PathStyle::Unix, root, path, target, manifest) matches Ok(relative) ==> {
            &&& relative.len() > 0
            &&& names(PathStyle::Unix, path) == names(PathStyle::Unix, root) + names(
                PathStyle::Unix,
                relative,
            )
            &&& target.kind == ContentPathKind::Regular && target.same_path
            &&& manifest.kind == ContentPathKind::Regular && manifest.same_path
        },
{
    crate::paths::law_paths_below_follow(path, root);
}

} // verus!
