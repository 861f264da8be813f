//! Where files and directories are found, and how they are named elsewhere.

use crate::ipc::{is_forwarded, Focus, RequestAction, RequestInbox};
use crate::paths::{
    extension, law_directories_hold_the_first_names, lies_under, names, PathStyle,
};
use crate::protocol::{initialized_capabilities, starts_with_mark, Envelope, RawCapabilities};
use crate::routing::parent_of;
use crate::rpc::RpcId;
use crate::settings::is_native;
use crate::targets::{
    bytes_url, is_short_uri, is_uri, percent_names, percent_text, uri_of, UriError,
};
use crate::windows::{absolute_parts, normalized_target, same_volume, small_names};
use vstd::prelude::*;
use vstd::utf8::encode_utf8;

verus! {

/// The directory over a path of Unix has all of its names but the last.
pub proof fn law_parents_lack_the_last_name(path: Seq<u8>)
    ensures
        names(PathStyle::Unix, path).len() == 0 ==> parent_of(PathStyle::Unix, path) is None,
        names(PathStyle::Unix, path).len() > 0 ==> {
            &&& parent_of(PathStyle::Unix, path) is Some
            &&& names(PathStyle::Unix, parent_of(PathStyle::Unix, path)->0) == names(
                PathStyle::Unix,
                path,
            ).drop_last()
        },
{
    let all = names(PathStyle::Unix, path);
    if all.len() > 0 {
        law_directories_hold_the_first_names(path, all.len() - 1);
        assert(all.take(all.len() - 1) =~= all.drop_last());
    }
}

/// A URL of a path is written name by name.
pub proof fn law_urls_are_written_name_by_name(all: Seq<Seq<u8>>, last: Seq<u8>, path: Seq<u8>)
    ensures
        percent_names(Seq::empty()).len() == 0,
        percent_names(all.push(last)) == percent_names(all) + "/"@ + percent_text(last),
        names(PathStyle::Unix, path).len() == 0 ==> bytes_url(path) == "file:///"@,
        names(PathStyle::Unix, path).len() > 0 ==> bytes_url(path) == "file://"@ + percent_names(
            names(PathStyle::Unix, path),
        ),
{
    assert(all.push(last).drop_last() =~= all);
}

/// A URL is handed to a server as it is, if the protocol takes it as a URI.
pub proof fn law_uris_are_urls_that_the_protocol_takes(url: Option<Seq<char>>)
    ensures
        uri_of(url) is Ok <==> url is Some && is_uri(url->0) && encode_utf8(url->0).len()
            <= 0x7fff_ffff,
        uri_of(url) matches Ok(words) ==> url == Some(words),
        url is Some ==> (is_short_uri(url->0) <==> uri_of(url) is Ok),
        url is None ==> uri_of(url) == Err::<Seq<char>, _>(UriError::NoFileUrl),
{
}

/// A target on Windows is taken as it is if it lies under the root, and else only if it is
/// on the same volume and its first names are those of the root in whatever case.
pub proof fn law_targets_lie_under_the_root_in_any_case(root: Seq<u8>, path: Seq<u8>)
    ensures
        lies_under(PathStyle::Windows, path, root) ==> normalized_target(root, path) == Ok::<
            _,
            crate::windows::WindowsTargetError,
        >(path),
        !lies_under(PathStyle::Windows, path, root) ==> (normalized_target(root, path) is Ok <==> {
            &&& absolute_parts(root) is Ok
            &&& absolute_parts(path) is Ok
            &&& ({
                let base = absolute_parts(root)->Ok_0;
                let target = absolute_parts(path)->Ok_0;
                &&& same_volume(base.prefix, target.prefix)
                &&& base.names.len() <= target.names.len()
                &&& forall|i: int|
                    0 <= i < base.names.len() ==> crate::bytes::lowercase(#[trigger] base.names[i])
                        == crate::bytes::lowercase(target.names[i])
            })
        }),
{
    if absolute_parts(root) is Ok && absolute_parts(path) is Ok {
        let base = absolute_parts(root)->Ok_0.names;
        let target = absolute_parts(path)->Ok_0.names;
        let count = base.len() as int;
        if count <= target.len() {
            let front = small_names(target).subrange(0, count);
            if front == small_names(base) {
                assert forall|i: int| 0 <= i < count implies crate::bytes::lowercase(
                    #[trigger] base[i],
                ) == crate::bytes::lowercase(target[i]) by {
                    assert(front[i] == small_names(base)[i]);
                }
            }
            if forall|i: int|
                0 <= i < count ==> crate::bytes::lowercase(#[trigger] base[i])
                    == crate::bytes::lowercase(target[i]) {
                assert(front =~= small_names(base));
            }
        }
    }
}

/// A request to open files is handed to the viewer under a number of its own, if there is a
/// viewer to hand it to and something to open.
pub proof fn law_requests_wait_under_a_number_of_their_own(
    paths: Vec<String>,
    focus: Focus,
    before: RequestInbox,
    after: RequestInbox,
    action: RequestAction,
)
    requires
        paths@.len() > 0,
        is_forwarded(paths, focus, Some(before), Some(after), action),
    ensures
        action == RequestAction::Wait(before.next_ticket),
        after.waiting@.len() == before.waiting@.len() + 1,
        after.waiting@.drop_last() == before.waiting@,
        after.waiting@.last().paths == paths,
        after.waiting@.last().focus == focus,
        after.waiting@.last().ticket == before.next_ticket,
        before.next_ticket < u64::MAX ==> after.next_ticket == before.next_ticket + 1,
{
    assert(after.waiting@.drop_last() =~= before.waiting@);
}

/// A server is ready with the capabilities that it told, if it told them in an object within
/// an object.
pub proof fn law_servers_tell_their_capabilities(
    answer: Seq<char>,
    object: Result<Seq<char>, Seq<char>>,
    raw: Result<RawCapabilities, Seq<char>>,
)
    requires
        initialized_capabilities(answer, object, raw) is Ok,
    ensures
        starts_with_mark(answer, '{' as u8),
        object matches Ok(token) && starts_with_mark(token, '{' as u8),
        raw matches Ok(told) && ({
            let found = initialized_capabilities(answer, object, raw)->Ok_0;
            &&& found.definition <==> told.definition_provider == Some(true)
            &&& found.references <==> told.references_provider == Some(true)
            &&& found.implementations <==> told.implementation_provider == Some(true)
            &&& found.document_symbols <==> told.document_symbol_provider == Some(true)
        }),
{
}

/// Only a result under its own number ends the wait for a shutdown.
pub proof fn law_shutdowns_are_ended_by_their_result(envelope: Envelope, id: RpcId)
    ensures
        envelope.ends_shutdown(id) <==> envelope.jsonrpc@ == "2.0"@ && envelope.id is Some
            && envelope.id->0@ == id@ && envelope.method is None && envelope.result is Some
            && envelope.error is None,
{
}

/// A program of Unix is one that may be executed by someone, as far as is known; one of
/// Windows is known by its extension.
pub proof fn law_programs_may_be_executed(path: Seq<u8>, bits: u32)
    ensures
        is_native(PathStyle::Unix, path, None),
        is_native(PathStyle::Unix, path, Some(bits)) <==> bits & 0o111 != 0,
        is_native(PathStyle::Windows, path, None) <==> extension(PathStyle::Windows, path) is Some
            && crate::bytes::lowercase(extension(PathStyle::Windows, path)->0) == encode_utf8(
            "exe"@,
        ),
{
}

} // verus!
