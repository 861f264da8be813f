//! The limits of the library, in plain numbers.

use vstd::prelude::*;

verus! {

/// How much is read of a file, of a document and of its structure.
pub proof fn law_limits_of_what_is_read()
    ensures
        crate::folding::MAX_FOLD_NODES == 100000,
        crate::folding::MAX_MARKDOWN_EVENTS == 50000,
        crate::folding::MAX_FOLD_REGIONS == 4096,
        crate::structure::MAX_SYMBOL_NODES == 100000,
        crate::structure::MAX_MARKDOWN_SYMBOL_EVENTS == 50000,
        crate::structure::MAX_STRUCTURE_SYMBOLS == 4096,
        crate::structure::MAX_SYMBOL_DEPTH == 64,
        crate::structure::MAX_TOKEN_NODES == 100000,
        crate::structure::MAX_RECOGNIZABLE_TOKENS == 65536,
        crate::positions::MAX_NAVIGATION_TEXT_BYTES == 524288,
        crate::positions::MAX_NAVIGATION_LINES == 2000,
        crate::document::MAX_DOCUMENT_CHARGE == 3145728,
        crate::document::LINE_CHARGE == 8,
        crate::document::TOKEN_CHARGE == 32,
        crate::preview::DEFAULT_MAX_BYTES == 262144,
        crate::preview::DEFAULT_MAX_LINES == 10000,
        crate::highlight::MAX_HIGHLIGHT_LINE_BYTES == 16384,
        crate::highlight::MAX_SCOPE_DEPTH == 21846,
        crate::git::MAX_UNTRACKED_BYTES == 524288,
        crate::git::MAX_UNTRACKED_LINES == 2000,
{
}

/// How much a language server may say.
pub proof fn law_limits_of_what_servers_say()
    ensures
        crate::framing::MAX_HEADER_BYTES == 8192,
        crate::framing::MAX_BODY_BYTES == 4194304,
        crate::json::MAX_JSON_DEPTH == 128,
        crate::json::MAX_JSON_NUMBER_BYTES == 128,
        crate::locations::MAX_LOCATION_RESULTS == 2000,
        crate::locations::MAX_NORMALIZED_RESULT_BYTES == 1048576,
        crate::locations::LOCATION_CHARGE == 96,
        crate::outline::MAX_SYMBOL_RESULTS == 4096,
        crate::outline::MAX_SYMBOL_STRING_BYTES == 4096,
        crate::outline::MAX_SYMBOL_TEXT_BYTES == 524288,
        crate::outline::MAX_NESTED_DEPTH == 64,
        crate::outline::SYMBOL_CHARGE == 176,
        crate::payload::SESSION_PAYLOAD_BUDGET == 33554432,
        crate::payload::GLOBAL_PAYLOAD_BUDGET == 201326592,
        crate::protocol::MAX_CONFIGURATION_ITEMS == 64,
        crate::protocol::MAX_SERVER_CALL_PARAMS_BYTES == 65536,
        crate::protocol::MAX_CONFIGURATION_STRING_BYTES == 4096,
        crate::protocol::MAX_RESULT_URI_BYTES == 65536,
        crate::protocol::MAX_POSITION_ENCODING_BYTES == 32,
        crate::protocol::MAX_MESSAGE_CHARACTERS == 240,
        crate::rpc::MAX_RETIRED_IDS == 64,
        crate::rpc::MAX_RPC_STRING_ID_BYTES == 4096,
        crate::rpc::IO_THREAD_COUNT == 3,
        crate::session::SESSION_WRITER_CAPACITY == 16,
        crate::session::SESSION_FRAME_CAPACITY == 2,
        crate::session::NAVIGATION_REQUEST_TIMEOUT == 3000,
        crate::session::INITIALIZE_TIMEOUT == 5000,
        crate::completions::NAVIGATION_COMPLETION_CAPACITY == 16,
{
}

/// How long is waited, in milliseconds, and how often is tried.
pub proof fn law_limits_of_time()
    ensures
        crate::disk::DISK_WINDOW == 500,
        crate::failures::STABLE_READY_RESET == 60000,
        crate::failures::LAST_ATTEMPT == 5,
{
}

/// How much instances, settings and suggestions may hold.
pub proof fn law_limits_of_instances_and_settings()
    ensures
        crate::ipc::PROTOCOL_VERSION == 1,
        crate::ipc::MAX_REQUEST_BYTES == 65536,
        crate::ipc::MAX_ACTIVE_CONNECTIONS == 4,
        crate::ipc::MAX_DISCOVERED_INSTANCES == 64,
        crate::ipc::IO_TIMEOUT == 2000,
        crate::ipc::MAX_DRAIN_BYTES == 65536,
        crate::ipc::DISCOVERY_TIMEOUT == 500,
        crate::ipc::OPEN_REPLY_TIMEOUT == 5000,
        crate::settings::MAX_CONFIG_BYTES == 65536,
        crate::settings::MAX_PROGRAM_BYTES == 4096,
        crate::settings::MAX_ARGS == 16,
        crate::settings::MAX_ARG_BYTES == 4096,
        crate::settings::MAX_ARGS_BYTES == 16384,
        crate::settings::MAX_WARNING_BYTES == 240,
        crate::suggestions::SUGGESTION_SCAN_LIMIT == 4096,
        crate::suggestions::MAX_SUGGESTION_DISTANCE == 2,
        crate::suggestions::MAX_SUGGESTIONS == 3,
        crate::targets::MAX_URI_BYTES == 2147483647,
        crate::targets::MAX_PLAIN_PATH_BYTES == 268435456,
        crate::targets::MAX_DEPENDENCY_ROOT_ANCESTORS == 32,
        crate::targets::DEPENDENCY_MANIFEST_COUNT == 5,
        crate::process::NO_SUCH_PROCESS == 3,
        crate::process::NOT_PERMITTED == 1,
{
}

} // verus!
