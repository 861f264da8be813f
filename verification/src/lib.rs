//! Latte Lens: the decisions behind a read-only repository viewer.
//!
//! Every module works on plain values. Files, processes, sockets and the
//! terminal belong to the program around this library.

pub mod addresses;
pub mod anchors;
pub mod bytes;
pub mod cleanup;
pub mod completions;
pub mod conduct;
pub mod declarations;
pub mod disk;
pub mod document;
pub mod drives;
pub mod excerpts;
pub mod failures;
pub mod folding;
pub mod frames;
pub mod framing;
pub mod git;
pub mod highlight;
pub mod ipc;
pub mod json;
pub mod language;
pub mod limits;
pub mod locations;
pub mod manager;
pub mod markdown;
pub mod messages;
pub mod order;
pub mod outline;
pub mod paths;
pub mod payload;
pub mod positions;
pub mod preview;
pub mod process;
pub mod protocol;
pub mod requests;
pub mod retirement;
pub mod routing;
pub mod rpc;
pub mod session;
pub mod settings;
pub mod snapshot;
pub mod source;
pub mod structure;
pub mod suggestions;
pub mod syntax;
pub mod targets;
pub mod text;
pub mod values;
pub mod windows;
pub mod wording;
