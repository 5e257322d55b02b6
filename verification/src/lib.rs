//! A small log-structured key-value store.
//!
//! Mutations are appended as encoded command records to numbered segments; an
//! in-memory index maps each live key to the location of its most recent
//! value, and compaction rewrites the live keys into a fresh segment. A thin
//! wire protocol binds the store to a one-request-per-connection server.

mod client;
mod codec;
mod command;
mod engine;
mod error;
mod index;
mod laws;
mod protocol;
mod server;
mod store;

pub use codec::{
    MAX_STR_BYTES, ReaderIterator, encodable_str, command_encodable, encode_command,
    read_command, read_str, spec_encode_command, spec_encode_str, parse_command, parse_str,
    lemma_parse_command_encoding, lemma_record_bytes_round_trip, lemma_value_at_offset,
};
pub use client::{interpret_get_response, interpret_mutation_response};
pub use command::Command;
pub use command::CommandModel;
pub use command::VALUE_OFFSET;
pub use command::Offset;
pub use engine::Engine;
pub use error::Error;
pub use index::{EntryModel, Index, IndexEntry};
pub use laws::{
    StoreOp, apply_op, apply_ops, last_write, put_keys, lemma_last_write_wins,
    lemma_index_size_bounded, lemma_overwrite_crosses_threshold, lemma_set_idempotent,
};
pub use protocol::{
    ErrorKind, Request, RequestModel, Response, ResponseModel, encode_request, encode_response,
    read_request, read_response, spec_encode_request, spec_encode_response, parse_request,
    parse_response, request_encodable, response_encodable, lemma_parse_request_encoding,
    lemma_parse_response_encoding,
};
pub use server::{
    check_engine, get_response, handle_request, handle_request_bytes, mutation_response,
    valid_response,
};
pub use store::{
    COMPACTION_THRESHOLD, dec_digits, digit_char, log_path, SegModel, Segment, Store, open_entry, replay, replay_view, sat64, sort_indices,
    valid_prefix_end,
};

use vstd::prelude::*;

verus! {

/// The default address for a key-value server.
pub const DEFAULT_ADDRESS: &'static str = "127.0.0.1:4001";

} // verus!
