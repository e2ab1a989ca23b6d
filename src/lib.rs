//! A small in-memory key-value server core speaking a subset of RESP:
//! the frame decoder, the command extractor and executor, the TTL-aware
//! store that they share, and the step that turns received bytes into a
//! request.

mod command;
mod decode;
mod store;
mod value;

pub use command::{
    command_reply, error_reply, execute, execute_read, handle_command, lemma_expired_get_reply, lemma_reads_keep_store,
    lemma_set_then_get_reply, next_request, parse_command,
    spec_parse_command, store_after, Command, Request, RequestError, SpecCommand,
};
pub use decode::{decode, spec_decode, DecodeError, Parser};
pub use store::{
    after_set, expiry_of, get_time, lemma_gets_agree, lemma_overwrite, lemma_set_then_get, lemma_zero_ttl_expires,
    live_value, Store, StoreMap, StoredValue, DEFAULT_TTL_MS, MAX_DURATION_MS,
};
pub use value::{copy_value, extract_string, get_command, spec_command, CommandError, SpecValue, Value};
