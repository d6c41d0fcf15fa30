//! The core of a small key-value server, with its contracts.
//!
//! Three parts carry the weight:
//!
//! - [`resp`] is the wire codec: messages, the bytes that carry them, and a
//!   decoder that consumes one message at a time. [`resp_laws`] proves that
//!   decoding undoes encoding.
//! - [`storage`] is the keyed store. An entry may have an expiry, which is
//!   looked at when the key is read and at no other time. [`storage_laws`]
//!   proves what a reader finds after a write.
//! - [`rdb`] decodes binary snapshots into the events that fill the store.
//!   [`rdb_laws`] proves that a buffer cut short is reported as cut short.
//!
//! Around them stand the commands of the server ([`commands`]), its settings
//! ([`config`]), and what the three parts share: decimal text ([`decimal`],
//! [`bignum`], [`double`]), text and bytes ([`text`]), key patterns
//! ([`pattern`]), the clock ([`clock`]) and the errors of decoding
//! ([`error`]).
//!
//! What a function computes is said over a mathematical model: a sequence
//! of bytes for a buffer, a `Message` for a message, a sequence of entries
//! for the store. The library reads no file and opens no socket; the
//! clock, regular expressions, big numbers and byte order come from other
//! crates, each behind one small function whose contract is taken on
//! trust and says so.

pub mod bignum;
pub mod clock;
pub mod commands;
pub mod config;
pub mod decimal;
pub mod double;
pub mod error;
pub mod pattern;
pub mod rdb;
pub mod rdb_laws;
pub mod resp;
pub mod resp_laws;
pub mod storage;
pub mod storage_laws;
pub mod text;
