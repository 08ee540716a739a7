//! A minimal in-memory key-value server core built on a length-prefixed,
//! RESP-like wire protocol.
//!
//! The crate is organised leaf to root:
//! - [`frame`]: the `Frame` value type and its deterministic byte encoding;
//! - [`decode`]: incremental decoding of one frame from a byte buffer,
//!   telling "complete frame" from "read more" from "provably malformed";
//! - [`engine`]: the per-connection buffer that turns arbitrarily chunked
//!   reads into whole frames and classifies end-of-stream;
//! - [`store`]: the sharded key-value map with its stable shard-selection
//!   hash;
//! - [`command`]: the `GET`/`SET` command vocabulary and its effect on a
//!   store.
//!
//! All I/O (sockets, locks, task spawning, channels) lives outside this
//! crate: callers hand the functions here plain byte chunks and values, and
//! the contracts say exactly what comes back.

pub mod frame;

pub mod decode;

pub mod engine;

pub mod store;

pub mod command;
