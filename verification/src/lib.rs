//! An in-process key-value store with per-key time-to-live expiration,
//! together with the binary wire-protocol codec that exposes it over a
//! socket.
//!
//! The store keeps a map from byte-string keys to values, plus an index of
//! pending expirations ordered by expiry time; a background reclaimer drives
//! the purge of due entries through [`db::State::purge_expired_keys`].  The
//! codec decodes one self-delimited frame from a byte buffer and encodes
//! reply frames back to bytes.  Everything here is pure, in-memory logic;
//! the socket loop, the lock around the shared state and the reclaimer task
//! live outside the library and only call into it.

use vstd::prelude::*;

pub mod cmds;
pub mod db;
pub mod resp;
pub mod server;

