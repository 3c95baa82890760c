//! PicoDB — an in-memory key/value cache.
//!
//! The library holds what the server decides: the store with its TTLs and its
//! LRU eviction under a hard RAM cap, the commands, the binary wire protocol, pub/sub,
//! the append-only log with its replay and compaction, the HTTP side with its routes
//! and credentials, and WebSocket framing. It does no I/O.
//!
//! ## Binary wire protocol (request frame)
//! ```text
//!  offset  size  field
//!  ------  ----  ---------------------------------------------------------
//!    0      1    Action Type
//!    1      2    Key Length    u16, big-endian
//!    3      4    Value Length  u32, big-endian
//!    7      4    TTL seconds   u32, big-endian  (0 = no expiry)
//!   11      K    Key Data      (K = Key Length bytes)
//!   11+K    V    Value Data    (V = Value Length bytes)
//! ```
//! The fixed header is exactly **11 bytes**; the body length is `K + V`.
//!
//! ## Response frames
//! ```text
//!  [0x00]                       Success
//!  [0x00][len u32 BE][value]    Success with data (length-prefixed, self-delimiting)
//!  [0x00][i64 BE]               Success with a number
//!  [0x00][count u32 BE] items   Success with an array, each item length-prefixed
//!  [0x44]                       Missing (key not found / expired)  ('D')
//!  [0x41]                       Auth required / invalid token  ('A')
//!  [0x45]                       The log did not take the write  ('E')
//!  [0xFF]                       System / parse error
//! ```
//!
//! ## How it is specified
//!
//! * [`model`] describes the cache as a mathematical object, [`effects`] what each command
//!   does to it and replies; [`lru`] and [`commands`] are the code that does so.
//! * [`server`] adds the log and the subscribers, [`engine`] a connection, [`replay`] the
//!   rebuilding of the cache from a log.
//! * What the world outside decides (the clock, whether a subscriber or the log's writer
//!   is still there) enters as an argument: [`server::Answers`] in the specifications,
//!   a parameter `now` in the functions whose names end in `_at`.
//! * [`clock`] says which times count as readings of the system clock; [`engine::honest_run`]
//!   and [`server::honest`] say that what is taken for an answer of the world outside is one.
//! * [`cache_laws`], [`store_laws`], [`time_laws`], [`replay_laws`], [`log_laws`] and
//!   [`rerun_laws`] state what holds across commands. [`command_laws`], [`reply_laws`],
//!   [`http_laws`], [`json_laws`] and [`metrics_laws`] state what a client reads out of what it
//!   is sent. Laws about one module's functions stand in that module.
pub mod aof;
pub mod base64;
pub mod bytemap;
pub mod bytes;
pub mod cache_laws;
pub mod clock;
pub mod command_laws;
pub mod commands;
pub mod config;
pub mod dump;
pub mod effects;
pub mod engine;
pub mod http;
pub mod http_laws;
pub mod json_laws;
pub mod loadgen;
pub mod log_laws;
pub mod lru;
pub mod metrics_laws;
pub mod model;
pub mod protocol;
pub mod pubsub;
pub mod render;
pub mod replay;
pub mod replay_laws;
pub mod reply_laws;
pub mod rerun_laws;
pub mod server;
pub mod sha1;
pub mod store_laws;
pub mod sums;
pub mod text;
pub mod time_laws;
pub mod value;
pub mod ws;
