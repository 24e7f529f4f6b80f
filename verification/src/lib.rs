//! An ephemeral in-memory mail gateway.
//!
//! A line-oriented submission protocol ([`smtp`]) writes messages into a
//! per-address mailbox store ([`storage`]); a tag-prefixed retrieval
//! protocol ([`imap`]) reads them back. Connecting addresses are throttled
//! by a per-protocol token bucket ([`limiter`]), accepted messages are
//! signed best-effort ([`signer`]) — a signing failure never loses mail —
//! and incoming byte streams are framed into lines ([`framing`]), since
//! commands may arrive split or batched across reads.

pub mod framing;
pub mod imap;
pub mod limiter;
pub mod signer;
pub mod smtp;
pub mod storage;
pub mod text;
