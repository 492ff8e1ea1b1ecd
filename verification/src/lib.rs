//! Streaming JSON path and schema tools.
//!
//! Walks a stream of JSON tokens from a SAX-style parser, tracks the
//! structural path to every value without materializing the document,
//! delivers path/value events to a pluggable consumer — a direct call, a
//! bounded channel, or a lock-free ring buffer — and aggregates a
//! per-canonical-path type schema or shreds values into per-path column
//! buffers.
//!
//! - [`jsonpath`]: persistent tree paths with cheap, non-mutating append.
//! - [`sendpath`]: owned paths for sending, and their canonical form.
//! - [`parser`]: the token type and the sources that yield tokens.
//! - [`sender`]: the event envelope and the delivery capability.
//! - [`handler`]: the traversal engine, a recursive state machine.
//! - [`numbers`]: number classification and an exact decimal order.
//! - [`schema`]: the per-path type summary and its report.
//! - [`shredder`]: MessagePack encoding and column-file naming.
//! - [`channel`]: delivery across a thread boundary with backpressure.
//! - [`plain`], [`valuer`]: the simplest visitors.

pub mod jsonpath;
pub mod sendpath;
pub mod sender;
pub mod parser;
pub mod text;
pub mod handler;
pub mod numbers;
pub mod schema;
pub mod shredder;
pub mod channel;
pub mod plain;
pub mod valuer;
