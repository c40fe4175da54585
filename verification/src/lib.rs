//! An append-only, 1-indexed log store for a Raft-style replicated log,
//! with a volatile in-memory backend and a durable backend whose committed
//! entries live in a length-prefixed append-only byte log; beside it, the
//! SQL table and column schemas with their validation rules.

pub mod codec;
pub mod engine;
pub mod error;
pub mod hybrid;
pub mod log;
pub mod memory;
pub mod metadata;
pub mod schema;
pub mod types;
