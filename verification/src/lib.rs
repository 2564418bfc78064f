//! A server-side codec for the RESP wire protocol: a decoder-combinator
//! core, the concrete wire grammar with partial-input tolerance, a
//! value/argument data model, a single-allocation materializer over a shared
//! byte arena, and an exact-size encoder, together with a small command
//! dispatcher and in-memory key-value store.

pub mod arena;
pub mod command;
pub mod commands;
pub mod decode;
pub mod decoder;
pub mod protocol;
pub mod redis_value;
pub mod resp;
pub mod service;
pub mod store;
pub mod value;
