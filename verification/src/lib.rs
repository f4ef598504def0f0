//! Core of a conversational agent runtime.
//!
//! A session is a named, ordered transcript of role-tagged messages with
//! tool-call correlation. The library provides the session data model, a
//! document codec for durable session records, a session store layering an
//! in-memory cache over durable records, the tool-execution contract with a
//! shell exemplar, a context builder, and the orchestration state machine
//! that turns one inbound message into provider rounds, tool executions and
//! exactly one persisted conversation update.
//!
//! Everything here is executable Rust whose behaviour is stated in
//! `requires`/`ensures` contracts. Process spawning, file input/output and
//! asynchronous scheduling live outside this crate; they hand plain values
//! in and take plain values back.

pub mod agent;
pub mod codec;
pub mod context;
pub mod errors;
pub mod session;
pub mod store;
pub mod tools;
