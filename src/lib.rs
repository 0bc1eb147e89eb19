//! A persistent, embedded key-value engine built on an append-only log.
//!
//! The engine keeps an exact image of its backing file in memory: every
//! mutating call changes that image in a way its contract states, and the
//! host persists the change (an append for `put`/`delete`, an atomic rewrite
//! for `compact`/`set_identifier`).
pub mod codec;
pub mod text;
pub mod error;
pub mod recovery;
pub mod store;
pub mod persist;
pub mod laws;
pub mod locks;
pub mod command;
pub mod shell;
pub mod api;
pub mod config;
