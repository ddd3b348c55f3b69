//! A gateway core that keeps a catalog of items in step with a full-text
//! search engine: it says which engine operations an index or deindex request
//! calls for, and turns the engine's ranked hits back into stored items.

pub mod fault;
pub mod scan;
pub mod ident;
pub mod item;
pub mod store;
pub mod engine;
pub mod index;
pub mod query;
pub mod auth;
pub mod config;
pub mod laws;
