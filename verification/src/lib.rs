//! Document engine of a token-authenticated JSON store: a path-addressed JSON
//! tree with a version counter, prefix and wildcard access grants, and a lazy
//! per-path version cache for conditional reads.

pub mod access;
pub mod cache;
pub mod client;
pub mod codec;
pub mod config;
pub mod document;
pub mod engine;
pub mod etag;
pub mod json;
pub mod order;
pub mod request;
pub mod users;
