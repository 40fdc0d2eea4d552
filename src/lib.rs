//! Client-side encrypted storage for configuration files, with a small
//! version-control layer (commits, HEAD, remote-tracking HEAD) on top.
pub mod codec;
pub mod commit;
pub mod config;
pub mod envelope;
pub mod error;
pub mod login;
pub mod manifest;
pub mod primitives;
pub mod repo;
pub mod session;
pub mod store;
pub mod sync;
