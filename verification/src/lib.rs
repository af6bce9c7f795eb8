//! A per-machine Node.js toolchain version manager: version resolution,
//! catalog caching, precedence-ordered environment detection and binary-shim
//! reconciliation, with the decision logic specified and verified.

pub mod assoc;
pub mod codec;
pub mod config;
pub mod local_versions;
pub mod mapper;
pub mod nenv;
pub mod node_path;
pub mod node_version;
pub mod ranges;
pub mod resolver;
pub mod strutil;
pub mod utils;
pub mod version_detection;
pub mod versioning;
pub mod versions;
