//! A command-link manager: named links and prioritised groups of links,
//! materialised as directory symlinks or forwarding scripts inside one
//! managed command directory, and persisted in a line-oriented text file.
pub mod link;
pub mod pairs;
pub mod group;
pub mod store;
pub mod text;
pub mod codec;
pub mod plan;
pub mod roundtrip;

