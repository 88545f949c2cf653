//! The decision core of a small static file server: resolving request paths
//! to file-system targets, rendering directory listings as HTML, and the
//! per-request state machine that chooses among them.
//!
//! Nothing here touches the file system or the network. Paths are byte
//! strings with `/` as the separator; whoever drives the state machine
//! performs the file-system queries it asks for and reports the answers.

pub mod anchors;
pub mod bytes;
pub mod children;
pub mod config;
pub mod dispatch;
pub mod links;
pub mod listing;
pub mod order;
pub mod paths;
pub mod target;
