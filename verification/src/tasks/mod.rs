//! Work that takes many exchanges with a peer.

pub mod sync_header;
