//! A simplified blockchain node client.

pub mod blocktree;
pub mod chance;
pub mod client;
pub mod hash;
pub mod interface;
pub mod json;
pub mod net;
pub mod pool;
pub mod rlp;
pub mod rpc;
pub mod tasks;
pub mod text;
