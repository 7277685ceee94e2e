//! A recursive DNS resolver's core: packet buffer codec, protocol header,
//! response cache and the resolver's decision logic, each with its contract.

pub mod buffer;
pub mod text;
pub mod protocol;
pub mod cache;
pub mod logging;
pub mod config;
pub mod resolve;
