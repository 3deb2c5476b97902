//! Core of an encrypted peer-to-peer chat node: the command interface, the
//! authenticated-encryption engine with its nonce discipline, the wire
//! framing, the registry of connected peers, the per-peer session state
//! machine, and the node that ties them together.

pub mod addr;
pub mod client;
pub mod command;
pub mod crypto;
pub mod frame;
pub mod hex;
pub mod nonce;
pub mod registry;
pub mod session;
