//! XOR-based (N,N)-threshold secret sharing over fixed-length byte buffers.
//!
//! A textual secret is split into N hex-encoded shares such that all N
//! shares together reconstruct the secret exactly, while any proper subset
//! reveals nothing (one-time-pad property, assuming truly random shares).

pub mod bytearray;
pub mod keysplit;
