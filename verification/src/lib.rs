//! Stores arbitrary byte streams as sequences of 4K RGB frames that survive
//! lossy video compression: payload bytes are optionally sealed with
//! AES-256-GCM, expanded with Reed-Solomon parity, and painted as quantized
//! solid color blocks behind a triple-redundant self-describing header.

use vstd::prelude::*;

pub mod bits;
pub mod config;
pub mod crypto;
pub mod decode;
pub mod ecc;
pub mod encode;
pub mod header;
pub mod error;
pub mod frame;
pub mod quant;

verus! {

} // verus!
