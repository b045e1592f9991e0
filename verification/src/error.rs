//! Error taxonomy: every failure is fatal to the current pipeline invocation
//! and carries a one-line message.

use vstd::prelude::*;

verus! {

#[derive(Debug, Clone, Copy)]
pub enum VstorageError {
    /// File read/write or temporary-directory failure.
    Io(&'static str),
    /// Key derivation or AEAD seal/open failure, or a missing password.
    Crypto(&'static str),
    /// Reed-Solomon stage: insufficient data or correction capacity exceeded.
    Ecc(&'static str),
    /// Frame header: short buffer, bad magic, bad version, detection failure.
    Header(&'static str),
    /// External muxer process failure.
    Ffmpeg(&'static str),
    /// Invalid frame configuration parameters.
    Config(&'static str),
    /// Image decode failure.
    Image(&'static str),
}

} // verus!
