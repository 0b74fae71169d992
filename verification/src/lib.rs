//! Binary container formats for named and fixed-section blob archives.
//!
//! The crate provides two on-disk formats: a self-describing archive of
//! named binary blobs with optional whole-body compression and a CRC-32
//! integrity checksum, and a small fixed-section container for vertex
//! processing assets. Both formats share a variable-length integer codec.

use vstd::prelude::*;

pub mod compress;
pub mod entries;
pub mod par;
pub mod pvp;
pub mod tokenizer;
pub mod varint;

verus! {

/// Errors raised while decoding either container format.
#[derive(Debug, Clone, Copy, PartialEq, Eq, Structural)]
pub enum ParError {
    /// The four-byte signature is not one of the recognized ones.
    UnsupportedFormat,
    /// The stored checksum does not match the stored body.
    IntegrityCheckFailed,
    /// A declared length reaches past the available bytes.
    Truncated,
    /// A decoded structure contradicts itself: a count or offset that
    /// reaches past the input, a name that is not UTF-8, or a value too
    /// wide for the type that holds it.
    Corrupt,
    /// A compression codec failed while producing or consuming a stream.
    IoError,
}

} // verus!
