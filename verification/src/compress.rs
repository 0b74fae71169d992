//! The compression adapter: a uniform encode/decode pair over the four
//! body-compression methods an archive can choose.
//!
//! The codecs themselves live in outside crates; each is reached through
//! one trusted wrapper per direction. A compressed stream is named by an
//! uninterpreted function of the input bytes, and each decoder's contract
//! states that it inverts the matching encoder.

use vstd::prelude::*;

use vstd::slice::slice_to_vec;

use crate::ParError;

verus! {

/// The whole-body compression of an archive. The payload of a compressed
/// method is the declared uncompressed size read from a file header; it is
/// advisory (a buffer-sizing hint) and ignored when writing.
#[derive(Debug, Clone, Copy, PartialEq, Eq, Structural)]
pub enum CompressionMethod {
    Uncompressed,
    Zlib(u64),
    Lz4(u64),
    Zstd11(u64),
}

/// The DEFLATE stream that compressing `s` produces.
pub uninterp spec fn deflate_of(s: Seq<u8>) -> Seq<u8>;

/// The LZ4 frame that compressing `s` produces.
pub uninterp spec fn lz4_of(s: Seq<u8>) -> Seq<u8>;

/// The zstd stream that compressing `s` at level 11 produces.
pub uninterp spec fn zstd11_of(s: Seq<u8>) -> Seq<u8>;

/// The CRC-32/IEEE checksum of `s`.
pub uninterp spec fn crc32_of(s: Seq<u8>) -> u32;

/// The body bytes as stored on disk under method `m`.
pub open spec fn stored_body(m: CompressionMethod, body: Seq<u8>) -> Seq<u8> {
    match m {
        CompressionMethod::Uncompressed => body,
        CompressionMethod::Zlib(_) => deflate_of(body),
        CompressionMethod::Lz4(_) => lz4_of(body),
        CompressionMethod::Zstd11(_) => zstd11_of(body),
    }
}

/// Relies on the crc crate's 32-bit ISO-HDLC algorithm (CRC-32/IEEE): the
/// checksum is a function of the input bytes alone.
#[verifier::external_body]
pub(crate) fn crc32_ieee(data: &[u8]) -> (r: u32)
    ensures
        r == crc32_of(data@),
{
    crc::Crc::<u32>::new(&crc::CRC_32_ISO_HDLC).checksum(data)
}

/// Relies on libflate's deflate::Encoder: the compressed stream is a
/// function of the input bytes alone.
#[verifier::external_body]
fn deflate_compress(data: &[u8]) -> (r: Result<Vec<u8>, ParError>)
    ensures
        r matches Ok(o) ==> o@ == deflate_of(data@),
        r matches Err(e) ==> e == ParError::IoError,
{
    let mut enc = libflate::deflate::Encoder::new(Vec::new());
    if std::io::Write::write_all(&mut enc, data).is_err() {
        return Err(ParError::IoError);
    }
    match enc.finish().into_result() {
        Ok(v) => Ok(v),
        Err(_) => Err(ParError::IoError),
    }
}

/// Relies on libflate's deflate::Decoder: it inverts the encoder, so an
/// input that is the encoding of some byte sequence decodes back to it.
#[verifier::external_body]
fn deflate_decompress(data: &[u8], size_hint: usize) -> (r: Result<Vec<u8>, ParError>)
    ensures
        r is Ok <== exists|x: Seq<u8>| data@ == deflate_of(x),
        r matches Ok(o) ==> forall|x: Seq<u8>| data@ == deflate_of(x) ==> o@ == x,
        r matches Err(e) ==> e == ParError::Corrupt,
{
    let mut dec = libflate::deflate::Decoder::new(data);
    let mut out = Vec::with_capacity(size_hint);
    match std::io::Read::read_to_end(&mut dec, &mut out) {
        Ok(_) => Ok(out),
        Err(_) => Err(ParError::Corrupt),
    }
}

/// Relies on the lz4 crate's frame Encoder with default settings: the
/// compressed stream is a function of the input bytes alone.
#[verifier::external_body]
fn lz4_compress(data: &[u8]) -> (r: Result<Vec<u8>, ParError>)
    ensures
        r matches Ok(o) ==> o@ == lz4_of(data@),
        r matches Err(e) ==> e == ParError::IoError,
{
    let mut enc = match lz4::EncoderBuilder::new().build(Vec::new()) {
        Ok(e) => e,
        Err(_) => return Err(ParError::IoError),
    };
    if std::io::Write::write_all(&mut enc, data).is_err() {
        return Err(ParError::IoError);
    }
    let (out, res) = enc.finish();
    match res {
        Ok(()) => Ok(out),
        Err(_) => Err(ParError::IoError),
    }
}

/// Relies on the lz4 crate's frame Decoder: it inverts the encoder, so an
/// input that is the encoding of some byte sequence decodes back to it.
#[verifier::external_body]
fn lz4_decompress(data: &[u8], size_hint: usize) -> (r: Result<Vec<u8>, ParError>)
    ensures
        r is Ok <== exists|x: Seq<u8>| data@ == lz4_of(x),
        r matches Ok(o) ==> forall|x: Seq<u8>| data@ == lz4_of(x) ==> o@ == x,
        r matches Err(e) ==> e == ParError::Corrupt,
{
    let mut dec = match lz4::Decoder::new(data) {
        Ok(d) => d,
        Err(_) => return Err(ParError::Corrupt),
    };
    let mut out = Vec::with_capacity(size_hint);
    match std::io::Read::read_to_end(&mut dec, &mut out) {
        Ok(_) => Ok(out),
        Err(_) => Err(ParError::Corrupt),
    }
}

/// Relies on zstd's encode_all at level 11: the compressed stream is a
/// function of the input bytes alone.
#[verifier::external_body]
fn zstd_compress(data: &[u8]) -> (r: Result<Vec<u8>, ParError>)
    ensures
        r matches Ok(o) ==> o@ == zstd11_of(data@),
        r matches Err(e) ==> e == ParError::IoError,
{
    match zstd::stream::encode_all(data, 11) {
        Ok(v) => Ok(v),
        Err(_) => Err(ParError::IoError),
    }
}

/// Relies on zstd's decode_all: it inverts the encoder, so an input that
/// is the encoding of some byte sequence decodes back to it.
#[verifier::external_body]
fn zstd_decompress(data: &[u8]) -> (r: Result<Vec<u8>, ParError>)
    ensures
        r is Ok <== exists|x: Seq<u8>| data@ == zstd11_of(x),
        r matches Ok(o) ==> forall|x: Seq<u8>| data@ == zstd11_of(x) ==> o@ == x,
        r matches Err(e) ==> e == ParError::Corrupt,
{
    match zstd::stream::decode_all(data) {
        Ok(v) => Ok(v),
        Err(_) => Err(ParError::Corrupt),
    }
}

/// Runs `body` through the chosen method's encoder; `Uncompressed` stores
/// the bytes as they are and cannot fail.
pub fn encode_body(method: &CompressionMethod, body: &[u8]) -> (r: Result<Vec<u8>, ParError>)
    ensures
        r matches Ok(o) ==> o@ == stored_body(*method, body@),
        r matches Err(e) ==> e == ParError::IoError,
        *method is Uncompressed ==> (r matches Ok(o) && o@ == body@),
{
    match method {
        CompressionMethod::Uncompressed => Ok(slice_to_vec(body)),
        CompressionMethod::Zlib(_) => deflate_compress(body),
        CompressionMethod::Lz4(_) => lz4_compress(body),
        CompressionMethod::Zstd11(_) => zstd_compress(body),
    }
}

/// Undoes `encode_body`: on a stream that the chosen method's encoder
/// produced, returns the original bytes. `size_hint` only pre-sizes the
/// output buffer.
pub fn decode_body(method: &CompressionMethod, data: &[u8], size_hint: usize) -> (r: Result<
    Vec<u8>,
    ParError,
>)
    ensures
        r is Ok <== exists|x: Seq<u8>| data@ == stored_body(*method, x),
        r matches Ok(o) ==> forall|x: Seq<u8>| data@ == stored_body(*method, x) ==> o@ == x,
        r matches Err(e) ==> e == ParError::Corrupt,
{
    match method {
        CompressionMethod::Uncompressed => Ok(slice_to_vec(data)),
        CompressionMethod::Zlib(_) => deflate_decompress(data, size_hint),
        CompressionMethod::Lz4(_) => lz4_decompress(data, size_hint),
        CompressionMethod::Zstd11(_) => zstd_decompress(data),
    }
}

} // verus!
