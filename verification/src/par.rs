//! The named-blob archive format.
//!
//! A file is a four-byte signature choosing the compression method, an
//! eight-byte declared uncompressed size (compressed methods only), a
//! four-byte CRC-32 checksum of the body as stored, and the body: the
//! serialized entry table followed by every blob's bytes concatenated in
//! insertion order, the whole body compressed as the signature says.

use vstd::prelude::*;

use vstd::bytes::{
    lemma_auto_spec_u32_to_from_le_bytes, lemma_auto_spec_u64_to_from_le_bytes,
    spec_u32_from_le_bytes, spec_u32_to_le_bytes, spec_u64_from_le_bytes, spec_u64_to_le_bytes,
    u32_from_le_bytes, u32_to_le_bytes, u64_from_le_bytes, u64_to_le_bytes,
};
use vstd::slice::{slice_subrange, slice_to_vec};

use crate::compress::{
    crc32_ieee, crc32_of, decode_body, encode_body, stored_body, CompressionMethod,
};
use crate::entries::{
    entries_encoding, parse_entries, read_asset_entries, table_map, unique_names,
    write_asset_entries, AssetEntryHeadingPair, EntryTable,
};
use crate::ParError;

verus! {

/// The signature of an uncompressed archive.
pub open spec fn sig_plain() -> Seq<u8> {
    seq![0x70u8, 0x61u8, 0x72u8, 0x20u8]
}

/// The signature of a DEFLATE-compressed archive.
pub open spec fn sig_zlib() -> Seq<u8> {
    seq![0x70u8, 0x61u8, 0x72u8, 0x64u8]
}

/// The signature of an LZ4-compressed archive.
pub open spec fn sig_lz4() -> Seq<u8> {
    seq![0x70u8, 0x61u8, 0x72u8, 0x7au8]
}

/// The signature of a zstd-compressed archive.
pub open spec fn sig_zstd() -> Seq<u8> {
    seq![0x70u8, 0x61u8, 0x72u8, 0x31u8]
}

/// The four bytes that announce method `m`.
pub open spec fn signature_of(m: CompressionMethod) -> Seq<u8> {
    match m {
        CompressionMethod::Uncompressed => sig_plain(),
        CompressionMethod::Zlib(_) => sig_zlib(),
        CompressionMethod::Lz4(_) => sig_lz4(),
        CompressionMethod::Zstd11(_) => sig_zstd(),
    }
}

/// The declared uncompressed size a method carries; zero when none does.
pub open spec fn declared_size(m: CompressionMethod) -> u64 {
    match m {
        CompressionMethod::Uncompressed => 0,
        CompressionMethod::Zlib(u) => u,
        CompressionMethod::Lz4(u) => u,
        CompressionMethod::Zstd11(u) => u,
    }
}

/// Method `m` carrying `u` as its declared uncompressed size.
pub open spec fn with_declared_size(m: CompressionMethod, u: u64) -> CompressionMethod {
    match m {
        CompressionMethod::Uncompressed => CompressionMethod::Uncompressed,
        CompressionMethod::Zlib(_) => CompressionMethod::Zlib(u),
        CompressionMethod::Lz4(_) => CompressionMethod::Lz4(u),
        CompressionMethod::Zstd11(_) => CompressionMethod::Zstd11(u),
    }
}

/// The length of the header that precedes the stored body.
pub open spec fn header_len(m: CompressionMethod) -> nat {
    if m is Uncompressed {
        8
    } else {
        16
    }
}

/// The header bytes: the signature, the declared uncompressed size
/// (compressed methods only), and the checksum, integers little-endian.
pub open spec fn header_encoding(m: CompressionMethod, crc: u32) -> Seq<u8> {
    if m is Uncompressed {
        signature_of(m) + spec_u32_to_le_bytes(crc)
    } else {
        signature_of(m) + spec_u64_to_le_bytes(declared_size(m)) + spec_u32_to_le_bytes(crc)
    }
}

/// The whole file that writing body `body` under method `m` produces: the
/// declared size is the body's length before compression, and the checksum
/// covers the body exactly as stored on disk.
pub open spec fn archive_encoding(m: CompressionMethod, body: Seq<u8>) -> Seq<u8> {
    header_encoding(
        with_declared_size(m, body.len() as u64),
        crc32_of(stored_body(m, body)),
    ) + stored_body(m, body)
}

/// Decodes a file header from the front of `s`: the method with its
/// declared size, the stored checksum, and the header's length.
pub open spec fn parse_file_header(s: Seq<u8>) -> Result<(CompressionMethod, u32, nat), ParError> {
    if s.len() < 4 {
        Err(ParError::Truncated)
    } else {
        let sig = s.subrange(0, 4);
        if sig == sig_plain() {
            if s.len() < 8 {
                Err(ParError::Truncated)
            } else {
                Ok(
                    (
                        CompressionMethod::Uncompressed,
                        spec_u32_from_le_bytes(s.subrange(4, 8)),
                        8 as nat,
                    ),
                )
            }
        } else if sig == sig_zlib() || sig == sig_lz4() || sig == sig_zstd() {
            if s.len() < 16 {
                Err(ParError::Truncated)
            } else {
                let ub = spec_u64_from_le_bytes(s.subrange(4, 12));
                let crc = spec_u32_from_le_bytes(s.subrange(12, 16));
                let m = if sig == sig_zlib() {
                    CompressionMethod::Zlib(ub)
                } else if sig == sig_lz4() {
                    CompressionMethod::Lz4(ub)
                } else {
                    CompressionMethod::Zstd11(ub)
                };
                Ok((m, crc, 16 as nat))
            }
        } else {
            Err(ParError::UnsupportedFormat)
        }
    }
}

/// Parsing the header of a written archive recovers the method (carrying
/// the body's uncompressed length), the stored checksum, and the position
/// where the stored body starts.
pub proof fn lemma_file_header_round_trip(m: CompressionMethod, body: Seq<u8>)
    requires
        body.len() <= u64::MAX,
    ensures
        parse_file_header(archive_encoding(m, body)) == Ok::<_, ParError>(
            (
                with_declared_size(m, body.len() as u64),
                crc32_of(stored_body(m, body)),
                header_len(m),
            ),
        ),
        archive_encoding(m, body).skip(header_len(m) as int) == stored_body(m, body),
{
    lemma_auto_spec_u32_to_from_le_bytes();
    lemma_auto_spec_u64_to_from_le_bytes();
    let s = archive_encoding(m, body);
    let crc = crc32_of(stored_body(m, body));
    match m {
        CompressionMethod::Uncompressed => {
            assert(s.subrange(0, 4) =~= sig_plain());
            assert(s.subrange(4, 8) =~= spec_u32_to_le_bytes(crc));
            assert(s.skip(8) =~= stored_body(m, body));
        },
        CompressionMethod::Zlib(_) => {
            assert(s.subrange(0, 4) =~= sig_zlib());
            assert(s.subrange(4, 12) =~= spec_u64_to_le_bytes(body.len() as u64));
            assert(s.subrange(12, 16) =~= spec_u32_to_le_bytes(crc));
            assert(s.skip(16) =~= stored_body(m, body));
        },
        CompressionMethod::Lz4(_) => {
            assert(s.subrange(0, 4) =~= sig_lz4());
            assert(s.subrange(4, 12) =~= spec_u64_to_le_bytes(body.len() as u64));
            assert(s.subrange(12, 16) =~= spec_u32_to_le_bytes(crc));
            assert(s.skip(16) =~= stored_body(m, body));
        },
        CompressionMethod::Zstd11(_) => {
            assert(s.subrange(0, 4) =~= sig_zstd());
            assert(s.subrange(4, 12) =~= spec_u64_to_le_bytes(body.len() as u64));
            assert(s.subrange(12, 16) =~= spec_u32_to_le_bytes(crc));
            assert(s.skip(16) =~= stored_body(m, body));
        },
    }
}

/// Decodes a file header from `bytes` starting at `pos`: the method and
/// checksum, with the position just past the header.
pub fn read_file_header(bytes: &[u8], pos: usize) -> (r: Result<
    ((CompressionMethod, u32), usize),
    ParError,
>)
    requires
        pos <= bytes@.len(),
    ensures
        match parse_file_header(bytes@.skip(pos as int)) {
            Ok((m, crc, n)) => r == Ok::<_, ParError>(((m, crc), (pos + n) as usize)),
            Err(e) => r == Err::<((CompressionMethod, u32), usize), ParError>(e),
        },
{
    let ghost s = bytes@.skip(pos as int);
    if bytes.len() - pos < 4 {
        return Err(ParError::Truncated);
    }
    let b0: u8 = bytes[pos];
    let b1: u8 = bytes[pos + 1];
    let b2: u8 = bytes[pos + 2];
    let b3: u8 = bytes[pos + 3];
    proof {
        assert(s.subrange(0, 4) =~= seq![b0, b1, b2, b3]);
    }
    if !(b0 == 0x70 && b1 == 0x61 && b2 == 0x72) {
        return Err(ParError::UnsupportedFormat);
    }
    if b3 == 0x20 {
        proof {
            assert(s.subrange(0, 4) =~= sig_plain());
        }
        if bytes.len() - pos < 8 {
            return Err(ParError::Truncated);
        }
        let cb: &[u8] = slice_subrange(bytes, pos + 4, pos + 8);
        proof {
            assert(cb@ =~= s.subrange(4, 8));
        }
        let crc: u32 = u32_from_le_bytes(cb);
        Ok(((CompressionMethod::Uncompressed, crc), pos + 8))
    } else if b3 == 0x64 || b3 == 0x7a || b3 == 0x31 {
        if bytes.len() - pos < 16 {
            return Err(ParError::Truncated);
        }
        let ub_slice: &[u8] = slice_subrange(bytes, pos + 4, pos + 12);
        let cb: &[u8] = slice_subrange(bytes, pos + 12, pos + 16);
        proof {
            assert(ub_slice@ =~= s.subrange(4, 12));
            assert(cb@ =~= s.subrange(12, 16));
        }
        let ub: u64 = u64_from_le_bytes(ub_slice);
        let crc: u32 = u32_from_le_bytes(cb);
        let method: CompressionMethod = if b3 == 0x64 {
            proof {
                assert(s.subrange(0, 4) =~= sig_zlib());
            }
            CompressionMethod::Zlib(ub)
        } else if b3 == 0x7a {
            proof {
                assert(s.subrange(0, 4) =~= sig_lz4());
            }
            CompressionMethod::Lz4(ub)
        } else {
            proof {
                assert(s.subrange(0, 4) =~= sig_zstd());
            }
            CompressionMethod::Zstd11(ub)
        };
        Ok(((method, crc), pos + 16))
    } else {
        Err(ParError::UnsupportedFormat)
    }
}

/// Appends the four signature bytes of method `m` to `out`.
fn push_signature(m: &CompressionMethod, out: &mut Vec<u8>)
    ensures
        final(out)@ == old(out)@ + signature_of(*m),
{
    out.push(0x70);
    out.push(0x61);
    out.push(0x72);
    match m {
        CompressionMethod::Uncompressed => out.push(0x20),
        CompressionMethod::Zlib(_) => out.push(0x64),
        CompressionMethod::Lz4(_) => out.push(0x7a),
        CompressionMethod::Zstd11(_) => out.push(0x31),
    }
    proof {
        assert(out@ =~= old(out)@ + signature_of(*m));
    }
}

/// The write-side accumulator: the chosen compression method, the entry
/// table, and every appended blob's bytes concatenated in order.
pub struct ArchiveWrite(pub CompressionMethod, pub EntryTable, pub Vec<u8>);

impl ArchiveWrite {
    /// The table holds each name once.
    pub open spec fn wf(self) -> bool {
        self.1.wf()
    }

    /// The archive's logical body: the serialized table, then the content.
    pub open spec fn body(self) -> Seq<u8> {
        entries_encoding(self.1.seq_view()) + self.2@
    }

    /// Creates an empty archive that will be stored under `comp`.
    pub fn new(comp: CompressionMethod) -> (r: Self)
        ensures
            r.wf(),
            r.0 == comp,
            r.1.seq_view() == Seq::<(Seq<char>, AssetEntryHeadingPair)>::empty(),
            r.2@ == Seq::<u8>::empty(),
    {
        ArchiveWrite(comp, EntryTable::new(), Vec::new())
    }

    /// Appends a named blob: the content goes to the end of the content
    /// region and the table records its length and offset under `name`.
    /// Writing a name again keeps one entry, now pointing at the newly
    /// appended bytes; the returned flag says whether that happened.
    pub fn add(&mut self, name: String, content: &[u8]) -> (dup: bool)
        requires
            old(self).wf(),
        ensures
            final(self).wf(),
            final(self).0 == old(self).0,
            final(self).2@ == old(self).2@ + content@,
            dup == old(self).1.map_view().contains_key(name@),
            final(self).1.map_view() == old(self).1.map_view().insert(
                name@,
                AssetEntryHeadingPair {
                    byte_length: content@.len() as u64,
                    relative_offset: old(self).2@.len() as u64,
                },
            ),
            !dup ==> final(self).1.seq_view() == old(self).1.seq_view().push(
                (
                    name@,
                    AssetEntryHeadingPair {
                        byte_length: content@.len() as u64,
                        relative_offset: old(self).2@.len() as u64,
                    },
                ),
            ),
    {
        let relative_offset: u64 = self.2.len() as u64;
        self.2.extend_from_slice(content);
        let byte_length: u64 = self.2.len() as u64 - relative_offset;
        self.1.insert(name, AssetEntryHeadingPair { byte_length, relative_offset })
    }

    /// Serializes the archive: the header, then the body compressed as the
    /// held method asks. Storing uncompressed cannot fail.
    pub fn write(&self) -> (r: Result<Vec<u8>, ParError>)
        ensures
            r matches Ok(o) ==> o@ == archive_encoding(self.0, self.body()),
            r matches Err(e) ==> e == ParError::IoError,
            self.0 is Uncompressed ==> r is Ok,
    {
        let mut body: Vec<u8> = Vec::new();
        write_asset_entries(&self.1, &mut body);
        body.extend_from_slice(self.2.as_slice());
        proof {
            assert(body@ =~= self.body());
        }
        let stored: Vec<u8> = match encode_body(&self.0, body.as_slice()) {
            Ok(v) => v,
            Err(e) => {
                return Err(e);
            },
        };
        let checksum: u32 = crc32_ieee(stored.as_slice());
        let mut out: Vec<u8> = Vec::new();
        push_signature(&self.0, &mut out);
        match &self.0 {
            CompressionMethod::Uncompressed => {},
            _ => {
                let mut sz: Vec<u8> = u64_to_le_bytes(body.len() as u64);
                out.append(&mut sz);
            },
        }
        let mut cb: Vec<u8> = u32_to_le_bytes(checksum);
        out.append(&mut cb);
        out.extend_from_slice(stored.as_slice());
        proof {
            assert(out@ =~= archive_encoding(self.0, self.body()));
        }
        Ok(out)
    }
}

/// Holds when reader `r` presents exactly the archive body `body`: the
/// body parses, the reader keys the parsed table, holds the body as its
/// content, and bases blob offsets right after the table.
pub open spec fn models_body(r: ArchiveRead, body: Seq<u8>) -> bool {
    match parse_entries(body) {
        Ok((pairs, n)) => r.wf() && r.entries_map() == table_map(pairs) && r.content() == body
            && r.base() == n && (unique_names(pairs) ==> r.entries_seq() == pairs),
        Err(_) => false,
    }
}

/// The read-side view of an archive: the parsed entry table, the
/// decompressed body held in memory, and the offset where blob content
/// starts within it.
pub struct ArchiveRead {
    entries: EntryTable,
    content: Vec<u8>,
    content_baseptr: usize,
}

impl ArchiveRead {
    /// The parsed table in stream order.
    pub closed spec fn entries_seq(self) -> Seq<(Seq<char>, AssetEntryHeadingPair)> {
        self.entries.seq_view()
    }

    /// The parsed table keyed by name.
    pub closed spec fn entries_map(self) -> Map<Seq<char>, AssetEntryHeadingPair> {
        self.entries.map_view()
    }

    /// The decompressed body this reader serves blobs from.
    pub closed spec fn content(self) -> Seq<u8> {
        self.content@
    }

    /// The offset of the blob region within the body.
    pub closed spec fn base(self) -> nat {
        self.content_baseptr as nat
    }

    /// The table holds each name once and the base lies within the body.
    pub closed spec fn wf(self) -> bool {
        self.entries.wf() && self.content_baseptr <= self.content@.len()
    }

    /// Opens an archive held in memory. Validates the signature, checks
    /// the checksum over the stored body when asked to, undoes the
    /// compression, and parses the entry table.
    pub fn from_bytes(bytes: &[u8], check_integrity: bool) -> (r: Result<ArchiveRead, ParError>)
        ensures
            match parse_file_header(bytes@) {
                Ok((m, crc, hn)) => {
                    let stored = bytes@.skip(hn as int);
                    if check_integrity && crc32_of(stored) != crc {
                        r == Err::<ArchiveRead, ParError>(ParError::IntegrityCheckFailed)
                    } else {
                        r != Err::<ArchiveRead, ParError>(ParError::IntegrityCheckFailed)
                            && forall|x: Seq<u8>|
                            stored == stored_body(m, x) ==> match parse_entries(x) {
                                Ok(_) => r matches Ok(rd) && models_body(rd, x),
                                Err(e) => r == Err::<ArchiveRead, ParError>(e),
                            }
                    }
                },
                Err(e) => r == Err::<ArchiveRead, ParError>(e),
            },
    {
        proof {
            assert(bytes@.skip(0) =~= bytes@);
        }
        let ((method, crc), hn) = match read_file_header(bytes, 0) {
            Ok(v) => v,
            Err(e) => {
                return Err(e);
            },
        };
        let stored: &[u8] = slice_subrange(bytes, hn, bytes.len());
        proof {
            assert(stored@ =~= bytes@.skip(hn as int));
        }
        if check_integrity {
            let c: u32 = crc32_ieee(stored);
            if c != crc {
                return Err(ParError::IntegrityCheckFailed);
            }
        }
        let hint_u: u64 = match &method {
            CompressionMethod::Uncompressed => 0,
            CompressionMethod::Zlib(u) => *u,
            CompressionMethod::Lz4(u) => *u,
            CompressionMethod::Zstd11(u) => *u,
        };
        let hint: usize = if hint_u > (usize::MAX as u64) {
            0
        } else {
            hint_u as usize
        };
        let body: Vec<u8> = match decode_body(&method, stored, hint) {
            Ok(v) => v,
            Err(e) => {
                proof {
                    assert forall|x: Seq<u8>| stored@ != stored_body(method, x) by {
                        if stored@ == stored_body(method, x) {
                            assert(exists|y: Seq<u8>| stored@ == stored_body(method, y));
                        }
                    }
                }
                return Err(e);
            },
        };
        proof {
            assert(body@.skip(0) =~= body@);
            crate::entries::lemma_parse_entries_error_kind(body@);
        }
        match read_asset_entries(body.as_slice(), 0) {
            Ok((table, base)) => Ok(ArchiveRead { entries: table, content: body, content_baseptr: base }),
            Err(e) => Err(e),
        }
    }

    /// The parsed entry table.
    pub fn entries(&self) -> (r: &EntryTable)
        ensures
            r.seq_view() == self.entries_seq(),
            r.map_view() == self.entries_map(),
            self.wf() ==> r.wf(),
    {
        &self.entries
    }

    /// Reads the blob stored under `path`. An absent name is a normal
    /// outcome, not an error; a recorded range that reaches past the body
    /// fails with `Truncated`.
    pub fn read_bin(&self, path: &str) -> (r: Result<Option<Vec<u8>>, ParError>)
        requires
            self.wf(),
        ensures
            !self.entries_map().contains_key(path@) ==> r == Ok::<Option<Vec<u8>>, ParError>(
                None,
            ),
            self.entries_map().contains_key(path@) ==> {
                let e = self.entries_map()[path@];
                if self.base() + e.relative_offset + e.byte_length <= self.content().len() {
                    r matches Ok(o) && o matches Some(v) && v@ == self.content().subrange(
                        self.base() + e.relative_offset as int,
                        self.base() + e.relative_offset + e.byte_length,
                    )
                } else {
                    r == Err::<Option<Vec<u8>>, ParError>(ParError::Truncated)
                }
            },
    {
        let len: usize = self.content.len();
        let base: usize = self.content_baseptr;
        match self.entries.get(path) {
            None => Ok(None),
            Some(e) => {
                let ro: u64 = e.relative_offset;
                let bl: u64 = e.byte_length;
                if ro > (len - base) as u64 {
                    return Err(ParError::Truncated);
                }
                let start: usize = base + ro as usize;
                if bl > (len - start) as u64 {
                    return Err(ParError::Truncated);
                }
                let end: usize = start + bl as usize;
                Ok(Some(slice_to_vec(slice_subrange(self.content.as_slice(), start, end))))
            },
        }
    }
}

/// A written archive opens: the header of the file that `write` produces
/// parses back to the chosen method and the stored body's checksum — so an
/// integrity check over the stored body passes — and the body parses back
/// to exactly the written table, under every compression method, since the
/// stored body decodes to the written body before parsing.
pub proof fn lemma_written_archive_opens(
    m: CompressionMethod,
    pairs: Seq<(Seq<char>, AssetEntryHeadingPair)>,
    content: Seq<u8>,
)
    requires
        (entries_encoding(pairs) + content).len() <= u64::MAX,
    ensures
        ({
            let body = entries_encoding(pairs) + content;
            let bytes = archive_encoding(m, body);
            parse_file_header(bytes) matches Ok((m2, crc, hn)) && m2 == with_declared_size(
                m,
                body.len() as u64,
            ) && crc == crc32_of(stored_body(m, body)) && bytes.skip(hn as int) == stored_body(
                m,
                body,
            ) && stored_body(m2, body) == stored_body(m, body) && parse_entries(body) == Ok::<
                _,
                ParError,
            >((pairs, entries_encoding(pairs).len()))
        }),
{
    let body = entries_encoding(pairs) + content;
    lemma_file_header_round_trip(m, body);
    crate::entries::lemma_entries_round_trip(pairs, content);
}

/// The byte offset of blob `k`'s payload within the concatenated content
/// region: the sum of the lengths of the blobs before it.
pub open spec fn blob_offset(blobs: Seq<(Seq<char>, Seq<u8>)>, k: int) -> nat
    decreases k,
{
    if k <= 0 {
        0
    } else {
        blob_offset(blobs, k - 1) + blobs[k - 1].1.len()
    }
}

/// Every blob's payload concatenated in order.
pub open spec fn blob_content(blobs: Seq<(Seq<char>, Seq<u8>)>) -> Seq<u8>
    decreases blobs.len(),
{
    if blobs.len() == 0 {
        Seq::empty()
    } else {
        blob_content(blobs.drop_last()) + blobs.last().1
    }
}

/// The table that appending the blobs in order builds: each name paired
/// with its payload's length and offset.
pub open spec fn blob_pairs(blobs: Seq<(Seq<char>, Seq<u8>)>) -> Seq<
    (Seq<char>, AssetEntryHeadingPair),
> {
    Seq::new(
        blobs.len(),
        |k: int|
            (
                blobs[k].0,
                AssetEntryHeadingPair {
                    byte_length: blobs[k].1.len() as u64,
                    relative_offset: blob_offset(blobs, k) as u64,
                },
            ),
    )
}

/// The blob that a reader based at `base` within `body` serves for entry
/// `e`: the recorded range, or nothing when it reaches past the body.
pub open spec fn spec_read_blob(body: Seq<u8>, base: nat, e: AssetEntryHeadingPair) -> Option<
    Seq<u8>,
> {
    if base + e.relative_offset + e.byte_length <= body.len() {
        Some(
            body.subrange(
                (base + e.relative_offset) as int,
                (base + e.relative_offset + e.byte_length) as int,
            ),
        )
    } else {
        None
    }
}

/// Dropping the last blob leaves every earlier blob's offset unchanged.
proof fn lemma_blob_offset_prefix(blobs: Seq<(Seq<char>, Seq<u8>)>, k: int)
    requires
        0 <= k < blobs.len(),
    ensures
        blob_offset(blobs.drop_last(), k) == blob_offset(blobs, k),
    decreases k,
{
    if k > 0 {
        lemma_blob_offset_prefix(blobs, k - 1);
    }
}

/// The offset past the last blob is the content region's length.
proof fn lemma_blob_content_len(blobs: Seq<(Seq<char>, Seq<u8>)>)
    ensures
        blob_offset(blobs, blobs.len() as int) == blob_content(blobs).len(),
    decreases blobs.len(),
{
    if blobs.len() > 0 {
        lemma_blob_content_len(blobs.drop_last());
        lemma_blob_offset_prefix(blobs, blobs.len() - 1);
    }
}

/// Offsets never decrease along the blob sequence.
proof fn lemma_blob_offset_le(blobs: Seq<(Seq<char>, Seq<u8>)>, k: int, j: int)
    requires
        0 <= k <= j <= blobs.len(),
    ensures
        blob_offset(blobs, k) <= blob_offset(blobs, j),
    decreases j - k,
{
    if k < j {
        lemma_blob_offset_le(blobs, k, j - 1);
    }
}

/// Each blob's recorded range lies within the content region and holds
/// exactly its payload.
proof fn lemma_blob_extract(blobs: Seq<(Seq<char>, Seq<u8>)>, k: int)
    requires
        0 <= k < blobs.len(),
    ensures
        blob_offset(blobs, k) + blobs[k].1.len() <= blob_content(blobs).len(),
        blob_content(blobs).subrange(
            blob_offset(blobs, k) as int,
            (blob_offset(blobs, k) + blobs[k].1.len()) as int,
        ) == blobs[k].1,
    decreases blobs.len(),
{
    lemma_blob_content_len(blobs);
    lemma_blob_offset_le(blobs, k + 1, blobs.len() as int);
    if k == blobs.len() - 1 {
        lemma_blob_content_len(blobs.drop_last());
        lemma_blob_offset_prefix(blobs, k);
        assert(blob_content(blobs).subrange(
            blob_offset(blobs, k) as int,
            (blob_offset(blobs, k) + blobs[k].1.len()) as int,
        ) =~= blobs[k].1);
    } else {
        lemma_blob_extract(blobs.drop_last(), k);
        lemma_blob_offset_prefix(blobs, k);
        lemma_blob_content_len(blobs.drop_last());
        lemma_blob_offset_le(blobs.drop_last(), k + 1, blobs.drop_last().len() as int);
        assert(blob_offset(blobs.drop_last(), k + 1) == blob_offset(blobs, k + 1)) by {
            lemma_blob_offset_prefix(blobs, k + 1);
        }
        assert(blob_content(blobs).subrange(
            blob_offset(blobs, k) as int,
            (blob_offset(blobs, k) + blobs[k].1.len()) as int,
        ) =~= blob_content(blobs.drop_last()).subrange(
            blob_offset(blobs.drop_last(), k) as int,
            (blob_offset(blobs.drop_last(), k) + blobs[k].1.len()) as int,
        ));
    }
}

/// Holds when blob `k` of `blobs` is recovered exactly from the written
/// body: its name keys its own heading, and the heading's recorded range
/// yields its payload.
pub open spec fn blob_recovered(blobs: Seq<(Seq<char>, Seq<u8>)>, k: int) -> bool {
    let pairs = blob_pairs(blobs);
    let body = entries_encoding(pairs) + blob_content(blobs);
    table_map(pairs).contains_key(blobs[k].0) && table_map(pairs)[blobs[k].0] == pairs[k].1
        && spec_read_blob(body, entries_encoding(pairs).len(), table_map(pairs)[blobs[k].0])
        == Some(blobs[k].1)
}

/// Round trip: the body written for a sequence of named blobs with unique
/// names parses back to exactly that table, and every blob is recovered
/// unchanged from its entry's recorded range. Compression does not enter:
/// a stored body decodes back to this body before it is parsed.
pub proof fn lemma_archive_round_trip(blobs: Seq<(Seq<char>, Seq<u8>)>)
    requires
        unique_names(blob_pairs(blobs)),
        blob_content(blobs).len() <= u64::MAX,
    ensures
        parse_entries(entries_encoding(blob_pairs(blobs)) + blob_content(blobs)) == Ok::<
            _,
            ParError,
        >((blob_pairs(blobs), entries_encoding(blob_pairs(blobs)).len())),
        forall|k: int| 0 <= k < blobs.len() ==> #[trigger] blob_recovered(blobs, k),
{
    let pairs = blob_pairs(blobs);
    let content = blob_content(blobs);
    let body = entries_encoding(pairs) + content;
    let base = entries_encoding(pairs).len();
    crate::entries::lemma_entries_round_trip(pairs, content);
    assert forall|k: int| 0 <= k < blobs.len() implies #[trigger] blob_recovered(blobs, k) by {
        crate::entries::lemma_table_map_value(pairs, k);
        lemma_blob_extract(blobs, k);
        lemma_blob_content_len(blobs);
        lemma_blob_offset_le(blobs, k, blobs.len() as int);
        let e = pairs[k].1;
        assert(e.relative_offset == blob_offset(blobs, k));
        assert(e.byte_length == blobs[k].1.len());
        assert(body.subrange(
            (base + e.relative_offset) as int,
            (base + e.relative_offset + e.byte_length) as int,
        ) =~= content.subrange(
            blob_offset(blobs, k) as int,
            (blob_offset(blobs, k) + blobs[k].1.len()) as int,
        ));
    }
}

} // verus!
