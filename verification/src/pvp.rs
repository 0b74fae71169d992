//! The fixed-section vertex-processing container.
//!
//! A file is the four bytes `PVP` plus a version byte of one, three varint
//! offsets measured from the start of the section blob (where the
//! attribute section starts, where the vertex-shader section starts, and
//! where the fragment-shader section starts — zero when that stage is
//! absent), then the blob itself: the binding list, the attribute list,
//! and one length-prefixed byte section per shader stage. List sections
//! are a varint element count followed by fixed records of varints; the
//! format is uncompressed and carries no checksum.

use vstd::prelude::*;

use vstd::slice::{slice_subrange, slice_to_vec};

use crate::varint::{varint_decoded, varint_encoding, VariableUInt};
use crate::ParError;

verus! {

/// One vertex buffer binding: its index, the raw input-rate value (zero
/// per-vertex, one per-instance), and the stride in bytes.
#[derive(Debug, Clone, Copy, PartialEq, Eq, Structural)]
pub struct VertexInputBindingDescription {
    pub binding: u32,
    pub input_rate: u32,
    pub stride: u32,
}

/// One vertex attribute: shader location, source binding, byte offset
/// within the bound buffer, and the raw format enumeration value.
#[derive(Debug, Clone, Copy, PartialEq, Eq, Structural)]
pub struct VertexInputAttributeDescription {
    pub location: u32,
    pub binding: u32,
    pub offset: u32,
    pub format: u32,
}

/// The container signature: `PVP` and a version byte of one.
pub open spec fn sig_pvp() -> Seq<u8> {
    seq![0x50u8, 0x56u8, 0x50u8, 0x01u8]
}

/// A varint decoded from the front of `s` and narrowed to 32 bits.
pub open spec fn parse_varint_u32(s: Seq<u8>) -> Result<(u32, nat), ParError> {
    match varint_decoded(s) {
        Option::None => Err(ParError::Truncated),
        Option::Some((v, n)) => if v > u32::MAX {
            Err(ParError::Corrupt)
        } else {
            Ok((v as u32, n))
        },
    }
}

/// Decodes a varint from `bytes` at `pos` into a 32-bit value.
fn read_varint_u32(bytes: &[u8], pos: usize) -> (r: Result<(u32, usize), ParError>)
    requires
        pos <= bytes@.len(),
    ensures
        match parse_varint_u32(bytes@.skip(pos as int)) {
            Ok((v, n)) => r == Ok::<_, ParError>((v, (pos + n) as usize)),
            Err(e) => r == Err::<(u32, usize), ParError>(e),
        },
{
    proof {
        crate::varint::lemma_varint_decoded_len(bytes@.skip(pos as int));
    }
    match VariableUInt::read(bytes, pos) {
        Err(e) => Err(e),
        Ok((VariableUInt(v), np)) => {
            if v > 0xffff_ffff {
                Err(ParError::Corrupt)
            } else {
                Ok((v as u32, np))
            }
        },
    }
}

/// The bytes of one binding record: input rate, binding index, stride.
pub open spec fn binding_encoding(b: VertexInputBindingDescription) -> Seq<u8> {
    varint_encoding(b.input_rate as nat) + varint_encoding(b.binding as nat) + varint_encoding(
        b.stride as nat,
    )
}

/// The bytes of one attribute record: location, binding, offset, format.
pub open spec fn attribute_encoding(a: VertexInputAttributeDescription) -> Seq<u8> {
    varint_encoding(a.location as nat) + varint_encoding(a.binding as nat) + varint_encoding(
        a.offset as nat,
    ) + varint_encoding(a.format as nat)
}

/// The binding records in order, without the count.
pub open spec fn binding_records_encoding(s: Seq<VertexInputBindingDescription>) -> Seq<u8>
    decreases s.len(),
{
    if s.len() == 0 {
        Seq::empty()
    } else {
        binding_records_encoding(s.drop_last()) + binding_encoding(s.last())
    }
}

/// The attribute records in order, without the count.
pub open spec fn attribute_records_encoding(s: Seq<VertexInputAttributeDescription>) -> Seq<u8>
    decreases s.len(),
{
    if s.len() == 0 {
        Seq::empty()
    } else {
        attribute_records_encoding(s.drop_last()) + attribute_encoding(s.last())
    }
}

/// The binding list section: a varint count, then the records.
pub open spec fn bindings_section(s: Seq<VertexInputBindingDescription>) -> Seq<u8> {
    varint_encoding(s.len()) + binding_records_encoding(s)
}

/// The attribute list section: a varint count, then the records.
pub open spec fn attributes_section(s: Seq<VertexInputAttributeDescription>) -> Seq<u8> {
    varint_encoding(s.len()) + attribute_records_encoding(s)
}

/// A raw byte section: a varint byte count, then the bytes.
pub open spec fn bytes_section(b: Seq<u8>) -> Seq<u8> {
    varint_encoding(b.len()) + b
}

/// The section blob: bindings, attributes, the vertex shader, and the
/// fragment shader when one is present.
pub open spec fn pvp_blob(
    bs: Seq<VertexInputBindingDescription>,
    at: Seq<VertexInputAttributeDescription>,
    vsh: Seq<u8>,
    fsh: Option<Seq<u8>>,
) -> Seq<u8> {
    bindings_section(bs) + attributes_section(at) + bytes_section(vsh) + match fsh {
        Option::Some(f) => bytes_section(f),
        Option::None => Seq::empty(),
    }
}

/// The whole file: the signature, the three offsets, then the blob. The
/// third offset is zero exactly when no fragment stage is present; the
/// other offsets are never zero, since the sections before them occupy at
/// least one byte each.
pub open spec fn pvp_encoding(
    bs: Seq<VertexInputBindingDescription>,
    at: Seq<VertexInputAttributeDescription>,
    vsh: Seq<u8>,
    fsh: Option<Seq<u8>>,
) -> Seq<u8> {
    let o1 = bindings_section(bs).len();
    let o2 = o1 + attributes_section(at).len();
    let o3: nat = match fsh {
        Option::Some(_) => o2 + bytes_section(vsh).len(),
        Option::None => 0,
    };
    sig_pvp() + varint_encoding(o1) + varint_encoding(o2) + varint_encoding(o3) + pvp_blob(
        bs,
        at,
        vsh,
        fsh,
    )
}

/// Decodes `count` binding records from the front of `s`.
pub open spec fn parse_binding_records(s: Seq<u8>, count: nat) -> Result<
    (Seq<VertexInputBindingDescription>, nat),
    ParError,
>
    decreases count,
{
    if count == 0 {
        Ok((Seq::empty(), 0))
    } else {
        match parse_varint_u32(s) {
            Err(e) => Err(e),
            Ok((input_rate, n1)) => match parse_varint_u32(s.skip(n1 as int)) {
                Err(e) => Err(e),
                Ok((binding, n2)) => match parse_varint_u32(s.skip((n1 + n2) as int)) {
                    Err(e) => Err(e),
                    Ok((stride, n3)) => match parse_binding_records(
                        s.skip((n1 + n2 + n3) as int),
                        (count - 1) as nat,
                    ) {
                        Err(e) => Err(e),
                        Ok((rest, k)) => Ok(
                            (
                                seq![
                                    VertexInputBindingDescription { binding, input_rate, stride }
                                ] + rest,
                                n1 + n2 + n3 + k,
                            ),
                        ),
                    },
                },
            },
        }
    }
}

/// Decodes `count` attribute records from the front of `s`.
pub open spec fn parse_attribute_records(s: Seq<u8>, count: nat) -> Result<
    (Seq<VertexInputAttributeDescription>, nat),
    ParError,
>
    decreases count,
{
    if count == 0 {
        Ok((Seq::empty(), 0))
    } else {
        match parse_varint_u32(s) {
            Err(e) => Err(e),
            Ok((location, n1)) => match parse_varint_u32(s.skip(n1 as int)) {
                Err(e) => Err(e),
                Ok((binding, n2)) => match parse_varint_u32(s.skip((n1 + n2) as int)) {
                    Err(e) => Err(e),
                    Ok((offset, n3)) => match parse_varint_u32(s.skip((n1 + n2 + n3) as int)) {
                        Err(e) => Err(e),
                        Ok((format, n4)) => match parse_attribute_records(
                            s.skip((n1 + n2 + n3 + n4) as int),
                            (count - 1) as nat,
                        ) {
                            Err(e) => Err(e),
                            Ok((rest, k)) => Ok(
                                (
                                    seq![
                                        VertexInputAttributeDescription {
                                            location,
                                            binding,
                                            offset,
                                            format,
                                        }
                                    ] + rest,
                                    n1 + n2 + n3 + n4 + k,
                                ),
                            ),
                        },
                    },
                },
            },
        }
    }
}

/// Decodes a binding list section from the front of `s`.
pub open spec fn parse_bindings_list(s: Seq<u8>) -> Result<
    (Seq<VertexInputBindingDescription>, nat),
    ParError,
> {
    match parse_varint_u64(s) {
        Err(e) => Err(e),
        Ok((count, n)) => match parse_binding_records(s.skip(n as int), count as nat) {
            Err(e) => Err(e),
            Ok((list, k)) => Ok((list, n + k)),
        },
    }
}

/// Decodes an attribute list section from the front of `s`.
pub open spec fn parse_attributes_list(s: Seq<u8>) -> Result<
    (Seq<VertexInputAttributeDescription>, nat),
    ParError,
> {
    match parse_varint_u64(s) {
        Err(e) => Err(e),
        Ok((count, n)) => match parse_attribute_records(s.skip(n as int), count as nat) {
            Err(e) => Err(e),
            Ok((list, k)) => Ok((list, n + k)),
        },
    }
}

/// Decodes a raw byte section from the front of `s`: a varint byte count,
/// then exactly that many bytes.
pub open spec fn parse_bytes_section(s: Seq<u8>) -> Result<(Seq<u8>, nat), ParError> {
    match varint_decoded(s) {
        Option::None => Err(ParError::Truncated),
        Option::Some((len, n)) => if s.len() < n + len {
            Err(ParError::Truncated)
        } else {
            Ok((s.subrange(n as int, (n + len) as int), n + len))
        },
    }
}

/// A varint decoded from the front of `s` and narrowed to 64 bits.
pub open spec fn parse_varint_u64(s: Seq<u8>) -> Result<(u64, nat), ParError> {
    match varint_decoded(s) {
        Option::None => Err(ParError::Truncated),
        Option::Some((v, n)) => if v > u64::MAX {
            Err(ParError::Corrupt)
        } else {
            Ok((v as u64, n))
        },
    }
}

/// Decodes the container header from the front of `s`: the three section
/// offsets and the position where the blob starts. An offset that reaches
/// past the blob is `Corrupt`.
pub open spec fn parse_pvp_header(s: Seq<u8>) -> Result<(u64, u64, u64, nat), ParError> {
    if s.len() < 4 {
        Err(ParError::Truncated)
    } else if s.subrange(0, 4) != sig_pvp() {
        Err(ParError::UnsupportedFormat)
    } else {
        match parse_varint_u64(s.skip(4)) {
            Err(e) => Err(e),
            Ok((o1, n1)) => match parse_varint_u64(s.skip((4 + n1) as int)) {
                Err(e) => Err(e),
                Ok((o2, n2)) => match parse_varint_u64(s.skip((4 + n1 + n2) as int)) {
                    Err(e) => Err(e),
                    Ok((o3, n3)) => {
                        let base = 4 + n1 + n2 + n3;
                        if o1 > s.len() - base || o2 > s.len() - base || o3 > s.len() - base {
                            Err(ParError::Corrupt)
                        } else {
                            Ok((o1, o2, o3, base))
                        }
                    },
                },
            },
        }
    }
}

/// The fields read through the four section offsets of a reader: the two
/// lists, the vertex shader, and the fragment shader when an offset for
/// one is recorded.
pub open spec fn spec_into_container(
    data: Seq<u8>,
    vb: nat,
    va: nat,
    vsh: nat,
    fsh: Option<nat>,
) -> Result<
    (
        Seq<VertexInputBindingDescription>,
        Seq<VertexInputAttributeDescription>,
        Seq<u8>,
        Option<Seq<u8>>,
    ),
    ParError,
> {
    match parse_bindings_list(data.skip(vb as int)) {
        Err(e) => Err(e),
        Ok((bs, _)) => match parse_attributes_list(data.skip(va as int)) {
            Err(e) => Err(e),
            Ok((at, _)) => match parse_bytes_section(data.skip(vsh as int)) {
                Err(e) => Err(e),
                Ok((v, _)) => match fsh {
                    Option::None => Ok((bs, at, v, Option::None)),
                    Option::Some(f) => match parse_bytes_section(data.skip(f as int)) {
                        Err(e) => Err(e),
                        Ok((fb, _)) => Ok((bs, at, v, Option::Some(fb))),
                    },
                },
            },
        },
    }
}

/// The view of an optional owned byte buffer.
pub open spec fn fragment_view(f: Option<Vec<u8>>) -> Option<Seq<u8>> {
    match f {
        Option::Some(v) => Option::Some(v@),
        Option::None => Option::None,
    }
}

/// A parse result for remaining records, shifted under the records and
/// bytes already consumed before it.
pub open spec fn shifted_parse<T>(
    r: Result<(Seq<T>, nat), ParError>,
    prefix: Seq<T>,
    consumed: nat,
) -> Result<(Seq<T>, nat), ParError> {
    match r {
        Ok((rest, k)) => Ok((prefix + rest, consumed + k)),
        Err(e) => Err(e),
    }
}

proof fn lemma_shifted_parse_step<T>(
    r: Result<(Seq<T>, nat), ParError>,
    prefix: Seq<T>,
    rec: T,
    consumed: nat,
    step: nat,
)
    ensures
        shifted_parse(
            match r {
                Ok((rest, k)) => Ok((seq![rec] + rest, step + k)),
                Err(e) => Err(e),
            },
            prefix,
            consumed,
        ) == shifted_parse(r, prefix.push(rec), consumed + step),
{
    match r {
        Ok((rest, k)) => {
            assert(prefix + (seq![rec] + rest) =~= prefix.push(rec) + rest);
        },
        Err(_) => {},
    }
}

/// Shifting keeps a failed parse failed.
proof fn lemma_shifted_err<T>(
    r: Result<(Seq<T>, nat), ParError>,
    prefix: Seq<T>,
    consumed: nat,
    e: ParError,
)
    requires
        r == Err::<(Seq<T>, nat), ParError>(e),
    ensures
        shifted_parse(r, prefix, consumed) == Err::<(Seq<T>, nat), ParError>(e),
{
}

/// Appends the binding list section to `out`.
fn write_bindings_section(list: &Vec<VertexInputBindingDescription>, out: &mut Vec<u8>)
    ensures
        final(out)@ == old(out)@ + bindings_section(list@),
{
    VariableUInt(list.len() as u64).write(out);
    let ghost head = old(out)@ + varint_encoding(list@.len());
    proof {
        assert(list@.take(0) =~= Seq::<VertexInputBindingDescription>::empty());
        assert(out@ =~= head + binding_records_encoding(list@.take(0)));
    }
    let mut i: usize = 0;
    while i < list.len()
        invariant
            i <= list@.len(),
            head == old(out)@ + varint_encoding(list@.len()),
            out@ == head + binding_records_encoding(list@.take(i as int)),
        decreases list@.len() - i,
    {
        let b: VertexInputBindingDescription = list[i];
        VariableUInt(b.input_rate as u64).write(out);
        VariableUInt(b.binding as u64).write(out);
        VariableUInt(b.stride as u64).write(out);
        proof {
            assert(list@.take(i + 1).drop_last() =~= list@.take(i as int));
            assert(list@.take(i + 1).last() == list@[i as int]);
            assert(out@ =~= head + binding_records_encoding(list@.take(i + 1)));
        }
        i += 1;
    }
    proof {
        assert(list@.take(list@.len() as int) =~= list@);
        assert(out@ =~= old(out)@ + bindings_section(list@));
    }
}

/// Appends the attribute list section to `out`.
fn write_attributes_section(list: &Vec<VertexInputAttributeDescription>, out: &mut Vec<u8>)
    ensures
        final(out)@ == old(out)@ + attributes_section(list@),
{
    VariableUInt(list.len() as u64).write(out);
    let ghost head = old(out)@ + varint_encoding(list@.len());
    proof {
        assert(list@.take(0) =~= Seq::<VertexInputAttributeDescription>::empty());
        assert(out@ =~= head + attribute_records_encoding(list@.take(0)));
    }
    let mut i: usize = 0;
    while i < list.len()
        invariant
            i <= list@.len(),
            head == old(out)@ + varint_encoding(list@.len()),
            out@ == head + attribute_records_encoding(list@.take(i as int)),
        decreases list@.len() - i,
    {
        let a: VertexInputAttributeDescription = list[i];
        VariableUInt(a.location as u64).write(out);
        VariableUInt(a.binding as u64).write(out);
        VariableUInt(a.offset as u64).write(out);
        VariableUInt(a.format as u64).write(out);
        proof {
            assert(list@.take(i + 1).drop_last() =~= list@.take(i as int));
            assert(list@.take(i + 1).last() == list@[i as int]);
            assert(out@ =~= head + attribute_records_encoding(list@.take(i + 1)));
        }
        i += 1;
    }
    proof {
        assert(list@.take(list@.len() as int) =~= list@);
        assert(out@ =~= old(out)@ + attributes_section(list@));
    }
}

/// Appends a raw byte section to `out`.
fn write_bytes_section(b: &Vec<u8>, out: &mut Vec<u8>)
    ensures
        final(out)@ == old(out)@ + bytes_section(b@),
{
    VariableUInt(b.len() as u64).write(out);
    out.extend_from_slice(b.as_slice());
    proof {
        assert(out@ =~= old(out)@ + bytes_section(b@));
    }
}

/// The four fixed sections of a vertex-processing bundle: the buffer
/// bindings, the attributes, the vertex shader's bytecode, and the
/// fragment shader's when that stage exists.
#[derive(Debug, Clone, PartialEq, Eq)]
pub struct PvpContainer {
    pub vertex_bindings: Vec<VertexInputBindingDescription>,
    pub vertex_attributes: Vec<VertexInputAttributeDescription>,
    pub vertex_shader: Vec<u8>,
    pub fragment_shader: Option<Vec<u8>>,
}

impl PvpContainer {
    /// A container with no bindings, no attributes, empty vertex shader
    /// bytecode, and no fragment stage.
    pub fn empty() -> (r: Self)
        ensures
            r.vertex_bindings@ == Seq::<VertexInputBindingDescription>::empty(),
            r.vertex_attributes@ == Seq::<VertexInputAttributeDescription>::empty(),
            r.vertex_shader@ == Seq::<u8>::empty(),
            r.fragment_shader is None,
    {
        PvpContainer {
            vertex_bindings: Vec::new(),
            vertex_attributes: Vec::new(),
            vertex_shader: Vec::new(),
            fragment_shader: None,
        }
    }

    /// Serializes the container: the signature, the three section offsets,
    /// then the section blob.
    pub fn write(&self) -> (out: Vec<u8>)
        ensures
            out@ == pvp_encoding(
                self.vertex_bindings@,
                self.vertex_attributes@,
                self.vertex_shader@,
                fragment_view(self.fragment_shader),
            ),
    {
        let mut blob: Vec<u8> = Vec::new();
        write_bindings_section(&self.vertex_bindings, &mut blob);
        let o1: usize = blob.len();
        write_attributes_section(&self.vertex_attributes, &mut blob);
        let o2: usize = blob.len();
        write_bytes_section(&self.vertex_shader, &mut blob);
        let o3: usize = match &self.fragment_shader {
            Some(f) => {
                let p: usize = blob.len();
                write_bytes_section(f, &mut blob);
                p
            },
            None => 0,
        };
        let mut out: Vec<u8> = Vec::new();
        out.push(0x50);
        out.push(0x56);
        out.push(0x50);
        out.push(0x01);
        proof {
            assert(out@ =~= sig_pvp());
        }
        VariableUInt(o1 as u64).write(&mut out);
        VariableUInt(o2 as u64).write(&mut out);
        VariableUInt(o3 as u64).write(&mut out);
        out.extend_from_slice(blob.as_slice());
        proof {
            assert(out@ =~= pvp_encoding(
                self.vertex_bindings@,
                self.vertex_attributes@,
                self.vertex_shader@,
                fragment_view(self.fragment_shader),
            ));
        }
        out
    }
}

/// The read-side view of a container: the file bytes and the absolute
/// offset of each section, the fragment stage's only when one exists.
pub struct PvpContainerReader {
    vb_offset: usize,
    va_offset: usize,
    vsh_offset: usize,
    fsh_offset: Option<usize>,
    bytes: Vec<u8>,
}

impl PvpContainerReader {
    /// The file bytes served from.
    pub closed spec fn data(self) -> Seq<u8> {
        self.bytes@
    }

    /// Where the binding list starts.
    pub closed spec fn vb(self) -> nat {
        self.vb_offset as nat
    }

    /// Where the attribute list starts.
    pub closed spec fn va(self) -> nat {
        self.va_offset as nat
    }

    /// Where the vertex-shader section starts.
    pub closed spec fn vsh(self) -> nat {
        self.vsh_offset as nat
    }

    /// Where the fragment-shader section starts, when that stage exists.
    pub closed spec fn fsh(self) -> Option<nat> {
        match self.fsh_offset {
            Option::Some(o) => Option::Some(o as nat),
            Option::None => Option::None,
        }
    }

    /// Every recorded offset lies within the file bytes.
    pub closed spec fn wf(self) -> bool {
        self.vb_offset <= self.bytes@.len() && self.va_offset <= self.bytes@.len()
            && self.vsh_offset <= self.bytes@.len() && match self.fsh_offset {
            Option::Some(o) => o <= self.bytes@.len(),
            Option::None => true,
        }
    }

    /// Opens a container held in memory: validates the signature and
    /// version, reads the three offsets, and records where each section
    /// starts.
    pub fn new(bytes: Vec<u8>) -> (r: Result<Self, ParError>)
        ensures
            match parse_pvp_header(bytes@) {
                Ok((o1, o2, o3, base)) => r matches Ok(rd) && rd.wf() && rd.data() == bytes@
                    && rd.vb() == base && rd.va() == base + o1 && rd.vsh() == base + o2 && rd.fsh()
                    == (if o3 == 0 {
                    Option::<nat>::None
                } else {
                    Option::<nat>::Some((base + o3) as nat)
                }),
                Err(e) => r == Err::<Self, ParError>(e),
            },
    {
        let blen: usize = bytes.len();
        if blen < 4 {
            return Err(ParError::Truncated);
        }
        let b0: u8 = bytes[0];
        let b1: u8 = bytes[1];
        let b2: u8 = bytes[2];
        let b3: u8 = bytes[3];
        proof {
            assert(bytes@.subrange(0, 4) =~= seq![b0, b1, b2, b3]);
        }
        if !(b0 == 0x50 && b1 == 0x56 && b2 == 0x50 && b3 == 0x01) {
            return Err(ParError::UnsupportedFormat);
        }
        proof {
            assert(bytes@.subrange(0, 4) =~= sig_pvp());
        }
        let (o1, p1) = match VariableUInt::read(bytes.as_slice(), 4) {
            Ok((VariableUInt(v), p)) => (v, p),
            Err(e) => {
                return Err(e);
            },
        };
        proof {
            crate::varint::lemma_varint_decoded_len(bytes@.skip(4));
        }
        let (o2, p2) = match VariableUInt::read(bytes.as_slice(), p1) {
            Ok((VariableUInt(v), p)) => (v, p),
            Err(e) => {
                return Err(e);
            },
        };
        proof {
            crate::varint::lemma_varint_decoded_len(bytes@.skip(p1 as int));
        }
        let (o3, p3) = match VariableUInt::read(bytes.as_slice(), p2) {
            Ok((VariableUInt(v), p)) => (v, p),
            Err(e) => {
                return Err(e);
            },
        };
        proof {
            crate::varint::lemma_varint_decoded_len(bytes@.skip(p2 as int));
        }
        let base: usize = p3;
        let room: u64 = (blen - base) as u64;
        if o1 > room || o2 > room || o3 > room {
            return Err(ParError::Corrupt);
        }
        Ok(
            PvpContainerReader {
                vb_offset: base,
                va_offset: base + o1 as usize,
                vsh_offset: base + o2 as usize,
                fsh_offset: if o3 == 0 {
                    None
                } else {
                    Some(base + o3 as usize)
                },
                bytes,
            },
        )
    }

    /// Decodes the binding list at its recorded offset.
    #[verifier::rlimit(50)]
    pub fn read_vertex_bindings(&self) -> (r: Result<
        Vec<VertexInputBindingDescription>,
        ParError,
    >)
        requires
            self.wf(),
        ensures
            match parse_bindings_list(self.data().skip(self.vb() as int)) {
                Ok((list, n)) => r matches Ok(v) && v@ == list,
                Err(e) => r == Err::<Vec<VertexInputBindingDescription>, ParError>(e),
            },
    {
        let start: usize = self.vb_offset;
        let blen: usize = self.bytes.len();
        let ghost s0 = self.bytes@.skip(start as int);
        let (count, p1) = match VariableUInt::read(self.bytes.as_slice(), start) {
            Ok((VariableUInt(v), p)) => (v, p),
            Err(e) => {
                return Err(e);
            },
        };
        let mut list: Vec<VertexInputBindingDescription> = Vec::new();
        let mut cur: usize = p1;
        let mut i: u64 = 0;
        proof {
            crate::varint::lemma_varint_decoded_len(s0);
            assert(s0.skip((p1 - start) as int) =~= self.bytes@.skip(p1 as int));
            match parse_binding_records(self.bytes@.skip(p1 as int), count as nat) {
                Ok((rest, k)) => {
                    assert(Seq::<VertexInputBindingDescription>::empty() + rest =~= rest);
                },
                Err(_) => {},
            }
        }
        while i < count
            invariant
                i <= count,
                start as nat == self.vb(),
                start <= cur <= self.bytes@.len(),
                self.bytes@.len() <= usize::MAX,
                parse_bindings_list(self.bytes@.skip(start as int)) == shifted_parse(
                    parse_binding_records(self.bytes@.skip(cur as int), (count - i) as nat),
                    list@,
                    (cur - start) as nat,
                ),
            decreases count - i,
        {
            let ghost scur = self.bytes@.skip(cur as int);
            let (input_rate, c1) = match read_varint_u32(self.bytes.as_slice(), cur) {
                Ok(v) => v,
                Err(e) => {
                    proof {
                        assert(parse_binding_records(scur, (count - i) as nat) == Err::<
                            (Seq<VertexInputBindingDescription>, nat),
                            ParError,
                        >(e));
                        lemma_shifted_err(
                            parse_binding_records(scur, (count - i) as nat),
                            list@,
                            (cur - start) as nat,
                            e,
                        );
                        assert(parse_bindings_list(self.bytes@.skip(start as int)) == Err::<
                            (Seq<VertexInputBindingDescription>, nat),
                            ParError,
                        >(e));
                        assert(parse_bindings_list(self.data().skip(self.vb() as int)) == Err::<
                            (Seq<VertexInputBindingDescription>, nat),
                            ParError,
                        >(e));
                    }
                    return Err(e);
                },
            };
            proof {
                crate::varint::lemma_varint_decoded_len(scur);
                assert(scur.skip((c1 - cur) as int) =~= self.bytes@.skip(c1 as int));
            }
            let (binding, c2) = match read_varint_u32(self.bytes.as_slice(), c1) {
                Ok(v) => v,
                Err(e) => {
                    proof {
                        assert(parse_binding_records(scur, (count - i) as nat) == Err::<
                            (Seq<VertexInputBindingDescription>, nat),
                            ParError,
                        >(e));
                        lemma_shifted_err(
                            parse_binding_records(scur, (count - i) as nat),
                            list@,
                            (cur - start) as nat,
                            e,
                        );
                        assert(parse_bindings_list(self.bytes@.skip(start as int)) == Err::<
                            (Seq<VertexInputBindingDescription>, nat),
                            ParError,
                        >(e));
                        assert(parse_bindings_list(self.data().skip(self.vb() as int)) == Err::<
                            (Seq<VertexInputBindingDescription>, nat),
                            ParError,
                        >(e));
                    }
                    return Err(e);
                },
            };
            proof {
                crate::varint::lemma_varint_decoded_len(self.bytes@.skip(c1 as int));
                assert(scur.skip((c2 - cur) as int) =~= self.bytes@.skip(c2 as int));
            }
            let (stride, c3) = match read_varint_u32(self.bytes.as_slice(), c2) {
                Ok(v) => v,
                Err(e) => {
                    proof {
                        assert(parse_binding_records(scur, (count - i) as nat) == Err::<
                            (Seq<VertexInputBindingDescription>, nat),
                            ParError,
                        >(e));
                        lemma_shifted_err(
                            parse_binding_records(scur, (count - i) as nat),
                            list@,
                            (cur - start) as nat,
                            e,
                        );
                        assert(parse_bindings_list(self.bytes@.skip(start as int)) == Err::<
                            (Seq<VertexInputBindingDescription>, nat),
                            ParError,
                        >(e));
                        assert(parse_bindings_list(self.data().skip(self.vb() as int)) == Err::<
                            (Seq<VertexInputBindingDescription>, nat),
                            ParError,
                        >(e));
                    }
                    return Err(e);
                },
            };
            proof {
                crate::varint::lemma_varint_decoded_len(self.bytes@.skip(c2 as int));
                assert(scur.skip((c3 - cur) as int) =~= self.bytes@.skip(c3 as int));
            }
            let rec = VertexInputBindingDescription { binding, input_rate, stride };
            proof {
                lemma_shifted_parse_step(
                    parse_binding_records(self.bytes@.skip(c3 as int), (count - i - 1) as nat),
                    list@,
                    rec,
                    (cur - start) as nat,
                    (c3 - cur) as nat,
                );
            }
            list.push(rec);
            cur = c3;
            i = i + 1;
        }
        proof {
            assert(list@ + Seq::<VertexInputBindingDescription>::empty() =~= list@);
        }
        Ok(list)
    }

    /// Decodes the attribute list at its recorded offset.
    #[verifier::rlimit(50)]
    pub fn read_vertex_attributes(&self) -> (r: Result<
        Vec<VertexInputAttributeDescription>,
        ParError,
    >)
        requires
            self.wf(),
        ensures
            match parse_attributes_list(self.data().skip(self.va() as int)) {
                Ok((list, n)) => r matches Ok(v) && v@ == list,
                Err(e) => r == Err::<Vec<VertexInputAttributeDescription>, ParError>(e),
            },
    {
        let start: usize = self.va_offset;
        let blen: usize = self.bytes.len();
        let ghost s0 = self.bytes@.skip(start as int);
        let (count, p1) = match VariableUInt::read(self.bytes.as_slice(), start) {
            Ok((VariableUInt(v), p)) => (v, p),
            Err(e) => {
                return Err(e);
            },
        };
        let mut list: Vec<VertexInputAttributeDescription> = Vec::new();
        let mut cur: usize = p1;
        let mut i: u64 = 0;
        proof {
            crate::varint::lemma_varint_decoded_len(s0);
            assert(s0.skip((p1 - start) as int) =~= self.bytes@.skip(p1 as int));
            match parse_attribute_records(self.bytes@.skip(p1 as int), count as nat) {
                Ok((rest, k)) => {
                    assert(Seq::<VertexInputAttributeDescription>::empty() + rest =~= rest);
                },
                Err(_) => {},
            }
        }
        while i < count
            invariant
                i <= count,
                start as nat == self.va(),
                start <= cur <= self.bytes@.len(),
                self.bytes@.len() <= usize::MAX,
                parse_attributes_list(self.bytes@.skip(start as int)) == shifted_parse(
                    parse_attribute_records(self.bytes@.skip(cur as int), (count - i) as nat),
                    list@,
                    (cur - start) as nat,
                ),
            decreases count - i,
        {
            let ghost scur = self.bytes@.skip(cur as int);
            let (location, c1) = match read_varint_u32(self.bytes.as_slice(), cur) {
                Ok(v) => v,
                Err(e) => {
                    proof {
                        assert(parse_attribute_records(scur, (count - i) as nat) == Err::<
                            (Seq<VertexInputAttributeDescription>, nat),
                            ParError,
                        >(e));
                        lemma_shifted_err(
                            parse_attribute_records(scur, (count - i) as nat),
                            list@,
                            (cur - start) as nat,
                            e,
                        );
                        assert(parse_attributes_list(self.bytes@.skip(start as int)) == Err::<
                            (Seq<VertexInputAttributeDescription>, nat),
                            ParError,
                        >(e));
                        assert(parse_attributes_list(self.data().skip(self.va() as int)) == Err::<
                            (Seq<VertexInputAttributeDescription>, nat),
                            ParError,
                        >(e));
                    }
                    return Err(e);
                },
            };
            proof {
                crate::varint::lemma_varint_decoded_len(scur);
                assert(scur.skip((c1 - cur) as int) =~= self.bytes@.skip(c1 as int));
            }
            let (binding, c2) = match read_varint_u32(self.bytes.as_slice(), c1) {
                Ok(v) => v,
                Err(e) => {
                    proof {
                        assert(parse_attribute_records(scur, (count - i) as nat) == Err::<
                            (Seq<VertexInputAttributeDescription>, nat),
                            ParError,
                        >(e));
                        lemma_shifted_err(
                            parse_attribute_records(scur, (count - i) as nat),
                            list@,
                            (cur - start) as nat,
                            e,
                        );
                        assert(parse_attributes_list(self.bytes@.skip(start as int)) == Err::<
                            (Seq<VertexInputAttributeDescription>, nat),
                            ParError,
                        >(e));
                        assert(parse_attributes_list(self.data().skip(self.va() as int)) == Err::<
                            (Seq<VertexInputAttributeDescription>, nat),
                            ParError,
                        >(e));
                    }
                    return Err(e);
                },
            };
            proof {
                crate::varint::lemma_varint_decoded_len(self.bytes@.skip(c1 as int));
                assert(scur.skip((c2 - cur) as int) =~= self.bytes@.skip(c2 as int));
            }
            let (offset, c3) = match read_varint_u32(self.bytes.as_slice(), c2) {
                Ok(v) => v,
                Err(e) => {
                    proof {
                        assert(parse_attribute_records(scur, (count - i) as nat) == Err::<
                            (Seq<VertexInputAttributeDescription>, nat),
                            ParError,
                        >(e));
                        lemma_shifted_err(
                            parse_attribute_records(scur, (count - i) as nat),
                            list@,
                            (cur - start) as nat,
                            e,
                        );
                        assert(parse_attributes_list(self.bytes@.skip(start as int)) == Err::<
                            (Seq<VertexInputAttributeDescription>, nat),
                            ParError,
                        >(e));
                        assert(parse_attributes_list(self.data().skip(self.va() as int)) == Err::<
                            (Seq<VertexInputAttributeDescription>, nat),
                            ParError,
                        >(e));
                    }
                    return Err(e);
                },
            };
            proof {
                crate::varint::lemma_varint_decoded_len(self.bytes@.skip(c2 as int));
                assert(scur.skip((c3 - cur) as int) =~= self.bytes@.skip(c3 as int));
            }
            let (format, c4) = match read_varint_u32(self.bytes.as_slice(), c3) {
                Ok(v) => v,
                Err(e) => {
                    proof {
                        assert(parse_attribute_records(scur, (count - i) as nat) == Err::<
                            (Seq<VertexInputAttributeDescription>, nat),
                            ParError,
                        >(e));
                        lemma_shifted_err(
                            parse_attribute_records(scur, (count - i) as nat),
                            list@,
                            (cur - start) as nat,
                            e,
                        );
                        assert(parse_attributes_list(self.bytes@.skip(start as int)) == Err::<
                            (Seq<VertexInputAttributeDescription>, nat),
                            ParError,
                        >(e));
                        assert(parse_attributes_list(self.data().skip(self.va() as int)) == Err::<
                            (Seq<VertexInputAttributeDescription>, nat),
                            ParError,
                        >(e));
                    }
                    return Err(e);
                },
            };
            proof {
                crate::varint::lemma_varint_decoded_len(self.bytes@.skip(c3 as int));
                assert(scur.skip((c4 - cur) as int) =~= self.bytes@.skip(c4 as int));
            }
            let rec = VertexInputAttributeDescription { location, binding, offset, format };
            proof {
                lemma_shifted_parse_step(
                    parse_attribute_records(self.bytes@.skip(c4 as int), (count - i - 1) as nat),
                    list@,
                    rec,
                    (cur - start) as nat,
                    (c4 - cur) as nat,
                );
            }
            list.push(rec);
            cur = c4;
            i = i + 1;
        }
        proof {
            assert(list@ + Seq::<VertexInputAttributeDescription>::empty() =~= list@);
        }
        Ok(list)
    }

    /// Decodes the vertex-shader bytes at their recorded offset.
    pub fn read_vertex_shader(&self) -> (r: Result<Vec<u8>, ParError>)
        requires
            self.wf(),
        ensures
            match parse_bytes_section(self.data().skip(self.vsh() as int)) {
                Ok((b, n)) => r matches Ok(v) && v@ == b,
                Err(e) => r == Err::<Vec<u8>, ParError>(e),
            },
    {
        read_bytes_section_at(self.bytes.as_slice(), self.vsh_offset)
    }

    /// Whether the container records a fragment stage.
    pub fn is_fragment_stage_provided(&self) -> (r: bool)
        ensures
            r == (self.fsh() is Some),
    {
        self.fsh_offset.is_some()
    }

    /// Decodes the fragment-shader bytes; only meaningful when the
    /// container records that stage.
    pub fn read_fragment_shader(&self) -> (r: Result<Vec<u8>, ParError>)
        requires
            self.wf(),
            self.fsh() is Some,
        ensures
            match parse_bytes_section(self.data().skip(self.fsh().unwrap() as int)) {
                Ok((b, n)) => r matches Ok(v) && v@ == b,
                Err(e) => r == Err::<Vec<u8>, ParError>(e),
            },
    {
        match self.fsh_offset {
            Some(o) => read_bytes_section_at(self.bytes.as_slice(), o),
            None => vstd::pervasive::unreached(),
        }
    }

    /// Decodes every present section eagerly into a container.
    pub fn into_container(self) -> (r: Result<PvpContainer, ParError>)
        requires
            self.wf(),
        ensures
            match spec_into_container(self.data(), self.vb(), self.va(), self.vsh(), self.fsh()) {
                Ok((bs, at, v, f)) => r matches Ok(c) && c.vertex_bindings@ == bs
                    && c.vertex_attributes@ == at && c.vertex_shader@ == v && fragment_view(
                    c.fragment_shader,
                ) == f,
                Err(e) => r == Err::<PvpContainer, ParError>(e),
            },
    {
        let vertex_bindings = match self.read_vertex_bindings() {
            Ok(v) => v,
            Err(e) => {
                return Err(e);
            },
        };
        let vertex_attributes = match self.read_vertex_attributes() {
            Ok(v) => v,
            Err(e) => {
                return Err(e);
            },
        };
        let vertex_shader = match self.read_vertex_shader() {
            Ok(v) => v,
            Err(e) => {
                return Err(e);
            },
        };
        let fragment_shader = if self.is_fragment_stage_provided() {
            match self.read_fragment_shader() {
                Ok(v) => Some(v),
                Err(e) => {
                    return Err(e);
                },
            }
        } else {
            None
        };
        Ok(PvpContainer { vertex_bindings, vertex_attributes, vertex_shader, fragment_shader })
    }
}

/// Decodes a raw byte section of `bytes` starting at `pos`.
fn read_bytes_section_at(bytes: &[u8], pos: usize) -> (r: Result<Vec<u8>, ParError>)
    requires
        pos <= bytes@.len(),
    ensures
        match parse_bytes_section(bytes@.skip(pos as int)) {
            Ok((b, n)) => r matches Ok(v) && v@ == b,
            Err(e) => r == Err::<Vec<u8>, ParError>(e),
        },
{
    let ghost s = bytes@.skip(pos as int);
    let blen: usize = bytes.len();
    match VariableUInt::read(bytes, pos) {
        Err(_) => {
            proof {
                match varint_decoded(s) {
                    Option::Some((len, n)) => {
                        crate::varint::lemma_varint_decoded_len(s);
                        assert(len > u64::MAX);
                        assert(s.len() < n + len);
                    },
                    Option::None => {},
                }
            }
            Err(ParError::Truncated)
        },
        Ok((VariableUInt(len), p1)) => {
            proof {
                crate::varint::lemma_varint_decoded_len(s);
            }
            if len > (blen - p1) as u64 {
                return Err(ParError::Truncated);
            }
            let lenu: usize = len as usize;
            let sec: &[u8] = slice_subrange(bytes, p1, p1 + lenu);
            proof {
                assert(sec@ =~= s.subrange((p1 - pos) as int, (p1 - pos + lenu) as int));
            }
            Ok(slice_to_vec(sec))
        },
    }
}


/// Parsing a written varint narrowed to 32 bits recovers the value.
proof fn lemma_varint_u32_round_trip(x: u32, rest: Seq<u8>)
    ensures
        parse_varint_u32(varint_encoding(x as nat) + rest) == Ok::<_, ParError>(
            (x, varint_encoding(x as nat).len()),
        ),
{
    crate::varint::lemma_varint_round_trip(x as nat, rest);
}

/// Parsing a written varint narrowed to 64 bits recovers the value.
proof fn lemma_varint_u64_round_trip(x: u64, rest: Seq<u8>)
    ensures
        parse_varint_u64(varint_encoding(x as nat) + rest) == Ok::<_, ParError>(
            (x, varint_encoding(x as nat).len()),
        ),
{
    crate::varint::lemma_varint_round_trip(x as nat, rest);
}

/// The encoding of a nonempty record sequence starts with its first record.
proof fn lemma_binding_records_first(s: Seq<VertexInputBindingDescription>)
    requires
        s.len() > 0,
    ensures
        binding_records_encoding(s) == binding_encoding(s[0]) + binding_records_encoding(
            s.drop_first(),
        ),
    decreases s.len(),
{
    if s.len() == 1 {
        assert(s.drop_last() =~= Seq::<VertexInputBindingDescription>::empty());
        assert(s.drop_first() =~= Seq::<VertexInputBindingDescription>::empty());
        assert(binding_records_encoding(s) =~= binding_encoding(s[0])
            + binding_records_encoding(s.drop_first()));
    } else {
        lemma_binding_records_first(s.drop_last());
        assert(s.drop_last().drop_first() =~= s.drop_first().drop_last());
        assert(s.drop_last()[0] == s[0]);
        assert(s.drop_first().last() == s.last());
        assert(binding_records_encoding(s) =~= binding_encoding(s[0])
            + binding_records_encoding(s.drop_first()));
    }
}

/// The encoding of a nonempty record sequence starts with its first record.
proof fn lemma_attribute_records_first(s: Seq<VertexInputAttributeDescription>)
    requires
        s.len() > 0,
    ensures
        attribute_records_encoding(s) == attribute_encoding(s[0]) + attribute_records_encoding(
            s.drop_first(),
        ),
    decreases s.len(),
{
    if s.len() == 1 {
        assert(s.drop_last() =~= Seq::<VertexInputAttributeDescription>::empty());
        assert(s.drop_first() =~= Seq::<VertexInputAttributeDescription>::empty());
        assert(attribute_records_encoding(s) =~= attribute_encoding(s[0])
            + attribute_records_encoding(s.drop_first()));
    } else {
        lemma_attribute_records_first(s.drop_last());
        assert(s.drop_last().drop_first() =~= s.drop_first().drop_last());
        assert(s.drop_last()[0] == s[0]);
        assert(s.drop_first().last() == s.last());
        assert(attribute_records_encoding(s) =~= attribute_encoding(s[0])
            + attribute_records_encoding(s.drop_first()));
    }
}

/// Parsing written binding records recovers them all.
#[verifier::rlimit(100)]
#[verifier::spinoff_prover]
proof fn lemma_binding_records_round_trip(s: Seq<VertexInputBindingDescription>, rest: Seq<u8>)
    ensures
        parse_binding_records(binding_records_encoding(s) + rest, s.len()) == Ok::<_, ParError>(
            (s, binding_records_encoding(s).len()),
        ),
    decreases s.len(),
{
    if s.len() == 0 {
        assert(s =~= Seq::<VertexInputBindingDescription>::empty());
    } else {
        lemma_binding_records_first(s);
        let r0 = s[0];
        let e1 = varint_encoding(r0.input_rate as nat);
        let e2 = varint_encoding(r0.binding as nat);
        let e3 = varint_encoding(r0.stride as nat);
        let tail = binding_records_encoding(s.drop_first()) + rest;
        let full = binding_records_encoding(s) + rest;
        assert(full =~= e1 + (e2 + (e3 + tail)));
        lemma_varint_u32_round_trip(r0.input_rate, e2 + (e3 + tail));
        assert(full.skip(e1.len() as int) =~= e2 + (e3 + tail));
        lemma_varint_u32_round_trip(r0.binding, e3 + tail);
        assert(full.skip((e1.len() + e2.len()) as int) =~= e3 + tail);
        lemma_varint_u32_round_trip(r0.stride, tail);
        assert(full.skip((e1.len() + e2.len() + e3.len()) as int) =~= tail);
        lemma_binding_records_round_trip(s.drop_first(), rest);
        assert(seq![VertexInputBindingDescription {
            binding: r0.binding,
            input_rate: r0.input_rate,
            stride: r0.stride,
        }] + s.drop_first() =~= s);
    }
}

/// Parsing written attribute records recovers them all.
#[verifier::rlimit(100)]
#[verifier::spinoff_prover]
proof fn lemma_attribute_records_round_trip(
    s: Seq<VertexInputAttributeDescription>,
    rest: Seq<u8>,
)
    ensures
        parse_attribute_records(attribute_records_encoding(s) + rest, s.len()) == Ok::<
            _,
            ParError,
        >((s, attribute_records_encoding(s).len())),
    decreases s.len(),
{
    if s.len() == 0 {
        assert(s =~= Seq::<VertexInputAttributeDescription>::empty());
    } else {
        lemma_attribute_records_first(s);
        let r0 = s[0];
        let e1 = varint_encoding(r0.location as nat);
        let e2 = varint_encoding(r0.binding as nat);
        let e3 = varint_encoding(r0.offset as nat);
        let e4 = varint_encoding(r0.format as nat);
        let tail = attribute_records_encoding(s.drop_first()) + rest;
        let full = attribute_records_encoding(s) + rest;
        assert(full =~= e1 + (e2 + (e3 + (e4 + tail))));
        lemma_varint_u32_round_trip(r0.location, e2 + (e3 + (e4 + tail)));
        assert(full.skip(e1.len() as int) =~= e2 + (e3 + (e4 + tail)));
        lemma_varint_u32_round_trip(r0.binding, e3 + (e4 + tail));
        assert(full.skip((e1.len() + e2.len()) as int) =~= e3 + (e4 + tail));
        lemma_varint_u32_round_trip(r0.offset, e4 + tail);
        assert(full.skip((e1.len() + e2.len() + e3.len()) as int) =~= e4 + tail);
        lemma_varint_u32_round_trip(r0.format, tail);
        assert(full.skip((e1.len() + e2.len() + e3.len() + e4.len()) as int) =~= tail);
        lemma_attribute_records_round_trip(s.drop_first(), rest);
        assert(seq![VertexInputAttributeDescription {
            location: r0.location,
            binding: r0.binding,
            offset: r0.offset,
            format: r0.format,
        }] + s.drop_first() =~= s);
    }
}

/// Parsing a written binding list section recovers the list.
pub proof fn lemma_bindings_list_round_trip(s: Seq<VertexInputBindingDescription>, rest: Seq<u8>)
    requires
        s.len() <= u64::MAX,
    ensures
        parse_bindings_list(bindings_section(s) + rest) == Ok::<_, ParError>(
            (s, bindings_section(s).len()),
        ),
{
    let full = bindings_section(s) + rest;
    assert(full =~= varint_encoding(s.len()) + (binding_records_encoding(s) + rest));
    lemma_varint_u64_round_trip(s.len() as u64, binding_records_encoding(s) + rest);
    assert(full.skip(varint_encoding(s.len()).len() as int) =~= binding_records_encoding(s)
        + rest);
    lemma_binding_records_round_trip(s, rest);
}

/// Parsing a written attribute list section recovers the list.
pub proof fn lemma_attributes_list_round_trip(
    s: Seq<VertexInputAttributeDescription>,
    rest: Seq<u8>,
)
    requires
        s.len() <= u64::MAX,
    ensures
        parse_attributes_list(attributes_section(s) + rest) == Ok::<_, ParError>(
            (s, attributes_section(s).len()),
        ),
{
    let full = attributes_section(s) + rest;
    assert(full =~= varint_encoding(s.len()) + (attribute_records_encoding(s) + rest));
    lemma_varint_u64_round_trip(s.len() as u64, attribute_records_encoding(s) + rest);
    assert(full.skip(varint_encoding(s.len()).len() as int) =~= attribute_records_encoding(s)
        + rest);
    lemma_attribute_records_round_trip(s, rest);
}

/// Parsing a written byte section recovers the bytes.
pub proof fn lemma_bytes_section_round_trip(b: Seq<u8>, rest: Seq<u8>)
    ensures
        parse_bytes_section(bytes_section(b) + rest) == Ok::<_, ParError>(
            (b, bytes_section(b).len()),
        ),
{
    let pre = varint_encoding(b.len());
    let full = bytes_section(b) + rest;
    assert(full =~= pre + (b + rest));
    crate::varint::lemma_varint_round_trip(b.len(), b + rest);
    assert(full.subrange(pre.len() as int, (pre.len() + b.len()) as int) =~= b);
}

/// Parsing the header of a written container recovers the three offsets,
/// and the blob follows it.
#[verifier::rlimit(100)]
#[verifier::spinoff_prover]
proof fn lemma_pvp_header_round_trip(
    bs: Seq<VertexInputBindingDescription>,
    at: Seq<VertexInputAttributeDescription>,
    vsh: Seq<u8>,
    fsh: Option<Seq<u8>>,
)
    requires
        pvp_blob(bs, at, vsh, fsh).len() <= u64::MAX,
    ensures
        ({
            let o1n = bindings_section(bs).len();
            let o2n = o1n + attributes_section(at).len();
            let o3n: nat = match fsh {
                Option::Some(_) => o2n + bytes_section(vsh).len(),
                Option::None => 0,
            };
            let base = 4 + varint_encoding(o1n).len() + varint_encoding(o2n).len()
                + varint_encoding(o3n).len();
            parse_pvp_header(pvp_encoding(bs, at, vsh, fsh)) == Ok::<_, ParError>(
                (o1n as u64, o2n as u64, o3n as u64, base as nat),
            ) && pvp_encoding(bs, at, vsh, fsh).skip(base as int) == pvp_blob(bs, at, vsh, fsh)
        }),
{
    let blob = pvp_blob(bs, at, vsh, fsh);
    let o1n = bindings_section(bs).len();
    let o2n = o1n + attributes_section(at).len();
    let o3n: nat = match fsh {
        Option::Some(_) => o2n + bytes_section(vsh).len(),
        Option::None => 0,
    };
    let v1 = varint_encoding(o1n);
    let v2 = varint_encoding(o2n);
    let v3 = varint_encoding(o3n);
    let enc = pvp_encoding(bs, at, vsh, fsh);
    assert(enc =~= sig_pvp() + (v1 + (v2 + (v3 + blob))));
    assert(enc.subrange(0, 4) =~= sig_pvp());
    lemma_varint_u64_round_trip(o1n as u64, v2 + (v3 + blob));
    assert(enc.skip(4) =~= v1 + (v2 + (v3 + blob)));
    lemma_varint_u64_round_trip(o2n as u64, v3 + blob);
    assert(enc.skip((4 + v1.len()) as int) =~= v2 + (v3 + blob));
    lemma_varint_u64_round_trip(o3n as u64, blob);
    assert(enc.skip((4 + v1.len() + v2.len()) as int) =~= v3 + blob);
    let base = 4 + v1.len() + v2.len() + v3.len();
    assert(enc.skip(base as int) =~= blob);
    assert(enc.len() - base == blob.len());
}

/// Each section of a written blob parses back to what was written, at the
/// offset the header records for it.
#[verifier::rlimit(100)]
#[verifier::spinoff_prover]
proof fn lemma_pvp_blob_sections(
    bs: Seq<VertexInputBindingDescription>,
    at: Seq<VertexInputAttributeDescription>,
    vsh: Seq<u8>,
    fsh: Option<Seq<u8>>,
)
    requires
        bs.len() <= u64::MAX,
        at.len() <= u64::MAX,
    ensures
        ({
            let blob = pvp_blob(bs, at, vsh, fsh);
            let o1n = bindings_section(bs).len();
            let o2n = o1n + attributes_section(at).len();
            let o3n = o2n + bytes_section(vsh).len();
            parse_bindings_list(blob) == Ok::<_, ParError>((bs, o1n))
                && parse_attributes_list(blob.skip(o1n as int)) == Ok::<_, ParError>(
                (at, attributes_section(at).len()),
            ) && parse_bytes_section(blob.skip(o2n as int)) == Ok::<_, ParError>(
                (vsh, bytes_section(vsh).len()),
            ) && match fsh {
                Option::Some(f) => parse_bytes_section(blob.skip(o3n as int)) == Ok::<
                    _,
                    ParError,
                >((f, bytes_section(f).len())),
                Option::None => true,
            }
        }),
{
    let blob = pvp_blob(bs, at, vsh, fsh);
    let o1n = bindings_section(bs).len();
    let o2n = o1n + attributes_section(at).len();
    let o3n = o2n + bytes_section(vsh).len();
    let tail: Seq<u8> = match fsh {
        Option::Some(f) => bytes_section(f),
        Option::None => Seq::<u8>::empty(),
    };
    let after_bind = attributes_section(at) + (bytes_section(vsh) + tail);
    assert(blob =~= bindings_section(bs) + after_bind);
    lemma_bindings_list_round_trip(bs, after_bind);
    assert(blob.skip(o1n as int) =~= attributes_section(at) + (bytes_section(vsh) + tail));
    lemma_attributes_list_round_trip(at, bytes_section(vsh) + tail);
    assert(blob.skip(o2n as int) =~= bytes_section(vsh) + tail);
    lemma_bytes_section_round_trip(vsh, tail);
    match fsh {
        Option::Some(f) => {
            assert(blob.skip(o3n as int) =~= bytes_section(f) + Seq::<u8>::empty());
            lemma_bytes_section_round_trip(f, Seq::empty());
        },
        Option::None => {},
    }
}

/// Round trip: a written container parses back section by section to the
/// same bindings, attributes, and shader stages, and the fragment offset
/// is zero exactly when no fragment stage was written.
#[verifier::rlimit(100)]
#[verifier::spinoff_prover]
pub proof fn lemma_pvp_round_trip(
    bs: Seq<VertexInputBindingDescription>,
    at: Seq<VertexInputAttributeDescription>,
    vsh: Seq<u8>,
    fsh: Option<Seq<u8>>,
)
    requires
        pvp_blob(bs, at, vsh, fsh).len() <= u64::MAX,
        bs.len() <= u64::MAX,
        at.len() <= u64::MAX,
    ensures
        parse_pvp_header(pvp_encoding(bs, at, vsh, fsh)) matches Ok((o1, o2, o3, base)) && o1
            == bindings_section(bs).len() && o2 == o1 + attributes_section(at).len() && (match fsh {
            Option::Some(_) => o3 == o2 + bytes_section(vsh).len(),
            Option::None => o3 == 0,
        }) && (o3 == 0 <==> fsh is None) && spec_into_container(
            pvp_encoding(bs, at, vsh, fsh),
            base,
            (base + o1) as nat,
            (base + o2) as nat,
            if o3 == 0 {
                Option::<nat>::None
            } else {
                Option::<nat>::Some((base + o3) as nat)
            },
        ) == Ok::<_, ParError>((bs, at, vsh, fsh)),
{
    let blob = pvp_blob(bs, at, vsh, fsh);
    let enc = pvp_encoding(bs, at, vsh, fsh);
    let o1n = bindings_section(bs).len();
    let o2n = o1n + attributes_section(at).len();
    let o3n: nat = match fsh {
        Option::Some(_) => o2n + bytes_section(vsh).len(),
        Option::None => 0,
    };
    lemma_pvp_header_round_trip(bs, at, vsh, fsh);
    lemma_pvp_blob_sections(bs, at, vsh, fsh);
    let base = 4 + varint_encoding(o1n).len() + varint_encoding(o2n).len() + varint_encoding(
        o3n,
    ).len();
    assert(enc.skip((base + o1n) as int) =~= blob.skip(o1n as int));
    assert(enc.skip((base + o2n) as int) =~= blob.skip(o2n as int));
    match fsh {
        Option::Some(f) => {
            assert(o3n > 0);
            assert(enc.skip((base + o3n) as int) =~= blob.skip(o3n as int));
        },
        Option::None => {},
    }
}

} // verus!