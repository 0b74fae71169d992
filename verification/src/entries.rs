//! The named blob table of the archive format.
//!
//! Each entry pairs a name with the byte length and relative offset of its
//! blob inside the content region. On disk the table is a varint count
//! followed, for every entry, by the two 64-bit fields in little-endian
//! order and the name as a varint byte length plus its UTF-8 bytes.

use vstd::prelude::*;

use vstd::bytes::{
    lemma_auto_spec_u64_to_from_le_bytes, spec_u64_from_le_bytes, spec_u64_to_le_bytes,
    u64_from_le_bytes, u64_to_le_bytes,
};
use vstd::slice::slice_subrange;
use vstd::string::{StrSliceExecFns, StringSliceAdditionalSpecFns};
use vstd::utf8::{decode_utf8, encode_utf8, encode_utf8_decode_utf8, valid_utf8};

use crate::varint::{varint_decoded, varint_encoding, VariableUInt};
use crate::ParError;

verus! {

/// Two 64-bit values that sit side by side in a fixed sixteen-byte block.
#[derive(Debug, Clone, Copy, PartialEq, Eq, Structural)]
pub struct LinearPaired2u64(pub u64, pub u64);

/// The fixed heading of one table entry: the blob's byte length and its
/// offset relative to the start of the content region.
#[derive(Debug, Clone, Copy, PartialEq, Eq, Structural)]
pub struct AssetEntryHeadingPair {
    pub byte_length: u64,
    pub relative_offset: u64,
}

/// The sixteen bytes that store a heading: both fields little-endian,
/// byte length first.
pub open spec fn heading_encoding(e: AssetEntryHeadingPair) -> Seq<u8> {
    spec_u64_to_le_bytes(e.byte_length) + spec_u64_to_le_bytes(e.relative_offset)
}

/// Decodes a heading from the front of `s`, or fails when fewer than
/// sixteen bytes are left.
pub open spec fn parse_heading(s: Seq<u8>) -> Result<(AssetEntryHeadingPair, nat), ParError> {
    if s.len() < 16 {
        Err(ParError::Truncated)
    } else {
        Ok(
            (
                AssetEntryHeadingPair {
                    byte_length: spec_u64_from_le_bytes(s.subrange(0, 8)),
                    relative_offset: spec_u64_from_le_bytes(s.subrange(8, 16)),
                },
                16,
            ),
        )
    }
}

/// Parsing a heading recovers the two encoded fields.
pub proof fn lemma_heading_round_trip(e: AssetEntryHeadingPair, rest: Seq<u8>)
    ensures
        parse_heading(heading_encoding(e) + rest) == Ok::<_, ParError>((e, 16 as nat)),
{
    lemma_auto_spec_u64_to_from_le_bytes();
    let s = heading_encoding(e) + rest;
    assert(s.subrange(0, 8) =~= spec_u64_to_le_bytes(e.byte_length));
    assert(s.subrange(8, 16) =~= spec_u64_to_le_bytes(e.relative_offset));
}

impl AssetEntryHeadingPair {
    /// Appends the sixteen-byte encoding of this heading to `out`.
    pub fn write(&self, out: &mut Vec<u8>)
        ensures
            final(out)@ == old(out)@ + heading_encoding(*self),
    {
        let mut lb: Vec<u8> = u64_to_le_bytes(self.byte_length);
        out.append(&mut lb);
        let mut ob: Vec<u8> = u64_to_le_bytes(self.relative_offset);
        out.append(&mut ob);
        proof {
            assert(out@ =~= old(out)@ + heading_encoding(*self));
        }
    }

    /// Decodes a heading from `bytes` starting at `pos`; returns it with
    /// the position just past the sixteen bytes read.
    pub fn read(bytes: &[u8], pos: usize) -> (r: Result<(Self, usize), ParError>)
        requires
            pos <= bytes@.len(),
        ensures
            match parse_heading(bytes@.skip(pos as int)) {
                Ok((e, n)) => r == Ok::<_, ParError>((e, (pos + n) as usize)),
                Err(e) => r == Err::<(Self, usize), _>(e),
            },
    {
        if bytes.len() - pos < 16 {
            return Err(ParError::Truncated);
        }
        let lb: &[u8] = slice_subrange(bytes, pos, pos + 8);
        let ob: &[u8] = slice_subrange(bytes, pos + 8, pos + 16);
        proof {
            assert(lb@ =~= bytes@.skip(pos as int).subrange(0, 8));
            assert(ob@ =~= bytes@.skip(pos as int).subrange(8, 16));
        }
        let byte_length: u64 = u64_from_le_bytes(lb);
        let relative_offset: u64 = u64_from_le_bytes(ob);
        Ok((AssetEntryHeadingPair { byte_length, relative_offset }, pos + 16))
    }
}

/// The bytes that store a name: a varint byte count, then the name's
/// UTF-8 bytes.
pub open spec fn pascal_string_encoding(name: Seq<char>) -> Seq<u8> {
    varint_encoding(encode_utf8(name).len()) + encode_utf8(name)
}

/// Decodes a length-prefixed name from the front of `s`: the character
/// sequence and the number of bytes consumed. Fails with `Truncated` when
/// the length prefix itself is unterminated, and with `Corrupt` when the
/// prefix reaches past the input or the bytes are not UTF-8.
pub open spec fn parse_pascal_string(s: Seq<u8>) -> Result<(Seq<char>, nat), ParError> {
    match varint_decoded(s) {
        Option::None => Err(ParError::Truncated),
        Option::Some((len, n)) => if s.len() < n + len {
            Err(ParError::Corrupt)
        } else if !valid_utf8(s.subrange(n as int, (n + len) as int)) {
            Err(ParError::Corrupt)
        } else {
            Ok((decode_utf8(s.subrange(n as int, (n + len) as int)), n + len))
        },
    }
}

/// Relies on String::from_utf8: it succeeds exactly on valid UTF-8 input
/// and returns the character sequence that the bytes encode.
#[verifier::external_body]
pub(crate) fn string_from_utf8(bytes: Vec<u8>) -> (r: Option<String>)
    ensures
        r matches Some(s) ==> valid_utf8(bytes@) && s@ == decode_utf8(bytes@),
        r is None ==> !valid_utf8(bytes@),
{
    match String::from_utf8(bytes) {
        Ok(s) => Some(s),
        Err(_) => None,
    }
}

/// Compares two byte slices element by element.
pub fn bytes_eq(a: &[u8], b: &[u8]) -> (r: bool)
    ensures
        r == (a@ == b@),
{
    if a.len() != b.len() {
        return false;
    }
    let mut i: usize = 0;
    while i < a.len()
        invariant
            i <= a@.len(),
            a@.len() == b@.len(),
            forall|j: int| 0 <= j < i ==> a@[j] == b@[j],
        decreases a@.len() - i,
    {
        if a[i] != b[i] {
            return false;
        }
        i += 1;
    }
    proof {
        assert(a@ =~= b@);
    }
    true
}

/// Compares two strings by their UTF-8 bytes; equal bytes decode to equal
/// character sequences.
pub fn str_eq(a: &str, b: &str) -> (r: bool)
    ensures
        r == (a@ == b@),
{
    let r = bytes_eq(a.as_bytes(), b.as_bytes());
    proof {
        if a.spec_bytes() == b.spec_bytes() {
            encode_utf8_decode_utf8(a@);
            encode_utf8_decode_utf8(b@);
        }
    }
    r
}

/// Parsing a length-prefixed name recovers the encoded characters.
pub proof fn lemma_pascal_string_round_trip(name: Seq<char>, rest: Seq<u8>)
    ensures
        parse_pascal_string(pascal_string_encoding(name) + rest) == Ok::<_, ParError>(
            (name, pascal_string_encoding(name).len()),
        ),
{
    broadcast use vstd::utf8::encode_utf8_valid_utf8;

    let nb = encode_utf8(name);
    let pre = varint_encoding(nb.len());
    let s = pascal_string_encoding(name) + rest;
    assert(s =~= pre + (nb + rest));
    crate::varint::lemma_varint_round_trip(nb.len(), nb + rest);
    assert(s.subrange(pre.len() as int, (pre.len() + nb.len()) as int) =~= nb);
    encode_utf8_decode_utf8(name);
}

/// Appends the length-prefixed UTF-8 encoding of `name` to `out`.
pub fn write_pascal_string(name: &str, out: &mut Vec<u8>)
    ensures
        final(out)@ == old(out)@ + pascal_string_encoding(name@),
{
    let mut nb: Vec<u8> = name.as_bytes_vec();
    VariableUInt(nb.len() as u64).write(out);
    out.append(&mut nb);
    proof {
        assert(out@ =~= old(out)@ + pascal_string_encoding(name@));
    }
}

/// Decodes a length-prefixed name from `bytes` starting at `pos`; returns
/// it with the position just past its last byte.
pub fn read_pascal_string(bytes: &[u8], pos: usize) -> (r: Result<(String, usize), ParError>)
    requires
        pos <= bytes@.len(),
    ensures
        match parse_pascal_string(bytes@.skip(pos as int)) {
            Ok((name, n)) => r matches Ok(p) && p.0@ == name && p.1 == pos + n,
            Err(e) => r == Err::<(String, usize), ParError>(e),
        },
{
    let ghost s = bytes@.skip(pos as int);
    let blen: usize = bytes.len();
    match VariableUInt::read(bytes, pos) {
        Err(e) => {
            proof {
                match varint_decoded(s) {
                    Option::Some((len, n)) => {
                        crate::varint::lemma_varint_decoded_len(s);
                        assert(len > u64::MAX);
                        assert(s.len() < n + len);
                    },
                    Option::None => {},
                }
            }
            Err(e)
        },
        Ok((VariableUInt(len), p2)) => {
            proof {
                crate::varint::lemma_varint_decoded_len(s);
            }
            if len > (bytes.len() - p2) as u64 {
                return Err(ParError::Corrupt);
            }
            let lenu: usize = len as usize;
            let nb: &[u8] = slice_subrange(bytes, p2, p2 + lenu);
            proof {
                assert(nb@ =~= s.subrange((p2 - pos) as int, (p2 - pos + lenu) as int));
            }
            match string_from_utf8(vstd::slice::slice_to_vec(nb)) {
                Some(name) => Ok((name, p2 + lenu)),
                None => Err(ParError::Corrupt),
            }
        },
    }
}

/// Holds when no name occurs twice in `s`.
pub open spec fn unique_names(s: Seq<(Seq<char>, AssetEntryHeadingPair)>) -> bool {
    forall|i: int, j: int| 0 <= i < j < s.len() ==> s[i].0 != s[j].0
}

/// The keyed reading of a pair sequence: later occurrences of a name
/// override earlier ones.
pub open spec fn table_map(s: Seq<(Seq<char>, AssetEntryHeadingPair)>) -> Map<
    Seq<char>,
    AssetEntryHeadingPair,
>
    decreases s.len(),
{
    if s.len() == 0 {
        Map::empty()
    } else {
        table_map(s.drop_last()).insert(s.last().0, s.last().1)
    }
}

/// A name is keyed exactly when some pair carries it.
pub proof fn lemma_table_map_contains(s: Seq<(Seq<char>, AssetEntryHeadingPair)>, n: Seq<char>)
    ensures
        table_map(s).contains_key(n) <==> exists|i: int| 0 <= i < s.len() && s[i].0 == n,
    decreases s.len(),
{
    if s.len() > 0 {
        lemma_table_map_contains(s.drop_last(), n);
        if s.last().0 == n {
            assert(s[s.len() - 1].0 == n);
        } else if table_map(s).contains_key(n) {
            let i = choose|i: int| 0 <= i < s.drop_last().len() && s.drop_last()[i].0 == n;
            assert(s[i].0 == n);
        } else if exists|i: int| 0 <= i < s.len() && s[i].0 == n {
            let i = choose|i: int| 0 <= i < s.len() && s[i].0 == n;
            assert(s.drop_last()[i].0 == n);
        }
    }
}

/// With unique names, the keyed reading returns each pair's own heading.
pub proof fn lemma_table_map_value(s: Seq<(Seq<char>, AssetEntryHeadingPair)>, i: int)
    requires
        unique_names(s),
        0 <= i < s.len(),
    ensures
        table_map(s).contains_key(s[i].0),
        table_map(s)[s[i].0] == s[i].1,
    decreases s.len(),
{
    if i < s.len() - 1 {
        assert(unique_names(s.drop_last()));
        lemma_table_map_value(s.drop_last(), i);
        assert(s.last().0 != s[i].0);
    }
}

/// Removing the sole pair that carries a name removes exactly that key.
pub proof fn lemma_table_map_remove(s: Seq<(Seq<char>, AssetEntryHeadingPair)>, i: int)
    requires
        unique_names(s),
        0 <= i < s.len(),
    ensures
        table_map(s.remove(i)) == table_map(s).remove(s[i].0),
    decreases s.len(),
{
    if i == s.len() - 1 {
        assert(s.remove(i) =~= s.drop_last());
        lemma_table_map_contains(s.drop_last(), s[i].0);
        assert(forall|j: int|
            0 <= j < s.drop_last().len() ==> s.drop_last()[j].0 != s[i].0);
        assert(table_map(s.drop_last()) =~= table_map(s).remove(s[i].0));
    } else {
        assert(unique_names(s.drop_last()));
        lemma_table_map_remove(s.drop_last(), i);
        assert(s.remove(i).drop_last() =~= s.drop_last().remove(i));
        assert(s.remove(i).last() == s.last());
        assert(s.last().0 != s[i].0);
        assert(table_map(s.drop_last()).remove(s[i].0).insert(s.last().0, s.last().1) =~= table_map(
            s.drop_last(),
        ).insert(s.last().0, s.last().1).remove(s[i].0));
        assert(table_map(s.remove(i)) =~= table_map(s).remove(s[i].0));
    }
}

/// The write-side entry table: pairs in insertion order with unique names,
/// read back keyed by name with last-written-wins semantics.
pub struct EntryTable {
    pub entries: Vec<(String, AssetEntryHeadingPair)>,
}

impl EntryTable {
    /// The pairs in insertion order, names as character sequences.
    pub open spec fn seq_view(self) -> Seq<(Seq<char>, AssetEntryHeadingPair)> {
        self.entries@.map_values(|p: (String, AssetEntryHeadingPair)| (p.0@, p.1))
    }

    /// The keyed reading of the table.
    pub open spec fn map_view(self) -> Map<Seq<char>, AssetEntryHeadingPair> {
        table_map(self.seq_view())
    }

    /// Every name occurs at most once.
    pub open spec fn wf(self) -> bool {
        unique_names(self.seq_view())
    }

    /// Creates an empty table.
    pub fn new() -> (r: Self)
        ensures
            r.wf(),
            r.seq_view() =~= Seq::<(Seq<char>, AssetEntryHeadingPair)>::empty(),
            r.map_view() =~= Map::<Seq<char>, AssetEntryHeadingPair>::empty(),
    {
        EntryTable { entries: Vec::new() }
    }

    /// The number of entries held.
    pub fn len(&self) -> (n: usize)
        ensures
            n == self.seq_view().len(),
    {
        self.entries.len()
    }

    /// The name of the entry at position `i`.
    pub fn name_at(&self, i: usize) -> (r: &String)
        requires
            i < self.seq_view().len(),
        ensures
            r@ == self.seq_view()[i as int].0,
    {
        &self.entries[i].0
    }

    /// The heading of the entry at position `i`.
    pub fn heading_at(&self, i: usize) -> (r: &AssetEntryHeadingPair)
        requires
            i < self.seq_view().len(),
        ensures
            *r == self.seq_view()[i as int].1,
    {
        &self.entries[i].1
    }

    /// The position of the entry named `name`, if one is held.
    fn find(&self, name: &str) -> (r: Option<usize>)
        ensures
            match r {
                Some(i) => i < self.seq_view().len() && self.seq_view()[i as int].0 == name@,
                None => forall|i: int|
                    0 <= i < self.seq_view().len() ==> self.seq_view()[i].0 != name@,
            },
    {
        let mut i: usize = 0;
        while i < self.entries.len()
            invariant
                i <= self.seq_view().len(),
                forall|j: int| 0 <= j < i ==> self.seq_view()[j].0 != name@,
            decreases self.seq_view().len() - i,
        {
            if str_eq(self.entries[i].0.as_str(), name) {
                return Some(i);
            }
            i += 1;
        }
        None
    }

    /// Looks up the heading stored under `name`.
    pub fn get(&self, name: &str) -> (r: Option<&AssetEntryHeadingPair>)
        requires
            self.wf(),
        ensures
            match r {
                Some(e) => self.map_view().contains_key(name@) && *e == self.map_view()[name@],
                None => !self.map_view().contains_key(name@),
            },
    {
        proof {
            lemma_table_map_contains(self.seq_view(), name@);
        }
        match self.find(name) {
            Some(i) => {
                proof {
                    lemma_table_map_value(self.seq_view(), i as int);
                }
                Some(&self.entries[i].1)
            },
            None => None,
        }
    }

    /// Stores `heading` under `name`. A name already present keeps exactly
    /// one entry, now carrying the new heading; the returned flag says
    /// whether that happened.
    pub fn insert(&mut self, name: String, heading: AssetEntryHeadingPair) -> (dup: bool)
        requires
            old(self).wf(),
        ensures
            final(self).wf(),
            dup == old(self).map_view().contains_key(name@),
            final(self).map_view() == old(self).map_view().insert(name@, heading),
            !dup ==> final(self).seq_view() == old(self).seq_view().push((name@, heading)),
            dup ==> final(self).seq_view().len() == old(self).seq_view().len(),
    {
        proof {
            lemma_table_map_contains(self.seq_view(), name@);
        }
        let ghost sv = self.seq_view();
        match self.find(name.as_str()) {
            Some(i) => {
                self.entries.remove(i);
                self.entries.push((name, heading));
                proof {
                    assert(self.seq_view() =~= sv.remove(i as int).push((sv[i as int].0, heading)));
                    lemma_table_map_remove(sv, i as int);
                    assert(self.seq_view().drop_last() =~= sv.remove(i as int));
                    lemma_table_map_contains(sv.remove(i as int), sv[i as int].0);
                    assert(forall|j: int|
                        0 <= j < sv.remove(i as int).len() ==> sv.remove(i as int)[j].0
                            != sv[i as int].0);
                    assert(self.map_view() =~= table_map(sv).insert(sv[i as int].0, heading));
                }
                true
            },
            None => {
                self.entries.push((name, heading));
                proof {
                    assert(self.seq_view() =~= sv.push((name@, heading)));
                    assert(self.seq_view().drop_last() =~= sv);
                }
                false
            },
        }
    }
}

/// The bytes that store one table entry: its heading, then its name.
pub open spec fn item_encoding(p: (Seq<char>, AssetEntryHeadingPair)) -> Seq<u8> {
    heading_encoding(p.1) + pascal_string_encoding(p.0)
}

/// The bytes that store a pair sequence, in order and without the count.
pub open spec fn items_encoding(s: Seq<(Seq<char>, AssetEntryHeadingPair)>) -> Seq<u8>
    decreases s.len(),
{
    if s.len() == 0 {
        Seq::empty()
    } else {
        items_encoding(s.drop_last()) + item_encoding(s.last())
    }
}

/// The bytes that store a whole table: a varint count, then the entries.
pub open spec fn entries_encoding(s: Seq<(Seq<char>, AssetEntryHeadingPair)>) -> Seq<u8> {
    varint_encoding(s.len()) + items_encoding(s)
}

/// The encoding of a nonempty sequence starts with its first item.
pub proof fn lemma_items_encoding_first(s: Seq<(Seq<char>, AssetEntryHeadingPair)>)
    requires
        s.len() > 0,
    ensures
        items_encoding(s) == item_encoding(s[0]) + items_encoding(s.drop_first()),
    decreases s.len(),
{
    if s.len() == 1 {
        assert(s.drop_last() =~= Seq::<(Seq<char>, AssetEntryHeadingPair)>::empty());
        assert(s.drop_first() =~= Seq::<(Seq<char>, AssetEntryHeadingPair)>::empty());
        assert(items_encoding(s) =~= item_encoding(s[0]) + items_encoding(s.drop_first()));
    } else {
        lemma_items_encoding_first(s.drop_last());
        assert(s.drop_last().drop_first() =~= s.drop_first().drop_last());
        assert(s.drop_last()[0] == s[0]);
        assert(s.drop_first().last() == s.last());
        assert(items_encoding(s) =~= item_encoding(s[0]) + items_encoding(s.drop_first()));
    }
}

/// Decodes `count` table entries from the front of `s`: the pairs in
/// stream order and the bytes consumed. Any shortfall or malformed name
/// is `Corrupt`: the count has declared more than the input holds.
pub open spec fn parse_entry_items(s: Seq<u8>, count: nat) -> Result<
    (Seq<(Seq<char>, AssetEntryHeadingPair)>, nat),
    ParError,
>
    decreases count,
{
    if count == 0 {
        Ok((Seq::empty(), 0))
    } else {
        match parse_heading(s) {
            Err(_) => Err(ParError::Corrupt),
            Ok((h, hn)) => match parse_pascal_string(s.skip(hn as int)) {
                Err(_) => Err(ParError::Corrupt),
                Ok((name, pn)) => match parse_entry_items(
                    s.skip((hn + pn) as int),
                    (count - 1) as nat,
                ) {
                    Err(e) => Err(e),
                    Ok((rest, k)) => Ok((seq![(name, h)] + rest, hn + pn + k)),
                },
            },
        }
    }
}

/// Decodes a whole table from the front of `s`: a varint count, then that
/// many entries.
pub open spec fn parse_entries(s: Seq<u8>) -> Result<
    (Seq<(Seq<char>, AssetEntryHeadingPair)>, nat),
    ParError,
> {
    match varint_decoded(s) {
        Option::None => Err(ParError::Truncated),
        Option::Some((count, n)) => match parse_entry_items(s.skip(n as int), count) {
            Err(e) => Err(e),
            Ok((pairs, k)) => Ok((pairs, n + k)),
        },
    }
}

/// A successful item parse yields exactly `count` pairs within the input;
/// a count beyond the input's length cannot succeed.
pub proof fn lemma_parse_entry_items_count(s: Seq<u8>, count: nat)
    ensures
        parse_entry_items(s, count) matches Ok((pairs, k)) ==> pairs.len() == count && k <= s.len(),
        count > s.len() ==> parse_entry_items(s, count) == Err::<
            (Seq<(Seq<char>, AssetEntryHeadingPair)>, nat),
            ParError,
        >(ParError::Corrupt),
    decreases count,
{
    if count > 0 {
        match parse_heading(s) {
            Err(_) => {},
            Ok((h, hn)) => {
                crate::varint::lemma_varint_decoded_len(s.skip(hn as int));
                match parse_pascal_string(s.skip(hn as int)) {
                    Err(_) => {},
                    Ok((name, pn)) => {
                        lemma_parse_entry_items_count(
                            s.skip((hn + pn) as int),
                            (count - 1) as nat,
                        );
                    },
                }
            },
        }
    }
}

/// Parsing the encoding of a pair sequence, with anything after it,
/// recovers the pairs and consumes exactly the encoding.
pub proof fn lemma_items_round_trip(s: Seq<(Seq<char>, AssetEntryHeadingPair)>, rest: Seq<u8>)
    ensures
        parse_entry_items(items_encoding(s) + rest, s.len()) == Ok::<_, ParError>(
            (s, items_encoding(s).len()),
        ),
    decreases s.len(),
{
    lemma_auto_spec_u64_to_from_le_bytes();
    if s.len() == 0 {
        assert(s =~= Seq::<(Seq<char>, AssetEntryHeadingPair)>::empty());
    } else {
        lemma_items_encoding_first(s);
        let p0 = s[0];
        let tail_enc = items_encoding(s.drop_first()) + rest;
        let full = items_encoding(s) + rest;
        assert(full =~= heading_encoding(p0.1) + (pascal_string_encoding(p0.0) + tail_enc));
        lemma_heading_round_trip(p0.1, pascal_string_encoding(p0.0) + tail_enc);
        assert(full.skip(16) =~= pascal_string_encoding(p0.0) + tail_enc);
        lemma_pascal_string_round_trip(p0.0, tail_enc);
        let pn = pascal_string_encoding(p0.0).len();
        assert(full.skip((16 + pn) as int) =~= tail_enc);
        lemma_items_round_trip(s.drop_first(), rest);
        assert(seq![(p0.0, p0.1)] + s.drop_first() =~= s);
    }
}

/// Parsing the encoding of a whole table, with anything after it, recovers
/// the pairs and consumes exactly the encoding.
pub proof fn lemma_entries_round_trip(s: Seq<(Seq<char>, AssetEntryHeadingPair)>, rest: Seq<u8>)
    ensures
        parse_entries(entries_encoding(s) + rest) == Ok::<_, ParError>(
            (s, entries_encoding(s).len()),
        ),
{
    let full = entries_encoding(s) + rest;
    assert(full =~= varint_encoding(s.len()) + (items_encoding(s) + rest));
    crate::varint::lemma_varint_round_trip(s.len(), items_encoding(s) + rest);
    let n = varint_encoding(s.len()).len();
    assert(full.skip(n as int) =~= items_encoding(s) + rest);
    lemma_items_round_trip(s, rest);
}

/// Appends the encoding of the whole table to `out`: the entry count as a
/// varint, then every entry's heading and name in insertion order.
pub fn write_asset_entries(entries: &EntryTable, out: &mut Vec<u8>)
    ensures
        final(out)@ == old(out)@ + entries_encoding(entries.seq_view()),
{
    let ghost sv = entries.seq_view();
    let count = entries.len();
    VariableUInt(count as u64).write(out);
    let ghost head = old(out)@ + varint_encoding(sv.len());
    proof {
        assert(sv.take(0) =~= Seq::<(Seq<char>, AssetEntryHeadingPair)>::empty());
        assert(out@ =~= head + items_encoding(sv.take(0)));
    }
    let mut i: usize = 0;
    while i < count
        invariant
            i <= count,
            count == sv.len(),
            entries.seq_view() == sv,
            head == old(out)@ + varint_encoding(sv.len()),
            out@ == head + items_encoding(sv.take(i as int)),
        decreases count - i,
    {
        let ghost before = out@;
        entries.heading_at(i).write(out);
        write_pascal_string(entries.name_at(i).as_str(), out);
        proof {
            assert(sv.take(i + 1).drop_last() =~= sv.take(i as int));
            assert(sv.take(i + 1).last() == sv[i as int]);
            assert(out@ =~= head + items_encoding(sv.take(i + 1)));
        }
        i += 1;
    }
    proof {
        assert(sv.take(count as int) =~= sv);
        assert(out@ =~= old(out)@ + entries_encoding(sv));
    }
}

/// Decodes a whole table from `bytes` starting at `pos`. Duplicate names
/// in the stream collapse to one entry carrying the last heading read; a
/// stream without duplicates is recovered exactly, in order.
pub fn read_asset_entries(bytes: &[u8], pos: usize) -> (r: Result<(EntryTable, usize), ParError>)
    requires
        pos <= bytes@.len(),
    ensures
        match parse_entries(bytes@.skip(pos as int)) {
            Ok((pairs, n)) => r matches Ok(t) && t.0.wf() && t.0.map_view() == table_map(pairs)
                && t.1 == pos + n && t.1 <= bytes@.len() && (unique_names(pairs)
                ==> t.0.seq_view() == pairs),
            Err(e) => r == Err::<(EntryTable, usize), ParError>(e),
        },
{
    let ghost s = bytes@.skip(pos as int);
    let blen: usize = bytes.len();
    match VariableUInt::read(bytes, pos) {
        Err(e) => {
            proof {
                match varint_decoded(s) {
                    Option::Some((count, n)) => {
                        assert(count > u64::MAX);
                        crate::varint::lemma_varint_decoded_len(s);
                        assert(s.skip(n as int).len() <= bytes@.len());
                        assert(bytes@.len() <= usize::MAX);
                        assert(count > s.skip(n as int).len());
                        lemma_parse_entry_items_count(s.skip(n as int), count);
                    },
                    Option::None => {},
                }
            }
            Err(e)
        },
        Ok((VariableUInt(count), p1)) => {
            let mut table = EntryTable::new();
            let mut cur: usize = p1;
            let mut i: u64 = 0;
            let ghost mut pairs_done: Seq<(Seq<char>, AssetEntryHeadingPair)> = Seq::empty();
            proof {
                crate::varint::lemma_varint_decoded_len(s);
                assert(s.skip((p1 - pos) as int) =~= bytes@.skip(p1 as int));
                match parse_entry_items(bytes@.skip(p1 as int), count as nat) {
                    Ok((rest, k)) => {
                        assert(Seq::<(Seq<char>, AssetEntryHeadingPair)>::empty() + rest =~= rest);
                    },
                    Err(_) => {},
                }
            }
            while i < count
                invariant
                    i <= count,
                    pos <= cur <= bytes@.len(),
                    bytes@.len() <= usize::MAX,
                    table.wf(),
                    table.map_view() == table_map(pairs_done),
                    unique_names(pairs_done) ==> table.seq_view() == pairs_done,
                    parse_entries(bytes@.skip(pos as int)) == shifted_items_result(
                        parse_entry_items(bytes@.skip(cur as int), (count - i) as nat),
                        pairs_done,
                        (cur - pos) as nat,
                    ),
                decreases count - i,
            {
                let ghost scur = bytes@.skip(cur as int);
                let (heading, c2) = match AssetEntryHeadingPair::read(bytes, cur) {
                    Ok(v) => v,
                    Err(_) => {
                        return Err(ParError::Corrupt);
                    },
                };
                proof {
                    assert(scur.skip(16) =~= bytes@.skip(c2 as int));
                }
                let (name, c3) = match read_pascal_string(bytes, c2) {
                    Ok(v) => v,
                    Err(_) => {
                        return Err(ParError::Corrupt);
                    },
                };
                let ghost pair = (name@, heading);
                proof {
                    match parse_pascal_string(bytes@.skip(c2 as int)) {
                        Ok((nm, pn)) => {
                            crate::varint::lemma_varint_decoded_len(bytes@.skip(c2 as int));
                            assert(c3 <= bytes@.len());
                            assert(scur.skip((16 + pn) as int) =~= bytes@.skip((c2 + pn) as int));
                        },
                        Err(_) => {},
                    }
                }
                let ghost gm = table.map_view();
                let ghost gs = table.seq_view();
                table.insert(name, heading);
                proof {
                    let pp = pairs_done.push(pair);
                    assert(table_map(pp) == table_map(pairs_done).insert(pair.0, pair.1)) by {
                        assert(pp.drop_last() =~= pairs_done);
                        assert(pp.last() == pair);
                    }
                    if unique_names(pp) {
                        assert forall|a: int, b: int|
                            0 <= a < b < pairs_done.len() implies pairs_done[a].0
                            != pairs_done[b].0 by {
                            assert(pp[a] == pairs_done[a]);
                            assert(pp[b] == pairs_done[b]);
                        }
                        assert(unique_names(pairs_done));
                        assert forall|j: int|
                            0 <= j < pairs_done.len() implies pairs_done[j].0 != pair.0 by {
                            assert(pp[j] == pairs_done[j]);
                            assert(pp[pairs_done.len() as int] == pair);
                        }
                        lemma_table_map_contains(pairs_done, pair.0);
                        assert(!gm.contains_key(pair.0));
                        assert(table.seq_view() == gs.push(pair));
                    }
                    lemma_shifted_step(
                        parse_entry_items(bytes@.skip(c3 as int), (count - i - 1) as nat),
                        pairs_done,
                        pair,
                        (cur - pos) as nat,
                        (c3 - cur) as nat,
                    );
                    pairs_done = pp;
                }
                cur = c3;
                i = i + 1;
            }
            proof {
                assert(i == count);
                assert(parse_entry_items(bytes@.skip(cur as int), (count - i) as nat)
                    == Ok::<_, ParError>(
                    (Seq::<(Seq<char>, AssetEntryHeadingPair)>::empty(), 0 as nat),
                ));
                assert(pairs_done + Seq::<(Seq<char>, AssetEntryHeadingPair)>::empty()
                    =~= pairs_done);
                assert(parse_entries(bytes@.skip(pos as int)) == Ok::<_, ParError>(
                    (pairs_done, ((cur - pos) as nat)),
                ));
            }
            Ok((table, cur))
        },
    }
}

/// Last write wins: after a pair is appended, the keyed reading of the
/// sequence returns exactly that pair's heading for its name, whether or
/// not the name occurred before.
pub proof fn lemma_last_write_wins(
    s: Seq<(Seq<char>, AssetEntryHeadingPair)>,
    n: Seq<char>,
    e: AssetEntryHeadingPair,
)
    ensures
        table_map(s.push((n, e))).contains_key(n),
        table_map(s.push((n, e)))[n] == e,
{
    assert(s.push((n, e)).drop_last() =~= s);
    assert(s.push((n, e)).last() == (n, e));
}

/// Serialization is stable over a parse: the table parsed from a written
/// table re-serializes to the same bytes.
pub proof fn lemma_reserialize_identical(s: Seq<(Seq<char>, AssetEntryHeadingPair)>)
    ensures
        parse_entries(entries_encoding(s)) matches Ok(p) && entries_encoding(p.0)
            == entries_encoding(s),
{
    lemma_entries_round_trip(s, Seq::empty());
    assert(entries_encoding(s) + Seq::<u8>::empty() =~= entries_encoding(s));
}

/// Entry items fail only as `Corrupt`: the count declared more than the
/// input holds.
proof fn lemma_parse_entry_items_error_kind(s: Seq<u8>, count: nat)
    ensures
        parse_entry_items(s, count) matches Err(e) ==> e == ParError::Corrupt,
    decreases count,
{
    if count > 0 {
        match parse_heading(s) {
            Err(_) => {},
            Ok((h, hn)) => {
                match parse_pascal_string(s.skip(hn as int)) {
                    Err(_) => {},
                    Ok((name, pn)) => {
                        lemma_parse_entry_items_error_kind(
                            s.skip((hn + pn) as int),
                            (count - 1) as nat,
                        );
                    },
                }
            },
        }
    }
}

/// A table parse fails only as `Truncated` or `Corrupt`.
pub proof fn lemma_parse_entries_error_kind(s: Seq<u8>)
    ensures
        parse_entries(s) matches Err(e) ==> e == ParError::Truncated || e == ParError::Corrupt,
{
    match varint_decoded(s) {
        Option::Some((count, n)) => {
            lemma_parse_entry_items_error_kind(s.skip(n as int), count);
        },
        Option::None => {},
    }
}

/// A parse result for the remaining items, shifted under the pairs and
/// bytes already consumed before it.
pub open spec fn shifted_items_result(
    r: Result<(Seq<(Seq<char>, AssetEntryHeadingPair)>, nat), ParError>,
    prefix: Seq<(Seq<char>, AssetEntryHeadingPair)>,
    consumed: nat,
) -> Result<(Seq<(Seq<char>, AssetEntryHeadingPair)>, nat), ParError> {
    match r {
        Ok((rest, k)) => Ok((prefix + rest, consumed + k)),
        Err(e) => Err(e),
    }
}

proof fn lemma_shifted_step(
    r: Result<(Seq<(Seq<char>, AssetEntryHeadingPair)>, nat), ParError>,
    prefix: Seq<(Seq<char>, AssetEntryHeadingPair)>,
    pair: (Seq<char>, AssetEntryHeadingPair),
    consumed: nat,
    step: nat,
)
    ensures
        shifted_items_result(
            match r {
                Ok((rest, k)) => Ok((seq![pair] + rest, step + k)),
                Err(e) => Err(e),
            },
            prefix,
            consumed,
        ) == shifted_items_result(r, prefix.push(pair), consumed + step),
{
    match r {
        Ok((rest, k)) => {
            assert(prefix + (seq![pair] + rest) =~= prefix.push(pair) + rest);
        },
        Err(_) => {},
    }
}

} // verus!
