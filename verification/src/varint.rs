//! Variable-length unsigned integer codec.
//!
//! An unsigned integer is stored as a sequence of bytes, least-significant
//! group first. Every byte carries seven payload bits; its high bit is set
//! exactly when more bytes follow. The encoding of zero is a single zero
//! byte, and every value has exactly one encoding of this shape with a
//! terminating (high-bit-clear) final byte.

use vstd::prelude::*;

use crate::ParError;

verus! {

/// The byte sequence that encodes `v`: seven payload bits per byte,
/// least-significant group first, high bit set on all but the last byte.
pub open spec fn varint_encoding(v: nat) -> Seq<u8>
    decreases v,
{
    if v < 0x80 {
        seq![v as u8]
    } else {
        seq![(v % 0x80 + 0x80) as u8] + varint_encoding(v / 0x80)
    }
}

/// Decodes a varint from the front of `s`: the value and the number of
/// bytes consumed, or `None` when `s` ends before a terminating byte.
pub open spec fn varint_decoded(s: Seq<u8>) -> Option<(nat, nat)>
    decreases s.len(),
{
    if s.len() == 0 {
        None
    } else if s[0] < 0x80 {
        Some((s[0] as nat, 1))
    } else {
        match varint_decoded(s.skip(1)) {
            Some((v, n)) => Some(((s[0] - 0x80) as nat + v * 0x80, n + 1)),
            None => None,
        }
    }
}

/// A decoder never consumes more bytes than the input holds.
pub proof fn lemma_varint_decoded_len(s: Seq<u8>)
    ensures
        match varint_decoded(s) {
            Some((v, n)) => 1 <= n <= s.len(),
            None => true,
        },
    decreases s.len(),
{
    if s.len() > 0 && s[0] >= 0x80 {
        lemma_varint_decoded_len(s.skip(1));
    }
}

/// Decoding inverts encoding: a varint followed by anything decodes to the
/// encoded value, consuming exactly the encoding.
pub proof fn lemma_varint_round_trip(v: nat, rest: Seq<u8>)
    ensures
        varint_decoded(varint_encoding(v) + rest) == Some((v, varint_encoding(v).len())),
    decreases v,
{
    let s = varint_encoding(v) + rest;
    if v < 0x80 {
        assert(s.skip(1) =~= rest);
    } else {
        lemma_varint_round_trip(v / 0x80, rest);
        assert(s.skip(1) =~= varint_encoding(v / 0x80) + rest);
        assert((s[0] - 0x80) as nat + (v / 0x80) * 0x80 == v) by (nonlinear_arith)
            requires
                s[0] == v % 0x80 + 0x80,
        ;
    }
}

/// An unsigned integer together with its variable-length byte encoding.
#[derive(Debug, Clone, Copy, PartialEq, Eq, Structural)]
pub struct VariableUInt(pub u64);

impl VariableUInt {
    /// Appends the encoding of the held value to `out`.
    pub fn write(&self, out: &mut Vec<u8>)
        ensures
            final(out)@ == old(out)@ + varint_encoding(self.0 as nat),
    {
        let mut v: u64 = self.0;
        loop
            invariant
                out@ + varint_encoding(v as nat) == old(out)@ + varint_encoding(self.0 as nat),
            decreases v,
        {
            if v < 0x80 {
                out.push(v as u8);
                proof {
                    assert(out@ =~= old(out)@ + varint_encoding(self.0 as nat));
                }
                return ;
            } else {
                let b: u8 = (v % 0x80) as u8 + 0x80;
                let ghost prev = out@;
                let ghost vprev = v as nat;
                out.push(b);
                v = v / 0x80;
                proof {
                    assert(prev + varint_encoding(vprev) =~= out@ + varint_encoding(v as nat));
                }
            }
        }
    }

    /// Decodes a varint from `bytes` starting at `pos`; returns the value
    /// and the position just past it. Fails with `Truncated` when the input
    /// ends before a terminating byte, and with `Corrupt` when the decoded
    /// value does not fit in 64 bits.
    pub fn read(bytes: &[u8], pos: usize) -> (r: Result<(VariableUInt, usize), ParError>)
        requires
            pos <= bytes@.len(),
        ensures
            match varint_decoded(bytes@.skip(pos as int)) {
                Some((v, n)) => if v <= u64::MAX {
                    r == Ok::<(VariableUInt, usize), ParError>(
                        (VariableUInt(v as u64), (pos + n) as usize),
                    )
                } else {
                    r == Err::<(VariableUInt, usize), ParError>(ParError::Corrupt)
                },
                None => r == Err::<(VariableUInt, usize), ParError>(ParError::Truncated),
            },
        decreases bytes@.len() - pos,
    {
        proof {
            lemma_varint_decoded_len(bytes@.skip(pos as int));
        }
        if pos >= bytes.len() {
            return Err(ParError::Truncated);
        }
        let b: u8 = bytes[pos];
        if b < 0x80 {
            Ok((VariableUInt(b as u64), pos + 1))
        } else {
            proof {
                assert(bytes@.skip(pos as int).skip(1) =~= bytes@.skip(pos as int + 1));
            }
            match Self::read(bytes, pos + 1) {
                Ok((VariableUInt(v), np)) => {
                    let low: u64 = (b - 0x80) as u64;
                    if v <= (u64::MAX - low) / 0x80 {
                        proof {
                            assert(low + v * 0x80 <= u64::MAX) by (nonlinear_arith)
                                requires
                                    v <= (u64::MAX - low) / 0x80,
                                    low < 0x80,
                            ;
                        }
                        Ok((VariableUInt(low + v * 0x80), np))
                    } else {
                        proof {
                            assert(low + v * 0x80 > u64::MAX) by (nonlinear_arith)
                                requires
                                    v > (u64::MAX - low) / 0x80,
                                    low < 0x80,
                            ;
                        }
                        Err(ParError::Corrupt)
                    }
                },
                Err(e) => Err(e),
            }
        }
    }
}

} // verus!
