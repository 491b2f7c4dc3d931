//! Big-endian 32-bit words and the tagged tokens of the structure section.

use vstd::prelude::*;

verus! {

/// Tag of a token that opens a node; a NUL-terminated, word-padded name follows.
pub const TOKEN_NODE_BEGIN: u32 = 1;

/// Tag of a token that closes the node opened by the matching `TOKEN_NODE_BEGIN`.
pub const TOKEN_NODE_END: u32 = 2;

/// Tag of a token that starts a property record (value length, name offset, value).
pub const TOKEN_PROP: u32 = 3;

/// Tag of a token with no payload and no effect.
pub const TOKEN_NOP: u32 = 4;

/// Tag of the token that ends the whole structure section.
pub const TOKEN_END: u32 = 9;

/// The unsigned value that four big-endian bytes denote.
pub open spec fn be32(b: Seq<u8>) -> u32
    recommends
        b.len() == 4,
{
    (b[0] * 0x100_0000 + b[1] * 0x1_0000 + b[2] * 0x100 + b[3]) as u32
}

/// The big-endian word stored at byte offset `pos` of `s`.
pub open spec fn word_at(s: Seq<u8>, pos: int) -> u32
    recommends
        0 <= pos && pos + 4 <= s.len(),
{
    be32(s.subrange(pos, pos + 4))
}

/// How many trailing padding NULs the final word of a name contributes (1 to 4).
pub open spec fn spec_tail_zeros(b: Seq<u8>) -> int
    recommends
        b.len() == 4,
{
    if b[0] == 0 {
        4
    } else if b[1] == 0 {
        3
    } else if b[2] == 0 {
        2
    } else {
        1
    }
}

/// A 32-bit field stored as four big-endian bytes, kept in wire order.
#[derive(Clone, Copy, Debug)]
pub struct U32BigEndian {
    bytes: [u8; 4],
}

impl U32BigEndian {
    /// The bytes in wire order.
    pub closed spec fn spec_bytes(&self) -> Seq<u8> {
        self.bytes@
    }

    /// The value the four bytes denote.
    pub open spec fn spec_value(&self) -> u32 {
        be32(self.spec_bytes())
    }

    /// Packs a native value into big-endian byte order.
    pub fn from_u32(val: u32) -> (r: Self)
        ensures
            r.spec_bytes().len() == 4,
            r.spec_value() == val,
    {
        let b0: u8 = (val / 0x100_0000) as u8;
        let b1: u8 = ((val / 0x1_0000) % 0x100) as u8;
        let b2: u8 = ((val / 0x100) % 0x100) as u8;
        let b3: u8 = (val % 0x100) as u8;
        let r = U32BigEndian { bytes: [b0, b1, b2, b3] };
        proof {
            assert(val == (val / 0x100_0000) * 0x100_0000 + ((val / 0x1_0000) % 0x100) * 0x1_0000
                + ((val / 0x100) % 0x100) * 0x100 + val % 0x100) by (nonlinear_arith);
        }
        r
    }

    /// Unpacks the big-endian bytes into a native value.
    pub fn into_u32(self) -> (r: u32)
        ensures
            r == self.spec_value(),
    {
        let b = self.bytes;
        b[0] as u32 * 0x100_0000 + b[1] as u32 * 0x1_0000 + b[2] as u32 * 0x100 + b[3] as u32
    }

    /// Reads the four bytes starting at `pos`.
    pub fn read(s: &[u8], pos: usize) -> (r: Self)
        requires
            pos + 4 <= s@.len(),
        ensures
            r.spec_bytes() == s@.subrange(pos as int, pos as int + 4),
    {
        let r = U32BigEndian { bytes: [s[pos], s[pos + 1], s[pos + 2], s[pos + 3]] };
        proof {
            assert(r.spec_bytes() =~= s@.subrange(pos as int, pos as int + 4));
        }
        r
    }
}

/// One word of the structure section: a token tag, or part of a name or value.
#[derive(Clone, Copy, Debug)]
pub struct StructureBlock(pub U32BigEndian);

impl StructureBlock {
    /// The word's four bytes in wire order.
    pub open spec fn spec_bytes(&self) -> Seq<u8> {
        self.0.spec_bytes()
    }

    /// Reads the word stored at byte offset `pos` of `s`.
    pub fn read(s: &[u8], pos: usize) -> (r: Self)
        requires
            pos + 4 <= s@.len(),
        ensures
            r.spec_bytes() == s@.subrange(pos as int, pos as int + 4),
    {
        StructureBlock(U32BigEndian::read(s, pos))
    }

    /// The value of the word read as a big-endian integer.
    pub fn into_u32(self) -> (r: u32)
        ensures
            r == be32(self.spec_bytes()),
    {
        self.0.into_u32()
    }

    /// Whether a NUL-terminated string ends in this word: its last byte is NUL.
    pub fn is_end_of_str(&self) -> (r: bool)
        ensures
            r == (self.spec_bytes()[3] == 0),
    {
        self.0.into_u32() % 0x100 == 0
    }

    /// How many trailing NULs this word contributes to a name's padding.
    pub fn str_tail_zero(&self) -> (r: usize)
        ensures
            r == spec_tail_zeros(self.spec_bytes()),
    {
        let v = self.0.into_u32();
        if v / 0x100_0000 == 0 {
            4
        } else if (v / 0x1_0000) % 0x100 == 0 {
            3
        } else if (v / 0x100) % 0x100 == 0 {
            2
        } else {
            1
        }
    }
}

} // verus!
