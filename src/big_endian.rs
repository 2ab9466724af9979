//! Big-endian unsigned integers stored as their on-disk bytes.
//!
//! Each wrapper holds exactly the bytes that appear in the archive, most
//! significant byte first, so a value can sit at any byte offset of a record
//! and reads the same on every host.
use vstd::prelude::*;

verus! {

/// The value of two big-endian bytes.
pub open spec fn be16(b: Seq<u8>) -> int {
    b[0] as int * 0x100 + b[1] as int
}

/// The value of four big-endian bytes.
pub open spec fn be32(b: Seq<u8>) -> int {
    b[0] as int * 0x100_0000 + b[1] as int * 0x1_0000 + b[2] as int * 0x100 + b[3] as int
}

/// The value of eight big-endian bytes.
pub open spec fn be64(b: Seq<u8>) -> int {
    be32(b.subrange(0, 4)) * 0x1_0000_0000 + be32(b.subrange(4, 8))
}

/// The two bytes that encode `v`, most significant first.
pub open spec fn be16_bytes(v: u16) -> Seq<u8> {
    seq![(v / 0x100) as u8, (v % 0x100) as u8]
}

/// The four bytes that encode `v`, most significant first.
pub open spec fn be32_bytes(v: u32) -> Seq<u8> {
    seq![
        (v / 0x100_0000) as u8,
        (v / 0x1_0000 % 0x100) as u8,
        (v / 0x100 % 0x100) as u8,
        (v % 0x100) as u8,
    ]
}

/// The eight bytes that encode `v`, most significant first.
pub open spec fn be64_bytes(v: u64) -> Seq<u8> {
    be32_bytes((v / 0x1_0000_0000) as u32) + be32_bytes((v % 0x1_0000_0000) as u32)
}

/// Encoding a 16-bit value and reading it back gives the value.
pub proof fn lemma_be16_value(v: u16)
    ensures
        be16_bytes(v).len() == 2,
        be16(be16_bytes(v)) == v,
{
}

/// Reading two bytes and encoding the value gives the bytes.
pub proof fn lemma_be16_bytes(b: Seq<u8>)
    requires
        b.len() == 2,
    ensures
        0 <= be16(b) <= u16::MAX,
        be16_bytes(be16(b) as u16) == b,
{
    assert(be16_bytes(be16(b) as u16) =~= b);
}

/// Encoding a 32-bit value and reading it back gives the value.
pub proof fn lemma_be32_value(v: u32)
    ensures
        be32_bytes(v).len() == 4,
        be32(be32_bytes(v)) == v,
{
    assert(((v / 0x100_0000) as u8) as int * 0x100_0000 + ((v / 0x1_0000 % 0x100) as u8) as int
        * 0x1_0000 + ((v / 0x100 % 0x100) as u8) as int * 0x100 + ((v % 0x100) as u8) as int
        == v) by (nonlinear_arith);
}

/// Reading four bytes and encoding the value gives the bytes.
pub proof fn lemma_be32_bytes(b: Seq<u8>)
    requires
        b.len() == 4,
    ensures
        0 <= be32(b) <= u32::MAX,
        be32_bytes(be32(b) as u32) == b,
{
    let (b0, b1, b2, b3) = (b[0], b[1], b[2], b[3]);
    let w = b0 as int * 0x100_0000 + b1 as int * 0x1_0000 + b2 as int * 0x100 + b3 as int;
    assert(0 <= w <= u32::MAX) by (nonlinear_arith)
        requires
            w == b0 as int * 0x100_0000 + b1 as int * 0x1_0000 + b2 as int * 0x100 + b3 as int,
    ;
    assert(w / 0x100_0000 == b0 && w / 0x1_0000 % 0x100 == b1 && w / 0x100 % 0x100 == b2 && w
        % 0x100 == b3) by (nonlinear_arith)
        requires
            w == b0 as int * 0x100_0000 + b1 as int * 0x1_0000 + b2 as int * 0x100 + b3 as int,
    ;
    assert(be32_bytes(be32(b) as u32) =~= b);
}

/// Encoding a 64-bit value and reading it back gives the value.
pub proof fn lemma_be64_value(v: u64)
    ensures
        be64_bytes(v).len() == 8,
        be64(be64_bytes(v)) == v,
{
    let hi = (v / 0x1_0000_0000) as u32;
    let lo = (v % 0x1_0000_0000) as u32;
    lemma_be32_value(hi);
    lemma_be32_value(lo);
    assert(be64_bytes(v).subrange(0, 4) =~= be32_bytes(hi));
    assert(be64_bytes(v).subrange(4, 8) =~= be32_bytes(lo));
}

/// Reading eight bytes and encoding the value gives the bytes.
pub proof fn lemma_be64_bytes(b: Seq<u8>)
    requires
        b.len() == 8,
    ensures
        0 <= be64(b) <= u64::MAX,
        be64_bytes(be64(b) as u64) == b,
{
    let h = b.subrange(0, 4);
    let l = b.subrange(4, 8);
    lemma_be32_bytes(h);
    lemma_be32_bytes(l);
    let w = be32(h) * 0x1_0000_0000 + be32(l);
    assert(0 <= w <= u64::MAX && w / 0x1_0000_0000 == be32(h) && w % 0x1_0000_0000 == be32(l))
        by (nonlinear_arith)
        requires
            w == be32(h) * 0x1_0000_0000 + be32(l),
            0 <= be32(h) <= u32::MAX,
            0 <= be32(l) <= u32::MAX,
    ;
    assert(be64_bytes(be64(b) as u64) =~= h + l);
    assert(b =~= h + l);
}

/// A big-endian unsigned 16-bit integer.
#[derive(Debug, Clone, Copy, PartialEq, Eq, Hash)]
pub struct U16 {
    bytes: [u8; 2],
}

impl View for U16 {
    type V = u16;

    closed spec fn view(&self) -> u16 {
        be16(self.bytes@) as u16
    }
}

impl U16 {
    /// Encodes `value`.
    pub fn new(value: u16) -> (r: U16)
        ensures
            r@ == value,
    {
        let r = U16 { bytes: [(value / 0x100) as u8, (value % 0x100) as u8] };
        assert(r.bytes@ =~= be16_bytes(value));
        r
    }

    /// The encoded value.
    pub fn get(self) -> (r: u16)
        ensures
            r == self@,
    {
        self.bytes[0] as u16 * 0x100 + self.bytes[1] as u16
    }

    /// Replaces the encoded value by `value`.
    pub fn set(&mut self, value: u16)
        ensures
            final(self)@ == value,
    {
        *self = U16::new(value);
    }

    /// Reads the two bytes at `pos`.
    pub fn read(bytes: &[u8], pos: usize) -> (r: U16)
        requires
            pos + 2 <= bytes@.len(),
        ensures
            r@ == be16(bytes@.subrange(pos as int, pos + 2)),
    {
        let r = U16 { bytes: [bytes[pos], bytes[pos + 1]] };
        proof {
            lemma_be16_bytes(bytes@.subrange(pos as int, pos + 2));
        }
        r
    }

    /// Appends the two bytes to `out`.
    pub fn write(self, out: &mut Vec<u8>)
        ensures
            final(out)@ == old(out)@ + be16_bytes(self@),
    {
        proof {
            lemma_be16_bytes(self.bytes@);
        }
        out.push(self.bytes[0]);
        out.push(self.bytes[1]);
        assert(out@ =~= old(out)@ + be16_bytes(self@));
    }
}

/// A big-endian unsigned 32-bit integer.
#[derive(Debug, Clone, Copy, PartialEq, Eq, Hash)]
pub struct U32 {
    bytes: [u8; 4],
}

impl View for U32 {
    type V = u32;

    closed spec fn view(&self) -> u32 {
        be32(self.bytes@) as u32
    }
}

impl U32 {
    /// Encodes `value`.
    pub fn new(value: u32) -> (r: U32)
        ensures
            r@ == value,
    {
        let r = U32 {
            bytes: [
                (value / 0x100_0000) as u8,
                (value / 0x1_0000 % 0x100) as u8,
                (value / 0x100 % 0x100) as u8,
                (value % 0x100) as u8,
            ],
        };
        proof {
            lemma_be32_value(value);
        }
        assert(r.bytes@ =~= be32_bytes(value));
        r
    }

    /// The encoded value.
    pub fn get(self) -> (r: u32)
        ensures
            r == self@,
    {
        self.bytes[0] as u32 * 0x100_0000 + self.bytes[1] as u32 * 0x1_0000 + self.bytes[2] as u32
            * 0x100 + self.bytes[3] as u32
    }

    /// Replaces the encoded value by `value`.
    pub fn set(&mut self, value: u32)
        ensures
            final(self)@ == value,
    {
        *self = U32::new(value);
    }

    /// Reads the four bytes at `pos`.
    pub fn read(bytes: &[u8], pos: usize) -> (r: U32)
        requires
            pos + 4 <= bytes@.len(),
        ensures
            r@ == be32(bytes@.subrange(pos as int, pos + 4)),
    {
        let r = U32 { bytes: [bytes[pos], bytes[pos + 1], bytes[pos + 2], bytes[pos + 3]] };
        proof {
            lemma_be32_bytes(bytes@.subrange(pos as int, pos + 4));
        }
        assert(r.bytes@ =~= bytes@.subrange(pos as int, pos + 4));
        r
    }

    /// Appends the four bytes to `out`.
    pub fn write(self, out: &mut Vec<u8>)
        ensures
            final(out)@ == old(out)@ + be32_bytes(self@),
    {
        proof {
            lemma_be32_bytes(self.bytes@);
        }
        out.push(self.bytes[0]);
        out.push(self.bytes[1]);
        out.push(self.bytes[2]);
        out.push(self.bytes[3]);
        assert(out@ =~= old(out)@ + be32_bytes(self@));
    }
}

/// A big-endian unsigned 64-bit integer.
#[derive(Debug, Clone, Copy, PartialEq, Eq, Hash)]
pub struct U64 {
    hi: U32,
    lo: U32,
}

impl View for U64 {
    type V = u64;

    closed spec fn view(&self) -> u64 {
        (self.hi@ as int * 0x1_0000_0000 + self.lo@ as int) as u64
    }
}

impl U64 {
    /// Encodes `value`.
    pub fn new(value: u64) -> (r: U64)
        ensures
            r@ == value,
    {
        U64 {
            hi: U32::new((value / 0x1_0000_0000) as u32),
            lo: U32::new((value % 0x1_0000_0000) as u32),
        }
    }

    /// The encoded value.
    pub fn get(self) -> (r: u64)
        ensures
            r == self@,
    {
        self.hi.get() as u64 * 0x1_0000_0000 + self.lo.get() as u64
    }

    /// Replaces the encoded value by `value`.
    pub fn set(&mut self, value: u64)
        ensures
            final(self)@ == value,
    {
        *self = U64::new(value);
    }

    /// Reads the eight bytes at `pos`.
    pub fn read(bytes: &[u8], pos: usize) -> (r: U64)
        requires
            pos + 8 <= bytes@.len(),
        ensures
            r@ == be64(bytes@.subrange(pos as int, pos + 8)),
    {
        let len = bytes.len();
        assert(pos + 4 < len);
        let r = U64 { hi: U32::read(bytes, pos), lo: U32::read(bytes, pos + 4) };
        let ghost b = bytes@.subrange(pos as int, pos + 8);
        assert(b.subrange(0, 4) =~= bytes@.subrange(pos as int, pos + 4));
        assert(b.subrange(4, 8) =~= bytes@.subrange(pos + 4, pos + 8));
        proof {
            lemma_be64_bytes(b);
        }
        r
    }

    /// Appends the eight bytes to `out`.
    pub fn write(self, out: &mut Vec<u8>)
        ensures
            final(out)@ == old(out)@ + be64_bytes(self@),
    {
        let ghost v = self@;
        proof {
            assert(v / 0x1_0000_0000 == self.hi@ && v % 0x1_0000_0000 == self.lo@) by (nonlinear_arith)
                requires
                    v == self.hi@ as int * 0x1_0000_0000 + self.lo@ as int,
            ;
        }
        self.hi.write(out);
        self.lo.write(out);
        assert(out@ =~= old(out)@ + be64_bytes(self@));
    }
}

} // verus!
