//! The compression index: where each compressed block of the data section
//! starts, and how long it is.
//!
//! Blocks are grouped in runs of sixteen. A run stores the absolute offset of
//! its first block and, for each block, its compressed length minus one, so
//! finding a block adds at most fifteen lengths whatever the archive's size.
use vstd::prelude::*;

use crate::big_endian::{be16, be64, lemma_be16_bytes, lemma_be64_bytes, U16, U64};

verus! {

/// The size of a block once decompressed.
pub const COMPRESSED_BLOCK_SIZE: usize = 64 * 1024;

/// The number of blocks in each run.
pub const ENTRIES_PER_OFFSETRECORD: usize = 16;

/// A run of blocks as plain values.
#[verifier::ext_equal]
pub struct RunView {
    /// The offset of the run's first block in the compressed stream.
    pub base_offset: u64,
    /// The stored length of each block: its compressed length minus one.
    pub sizes: Seq<u16>,
}

impl RunView {
    /// The compressed length of block `slot`.
    pub open spec fn block_size(self, slot: int) -> int {
        self.sizes[slot] + 1
    }

    /// The total compressed length of the blocks before `slot`.
    pub open spec fn prefix(self, slot: int) -> int
        decreases slot,
    {
        if slot <= 0 {
            0
        } else {
            self.prefix(slot - 1) + self.block_size(slot - 1)
        }
    }

    /// Where block `slot` starts and how long it is, or `None` where its
    /// offset does not fit in 64 bits.
    pub open spec fn locate(self, slot: int) -> Option<(u64, u32)> {
        let start = self.base_offset + self.prefix(slot);
        if start <= u64::MAX {
            Some((start as u64, self.block_size(slot) as u32))
        } else {
            None
        }
    }
}

/// The run that the forty bytes `b` encode.
pub open spec fn run_of(b: Seq<u8>) -> RunView {
    RunView {
        base_offset: be64(b.subrange(0, 8)) as u64,
        sizes: Seq::new(16, |i: int| be16(b.subrange(8 + 2 * i, 10 + 2 * i)) as u16),
    }
}

/// One run of sixteen blocks.
#[derive(Debug, Clone, Copy, PartialEq, Eq, Hash)]
pub struct CompressionOffsetRecord {
    base_offset: U64,
    size: [U16; 16],
}

impl View for CompressionOffsetRecord {
    type V = RunView;

    closed spec fn view(&self) -> RunView {
        RunView { base_offset: self.base_offset@, sizes: self.size@.map_values(|s: U16| s@) }
    }
}

impl CompressionOffsetRecord {
    /// The number of blocks in a run.
    pub const ENTRIES: usize = 16;

    /// The encoded length of a record.
    pub const LEN: usize = 40;

    /// A run whose first block starts at `base_offset` and whose blocks have
    /// the stored lengths `sizes` (each one less than the compressed length).
    pub fn new(base_offset: u64, sizes: [u16; 16]) -> (r: CompressionOffsetRecord)
        ensures
            r@ == (RunView { base_offset, sizes: sizes@ }),
    {
        let mut size = [U16::new(0); 16];
        let mut i: usize = 0;
        while i < 16
            invariant
                i <= 16,
                forall|j: int| 0 <= j < i ==> #[trigger] size@[j]@ == sizes@[j],
            decreases 16 - i,
        {
            size[i] = U16::new(sizes[i]);
            i += 1;
        }
        let r = CompressionOffsetRecord { base_offset: U64::new(base_offset), size };
        assert(r@.sizes =~= sizes@);
        r
    }

    /// The offset of the run's first block.
    pub fn base_offset(&self) -> (r: u64)
        ensures
            r == self@.base_offset,
    {
        self.base_offset.get()
    }

    /// Decodes the forty bytes at `pos`.
    pub fn read(bytes: &[u8], pos: usize) -> (r: CompressionOffsetRecord)
        requires
            pos + 40 <= bytes@.len(),
        ensures
            r@ == run_of(bytes@.subrange(pos as int, pos + 40)),
    {
        let len = bytes.len();
        let ghost b = bytes@.subrange(pos as int, pos + 40);
        let mut size = [U16::new(0); 16];
        let mut i: usize = 0;
        while i < 16
            invariant
                i <= 16,
                pos + 40 <= len,
                len == bytes@.len(),
                b == bytes@.subrange(pos as int, pos + 40),
                forall|j: int|
                    0 <= j < i ==> #[trigger] size@[j]@ == be16(b.subrange(8 + 2 * j, 10 + 2 * j)),
            decreases 16 - i,
        {
            size[i] = U16::read(bytes, pos + 8 + 2 * i);
            assert(b.subrange(8 + 2 * i, 10 + 2 * i) =~= bytes@.subrange(
                pos + 8 + 2 * i,
                pos + 10 + 2 * i,
            ));
            proof {
                lemma_be16_bytes(b.subrange(8 + 2 * i, 10 + 2 * i));
            }
            i += 1;
        }
        assert(b.subrange(0, 8) =~= bytes@.subrange(pos as int, pos + 8));
        proof {
            lemma_be64_bytes(b.subrange(0, 8));
        }
        let r = CompressionOffsetRecord { base_offset: U64::read(bytes, pos), size };
        assert(r@ =~= run_of(b));
        r
    }

    /// Where block `slot` of the run starts in the compressed stream and how
    /// long it is: the base offset plus the lengths of the blocks before it.
    /// `None` where that offset does not fit in 64 bits.
    pub fn locate(&self, slot: usize) -> (r: Option<(u64, u32)>)
        requires
            slot < 16,
        ensures
            r == self@.locate(slot as int),
    {
        let mut prefix: u64 = 0;
        let mut i: usize = 0;
        while i < slot
            invariant
                i <= slot < 16,
                prefix == self@.prefix(i as int),
                prefix <= i * 0x1_0000,
            decreases slot - i,
        {
            prefix = prefix + self.size[i].get() as u64 + 1;
            i += 1;
        }
        let size = self.size[slot].get() as u32 + 1;
        match self.base_offset.get().checked_add(prefix) {
            Some(start) => Some((start, size)),
            None => None,
        }
    }
}

/// Where block `block_index` of the archive lies in the compressed stream,
/// given the table of runs: `None` where the block is beyond the table or its
/// offset does not fit in 64 bits.
pub open spec fn spec_locate_block(records: Seq<RunView>, block_index: u64) -> Option<(u64, u32)> {
    let run = block_index / 16;
    if run < records.len() {
        records[run as int].locate((block_index % 16) as int)
    } else {
        None
    }
}

/// Finds block `block_index`: run `block_index / 16`, slot `block_index % 16`.
pub fn locate(records: &[CompressionOffsetRecord], block_index: u64) -> (r: Option<(u64, u32)>)
    ensures
        r == spec_locate_block(records@.map_values(|c: CompressionOffsetRecord| c@), block_index),
{
    let run = block_index / 16;
    if run < records.len() as u64 {
        records[run as usize].locate((block_index % 16) as usize)
    } else {
        None
    }
}

} // verus!
