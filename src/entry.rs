//! Entries of the file tree: a directory or a file record behind a name
//! offset whose top bit tells the two apart.
use vstd::prelude::*;

use crate::big_endian::{be16, be16_bytes, be32, be32_bytes, U16, U32};
use crate::big_endian::{lemma_be16_value, lemma_be32_value};

verus! {

proof fn lemma_flag_bits(x: u32, offset: u32)
    by (bit_vector)
    requires
        offset < 0x8000_0000,
    ensures
        (x & 0x8000_0000 == 0) == (x < 0x8000_0000),
        x & !0x8000_0000u32 == x % 0x8000_0000,
        x & 0x8000_0000 == 0 || x & 0x8000_0000 == 0x8000_0000,
        offset & !0x8000_0000u32 == offset,
        (offset | 0x8000_0000) == offset + 0x8000_0000,
        (offset | (x & 0x8000_0000)) == offset + (x & 0x8000_0000),
        (x | 0x8000_0000) == x % 0x8000_0000 + 0x8000_0000,
        x & !0x8000_0000u32 < 0x8000_0000,
{
}

/// The record of an entry, told apart by kind.
#[derive(Debug, Clone, Copy, PartialEq, Eq)]
pub enum Record {
    Dir(DirRecord),
    File(FileRecord),
}

/// A directory: its children are the `count` entries from index
/// `node_start_ind` of the file tree.
#[derive(Debug, Clone, Copy, PartialEq, Eq, Hash)]
pub struct DirRecord {
    pub node_start_ind: U32,
    pub count: U32,
    /// Unused; kept so that the record is as long as a file record.
    pub reserved: [u8; 4],
}

/// A file: where its content starts in the decompressed stream and how long
/// it is, each split into a low 32-bit and a high 16-bit part.
#[derive(Debug, Clone, Copy, PartialEq, Eq, Hash)]
pub struct FileRecord {
    pub offset_low: U32,
    pub size_low: U32,
    pub offset_high: U16,
    pub size_high: U16,
}

/// An entry of the file tree: a directory or a file.
#[derive(Debug, Clone, Copy)]
pub struct ArchiveEntry {
    /// Offset into the name table; the most significant bit is set for a file.
    flag_offset: U32,
    record: Record,
}

impl ArchiveEntry {
    /// The flag bit always agrees with the kind of the record.
    #[verifier::type_invariant]
    spec fn flag_matches_record(self) -> bool {
        (self.flag_offset@ >= Self::FILE_FLAG) == (self.record is File)
    }

    /// The flag bit for a file.
    pub const FILE_FLAG: u32 = 0x8000_0000;

    /// The encoded length of an entry.
    pub const LEN: usize = 16;

    /// The raw first field: the name offset, with the file flag on top.
    pub closed spec fn spec_flag_offset(self) -> u32 {
        self.flag_offset@
    }

    /// The offset of the entry's name in the name table.
    pub open spec fn spec_offset(self) -> u32 {
        (self.spec_flag_offset() % 0x8000_0000) as u32
    }

    /// Whether the entry is a file.
    pub open spec fn spec_is_file(self) -> bool {
        self.spec_flag_offset() >= 0x8000_0000
    }

    /// The entry's record.
    pub closed spec fn spec_record(self) -> Record {
        self.record
    }

    /// Creates an entry with name offset `offset` and the given record.
    pub fn new(offset: u32, record: Record) -> (r: ArchiveEntry)
        requires
            offset < Self::FILE_FLAG,
        ensures
            r.spec_offset() == offset,
            r.spec_is_file() == (record is File),
            r.spec_record() == record,
    {
        match record {
            Record::Dir(dir) => Self::new_dir(offset, dir),
            Record::File(file) => Self::new_file(offset, file),
        }
    }

    /// Creates a directory entry with name offset `offset`.
    pub fn new_dir(offset: u32, record: DirRecord) -> (r: ArchiveEntry)
        requires
            offset < Self::FILE_FLAG,
        ensures
            r.spec_offset() == offset,
            !r.spec_is_file(),
            r.spec_record() == Record::Dir(record),
    {
        proof {
            lemma_flag_bits(offset, offset);
        }
        ArchiveEntry {
            flag_offset: U32::new(offset & !Self::FILE_FLAG),
            record: Record::Dir(record),
        }
    }

    /// Creates a file entry with name offset `offset`.
    pub fn new_file(offset: u32, record: FileRecord) -> (r: ArchiveEntry)
        requires
            offset < Self::FILE_FLAG,
        ensures
            r.spec_offset() == offset,
            r.spec_is_file(),
            r.spec_record() == Record::File(record),
    {
        proof {
            lemma_flag_bits(offset, offset);
        }
        ArchiveEntry {
            flag_offset: U32::new(offset | Self::FILE_FLAG),
            record: Record::File(record),
        }
    }

    /// An entry whose sixteen bytes are all zero: a directory named at offset
    /// zero with an all-zero record.
    pub fn new_zeroed() -> (r: ArchiveEntry)
        ensures
            r.spec_flag_offset() == 0,
            r.spec_record() is Dir,
            r.spec_record()->Dir_0.is_zeroed(),
    {
        ArchiveEntry { flag_offset: U32::new(0), record: Record::Dir(DirRecord::default()) }
    }

    /// Whether the entry is a directory.
    pub fn is_dir(&self) -> (r: bool)
        ensures
            r == !self.spec_is_file(),
    {
        proof {
            lemma_flag_bits(self.flag_offset@, 0);
        }
        self.flag_offset.get() & Self::FILE_FLAG == 0
    }

    /// Whether the entry is a file.
    pub fn is_file(&self) -> (r: bool)
        ensures
            r == self.spec_is_file(),
    {
        proof {
            lemma_flag_bits(self.flag_offset@, 0);
        }
        self.flag_offset.get() & Self::FILE_FLAG != 0
    }

    /// The offset of the entry's name in the name table.
    pub fn offset(&self) -> (r: u32)
        ensures
            r == self.spec_offset(),
            r < Self::FILE_FLAG,
    {
        proof {
            lemma_flag_bits(self.flag_offset@, 0);
        }
        self.flag_offset.get() & !Self::FILE_FLAG
    }

    /// Sets the name offset, keeping the kind and the record.
    pub fn set_offset(&mut self, offset: u32)
        requires
            offset < Self::FILE_FLAG,
        ensures
            final(self).spec_offset() == offset,
            final(self).spec_is_file() == old(self).spec_is_file(),
            final(self).spec_record() == old(self).spec_record(),
    {
        proof {
            use_type_invariant(&*self);
            lemma_flag_bits(self.flag_offset@, offset);
        }
        let flag = self.flag_offset.get() & Self::FILE_FLAG;
        *self = ArchiveEntry { flag_offset: U32::new(offset | flag), record: self.record };
    }

    /// The entry's record.
    pub fn record(&self) -> (r: Record)
        ensures
            r == self.spec_record(),
            (r is File) == self.spec_is_file(),
    {
        proof {
            use_type_invariant(self);
        }
        self.record
    }

    /// Replaces the record; the kind follows the new record and the name
    /// offset is kept.
    pub fn set_record(&mut self, record: Record)
        ensures
            final(self).spec_offset() == old(self).spec_offset(),
            final(self).spec_is_file() == (record is File),
            final(self).spec_record() == record,
    {
        let old = self.flag_offset.get();
        proof {
            lemma_flag_bits(old, 0);
        }
        let new = match record {
            Record::Dir(_) => old & !Self::FILE_FLAG,
            Record::File(_) => old | Self::FILE_FLAG,
        };
        *self = ArchiveEntry { flag_offset: U32::new(new), record };
    }
}

impl DirRecord {
    /// Whether all twelve bytes of the record are zero.
    pub open spec fn is_zeroed(self) -> bool {
        &&& self.node_start_ind@ == 0
        &&& self.count@ == 0
        &&& self.reserved@ == seq![0u8, 0u8, 0u8, 0u8]
    }

    /// A directory whose children are the `count` entries from
    /// `node_start_ind`.
    pub fn new(node_start_ind: u32, count: u32) -> (r: DirRecord)
        ensures
            r.node_start_ind@ == node_start_ind,
            r.count@ == count,
            r.reserved@ == seq![0u8, 0u8, 0u8, 0u8],
    {
        let r = DirRecord {
            node_start_ind: U32::new(node_start_ind),
            count: U32::new(count),
            reserved: [0u8; 4],
        };
        assert(r.reserved@ =~= seq![0u8, 0u8, 0u8, 0u8]);
        r
    }
}

impl Default for DirRecord {
    fn default() -> (r: DirRecord)
        ensures
            r.is_zeroed(),
    {
        DirRecord::new(0, 0)
    }
}

impl DirRecord {
    /// Whether `self` is what the twelve bytes `b` encode.
    pub open spec fn decodes(self, b: Seq<u8>) -> bool {
        &&& self.node_start_ind@ == be32(b.subrange(0, 4))
        &&& self.count@ == be32(b.subrange(4, 8))
        &&& self.reserved@ == b.subrange(8, 12)
    }

    /// The twelve bytes that encode `self`.
    pub open spec fn spec_bytes(self) -> Seq<u8> {
        be32_bytes(self.node_start_ind@) + be32_bytes(self.count@) + self.reserved@
    }

    /// Decodes the twelve bytes at `pos`.
    pub fn read(bytes: &[u8], pos: usize) -> (r: DirRecord)
        requires
            pos + 12 <= bytes@.len(),
        ensures
            r.decodes(bytes@.subrange(pos as int, pos + 12)),
    {
        let len = bytes.len();
        assert(pos + 12 <= len);
        let r = DirRecord {
            node_start_ind: U32::read(bytes, pos),
            count: U32::read(bytes, pos + 4),
            reserved: [bytes[pos + 8], bytes[pos + 9], bytes[pos + 10], bytes[pos + 11]],
        };
        let ghost b = bytes@.subrange(pos as int, pos + 12);
        assert(b.subrange(0, 4) =~= bytes@.subrange(pos as int, pos + 4));
        assert(b.subrange(4, 8) =~= bytes@.subrange(pos + 4, pos + 8));
        assert(r.reserved@ =~= b.subrange(8, 12));
        r
    }

    /// Appends the twelve bytes that encode `self` to `out`; they decode
    /// to `self`.
    pub fn write(&self, out: &mut Vec<u8>)
        ensures
            final(out)@ == old(out)@ + self.spec_bytes(),
            self.spec_bytes().len() == 12,
            self.decodes(self.spec_bytes()),
    {
        proof {
            lemma_be32_value(self.node_start_ind@);
            lemma_be32_value(self.count@);
            let b = self.spec_bytes();
            assert(b.subrange(0, 4) =~= be32_bytes(self.node_start_ind@));
            assert(b.subrange(4, 8) =~= be32_bytes(self.count@));
            assert(b.subrange(8, 12) =~= self.reserved@);
        }
        self.node_start_ind.write(out);
        self.count.write(out);
        out.push(self.reserved[0]);
        out.push(self.reserved[1]);
        out.push(self.reserved[2]);
        out.push(self.reserved[3]);
        assert(out@ =~= old(out)@ + self.spec_bytes());
    }
}

/// Joins a low 32-bit part and a high 16-bit part into one value.
pub open spec fn join_low_high(low: u32, high: u16) -> u64 {
    (low as int + high as int * 0x1_0000_0000) as u64
}

proof fn lemma_join_bits(low: u64, high: u64)
    by (bit_vector)
    requires
        low < 0x1_0000_0000,
        high < 0x1_0000,
    ensures
        low | (high << 32) == low + high * 0x1_0000_0000,
        low + high * 0x1_0000_0000 < 0x1_0000_0000_0000,
{
}

impl FileRecord {
    /// Whether `self` is what the twelve bytes `b` encode.
    pub open spec fn decodes(self, b: Seq<u8>) -> bool {
        &&& self.offset_low@ == be32(b.subrange(0, 4))
        &&& self.size_low@ == be32(b.subrange(4, 8))
        &&& self.offset_high@ == be16(b.subrange(8, 10))
        &&& self.size_high@ == be16(b.subrange(10, 12))
    }

    /// The twelve bytes that encode `self`.
    pub open spec fn spec_bytes(self) -> Seq<u8> {
        be32_bytes(self.offset_low@) + be32_bytes(self.size_low@) + be16_bytes(self.offset_high@)
            + be16_bytes(self.size_high@)
    }

    /// The file's content offset.
    pub open spec fn spec_offset(self) -> u64 {
        join_low_high(self.offset_low@, self.offset_high@)
    }

    /// The file's size.
    pub open spec fn spec_file_size(self) -> u64 {
        join_low_high(self.size_low@, self.size_high@)
    }

    /// A file whose content starts at `offset` and is `size` bytes long; both
    /// must fit in 48 bits.
    pub fn new(offset: u64, size: u64) -> (r: FileRecord)
        requires
            offset < 0x1_0000_0000_0000,
            size < 0x1_0000_0000_0000,
        ensures
            r.spec_offset() == offset,
            r.spec_file_size() == size,
    {
        FileRecord {
            offset_low: U32::new((offset % 0x1_0000_0000) as u32),
            size_low: U32::new((size % 0x1_0000_0000) as u32),
            offset_high: U16::new((offset / 0x1_0000_0000) as u16),
            size_high: U16::new((size / 0x1_0000_0000) as u16),
        }
    }

    /// The file's content offset: the low part joined with the high part.
    pub fn offset(&self) -> (r: u64)
        ensures
            r == self.spec_offset(),
    {
        let low = self.offset_low.get() as u64;
        let high = self.offset_high.get() as u64;
        proof {
            lemma_join_bits(low, high);
        }
        low | high << 32
    }

    /// The file's size: the low part joined with the high part.
    pub fn file_size(&self) -> (r: u64)
        ensures
            r == self.spec_file_size(),
    {
        let low = self.size_low.get() as u64;
        let high = self.size_high.get() as u64;
        proof {
            lemma_join_bits(low, high);
        }
        low | high << 32
    }

    /// Decodes the twelve bytes at `pos`.
    pub fn read(bytes: &[u8], pos: usize) -> (r: FileRecord)
        requires
            pos + 12 <= bytes@.len(),
        ensures
            r.decodes(bytes@.subrange(pos as int, pos + 12)),
    {
        let len = bytes.len();
        assert(pos + 12 <= len);
        let r = FileRecord {
            offset_low: U32::read(bytes, pos),
            size_low: U32::read(bytes, pos + 4),
            offset_high: U16::read(bytes, pos + 8),
            size_high: U16::read(bytes, pos + 10),
        };
        let ghost b = bytes@.subrange(pos as int, pos + 12);
        assert(b.subrange(0, 4) =~= bytes@.subrange(pos as int, pos + 4));
        assert(b.subrange(4, 8) =~= bytes@.subrange(pos + 4, pos + 8));
        assert(b.subrange(8, 10) =~= bytes@.subrange(pos + 8, pos + 10));
        assert(b.subrange(10, 12) =~= bytes@.subrange(pos + 10, pos + 12));
        r
    }

    /// Appends the twelve bytes that encode `self` to `out`; they decode
    /// to `self`.
    pub fn write(&self, out: &mut Vec<u8>)
        ensures
            final(out)@ == old(out)@ + self.spec_bytes(),
            self.spec_bytes().len() == 12,
            self.decodes(self.spec_bytes()),
    {
        proof {
            lemma_be32_value(self.offset_low@);
            lemma_be32_value(self.size_low@);
            lemma_be16_value(self.offset_high@);
            lemma_be16_value(self.size_high@);
            let b = self.spec_bytes();
            assert(b.subrange(0, 4) =~= be32_bytes(self.offset_low@));
            assert(b.subrange(4, 8) =~= be32_bytes(self.size_low@));
            assert(b.subrange(8, 10) =~= be16_bytes(self.offset_high@));
            assert(b.subrange(10, 12) =~= be16_bytes(self.size_high@));
        }
        self.offset_low.write(out);
        self.size_low.write(out);
        self.offset_high.write(out);
        self.size_high.write(out);
        assert(out@ =~= old(out)@ + self.spec_bytes());
    }
}

impl Default for FileRecord {
    fn default() -> (r: FileRecord)
        ensures
            r.spec_offset() == 0,
            r.spec_file_size() == 0,
            r.offset_low@ == 0 && r.size_low@ == 0 && r.offset_high@ == 0 && r.size_high@ == 0,
    {
        FileRecord::new(0, 0)
    }
}

impl Record {
    /// Whether `self` is what the twelve bytes `b` encode, as the kind `is_file` reads them.
    pub open spec fn decodes(self, b: Seq<u8>, is_file: bool) -> bool {
        match self {
            Record::Dir(d) => !is_file && d.decodes(b),
            Record::File(f) => is_file && f.decodes(b),
        }
    }

    /// The twelve bytes that encode the record.
    pub open spec fn spec_bytes(self) -> Seq<u8> {
        match self {
            Record::Dir(d) => d.spec_bytes(),
            Record::File(f) => f.spec_bytes(),
        }
    }
}

impl ArchiveEntry {
    /// Whether `self` is what the sixteen bytes `b` encode.
    pub open spec fn decodes(self, b: Seq<u8>) -> bool {
        &&& self.spec_flag_offset() == be32(b.subrange(0, 4))
        &&& self.spec_record().decodes(b.subrange(4, 16), self.spec_is_file())
    }

    /// The sixteen bytes that encode the entry.
    pub open spec fn spec_bytes(self) -> Seq<u8> {
        be32_bytes(self.spec_flag_offset()) + self.spec_record().spec_bytes()
    }

    /// Decodes the sixteen bytes at `pos`; the flag bit decides how the
    /// record bytes are read.
    pub fn read(bytes: &[u8], pos: usize) -> (r: ArchiveEntry)
        requires
            pos + 16 <= bytes@.len(),
        ensures
            r.decodes(bytes@.subrange(pos as int, pos + 16)),
    {
        let len = bytes.len();
        assert(pos + 16 <= len);
        let flag_offset = U32::read(bytes, pos);
        let ghost b = bytes@.subrange(pos as int, pos + 16);
        assert(b.subrange(0, 4) =~= bytes@.subrange(pos as int, pos + 4));
        assert(b.subrange(4, 16) =~= bytes@.subrange(pos + 4, pos + 16));
        proof {
            lemma_flag_bits(flag_offset@, 0);
        }
        if flag_offset.get() & Self::FILE_FLAG != 0 {
            ArchiveEntry { flag_offset, record: Record::File(FileRecord::read(bytes, pos + 4)) }
        } else {
            ArchiveEntry { flag_offset, record: Record::Dir(DirRecord::read(bytes, pos + 4)) }
        }
    }

    /// Appends the sixteen bytes that encode the entry to `out`; they
    /// decode to the same entry.
    pub fn write(&self, out: &mut Vec<u8>)
        ensures
            final(out)@ == old(out)@ + self.spec_bytes(),
            self.spec_bytes().len() == 16,
            self.decodes(self.spec_bytes()),
    {
        proof {
            use_type_invariant(self);
            lemma_be32_value(self.flag_offset@);
        }
        self.flag_offset.write(out);
        match &self.record {
            Record::Dir(d) => d.write(out),
            Record::File(f) => f.write(out),
        }
        assert(out@ =~= old(out)@ + self.spec_bytes());
        let ghost b = self.spec_bytes();
        assert(b.subrange(0, 4) =~= be32_bytes(self.flag_offset@));
        assert(b.subrange(4, 16) =~= self.record.spec_bytes());
    }
}

} // verus!
