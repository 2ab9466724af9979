//! The footer: the fixed-size trailer that describes where each section of
//! the archive lies, and its validation.
use vstd::prelude::*;

use crate::big_endian::{be32, be32_bytes, be64, be64_bytes, U32, U64};
use crate::big_endian::{lemma_be32_bytes, lemma_be32_value, lemma_be64_bytes, lemma_be64_value};
use crate::error::Invalid;

verus! {

/// The byte range of one section: `offset` and `size`, eight big-endian bytes each.
#[derive(Debug, Clone, Copy, PartialEq, Eq, Hash)]
pub struct OffsetInfo {
    offset: U64,
    size: U64,
}

/// Whether the range `(offset, size)` ends at or before `archive_len`.
pub open spec fn range_in(range: (u64, u64), archive_len: u64) -> bool {
    range.0 + range.1 <= archive_len
}

/// The range that the sixteen bytes `b` encode.
#[verifier::opaque]
pub open spec fn range_of(b: Seq<u8>) -> (u64, u64) {
    (be64(b.subrange(0, 8)) as u64, be64(b.subrange(8, 16)) as u64)
}

impl View for OffsetInfo {
    /// The range as `(offset, size)`.
    type V = (u64, u64);

    closed spec fn view(&self) -> (u64, u64) {
        (self.offset@, self.size@)
    }
}

impl OffsetInfo {
    /// The encoded length of an `OffsetInfo`.
    pub const LEN: usize = 16;

    /// The first byte of the section.
    pub open spec fn spec_offset(self) -> u64 {
        self@.0
    }

    /// The number of bytes of the section.
    pub open spec fn spec_size(self) -> u64 {
        self@.1
    }

    /// Whether the section ends at or before `archive_len`.
    pub open spec fn spec_in_range(self, archive_len: u64) -> bool {
        range_in(self@, archive_len)
    }

    /// Whether `self` is what the sixteen bytes `b` encode.
    pub open spec fn decodes(self, b: Seq<u8>) -> bool {
        self@ == range_of(b)
    }

    /// The sixteen bytes that encode `self`.
    pub open spec fn spec_bytes(self) -> Seq<u8> {
        be64_bytes(self.spec_offset()) + be64_bytes(self.spec_size())
    }

    pub fn new(offset: u64, size: u64) -> (r: OffsetInfo)
        ensures
            r.spec_offset() == offset,
            r.spec_size() == size,
    {
        OffsetInfo { offset: U64::new(offset), size: U64::new(size) }
    }

    pub fn offset(&self) -> (r: u64)
        ensures
            r == self.spec_offset(),
    {
        self.offset.get()
    }

    pub fn size(&self) -> (r: u64)
        ensures
            r == self.spec_size(),
    {
        self.size.get()
    }

    /// Whether the section lies within the first `archive_len` bytes. A
    /// section whose end does not fit in 64 bits is never in range.
    pub fn is_in_range(&self, archive_len: u64) -> (r: bool)
        ensures
            r == self.spec_in_range(archive_len),
    {
        let offset = self.offset.get();
        let size = self.size.get();
        match offset.checked_add(size) {
            Some(end) => end <= archive_len,
            None => false,
        }
    }

    /// Reads the sixteen bytes at `pos`.
    pub fn read(bytes: &[u8], pos: usize) -> (r: OffsetInfo)
        requires
            pos + 16 <= bytes@.len(),
        ensures
            r.decodes(bytes@.subrange(pos as int, pos + 16)),
    {
        let len = bytes.len();
        assert(pos + 8 < len);
        let r = OffsetInfo { offset: U64::read(bytes, pos), size: U64::read(bytes, pos + 8) };
        let ghost b = bytes@.subrange(pos as int, pos + 16);
        assert(b.subrange(0, 8) =~= bytes@.subrange(pos as int, pos + 8));
        assert(b.subrange(8, 16) =~= bytes@.subrange(pos + 8, pos + 16));
        proof {
            reveal(range_of);
            lemma_be64_bytes(b.subrange(0, 8));
            lemma_be64_bytes(b.subrange(8, 16));
        }
        r
    }

    /// Appends the sixteen bytes that encode `self` to `out`.
    pub fn write(&self, out: &mut Vec<u8>)
        ensures
            final(out)@ == old(out)@ + self.spec_bytes(),
    {
        self.offset.write(out);
        self.size.write(out);
        assert(out@ =~= old(out)@ + self.spec_bytes());
    }
}

/// Decoding the encoding of a section's range gives the range back.
pub proof fn lemma_offset_info_round_trip(info: OffsetInfo)
    ensures
        info.spec_bytes().len() == 16,
        info.decodes(info.spec_bytes()),
{
    reveal(range_of);
    lemma_be64_value(info.spec_offset());
    lemma_be64_value(info.spec_size());
    assert(info.spec_bytes().subrange(0, 8) =~= be64_bytes(info.spec_offset()));
    assert(info.spec_bytes().subrange(8, 16) =~= be64_bytes(info.spec_size()));
    assert(range_of(info.spec_bytes()) == info@);
}

/// A range whose end does not fit in 64 bits is out of range for every
/// archive length.
pub proof fn lemma_overflowing_range_rejected(info: OffsetInfo, archive_len: u64)
    requires
        info.spec_offset() + info.spec_size() > u64::MAX,
    ensures
        !info.spec_in_range(archive_len),
{
}

/// The six sections of an archive, in the order in which the footer lists them.
#[derive(Debug, Clone, Copy, PartialEq, Eq, Hash, Structural)]
pub enum SectionName {
    CompressedData,
    OffsetRecords,
    Names,
    FileTree,
    MetaDir,
    MetaData,
}

/// The position of a section in the footer.
pub open spec fn section_index(name: SectionName) -> int {
    match name {
        SectionName::CompressedData => 0,
        SectionName::OffsetRecords => 1,
        SectionName::Names => 2,
        SectionName::FileTree => 3,
        SectionName::MetaDir => 4,
        SectionName::MetaData => 5,
    }
}

/// The section at position `i` of the footer.
pub open spec fn section_at(i: int) -> SectionName {
    if i <= 0 {
        SectionName::CompressedData
    } else if i == 1 {
        SectionName::OffsetRecords
    } else if i == 2 {
        SectionName::Names
    } else if i == 3 {
        SectionName::FileTree
    } else if i == 4 {
        SectionName::MetaDir
    } else {
        SectionName::MetaData
    }
}

impl SectionName {
    /// The section at position `i` of the footer.
    pub fn at(i: usize) -> (r: SectionName)
        requires
            i < 6,
        ensures
            r == section_at(i as int),
            section_index(r) == i,
    {
        match i {
            0 => SectionName::CompressedData,
            1 => SectionName::OffsetRecords,
            2 => SectionName::Names,
            3 => SectionName::FileTree,
            4 => SectionName::MetaDir,
            _ => SectionName::MetaData,
        }
    }

    /// The section's name as the footer's documentation writes it.
    pub fn as_str(&self) -> (r: &'static str)
        ensures
            r@ == match self {
                SectionName::CompressedData => "compressed_data"@,
                SectionName::OffsetRecords => "offset_records"@,
                SectionName::Names => "names"@,
                SectionName::FileTree => "file_tree"@,
                SectionName::MetaDir => "meta_dir"@,
                SectionName::MetaData => "meta_data"@,
            },
    {
        match self {
            SectionName::CompressedData => "compressed_data",
            SectionName::OffsetRecords => "offset_records",
            SectionName::Names => "names",
            SectionName::FileTree => "file_tree",
            SectionName::MetaDir => "meta_dir",
            SectionName::MetaData => "meta_data",
        }
    }
}

/// Where each of the six sections lies.
#[derive(Debug, Clone, Copy, PartialEq, Eq, Hash)]
pub struct Sections {
    compressed_data: OffsetInfo,
    offset_records: OffsetInfo,
    names: OffsetInfo,
    file_tree: OffsetInfo,
    meta_dir: OffsetInfo,
    meta_data: OffsetInfo,
}

impl View for Sections {
    /// The six ranges, in the footer's order.
    type V = Seq<(u64, u64)>;

    closed spec fn view(&self) -> Seq<(u64, u64)> {
        seq![
            self.compressed_data@,
            self.offset_records@,
            self.names@,
            self.file_tree@,
            self.meta_dir@,
            self.meta_data@,
        ]
    }
}

impl Sections {
    /// The encoded length of the six ranges.
    pub const LEN: usize = 96;

    /// The named section.
    pub closed spec fn spec_get(self, name: SectionName) -> OffsetInfo {
        match name {
            SectionName::CompressedData => self.compressed_data,
            SectionName::OffsetRecords => self.offset_records,
            SectionName::Names => self.names,
            SectionName::FileTree => self.file_tree,
            SectionName::MetaDir => self.meta_dir,
            SectionName::MetaData => self.meta_data,
        }
    }

    /// The ninety-six bytes that encode `self`.
    pub open spec fn spec_bytes(self) -> Seq<u8> {
        self.spec_get(SectionName::CompressedData).spec_bytes() + self.spec_get(
            SectionName::OffsetRecords,
        ).spec_bytes() + self.spec_get(SectionName::Names).spec_bytes() + self.spec_get(
            SectionName::FileTree,
        ).spec_bytes() + self.spec_get(SectionName::MetaDir).spec_bytes() + self.spec_get(
            SectionName::MetaData,
        ).spec_bytes()
    }

    pub fn new(
        compressed_data: OffsetInfo,
        offset_records: OffsetInfo,
        names: OffsetInfo,
        file_tree: OffsetInfo,
        meta_dir: OffsetInfo,
        meta_data: OffsetInfo,
    ) -> (r: Sections)
        ensures
            r.spec_get(SectionName::CompressedData) == compressed_data,
            r.spec_get(SectionName::OffsetRecords) == offset_records,
            r.spec_get(SectionName::Names) == names,
            r.spec_get(SectionName::FileTree) == file_tree,
            r.spec_get(SectionName::MetaDir) == meta_dir,
            r.spec_get(SectionName::MetaData) == meta_data,
    {
        Sections { compressed_data, offset_records, names, file_tree, meta_dir, meta_data }
    }

    /// Appends the ninety-six bytes that encode `self` to `out`.
    pub fn write(&self, out: &mut Vec<u8>)
        ensures
            final(out)@ == old(out)@ + self.spec_bytes(),
    {
        self.compressed_data.write(out);
        self.offset_records.write(out);
        self.names.write(out);
        self.file_tree.write(out);
        self.meta_dir.write(out);
        self.meta_data.write(out);
        assert(out@ =~= old(out)@ + self.spec_bytes());
    }

    /// The range of the named section.
    pub fn get(&self, name: SectionName) -> (r: OffsetInfo)
        ensures
            r == self.spec_get(name),
            r@ == self@[section_index(name)],
    {
        match name {
            SectionName::CompressedData => self.compressed_data,
            SectionName::OffsetRecords => self.offset_records,
            SectionName::Names => self.names,
            SectionName::FileTree => self.file_tree,
            SectionName::MetaDir => self.meta_dir,
            SectionName::MetaData => self.meta_data,
        }
    }
}

/// The first section, from position `i` on, that does not lie within
/// `total_size` bytes.
pub open spec fn first_bad_section(sections: Seq<(u64, u64)>, total_size: u64, i: int) -> Option<
    SectionName,
>
    decreases 6 - i,
{
    if i >= 6 {
        None
    } else if !range_in(sections[i], total_size) {
        Some(section_at(i))
    } else {
        first_bad_section(sections, total_size, i + 1)
    }
}

/// A footer as plain values.
#[verifier::ext_equal]
pub struct FooterView {
    /// The six ranges as `(offset, size)`, in the footer's order.
    pub sections: Seq<(u64, u64)>,
    pub integrity_hash: Seq<u8>,
    pub total_size: u64,
    pub version: u32,
    pub magic: u32,
}

impl FooterView {
    /// The range of the named section.
    pub open spec fn section(self, name: SectionName) -> (u64, u64) {
        self.sections[section_index(name)]
    }

    /// What validation makes of the footer: the magic number is looked at
    /// first, then the version, then each section in order.
    pub open spec fn check(self) -> Result<(), Invalid> {
        if self.magic != Footer::MAGIC {
            Err(Invalid::Magic(self.magic))
        } else if self.version != Footer::VERSION {
            Err(Invalid::Version(self.version))
        } else {
            match first_bad_section(self.sections, self.total_size, 0) {
                Some(name) => Err(Invalid::Section(name)),
                None => Ok(()),
            }
        }
    }
}

/// The footer that the 144 bytes `b` encode.
pub open spec fn footer_of(b: Seq<u8>) -> FooterView {
    FooterView {
        sections: Seq::new(6, |i: int| range_of(b.subrange(16 * i, 16 * i + 16))),
        integrity_hash: b.subrange(96, 128),
        total_size: be64(b.subrange(128, 136)) as u64,
        version: be32(b.subrange(136, 140)) as u32,
        magic: be32(b.subrange(140, 144)) as u32,
    }
}

/// The footer: the last 144 bytes of every archive.
#[derive(Debug, Clone, Copy, PartialEq, Eq, Hash)]
pub struct Footer {
    sections: Sections,
    integrity_hash: [u8; 32],
    total_size: U64,
    version: U32,
    magic: U32,
}

impl View for Footer {
    type V = FooterView;

    closed spec fn view(&self) -> FooterView {
        FooterView {
            sections: self.sections@,
            integrity_hash: self.integrity_hash@,
            total_size: self.total_size@,
            version: self.version@,
            magic: self.magic@,
        }
    }
}

impl Footer {
    /// The magic number that ends every archive.
    pub const MAGIC: u32 = 0x169f_52d6;

    /// The only format version this library reads.
    pub const VERSION: u32 = 0x61bf_3a01;

    /// The encoded length of a footer.
    pub const LEN: usize = 144;

    /// The footer's sections.
    pub closed spec fn spec_sections(self) -> Sections {
        self.sections
    }

    /// What validation makes of the footer.
    pub open spec fn spec_check(self) -> Result<(), Invalid> {
        self@.check()
    }

    /// The 144 bytes that encode `self`.
    pub open spec fn spec_bytes(self) -> Seq<u8> {
        self.spec_sections().spec_bytes() + self@.integrity_hash + be64_bytes(self@.total_size)
            + be32_bytes(self@.version) + be32_bytes(self@.magic)
    }

    pub fn new(
        sections: Sections,
        integrity_hash: [u8; 32],
        total_size: u64,
        version: u32,
        magic: u32,
    ) -> (r: Footer)
        ensures
            r.spec_sections() == sections,
            r@ == (FooterView {
                sections: sections@,
                integrity_hash: integrity_hash@,
                total_size,
                version,
                magic,
            }),
    {
        Footer {
            sections,
            integrity_hash,
            total_size: U64::new(total_size),
            version: U32::new(version),
            magic: U32::new(magic),
        }
    }

    pub fn sections(&self) -> (r: Sections)
        ensures
            r == self.spec_sections(),
            r@ == self@.sections,
    {
        self.sections
    }

    pub fn integrity_hash(&self) -> (r: [u8; 32])
        ensures
            r@ == self@.integrity_hash,
    {
        self.integrity_hash
    }

    pub fn total_size(&self) -> (r: u64)
        ensures
            r == self@.total_size,
    {
        self.total_size.get()
    }

    pub fn version(&self) -> (r: u32)
        ensures
            r == self@.version,
    {
        self.version.get()
    }

    pub fn magic(&self) -> (r: u32)
        ensures
            r == self@.magic,
    {
        self.magic.get()
    }

    /// Checks the footer's structure: the magic number, the version, and that
    /// each section ends within the declared total size. The integrity hash
    /// is not compared with the content.
    pub fn check(&self) -> (r: Result<(), Invalid>)
        ensures
            r == self.spec_check(),
    {
        let magic = self.magic.get();
        if magic != Self::MAGIC {
            return Err(Invalid::Magic(magic));
        }
        let version = self.version.get();
        if version != Self::VERSION {
            return Err(Invalid::Version(version));
        }
        let size = self.total_size.get();
        let mut i: usize = 0;
        while i < 6
            invariant
                i <= 6,
                self@.magic == Self::MAGIC,
                self@.version == Self::VERSION,
                size == self@.total_size,
                first_bad_section(self.sections@, size, 0) == first_bad_section(
                    self.sections@,
                    size,
                    i as int,
                ),
            decreases 6 - i,
        {
            let name = SectionName::at(i);
            if !self.sections.get(name).is_in_range(size) {
                assert(first_bad_section(self.sections@, size, i as int) == Some(name));
                return Err(Invalid::Section(name));
            }
            i += 1;
        }
        Ok(())
    }

    /// Decodes the 144 bytes at `pos`.
    pub fn read(bytes: &[u8], pos: usize) -> (r: Footer)
        requires
            pos + 144 <= bytes@.len(),
        ensures
            r@ == footer_of(bytes@.subrange(pos as int, pos + 144)),
    {
        let len = bytes.len();
        assert(pos + 144 <= len);
        let ghost b = bytes@.subrange(pos as int, pos + 144);
        let mut infos: [OffsetInfo; 6] = [OffsetInfo::new(0, 0); 6];
        let mut i: usize = 0;
        while i < 6
            invariant
                i <= 6,
                pos + 144 <= len,
                len == bytes@.len(),
                b == bytes@.subrange(pos as int, pos + 144),
                forall|j: int|
                    0 <= j < i ==> #[trigger] infos[j].decodes(b.subrange(16 * j, 16 * j + 16)),
            decreases 6 - i,
        {
            let info = OffsetInfo::read(bytes, pos + 16 * i);
            assert(b.subrange(16 * i as int, 16 * i + 16) =~= bytes@.subrange(
                pos + 16 * i as int,
                pos + 16 * i + 16,
            ));
            infos[i] = info;
            i += 1;
        }
        let sections = Sections {
            compressed_data: infos[0],
            offset_records: infos[1],
            names: infos[2],
            file_tree: infos[3],
            meta_dir: infos[4],
            meta_data: infos[5],
        };
        let mut integrity_hash = [0u8; 32];
        let mut k: usize = 0;
        while k < 32
            invariant
                k <= 32,
                pos + 144 <= len,
                len == bytes@.len(),
                forall|j: int| 0 <= j < k ==> integrity_hash[j] == bytes@[pos + 96 + j],
            decreases 32 - k,
        {
            integrity_hash[k] = bytes[pos + 96 + k];
            k += 1;
        }
        let r = Footer {
            sections,
            integrity_hash,
            total_size: U64::read(bytes, pos + 128),
            version: U32::read(bytes, pos + 136),
            magic: U32::read(bytes, pos + 140),
        };
        assert(r.integrity_hash@ =~= b.subrange(96, 128));
        assert(r.sections@ =~= footer_of(b).sections) by {
            assert forall|j: int| 0 <= j < 6 implies r.sections@[j] == range_of(
                b.subrange(16 * j, 16 * j + 16),
            ) by {
                assert(infos[j].decodes(b.subrange(16 * j, 16 * j + 16)));
            }
        }
        assert(b.subrange(128, 136) =~= bytes@.subrange(pos + 128, pos + 136));
        assert(b.subrange(136, 140) =~= bytes@.subrange(pos + 136, pos + 140));
        assert(b.subrange(140, 144) =~= bytes@.subrange(pos + 140, pos + 144));
        proof {
            lemma_be64_bytes(b.subrange(128, 136));
            lemma_be32_bytes(b.subrange(136, 140));
            lemma_be32_bytes(b.subrange(140, 144));
        }
        assert(r@ =~= footer_of(b));
        r
    }

    /// The 144 bytes that encode `self`; they decode to the same footer.
    pub fn to_bytes(&self) -> (r: Vec<u8>)
        ensures
            r@ == self.spec_bytes(),
            footer_of(r@) == self@,
    {
        let mut out: Vec<u8> = Vec::new();
        self.sections.write(&mut out);
        assert(out@ =~= self.sections.spec_bytes());
        let mut k: usize = 0;
        while k < 32
            invariant
                k <= 32,
                out@ == self.sections.spec_bytes() + self.integrity_hash@.subrange(0, k as int),
            decreases 32 - k,
        {
            out.push(self.integrity_hash[k]);
            assert(self.integrity_hash@.subrange(0, k + 1) =~= self.integrity_hash@.subrange(0, k as int).push(self.integrity_hash[k as int]));
            k += 1;
        }
        assert(self.integrity_hash@.subrange(0, 32) =~= self.integrity_hash@);
        self.total_size.write(&mut out);
        self.version.write(&mut out);
        self.magic.write(&mut out);
        proof {
            lemma_footer_bytes(*self);
        }
        out
    }
}

proof fn lemma_sections_bytes(s: Sections)
    ensures
        s.spec_bytes().len() == 96,
        range_of(s.spec_bytes().subrange(0, 16)) == s@[0],
        range_of(s.spec_bytes().subrange(16, 32)) == s@[1],
        range_of(s.spec_bytes().subrange(32, 48)) == s@[2],
        range_of(s.spec_bytes().subrange(48, 64)) == s@[3],
        range_of(s.spec_bytes().subrange(64, 80)) == s@[4],
        range_of(s.spec_bytes().subrange(80, 96)) == s@[5],
{
    let a0 = s.compressed_data.spec_bytes();
    let a1 = s.offset_records.spec_bytes();
    let a2 = s.names.spec_bytes();
    let a3 = s.file_tree.spec_bytes();
    let a4 = s.meta_dir.spec_bytes();
    let a5 = s.meta_data.spec_bytes();
    lemma_offset_info_round_trip(s.compressed_data);
    lemma_offset_info_round_trip(s.offset_records);
    lemma_offset_info_round_trip(s.names);
    lemma_offset_info_round_trip(s.file_tree);
    lemma_offset_info_round_trip(s.meta_dir);
    lemma_offset_info_round_trip(s.meta_data);
    lemma_six_parts(a0, a1, a2, a3, a4, a5);
}

proof fn lemma_six_parts(
    a0: Seq<u8>,
    a1: Seq<u8>,
    a2: Seq<u8>,
    a3: Seq<u8>,
    a4: Seq<u8>,
    a5: Seq<u8>,
)
    requires
        a0.len() == 16 && a1.len() == 16 && a2.len() == 16,
        a3.len() == 16 && a4.len() == 16 && a5.len() == 16,
    ensures
        ({
            let b = a0 + a1 + a2 + a3 + a4 + a5;
            &&& b.len() == 96
            &&& b.subrange(0, 16) == a0
            &&& b.subrange(16, 32) == a1
            &&& b.subrange(32, 48) == a2
            &&& b.subrange(48, 64) == a3
            &&& b.subrange(64, 80) == a4
            &&& b.subrange(80, 96) == a5
        }),
{
    let b = a0 + a1 + a2 + a3 + a4 + a5;
    assert(b.subrange(0, 16) =~= a0);
    assert(b.subrange(16, 32) =~= a1);
    assert(b.subrange(32, 48) =~= a2);
    assert(b.subrange(48, 64) =~= a3);
    assert(b.subrange(64, 80) =~= a4);
    assert(b.subrange(80, 96) =~= a5);
}

proof fn lemma_footer_bytes(f: Footer)
    ensures
        footer_of(f.spec_bytes()) == f@,
{
    let b = f.spec_bytes();
    let sb = f.sections.spec_bytes();
    lemma_sections_bytes(f.sections);
    lemma_be64_value(f.total_size@);
    lemma_be32_value(f.version@);
    lemma_be32_value(f.magic@);
    assert(b.subrange(96, 128) =~= f.integrity_hash@);
    assert(b.subrange(128, 136) =~= be64_bytes(f.total_size@));
    assert(b.subrange(136, 140) =~= be32_bytes(f.version@));
    assert(b.subrange(140, 144) =~= be32_bytes(f.magic@));
    assert forall|i: int| 0 <= i < 6 implies #[trigger] footer_of(b).sections[i] == f.sections@[i] by {
        assert(b.subrange(16 * i, 16 * i + 16) =~= sb.subrange(16 * i, 16 * i + 16));
    }
    assert(footer_of(b) =~= f@);
}

proof fn lemma_first_bad_section(sections: Seq<(u64, u64)>, total_size: u64, i: int)
    requires
        0 <= i <= 6,
    ensures
        first_bad_section(sections, total_size, i) is None <==> forall|j: int|
            i <= j < 6 ==> range_in(#[trigger] sections[j], total_size),
        first_bad_section(sections, total_size, i) matches Some(name) ==> i <= section_index(name)
            < 6 && !range_in(sections[section_index(name)], total_size) && forall|j: int|
            i <= j < section_index(name) ==> range_in(#[trigger] sections[j], total_size),
    decreases 6 - i,
{
    if i < 6 {
        lemma_first_bad_section(sections, total_size, i + 1);
    }
}

/// Validation looks at the magic number first, then at the version, then at
/// each section in the footer's order: a wrong magic number is reported as
/// `Magic` whatever else is wrong, a right magic number with a wrong version
/// as `Version`, and otherwise the first section that ends beyond the total
/// size as `Section`. A footer with right magic number and version whose six
/// sections all end within the total size is valid.
pub proof fn lemma_validation_order(f: FooterView)
    requires
        f.sections.len() == 6,
    ensures
        f.magic != Footer::MAGIC ==> f.check() == Err::<(), Invalid>(Invalid::Magic(f.magic)),
        f.magic == Footer::MAGIC && f.version != Footer::VERSION ==> f.check() == Err::<
            (),
            Invalid,
        >(Invalid::Version(f.version)),
        f.magic == Footer::MAGIC && f.version == Footer::VERSION ==> {
            &&& (f.check() is Ok <==> forall|name: SectionName|
                range_in(#[trigger] f.section(name), f.total_size))
            &&& forall|name: SectionName|
                f.check() == Err::<(), Invalid>(Invalid::Section(name)) ==> !range_in(
                    #[trigger] f.section(name),
                    f.total_size,
                ) && forall|earlier: SectionName|
                    section_index(earlier) < section_index(name) ==> range_in(
                        #[trigger] f.section(earlier),
                        f.total_size,
                    )
        },
{
    lemma_first_bad_section(f.sections, f.total_size, 0);
    assert forall|name: SectionName| 0 <= #[trigger] section_index(name) < 6 && section_at(
        section_index(name),
    ) == name by {}
    if f.magic == Footer::MAGIC && f.version == Footer::VERSION {
        if forall|name: SectionName| range_in(#[trigger] f.section(name), f.total_size) {
            assert forall|j: int| 0 <= j < 6 implies range_in(#[trigger] f.sections[j], f.total_size) by {
                assert(f.section(section_at(j)) == f.sections[j]);
            }
        }
    }
}

} // verus!
