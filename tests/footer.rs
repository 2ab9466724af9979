use zarchive2::error::Invalid;
use zarchive2::footer::{Footer, OffsetInfo, SectionName, Sections};

fn sections_with(name: SectionName, bad: OffsetInfo) -> Sections {
    let ok = OffsetInfo::new(0, 10);
    let pick = |n: SectionName| if n == name { bad } else { ok };
    Sections::new(
        pick(SectionName::CompressedData),
        pick(SectionName::OffsetRecords),
        pick(SectionName::Names),
        pick(SectionName::FileTree),
        pick(SectionName::MetaDir),
        pick(SectionName::MetaData),
    )
}

fn all_in(total: u64) -> Sections {
    let s = OffsetInfo::new(0, total);
    Sections::new(s, s, s, s, s, s)
}

#[test]
fn range_that_overflows_is_rejected() {
    let info = OffsetInfo::new(u64::MAX - 1, 10);
    for len in [0u64, 10, 1000, u64::MAX - 1, u64::MAX] {
        assert!(!info.is_in_range(len));
    }
}

#[test]
fn range_bounds() {
    assert!(OffsetInfo::new(10, 20).is_in_range(30));
    assert!(!OffsetInfo::new(10, 20).is_in_range(29));
    assert!(OffsetInfo::new(0, 0).is_in_range(0));
    assert!(OffsetInfo::new(u64::MAX, 0).is_in_range(u64::MAX));
    assert!(!OffsetInfo::new(u64::MAX, 1).is_in_range(u64::MAX));
    let info = OffsetInfo::new(3, 4);
    assert_eq!(info.offset(), 3);
    assert_eq!(info.size(), 4);
}

#[test]
fn check_accepts_valid_footer() {
    let f = Footer::new(all_in(100), [7u8; 32], 100, Footer::VERSION, Footer::MAGIC);
    assert_eq!(f.check(), Ok(()));
    // idempotent
    assert_eq!(f.check(), Ok(()));
}

#[test]
fn check_rejects_magic_first() {
    let bad = OffsetInfo::new(90, 20);
    let f = Footer::new(sections_with(SectionName::Names, bad), [0u8; 32], 100, 1, 0x1234);
    assert_eq!(f.check(), Err(Invalid::Magic(0x1234)));
    let f = Footer::new(all_in(100), [0u8; 32], 100, Footer::VERSION, Footer::MAGIC + 1);
    assert_eq!(f.check(), Err(Invalid::Magic(Footer::MAGIC + 1)));
}

#[test]
fn check_rejects_version_second() {
    let bad = OffsetInfo::new(90, 20);
    let f = Footer::new(sections_with(SectionName::Names, bad), [0u8; 32], 100, 2, Footer::MAGIC);
    assert_eq!(f.check(), Err(Invalid::Version(2)));
}

#[test]
fn check_rejects_each_section() {
    let bad = OffsetInfo::new(95, 6);
    for i in 0..6 {
        let name = [
            SectionName::CompressedData,
            SectionName::OffsetRecords,
            SectionName::Names,
            SectionName::FileTree,
            SectionName::MetaDir,
            SectionName::MetaData,
        ][i];
        let f = Footer::new(sections_with(name, bad), [0u8; 32], 100, Footer::VERSION, Footer::MAGIC);
        assert_eq!(f.check(), Err(Invalid::Section(name)));
    }
}

#[test]
fn check_reports_first_bad_section() {
    let bad = OffsetInfo::new(u64::MAX - 1, 10);
    let ok = OffsetInfo::new(0, 1);
    let s = Sections::new(ok, ok, ok, bad, ok, bad);
    let f = Footer::new(s, [0u8; 32], 100, Footer::VERSION, Footer::MAGIC);
    assert_eq!(f.check(), Err(Invalid::Section(SectionName::FileTree)));
}

#[test]
fn section_names() {
    assert_eq!(SectionName::CompressedData.as_str(), "compressed_data");
    assert_eq!(SectionName::OffsetRecords.as_str(), "offset_records");
    assert_eq!(SectionName::Names.as_str(), "names");
    assert_eq!(SectionName::FileTree.as_str(), "file_tree");
    assert_eq!(SectionName::MetaDir.as_str(), "meta_dir");
    assert_eq!(SectionName::MetaData.as_str(), "meta_data");
    assert_eq!(SectionName::at(3), SectionName::FileTree);
}

#[test]
fn footer_bytes_round_trip() {
    let s = Sections::new(
        OffsetInfo::new(1, 2),
        OffsetInfo::new(3, 4),
        OffsetInfo::new(5, 6),
        OffsetInfo::new(7, 8),
        OffsetInfo::new(9, 10),
        OffsetInfo::new(0x0102_0304_0506_0708, 12),
    );
    let mut hash = [0u8; 32];
    for (i, h) in hash.iter_mut().enumerate() {
        *h = i as u8;
    }
    let f = Footer::new(s, hash, 0xAABB, Footer::VERSION, Footer::MAGIC);
    let bytes = f.to_bytes();
    assert_eq!(bytes.len(), Footer::LEN);
    assert_eq!(&bytes[0..8], &[0, 0, 0, 0, 0, 0, 0, 1]);
    assert_eq!(&bytes[80..88], &[1, 2, 3, 4, 5, 6, 7, 8]);
    assert_eq!(&bytes[96..128], &hash[..]);
    assert_eq!(&bytes[128..136], &[0, 0, 0, 0, 0, 0, 0xAA, 0xBB]);
    assert_eq!(&bytes[136..140], &[0x61, 0xBF, 0x3A, 0x01]);
    assert_eq!(&bytes[140..144], &[0x16, 0x9F, 0x52, 0xD6]);
    let back = Footer::read(&bytes, 0);
    assert_eq!(back, f);
    assert_eq!(back.total_size(), 0xAABB);
    assert_eq!(back.version(), Footer::VERSION);
    assert_eq!(back.magic(), Footer::MAGIC);
    assert_eq!(back.integrity_hash(), hash);
    assert_eq!(back.sections().get(SectionName::MetaData).offset(), 0x0102_0304_0506_0708);
    assert_eq!(back.sections().get(SectionName::Names).size(), 6);
}
