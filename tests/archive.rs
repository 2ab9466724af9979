use zarchive2::archive::{footer_position, get_footer_mem, ZArchive};
use zarchive2::entry::{ArchiveEntry, DirRecord, FileRecord, Record};
use zarchive2::error::Invalid;
use zarchive2::footer::{Footer, OffsetInfo, SectionName, Sections};
use zarchive2::index::CompressionOffsetRecord;
use zarchive2::path::Path;

fn push_name(names: &mut Vec<u8>, name: &[u8]) -> u32 {
    let off = names.len() as u32;
    if name.len() < 0x80 {
        names.push(name.len() as u8);
    } else {
        names.push(0x80 | (name.len() & 0x7F) as u8);
        names.push((name.len() >> 7) as u8);
    }
    names.extend_from_slice(name);
    off
}

/// An archive holding `Docs/readme.TXT`, `top.bin` and a file with a long
/// name, with one run of the compression index.
fn sample_archive() -> Vec<u8> {
    let mut buf = Vec::new();

    // compression index: one run
    let mut sizes = [0u16; 16];
    sizes[0] = 99;
    sizes[2] = 199;
    let records_at = buf.len() as u64;
    let mut run = Vec::new();
    run.extend_from_slice(&1000u64.to_be_bytes());
    for s in sizes {
        run.extend_from_slice(&s.to_be_bytes());
    }
    buf.extend_from_slice(&run);

    // name table
    let mut names = Vec::new();
    let root = push_name(&mut names, b"");
    let docs = push_name(&mut names, b"Docs");
    let top = push_name(&mut names, b"top.bin");
    let readme = push_name(&mut names, b"readme.TXT");
    let long_name = vec![b'L'; 200];
    let long = push_name(&mut names, &long_name);
    let names_at = buf.len() as u64;
    buf.extend_from_slice(&names);

    // file tree
    let tree_at = buf.len() as u64;
    let entries = [
        ArchiveEntry::new_dir(root, DirRecord::new(1, 3)),
        ArchiveEntry::new_dir(docs, DirRecord::new(4, 1)),
        ArchiveEntry::new_file(top, FileRecord::new(0, 5)),
        ArchiveEntry::new_file(long, FileRecord::new(5, 6)),
        ArchiveEntry::new_file(readme, FileRecord::new(11, 12)),
    ];
    for e in entries.iter() {
        e.write(&mut buf);
    }

    let total = buf.len() as u64 + Footer::LEN as u64;
    let sections = Sections::new(
        OffsetInfo::new(0, 0),
        OffsetInfo::new(records_at, run.len() as u64),
        OffsetInfo::new(names_at, names.len() as u64),
        OffsetInfo::new(tree_at, 16 * entries.len() as u64),
        OffsetInfo::new(0, 0),
        OffsetInfo::new(0, 0),
    );
    let footer = Footer::new(sections, [0u8; 32], total, Footer::VERSION, Footer::MAGIC);
    buf.extend_from_slice(&footer.to_bytes());
    buf
}

#[test]
fn it_works() {
    let bytes = sample_archive();
    assert!(ZArchive::new(&bytes[..]).is_ok());
}

#[test]
fn open_valid_archive() {
    let bytes = sample_archive();
    let archive = ZArchive::new(&bytes[..]).unwrap();
    assert_eq!(archive.footer().magic(), Footer::MAGIC);
    assert_eq!(archive.footer().total_size(), bytes.len() as u64);
    let back = archive.into_inner();
    assert_eq!(back.len(), bytes.len());
    assert!(std::ptr::eq(back, &bytes[..]));
}

#[test]
fn open_rejects_zeroed_magic() {
    let mut bytes = sample_archive();
    let n = bytes.len();
    for b in &mut bytes[n - 4..] {
        *b = 0;
    }
    assert_eq!(ZArchive::new(&bytes[..]).err(), Some(Invalid::Magic(0)));
}

#[test]
fn open_rejects_wrong_version() {
    let mut bytes = sample_archive();
    let n = bytes.len();
    bytes[n - 5] ^= 1;
    assert_eq!(
        ZArchive::new(&bytes[..]).err(),
        Some(Invalid::Version(Footer::VERSION ^ 1))
    );
}

#[test]
fn open_rejects_section_beyond_total() {
    let bytes = sample_archive();
    let n = bytes.len();
    let f = Footer::read(&bytes, n - Footer::LEN);
    let s = f.sections();
    let bad = Sections::new(
        s.get(SectionName::CompressedData),
        s.get(SectionName::OffsetRecords),
        OffsetInfo::new(n as u64, 1),
        s.get(SectionName::FileTree),
        s.get(SectionName::MetaDir),
        s.get(SectionName::MetaData),
    );
    let f2 = Footer::new(bad, f.integrity_hash(), f.total_size(), f.version(), f.magic());
    let mut bytes2 = bytes[..n - Footer::LEN].to_vec();
    bytes2.extend_from_slice(&f2.to_bytes());
    assert_eq!(
        ZArchive::new(&bytes2[..]).err(),
        Some(Invalid::Section(SectionName::Names))
    );
}

#[test]
fn open_rejects_short_buffer() {
    let bytes = vec![0u8; 143];
    assert_eq!(ZArchive::new(&bytes[..]).err(), Some(Invalid::TooShort(143)));
    assert_eq!(ZArchive::new(&[][..]).err(), Some(Invalid::TooShort(0)));
    assert_eq!(get_footer_mem(&bytes).err(), Some(Invalid::TooShort(143)));
    assert_eq!(footer_position(143), Err(Invalid::TooShort(143)));
    assert_eq!(footer_position(144), Ok(0));
    assert_eq!(footer_position(1000), Ok(856));
}

#[test]
fn footer_read_from_memory() {
    let bytes = sample_archive();
    let f = get_footer_mem(&bytes).unwrap();
    assert_eq!(f.check(), Ok(()));
    assert_eq!(f.total_size(), bytes.len() as u64);
}

#[test]
fn with_footer_validates() {
    let bytes = sample_archive();
    let f = get_footer_mem(&bytes).unwrap();
    let z = ZArchive::with_footer(17u32, f).unwrap();
    assert_eq!(z.into_inner(), 17);
    let bad = Footer::new(f.sections(), f.integrity_hash(), f.total_size(), f.version(), 5);
    assert_eq!(ZArchive::with_footer(17u32, bad).err(), Some(Invalid::Magic(5)));
}

#[test]
fn entries_in_table_order() {
    let bytes = sample_archive();
    let archive = ZArchive::new(&bytes[..]).unwrap();
    for _ in 0..2 {
        let mut it = archive.entries();
        let mut kinds = Vec::new();
        while let Some(e) = it.next() {
            kinds.push(e.unwrap().is_dir());
        }
        assert_eq!(kinds, vec![true, true, false, false, false]);
        assert!(it.next().is_none());
    }
    let e = archive.entry(4).unwrap().unwrap();
    assert_eq!(e.record(), Record::File(FileRecord::new(11, 12)));
    assert!(archive.entry(5).is_none());
}

#[test]
fn entries_beyond_buffer_fail_one_by_one() {
    // a file tree that claims more entries than the bytes hold
    let mut buf = Vec::new();
    ArchiveEntry::new_dir(0, DirRecord::new(0, 0)).write(&mut buf);
    let total = 1000u64;
    let s = Sections::new(
        OffsetInfo::new(0, 0),
        OffsetInfo::new(0, 0),
        OffsetInfo::new(0, 0),
        OffsetInfo::new(0, 32),
        OffsetInfo::new(0, 0),
        OffsetInfo::new(0, 0),
    );
    // the second entry overlaps the footer; the total size claims more bytes
    let f = Footer::new(s, [0u8; 32], total, Footer::VERSION, Footer::MAGIC);
    buf.extend_from_slice(&f.to_bytes());
    let archive = ZArchive::new(&buf[..]).unwrap();
    let mut it = archive.entries();
    assert!(it.next().unwrap().is_ok());
    assert!(it.next().unwrap().is_ok());
    assert!(it.next().is_none());

    let s = Sections::new(
        OffsetInfo::new(0, 0),
        OffsetInfo::new(0, 0),
        OffsetInfo::new(0, 0),
        OffsetInfo::new(140, 32),
        OffsetInfo::new(0, 0),
        OffsetInfo::new(0, 0),
    );
    let f = Footer::new(s, [0u8; 32], total, Footer::VERSION, Footer::MAGIC);
    let mut buf = vec![0u8; 16];
    buf.extend_from_slice(&f.to_bytes());
    let archive = ZArchive::new(&buf[..]).unwrap();
    let mut it = archive.entries();
    assert!(it.next().unwrap().is_ok());
    assert_eq!(it.next().unwrap().err(), Some(Invalid::Section(SectionName::FileTree)));
    assert!(it.next().is_none());
}

#[test]
fn lookup_ignores_case() {
    let bytes = sample_archive();
    let archive = ZArchive::new(&bytes[..]).unwrap();
    assert_eq!(archive.lookup(&Path::new(b"Docs/readme.TXT")), Some(4));
    assert_eq!(archive.lookup(&Path::new(b"docs/README.txt")), Some(4));
    assert_eq!(archive.lookup(&Path::new(b"TOP.BIN")), Some(2));
    assert_eq!(archive.lookup(&Path::new(b"")), Some(0));
    assert_eq!(archive.lookup(&Path::new(b"DOCS")), Some(1));
    let long = vec![b'l'; 200];
    assert_eq!(archive.lookup(&Path::new(&long)), Some(3));
}

#[test]
fn lookup_canonical_form_same_node() {
    let bytes = sample_archive();
    let archive = ZArchive::new(&bytes[..]).unwrap();
    let messy = Path::new(b"a//b/./c");
    let clean = Path::new(b"a/b/c");
    assert_eq!(archive.lookup(&messy), archive.lookup(&clean));
    let messy = Path::new(b"Docs//./readme.TXT");
    assert_eq!(archive.lookup(&messy), Some(4));
    assert_eq!(archive.lookup(&messy.canonicalize()), Some(4));
    assert_eq!(archive.lookup(&Path::new(b"Docs/../top.bin")), Some(2));
}

#[test]
fn lookup_misses() {
    let bytes = sample_archive();
    let archive = ZArchive::new(&bytes[..]).unwrap();
    assert_eq!(archive.lookup(&Path::new(b"nothing")), None);
    assert_eq!(archive.lookup(&Path::new(b"top.bin/x")), None);
    assert_eq!(archive.lookup(&Path::new(b"Docs/top.bin")), None);
}

#[test]
fn names_from_the_name_table() {
    let bytes = sample_archive();
    let archive = ZArchive::new(&bytes[..]).unwrap();
    assert_eq!(archive.name(1), Some(&b"Docs"[..]));
    assert_eq!(archive.name(0), Some(&b""[..]));
    let long = archive.name(1 + 5 + 8 + 11).unwrap();
    assert_eq!(long.len(), 200);
    assert_eq!(archive.name(100_000), None);
}

#[test]
fn locate_blocks_of_archive() {
    let bytes = sample_archive();
    let archive = ZArchive::new(&bytes[..]).unwrap();
    assert_eq!(archive.locate_block(0), Some((1000, 100)));
    assert_eq!(archive.locate_block(1), Some((1100, 1)));
    assert_eq!(archive.locate_block(2), Some((1101, 200)));
    assert_eq!(archive.locate_block(16), None);
    let records = [CompressionOffsetRecord::read(&bytes, 0)];
    assert_eq!(zarchive2::index::locate(&records, 2), Some((1101, 200)));
}
