use zarchive2::entry::{ArchiveEntry, DirRecord, FileRecord, Record};

#[test]
fn set_offset_and_kind() {
    let mut entry = ArchiveEntry::new_zeroed();

    for offset in [0, 1, 2, 3, 4, 5, 6, 7, 0x7FFFFFFE, 0x7FFFFFFF] {
        entry.set_offset(offset);
        assert_eq!(entry.offset(), offset);

        entry.set_record(Record::File(FileRecord::default()));
        assert!(entry.is_file());
        assert_eq!(entry.offset(), offset);

        entry.set_record(Record::Dir(DirRecord::default()));
        assert!(entry.is_dir());
        assert_eq!(entry.offset(), offset);
    }
}

#[test]
fn entry_set_offset_and_kind() {
    let mut entry = ArchiveEntry::new_zeroed();

    for offset in [0, 1, 2, 3, 4, 5, 6, 7, 0x7FFFFFFE, 0x7FFFFFFF] {
        entry.set_offset(offset);
        assert_eq!(entry.offset(), offset);

        entry.set_record(Record::File(FileRecord::default()));
        assert!(entry.is_file());
        assert_eq!(entry.offset(), offset);

        entry.set_record(Record::Dir(DirRecord::default()));
        assert!(entry.is_dir());
        assert_eq!(entry.offset(), offset);
    }
}

#[test]
fn new_keeps_offset_and_kind() {
    for offset in [0u32, 1, 12345, 54321, 0x7FFF_FFFF] {
        let file = ArchiveEntry::new(offset, Record::File(FileRecord::new(7, 9)));
        assert!(file.is_file());
        assert!(!file.is_dir());
        assert_eq!(file.offset(), offset);
        assert_eq!(file.record(), Record::File(FileRecord::new(7, 9)));

        let dir = ArchiveEntry::new(offset, Record::Dir(DirRecord::new(3, 4)));
        assert!(dir.is_dir());
        assert!(!dir.is_file());
        assert_eq!(dir.offset(), offset);
        assert_eq!(dir.record(), Record::Dir(DirRecord::new(3, 4)));
    }
}

#[test]
fn set_offset_keeps_kind_and_record() {
    let mut file = ArchiveEntry::new_file(5, FileRecord::new(1, 2));
    file.set_offset(0x7FFF_FFFF);
    assert!(file.is_file());
    assert_eq!(file.offset(), 0x7FFF_FFFF);
    assert_eq!(file.record(), Record::File(FileRecord::new(1, 2)));

    let mut dir = ArchiveEntry::new_dir(0x7FFF_FFFF, DirRecord::new(1, 2));
    dir.set_offset(0);
    assert!(dir.is_dir());
    assert_eq!(dir.offset(), 0);
    assert_eq!(dir.record(), Record::Dir(DirRecord::new(1, 2)));
}

#[test]
fn set_record_switches_kind() {
    let mut entry = ArchiveEntry::new_dir(42, DirRecord::new(1, 1));
    entry.set_record(Record::File(FileRecord::new(0x1234_5678_9ABC, 5)));
    assert!(entry.is_file());
    assert_eq!(entry.offset(), 42);
    assert_eq!(entry.record(), Record::File(FileRecord::new(0x1234_5678_9ABC, 5)));
    entry.set_record(Record::Dir(DirRecord::new(8, 9)));
    assert!(entry.is_dir());
    assert_eq!(entry.offset(), 42);
    assert_eq!(entry.record(), Record::Dir(DirRecord::new(8, 9)));
}

#[test]
fn file_record_joins_low_and_high() {
    let rec = FileRecord::new(0x0002_0000_0001, 0xFFFF_FFFF_FFFF);
    assert_eq!(rec.offset_low.get(), 1);
    assert_eq!(rec.offset_high.get(), 2);
    assert_eq!(rec.offset(), 0x2_0000_0001);
    assert_eq!(rec.size_low.get(), 0xFFFF_FFFF);
    assert_eq!(rec.size_high.get(), 0xFFFF);
    assert_eq!(rec.file_size(), 0xFFFF_FFFF_FFFF);
    assert_eq!(FileRecord::default().offset(), 0);
    assert_eq!(FileRecord::default().file_size(), 0);
}

#[test]
fn entry_bytes_layout() {
    let mut out = Vec::new();
    ArchiveEntry::new_file(0x0102_0304, FileRecord::new(0x0A0B_0C0D_0E0F, 0x1112_1314_1516))
        .write(&mut out);
    assert_eq!(
        out,
        vec![
            0x81, 0x02, 0x03, 0x04, 0x0C, 0x0D, 0x0E, 0x0F, 0x13, 0x14, 0x15, 0x16, 0x0A, 0x0B,
            0x11, 0x12
        ]
    );
    let back = ArchiveEntry::read(&out, 0);
    assert!(back.is_file());
    assert_eq!(back.offset(), 0x0102_0304);
    assert_eq!(
        back.record(),
        Record::File(FileRecord::new(0x0A0B_0C0D_0E0F, 0x1112_1314_1516))
    );

    let mut out = vec![0xEE];
    ArchiveEntry::new_dir(7, DirRecord::new(0x0102_0304, 9)).write(&mut out);
    assert_eq!(out, vec![0xEE, 0, 0, 0, 7, 1, 2, 3, 4, 0, 0, 0, 9, 0, 0, 0, 0]);
    let back = ArchiveEntry::read(&out, 1);
    assert!(back.is_dir());
    assert_eq!(back.offset(), 7);
    assert_eq!(back.record(), Record::Dir(DirRecord::new(0x0102_0304, 9)));
}

#[test]
fn zeroed_entry_is_directory() {
    let entry = ArchiveEntry::new_zeroed();
    assert!(entry.is_dir());
    assert_eq!(entry.offset(), 0);
    assert_eq!(entry.record(), Record::Dir(DirRecord::default()));
}
