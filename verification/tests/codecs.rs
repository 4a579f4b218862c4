use animefs::btree::record::GenericBTreeRecord;
use animefs::filesystem::entry::FilesystemEntry;
use animefs::pages::page::PageHeader;

#[test]
fn page_header_roundtrip() {
    let header = PageHeader {
        prev_page_number: 0x01020304,
        next_page_number: 0xa0b0c0d0,
        has_prev: true,
        has_next: false,
    };
    let bytes = header.to_bytes();
    assert_eq!(bytes, vec![0x04, 0x03, 0x02, 0x01, 0xd0, 0xc0, 0xb0, 0xa0, 0x01]);
    assert_eq!(PageHeader::from_bytes(&bytes), header);
}

#[test]
fn entry_roundtrip() {
    let entry = FilesystemEntry { name: 0x0102030405060708, inode: 5, sibling_addr: 40, child_addr: 72 };
    let bytes = entry.to_bytes();
    assert_eq!(bytes.len(), 32);
    assert_eq!(&bytes[..8], &[1, 2, 3, 4, 5, 6, 7, 8]);
    assert_eq!(&bytes[8..16], &[0, 0, 0, 0, 0, 0, 0, 5]);
    assert_eq!(FilesystemEntry::from_bytes(&bytes), entry);

    assert!(!entry.is_empty());
    assert!(entry.is_readable());
    assert!(FilesystemEntry::new(0, 0).is_empty());
    assert!(FilesystemEntry::new(0, 1).is_readable());
}

#[test]
fn record_roundtrip() {
    let record = GenericBTreeRecord::<2, 3>::new(vec![0xaa, 0xbb], vec![1, 2, 3]);
    let bytes = record.to_bytes();
    // [left 4][flags][key 2][value 3][right 4], key and value set.
    assert_eq!(bytes, vec![0, 0, 0, 0, 0b110, 0xaa, 0xbb, 1, 2, 3, 0, 0, 0, 0]);
    let parsed = GenericBTreeRecord::<2, 3>::from_bytes(&bytes).unwrap();
    assert_eq!(parsed, record);

    let linked = GenericBTreeRecord::<2, 3> {
        key: Some(vec![9, 9]),
        value: None,
        left_addr: Some(0x01020304),
        right_addr: Some(7),
    };
    let bytes = linked.to_bytes();
    assert_eq!(bytes, vec![1, 2, 3, 4, 0b1011, 9, 9, 0, 0, 0, 0, 0, 0, 7]);
    let parsed = GenericBTreeRecord::<2, 3>::from_bytes(&bytes).unwrap();
    assert_eq!(parsed, linked);

    // Too few bytes parse to nothing.
    assert!(GenericBTreeRecord::<2, 3>::from_bytes(&bytes[..13]).is_none());
}
