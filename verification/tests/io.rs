use animefs::filesystem::io::{FilesystemIo, MemoryIo};

#[test]
fn io_read() {
    let mut io = MemoryIo::new();

    assert_eq!(io.len(), 0);

    assert_eq!(io.read(0, 4), &[0, 0, 0, 0]);
    assert_eq!(io.read(8, 4), &[0, 0, 0, 0]);
}

#[test]
fn io_write() {
    let mut io = MemoryIo::new();

    assert_eq!(io.len(), 0);

    io.write(0, &[1, 2, 3, 4]);
    io.write(8, &[5, 6, 7, 8]);

    assert_eq!(io.read(0, 16), &[1, 2, 3, 4, 0, 0, 0, 0, 5, 6, 7, 8, 0, 0, 0, 0]);

    io.write(2, &[9, 8, 7, 6, 5, 4, 3, 2]);

    assert_eq!(io.read(0, 12), &[1, 2, 9, 8, 7, 6, 5, 4, 3, 2, 7, 8]);
}

#[test]
fn append() {
    let mut io = MemoryIo::new();

    assert_eq!(io.len(), 0);

    io.append(&[1, 2]);

    assert_eq!(io.read(0, 4), &[1, 2, 0, 0]);

    io.append(&[3, 4]);

    assert_eq!(io.read(0, 4), &[1, 2, 3, 4]);
}

#[test]
fn len() {
    let mut io = MemoryIo::new();

    assert!(io.is_empty());
    assert_eq!(io.len(), 0);

    io.append(&[1, 2, 3]);

    assert!(!io.is_empty());
    assert_eq!(io.len(), 3);

    io.write(1, &[0]);

    assert!(!io.is_empty());
    assert_eq!(io.len(), 3);

    io.write(3, &[0, 2]);

    assert!(!io.is_empty());
    assert_eq!(io.len(), 5);
}
