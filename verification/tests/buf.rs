use animefs::filesystem::io::{FilesystemIo, MemoryIo};
use animefs::io::buf::BufStorageIO;
use tinyrand::{Rand, Wyrand};

/// Prefix-buffered container parity: the same random writes applied to
/// a raw container and to a buffered one must leave identical bytes.
fn test_write_buf(size: usize) {
    let mut raw = MemoryIo::new();
    let mut buf = BufStorageIO::new(MemoryIo::new(), size);

    assert_eq!(raw.len(), 0);
    assert_eq!(buf.len(), 0);

    assert!(raw.is_empty());
    assert!(buf.is_empty());

    let mut rand = Wyrand::default();

    for _ in 0..1000 {
        let offset = rand.next_lim_u64(256);
        let byte = rand.next_lim_u16(256) as u8;
        let count = rand.next_lim_usize(256);
        let bytes = vec![byte; count];

        raw.write(offset, &bytes);
        buf.write(offset, &bytes);
    }

    assert!(!raw.is_empty());
    assert!(!buf.is_empty());

    let len_1 = raw.len() as usize;
    let len_2 = buf.len() as usize;

    assert_eq!(len_1, len_2);
    assert_eq!(raw.read(0, len_1), buf.read(0, len_2));
}

#[test]
fn write0() {
    test_write_buf(0);
}

#[test]
fn write128() {
    test_write_buf(128);
}

#[test]
fn write1024() {
    test_write_buf(1024);
}

#[test]
fn read_parity() {
    let mut raw = MemoryIo::new();
    let mut buf = BufStorageIO::new(MemoryIo::new(), 64);

    for i in 0..200u64 {
        let bytes = vec![i as u8; 3];
        raw.append(&bytes);
        buf.append(&bytes);
    }

    for offset in [0u64, 1, 63, 64, 65, 100, 599, 600, 601] {
        assert_eq!(raw.read(offset, 10), buf.read(offset, 10));
    }
}
