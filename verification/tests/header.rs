use animefs::filesystem::checksum::Checksum;
use animefs::filesystem::compression::{Compression, CompressionLevel};
use animefs::filesystem::driver::FilesystemDriver;
use animefs::filesystem::header::FilesystemHeader;
use animefs::filesystem::io::MemoryIo;

#[test]
fn header() {
    let mut fs = FilesystemDriver::new(MemoryIo::new());

    let header = fs.read_header();

    assert_eq!(header.page_size, 4096);
    assert_eq!(header.names_checksum, Checksum::Seahash);
    assert_eq!(header.names_compression, Compression::Off);
    assert_eq!(header.names_compression_level, CompressionLevel::Auto);

    fs.write_header(FilesystemHeader {
        page_size: 123,
        names_checksum: Checksum::Siphash,
        names_compression: Compression::Lz4,
        names_compression_level: CompressionLevel::Balanced,
    });

    let header = fs.read_header();

    assert_eq!(header.page_size, 123);
    assert_eq!(header.names_checksum, Checksum::Siphash);
    assert_eq!(header.names_compression, Compression::Lz4);
    assert_eq!(header.names_compression_level, CompressionLevel::Balanced);
}

#[test]
fn header_bytes_roundtrip() {
    let header = FilesystemHeader {
        page_size: 77,
        names_checksum: Checksum::Xxh3,
        names_compression: Compression::Zstd,
        names_compression_level: CompressionLevel::Max,
    };
    let bytes = header.to_bytes();
    assert_eq!(bytes.len(), 10);
    assert_eq!(&bytes[..8], &[77, 0, 0, 0, 0, 0, 0, 0]);
    assert_eq!(bytes[8], 0b0011_1111);
    assert_eq!(bytes[9], 0);
    assert_eq!(FilesystemHeader::from_bytes(&bytes), header);
}
