//! The 10-byte filesystem header stored at offset 0 of the container.
//!
//! Layout: `page_size` as a little-endian `u64`, then a little-endian
//! `u16` flag word holding the entry-name checksum, compression and
//! compression-level choices in its three low bit pairs.

use vstd::prelude::*;
use vstd::bytes::{
    spec_u16_to_le_bytes, spec_u16_from_le_bytes, spec_u64_to_le_bytes, spec_u64_from_le_bytes,
    lemma_auto_spec_u16_to_from_le_bytes, lemma_auto_spec_u64_to_from_le_bytes, u16_from_le_bytes,
    u16_to_le_bytes, u64_from_le_bytes, u64_to_le_bytes,
};
use vstd::slice::slice_subrange;
use crate::filesystem::checksum::Checksum;
use crate::filesystem::compression::{Compression, CompressionLevel};

verus! {

#[derive(Debug, Clone, Copy, PartialEq, Eq, Hash, Structural)]
pub struct FilesystemHeader {
    /// Size in bytes of each page's body; a page's physical size is
    /// `page_size + PAGE_HEADER_LEN`.
    pub page_size: u64,
    pub names_checksum: Checksum,
    pub names_compression: Compression,
    pub names_compression_level: CompressionLevel,
}

/// Body size a fresh store is formatted with.
pub const DEFAULT_PAGE_SIZE: u64 = 4096;

impl FilesystemHeader {
    /// Encoded length of the header in bytes.
    pub const LENGTH: usize = 10;

    pub const FLAG_NAMES_CHECKSUM_MASK: u16 = 0b00000000_00000011;
    pub const FLAG_NAMES_CHECKSUM_NONE: u16 = 0b00000000_00000000;
    pub const FLAG_NAMES_CHECKSUM_SEAHASH: u16 = 0b00000000_00000001;
    pub const FLAG_NAMES_CHECKSUM_SIPHASH: u16 = 0b00000000_00000010;
    pub const FLAG_NAMES_CHECKSUM_XXH3: u16 = 0b00000000_00000011;

    pub const FLAG_NAMES_COMPRESSION_MASK: u16 = 0b00000000_00001100;
    pub const FLAG_NAMES_COMPRESSION_NONE: u16 = 0b00000000_00000000;
    pub const FLAG_NAMES_COMPRESSION_LZ4: u16 = 0b00000000_00000100;
    pub const FLAG_NAMES_COMPRESSION_BROTLI: u16 = 0b00000000_00001000;
    pub const FLAG_NAMES_COMPRESSION_ZSTD: u16 = 0b00000000_00001100;

    pub const FLAG_NAMES_COMPRESSION_LEVEL_MASK: u16 = 0b00000000_00110000;
    pub const FLAG_NAMES_COMPRESSION_LEVEL_AUTO: u16 = 0b00000000_00000000;
    pub const FLAG_NAMES_COMPRESSION_LEVEL_FAST: u16 = 0b00000000_00010000;
    pub const FLAG_NAMES_COMPRESSION_LEVEL_BALANCED: u16 = 0b00000000_00100000;
    pub const FLAG_NAMES_COMPRESSION_LEVEL_MAX: u16 = 0b00000000_00110000;

    /// The flag word's checksum bits.
    pub open spec fn spec_checksum_flags(c: Checksum) -> u16 {
        match c {
            Checksum::Off => 0u16,
            Checksum::Seahash => 1u16,
            Checksum::Siphash => 2u16,
            Checksum::Xxh3 => 3u16,
        }
    }

    /// The flag word's compression bits.
    pub open spec fn spec_compression_flags(c: Compression) -> u16 {
        match c {
            Compression::Off => 0u16,
            Compression::Lz4 => 4u16,
            Compression::Brotli => 8u16,
            Compression::Zstd => 12u16,
        }
    }

    /// The flag word's compression-level bits.
    pub open spec fn spec_level_flags(l: CompressionLevel) -> u16 {
        match l {
            CompressionLevel::Auto => 0u16,
            CompressionLevel::Fast => 16u16,
            CompressionLevel::Balanced => 32u16,
            CompressionLevel::Max => 48u16,
        }
    }

    /// The header's complete flag word.
    pub open spec fn spec_flags(self) -> u16 {
        Self::spec_checksum_flags(self.names_checksum) | Self::spec_compression_flags(
            self.names_compression,
        ) | Self::spec_level_flags(self.names_compression_level)
    }

    /// The 10 bytes this header encodes to.
    pub open spec fn spec_bytes(self) -> Seq<u8> {
        spec_u64_to_le_bytes(self.page_size) + spec_u16_to_le_bytes(self.spec_flags())
    }

    /// The header 10 bytes decode to.
    pub open spec fn spec_parse(s: Seq<u8>) -> FilesystemHeader {
        let flags = spec_u16_from_le_bytes(s.subrange(8, 10));
        FilesystemHeader {
            page_size: spec_u64_from_le_bytes(s.subrange(0, 8)),
            names_checksum: Self::spec_parse_checksum(flags & Self::FLAG_NAMES_CHECKSUM_MASK),
            names_compression: Self::spec_parse_compression(
                flags & Self::FLAG_NAMES_COMPRESSION_MASK,
            ),
            names_compression_level: Self::spec_parse_level(
                flags & Self::FLAG_NAMES_COMPRESSION_LEVEL_MASK,
            ),
        }
    }

    /// The checksum choice the masked checksum bits decode to.
    pub open spec fn spec_parse_checksum(bits: u16) -> Checksum {
        if bits == Self::FLAG_NAMES_CHECKSUM_SEAHASH {
            Checksum::Seahash
        } else if bits == Self::FLAG_NAMES_CHECKSUM_SIPHASH {
            Checksum::Siphash
        } else if bits == Self::FLAG_NAMES_CHECKSUM_XXH3 {
            Checksum::Xxh3
        } else {
            Checksum::Off
        }
    }

    /// The compression choice the masked compression bits decode to.
    pub open spec fn spec_parse_compression(bits: u16) -> Compression {
        if bits == Self::FLAG_NAMES_COMPRESSION_LZ4 {
            Compression::Lz4
        } else if bits == Self::FLAG_NAMES_COMPRESSION_BROTLI {
            Compression::Brotli
        } else if bits == Self::FLAG_NAMES_COMPRESSION_ZSTD {
            Compression::Zstd
        } else {
            Compression::Off
        }
    }

    /// The level choice the masked level bits decode to.
    pub open spec fn spec_parse_level(bits: u16) -> CompressionLevel {
        if bits == Self::FLAG_NAMES_COMPRESSION_LEVEL_FAST {
            CompressionLevel::Fast
        } else if bits == Self::FLAG_NAMES_COMPRESSION_LEVEL_BALANCED {
            CompressionLevel::Balanced
        } else if bits == Self::FLAG_NAMES_COMPRESSION_LEVEL_MAX {
            CompressionLevel::Max
        } else {
            CompressionLevel::Auto
        }
    }

    /// Parse a filesystem header from its 10 encoded bytes.
    pub fn from_bytes(bytes: &[u8]) -> (r: Self)
        requires
            bytes@.len() == Self::LENGTH,
        ensures
            r == Self::spec_parse(bytes@),
    {
        let page_size = u64_from_le_bytes(slice_subrange(bytes, 0, 8));
        let flags = u16_from_le_bytes(slice_subrange(bytes, 8, 10));

        let checksum_bits = flags & Self::FLAG_NAMES_CHECKSUM_MASK;
        let names_checksum = if checksum_bits == Self::FLAG_NAMES_CHECKSUM_SEAHASH {
            Checksum::Seahash
        } else if checksum_bits == Self::FLAG_NAMES_CHECKSUM_SIPHASH {
            Checksum::Siphash
        } else if checksum_bits == Self::FLAG_NAMES_CHECKSUM_XXH3 {
            Checksum::Xxh3
        } else {
            Checksum::Off
        };
        let compression_bits = flags & Self::FLAG_NAMES_COMPRESSION_MASK;
        let names_compression = if compression_bits == Self::FLAG_NAMES_COMPRESSION_LZ4 {
            Compression::Lz4
        } else if compression_bits == Self::FLAG_NAMES_COMPRESSION_BROTLI {
            Compression::Brotli
        } else if compression_bits == Self::FLAG_NAMES_COMPRESSION_ZSTD {
            Compression::Zstd
        } else {
            Compression::Off
        };
        let level_bits = flags & Self::FLAG_NAMES_COMPRESSION_LEVEL_MASK;
        let names_compression_level = if level_bits == Self::FLAG_NAMES_COMPRESSION_LEVEL_FAST {
            CompressionLevel::Fast
        } else if level_bits == Self::FLAG_NAMES_COMPRESSION_LEVEL_BALANCED {
            CompressionLevel::Balanced
        } else if level_bits == Self::FLAG_NAMES_COMPRESSION_LEVEL_MAX {
            CompressionLevel::Max
        } else {
            CompressionLevel::Auto
        };

        FilesystemHeader { page_size, names_checksum, names_compression, names_compression_level }
    }

    /// Encode this header into its 10 bytes.
    pub fn to_bytes(&self) -> (r: Vec<u8>)
        ensures
            r@ == self.spec_bytes(),
            r@.len() == Self::LENGTH,
    {
        let mut bytes = u64_to_le_bytes(self.page_size);

        let checksum_flags: u16 = match self.names_checksum {
            Checksum::Off => Self::FLAG_NAMES_CHECKSUM_NONE,
            Checksum::Seahash => Self::FLAG_NAMES_CHECKSUM_SEAHASH,
            Checksum::Siphash => Self::FLAG_NAMES_CHECKSUM_SIPHASH,
            Checksum::Xxh3 => Self::FLAG_NAMES_CHECKSUM_XXH3,
        };
        let compression_flags: u16 = match self.names_compression {
            Compression::Off => Self::FLAG_NAMES_COMPRESSION_NONE,
            Compression::Lz4 => Self::FLAG_NAMES_COMPRESSION_LZ4,
            Compression::Brotli => Self::FLAG_NAMES_COMPRESSION_BROTLI,
            Compression::Zstd => Self::FLAG_NAMES_COMPRESSION_ZSTD,
        };
        let level_flags: u16 = match self.names_compression_level {
            CompressionLevel::Auto => Self::FLAG_NAMES_COMPRESSION_LEVEL_AUTO,
            CompressionLevel::Fast => Self::FLAG_NAMES_COMPRESSION_LEVEL_FAST,
            CompressionLevel::Balanced => Self::FLAG_NAMES_COMPRESSION_LEVEL_BALANCED,
            CompressionLevel::Max => Self::FLAG_NAMES_COMPRESSION_LEVEL_MAX,
        };
        let flags: u16 = checksum_flags | compression_flags | level_flags;

        let mut tail = u16_to_le_bytes(flags);
        bytes.append(&mut tail);
        assert(bytes@ =~= self.spec_bytes());
        bytes
    }
}

impl FilesystemHeader {
    /// The header a fresh store is formatted with: 4096-byte pages,
    /// seahash-checksummed names, no compression, automatic level.
    pub open spec fn spec_default() -> FilesystemHeader {
        FilesystemHeader {
            page_size: DEFAULT_PAGE_SIZE,
            names_checksum: Checksum::Seahash,
            names_compression: Compression::Off,
            names_compression_level: CompressionLevel::Auto,
        }
    }
}

impl Default for FilesystemHeader {
    /// A fresh store: 4096-byte pages, seahash-checksummed names, no
    /// compression, automatic level.
    fn default() -> (r: Self)
        ensures
            r == FilesystemHeader::spec_default(),
    {
        FilesystemHeader {
            page_size: DEFAULT_PAGE_SIZE,
            names_checksum: Checksum::Seahash,
            names_compression: Compression::Off,
            names_compression_level: CompressionLevel::Auto,
        }
    }
}

/// Law: decoding an encoded header gives the header back; the 10-byte
/// layout loses nothing.
pub proof fn lemma_header_roundtrip(h: FilesystemHeader)
    ensures
        FilesystemHeader::spec_parse(h.spec_bytes()) == h,
{
    lemma_auto_spec_u64_to_from_le_bytes();
    lemma_auto_spec_u16_to_from_le_bytes();
    assert(h.spec_bytes().subrange(0, 8) =~= spec_u64_to_le_bytes(h.page_size));
    assert(h.spec_bytes().subrange(8, 10) =~= spec_u16_to_le_bytes(h.spec_flags()));
    let c = FilesystemHeader::spec_checksum_flags(h.names_checksum);
    let p = FilesystemHeader::spec_compression_flags(h.names_compression);
    let l = FilesystemHeader::spec_level_flags(h.names_compression_level);
    assert((c | p | l) & 0x3u16 == c && (c | p | l) & 0xcu16 == p && (c | p | l) & 0x30u16 == l)
        by (bit_vector)
        requires
            (c == 0u16 || c == 1u16 || c == 2u16 || c == 3u16),
            (p == 0u16 || p == 4u16 || p == 8u16 || p == 12u16),
            (l == 0u16 || l == 16u16 || l == 32u16 || l == 48u16),
    ;
}

} // verus!
