//! The entry directory: 32-byte sibling/child-linked nodes in a book.
//!
//! The book's first eight bytes hold the offset of the most recently
//! appended entry (zero meaning the tree is empty and starts at
//! `ROOT_OFFSET`).  Entries follow from offset 8 onward, appended in
//! insertion order and threaded together through `sibling_addr` and
//! `child_addr` links, which always point at later offsets.

use vstd::prelude::*;
use crate::blob::{
    spec_u64_to_be_bytes, spec_u64_from_be_bytes, u64_to_be_bytes, u64_from_be_bytes,
    lemma_u64_be_roundtrip,
};
use crate::filesystem::io::FilesystemIo;
use crate::filesystem::worker::FilesystemWorker;
use crate::pages::book::{Book, book_wf, book_bytes, book_byte, book_space_ok, chain_len};
use crate::geometry::{page_pos, page_count};
use vstd::arithmetic::mul::lemma_mul_inequality;
use vstd::arithmetic::div_mod::lemma_div_is_ordered;

verus! {

#[derive(Debug, Clone, Copy, PartialEq, Eq, Hash, Structural)]
pub struct FilesystemEntry {
    /// Hash of the entry's name.
    pub name: u64,
    /// ID of the entry, 0 if it's not readable.
    pub inode: u64,
    /// Offset within the book of the entry's first sibling.
    pub sibling_addr: u64,
    /// Offset within the book of the entry's first child.
    pub child_addr: u64,
}

impl FilesystemEntry {
    /// Encoded length of an entry in bytes.
    pub const LENGTH: usize = 32;

    /// Create new entry without children and siblings.
    ///
    /// If inode is 0, then the entry is not readable.
    pub fn new(name: u64, inode: u64) -> (r: Self)
        ensures
            r == (FilesystemEntry { name, inode, sibling_addr: 0, child_addr: 0 }),
    {
        FilesystemEntry { name, inode, sibling_addr: 0, child_addr: 0 }
    }

    /// Check if the current entry is unset (empty).
    pub fn is_empty(&self) -> (r: bool)
        ensures
            r == (self.name == 0 && self.sibling_addr == 0 && self.child_addr == 0),
    {
        let packed = self.name | self.sibling_addr | self.child_addr;
        let r = packed == 0;
        proof {
            let a = self.name;
            let b = self.sibling_addr;
            let c = self.child_addr;
            assert((a | b | c == 0u64) == (a == 0u64 && b == 0u64 && c == 0u64)) by (bit_vector);
        }
        r
    }

    /// Check if the current entry is readable: a readable entry has a
    /// non-zero inode that can be looked up to read the file's content.
    pub fn is_readable(&self) -> (r: bool)
        ensures
            r == (self.inode != 0),
    {
        self.inode != 0
    }

    /// The 32 bytes this entry encodes to, all fields big endian.
    pub open spec fn spec_bytes(self) -> Seq<u8> {
        spec_u64_to_be_bytes(self.name) + spec_u64_to_be_bytes(self.inode) + spec_u64_to_be_bytes(
            self.sibling_addr,
        ) + spec_u64_to_be_bytes(self.child_addr)
    }

    /// The entry 32 bytes decode to.
    pub open spec fn spec_parse(s: Seq<u8>) -> FilesystemEntry {
        FilesystemEntry {
            name: spec_u64_from_be_bytes(s.subrange(0, 8)),
            inode: spec_u64_from_be_bytes(s.subrange(8, 16)),
            sibling_addr: spec_u64_from_be_bytes(s.subrange(16, 24)),
            child_addr: spec_u64_from_be_bytes(s.subrange(24, 32)),
        }
    }

    /// Parse an entry from its 32 encoded bytes.
    pub fn from_bytes(bytes: &[u8]) -> (r: Self)
        requires
            bytes@.len() == Self::LENGTH,
        ensures
            r == Self::spec_parse(bytes@),
    {
        let name = u64_from_be_bytes(vstd::slice::slice_subrange(bytes, 0, 8));
        let inode = u64_from_be_bytes(vstd::slice::slice_subrange(bytes, 8, 16));
        let sibling_addr = u64_from_be_bytes(vstd::slice::slice_subrange(bytes, 16, 24));
        let child_addr = u64_from_be_bytes(vstd::slice::slice_subrange(bytes, 24, 32));
        FilesystemEntry { name, inode, sibling_addr, child_addr }
    }

    /// Encode this entry into its 32 bytes.
    pub fn to_bytes(&self) -> (r: Vec<u8>)
        ensures
            r@ == self.spec_bytes(),
            r@.len() == Self::LENGTH,
    {
        let mut bytes = u64_to_be_bytes(self.name);
        let mut inode = u64_to_be_bytes(self.inode);
        let mut sibling = u64_to_be_bytes(self.sibling_addr);
        let mut child = u64_to_be_bytes(self.child_addr);
        bytes.append(&mut inode);
        bytes.append(&mut sibling);
        bytes.append(&mut child);
        proof {
            assert(bytes@ =~= self.spec_bytes());
        }
        bytes
    }
}

/// Law: decoding an encoded entry gives the entry back; the 32-byte
/// layout loses nothing.
pub proof fn lemma_entry_roundtrip(e: FilesystemEntry)
    ensures
        FilesystemEntry::spec_parse(e.spec_bytes()) == e,
{
    lemma_u64_be_roundtrip(e.name);
    lemma_u64_be_roundtrip(e.inode);
    lemma_u64_be_roundtrip(e.sibling_addr);
    lemma_u64_be_roundtrip(e.child_addr);
    assert(e.spec_bytes().subrange(0, 8) =~= spec_u64_to_be_bytes(e.name));
    assert(e.spec_bytes().subrange(8, 16) =~= spec_u64_to_be_bytes(e.inode));
    assert(e.spec_bytes().subrange(16, 24) =~= spec_u64_to_be_bytes(e.sibling_addr));
    assert(e.spec_bytes().subrange(24, 32) =~= spec_u64_to_be_bytes(e.child_addr));
}

#[derive(Debug, Clone, Copy, PartialEq, Eq, Hash, Structural)]
/// Filesystem reader mode: walk an entry's siblings, or descend first
/// children.
pub enum FilesystemTreeReaderMode {
    /// Follow `sibling_addr` links.
    Sibling,
    /// Follow `child_addr` links.
    Child,
}

/// The entry stored at stream offset `o` of the directory's book.
pub open spec fn spec_entry_at(disk: Seq<u8>, page_size: u64, entry_page: int, o: int) -> FilesystemEntry {
    FilesystemEntry::spec_parse(book_bytes(disk, page_size, entry_page, o, 32))
}

/// Directory well-formedness: the last-entry pointer and every link lie
/// on 32-byte entry slots behind the 8-byte header, and every link
/// points strictly forward, at or before the last entry.
pub open spec fn spec_entries_wf(disk: Seq<u8>, page_size: u64, entry_page: int, last: int) -> bool {
    &&& 8 <= last
    &&& (last - 8) % 32 == 0
    &&& forall|o: int|
        8 <= o && (o - 8) % 32 == 0 && o <= last ==> {
            let e = #[trigger] spec_entry_at(disk, page_size, entry_page, o);
            &&& (e.sibling_addr != 0 ==> o < e.sibling_addr <= last && (e.sibling_addr - 8) % 32
                == 0)
            &&& (e.child_addr != 0 ==> 8 <= e.child_addr <= last && (e.child_addr - 8) % 32 == 0)
        }
}

#[derive(Debug, Clone)]
/// Reader of a filesystem entry's child or sibling chain.
///
/// The reader keeps an inner buffer of the tree's bytes to batch disk
/// reads; give `BUF_SIZE` a multiple of `FilesystemEntry::LENGTH`.
pub struct FilesystemTreeReader<const BUF_SIZE: u64> {
    book: Book,
    offset: u64,
    buf_offset: u64,
    buf: Vec<u8>,
    mode: FilesystemTreeReaderMode,
}

impl<const BUF_SIZE: u64> FilesystemTreeReader<BUF_SIZE> {
    /// The stream offset the next step reads.
    pub closed spec fn spec_offset(&self) -> u64 {
        self.offset
    }

    /// The book the reader walks.
    pub closed spec fn spec_book(&self) -> Book {
        self.book
    }

    /// The link mode the reader follows.
    pub closed spec fn spec_mode(&self) -> FilesystemTreeReaderMode {
        self.mode
    }

    /// The buffer mirrors the book's stream at `buf_offset`.
    pub closed spec fn buf_wf(&self, disk: Seq<u8>) -> bool {
        self.buf@ == book_bytes(
            disk,
            self.spec_book().spec_page_size(),
            self.spec_book().spec_entry() as int,
            self.buf_offset as int,
            self.buf@.len(),
        )
    }

    /// Step to the next entry of the chain: yield the entry under the
    /// current offset and follow its link, or stop on an empty entry or
    /// a zero link.
    #[verifier::rlimit(100)]
    #[verifier::spinoff_prover]
    pub fn next<T: FilesystemIo>(&mut self, w: &mut FilesystemWorker<T>) -> (r: Option<
        (u64, FilesystemEntry),
    >)
        requires
            old(w).wf(),
            old(w).header().page_size == old(self).spec_book().spec_page_size(),
            book_wf(
                old(w).disk(),
                old(self).spec_book().spec_page_size(),
                old(self).spec_book().spec_entry() as int,
            ),
            old(self).buf_wf(old(w).disk()),
            BUF_SIZE >= 32,
            old(self).spec_offset() + BUF_SIZE <= u64::MAX,
            BUF_SIZE <= usize::MAX,
            book_space_ok(
                old(w).disk(),
                old(self).spec_book().spec_page_size(),
                old(self).spec_offset() + BUF_SIZE,
            ),
        ensures
            final(w).wf(),
            final(w).header() == old(w).header(),
            book_wf(
                final(w).disk(),
                old(self).spec_book().spec_page_size(),
                old(self).spec_book().spec_entry() as int,
            ),
            final(self).spec_book() == old(self).spec_book(),
            final(self).spec_mode() == old(self).spec_mode(),
            final(self).buf_wf(final(w).disk()),
            forall|p: int|
                0 <= p ==> #[trigger] book_byte(
                    final(w).disk(),
                    old(self).spec_book().spec_page_size(),
                    old(self).spec_book().spec_entry() as int,
                    p,
                ) == book_byte(
                    old(w).disk(),
                    old(self).spec_book().spec_page_size(),
                    old(self).spec_book().spec_entry() as int,
                    p,
                ),
            ({
                let e = spec_entry_at(
                    old(w).disk(),
                    old(self).spec_book().spec_page_size(),
                    old(self).spec_book().spec_entry() as int,
                    old(self).spec_offset() as int,
                );
                match r {
                    Some((at, found)) => {
                        &&& at == old(self).spec_offset()
                        &&& found == e
                        &&& !(found.name == 0 && found.sibling_addr == 0 && found.child_addr == 0)
                        &&& (old(self).spec_mode() == FilesystemTreeReaderMode::Sibling
                            ==> found.sibling_addr != 0 && final(self).spec_offset()
                            == found.sibling_addr)
                        &&& (old(self).spec_mode() == FilesystemTreeReaderMode::Child
                            ==> found.child_addr != 0 && final(self).spec_offset()
                            == found.child_addr)
                    },
                    None => {
                        final(self).spec_offset() == old(self).spec_offset() && ((e.name == 0
                            && e.sibling_addr == 0 && e.child_addr == 0) || (old(self).spec_mode()
                            == FilesystemTreeReaderMode::Sibling && e.sibling_addr == 0) || (old(
                            self,
                        ).spec_mode() == FilesystemTreeReaderMode::Child && e.child_addr == 0))
                    },
                }
            }),
    {
        let ghost disk0 = w.disk();
        let ghost ps = self.book.spec_page_size();
        let ghost ep = self.book.spec_entry() as int;
        if self.buf.len() == 0 || (self.offset > self.buf_offset && self.offset - self.buf_offset
            > BUF_SIZE - 32) || self.buf_offset > self.offset || (self.offset - self.buf_offset)
            + 32 > self.buf.len() as u64 {
            self.buf_offset = self.offset;
            self.buf = self.book.read(w, self.offset, BUF_SIZE);
        }
        proof {
            assert(self.buf@ =~= book_bytes(
                w.disk(),
                ps,
                ep,
                self.buf_offset as int,
                self.buf@.len(),
            ));
        }
        let i = (self.offset - self.buf_offset) as usize;
        proof {
            assert(self.buf@.len() >= i + 32);
        }
        let entry_bytes = vstd::slice::slice_subrange(self.buf.as_slice(), i, i + 32);
        let entry = FilesystemEntry::from_bytes(entry_bytes);
        proof {
            assert(entry_bytes@ =~= book_bytes(w.disk(), ps, ep, self.offset as int, 32));
            assert(book_bytes(w.disk(), ps, ep, self.offset as int, 32) =~= book_bytes(
                disk0,
                ps,
                ep,
                self.offset as int,
                32,
            ));
        }
        if entry.is_empty() {
            return None;
        }
        let offset = self.offset;
        match self.mode {
            FilesystemTreeReaderMode::Sibling => {
                if entry.sibling_addr != 0 {
                    self.offset = entry.sibling_addr;
                    Some((offset, entry))
                } else {
                    None
                }
            },
            FilesystemTreeReaderMode::Child => {
                if entry.child_addr != 0 {
                    self.offset = entry.child_addr;
                    Some((offset, entry))
                } else {
                    None
                }
            },
        }
    }
}


#[derive(Debug, Clone)]
/// The entry directory over one book.
pub struct FilesystemTree {
    book: Book,
    last_entry_addr: u64,
}

impl FilesystemTree {
    /// Offset of the root entry: use it to read the root's children and
    /// siblings or to insert new ones.
    pub const ROOT_OFFSET: u64 = 8;

    /// The book the directory lives in.
    pub closed spec fn spec_book(&self) -> Book {
        self.book
    }

    /// The offset of the most recently appended entry.
    pub closed spec fn spec_last(&self) -> u64 {
        self.last_entry_addr
    }

    /// Open the directory stored in `book`, reading the last-entry
    /// pointer from its first eight bytes.
    pub fn open<T: FilesystemIo>(book: Book, w: &mut FilesystemWorker<T>) -> (r: Self)
        requires
            old(w).wf(),
            old(w).header().page_size == book.spec_page_size(),
            book_wf(old(w).disk(), book.spec_page_size(), book.spec_entry() as int),
            book_space_ok(old(w).disk(), book.spec_page_size(), 8),
        ensures
            final(w).wf(),
            final(w).header() == old(w).header(),
            book_wf(final(w).disk(), book.spec_page_size(), book.spec_entry() as int),
            r.spec_book() == book,
            ({
                let stored = spec_u64_from_be_bytes(
                    book_bytes(
                        old(w).disk(),
                        book.spec_page_size(),
                        book.spec_entry() as int,
                        0,
                        8,
                    ),
                );
                r.spec_last() == if stored == 0 {
                    8u64
                } else {
                    stored
                }
            }),
            forall|p: int|
                0 <= p ==> #[trigger] book_byte(
                    final(w).disk(),
                    book.spec_page_size(),
                    book.spec_entry() as int,
                    p,
                ) == book_byte(old(w).disk(), book.spec_page_size(), book.spec_entry() as int, p),
    {
        let header = book.read(w, 0, 8);
        let last_entry_addr = u64_from_be_bytes(header.as_slice());
        FilesystemTree {
            book,
            last_entry_addr: if last_entry_addr == 0 {
                Self::ROOT_OFFSET
            } else {
                last_entry_addr
            },
        }
    }

    /// Read the filesystem entry at the given offset.
    pub fn read<T: FilesystemIo>(&self, w: &mut FilesystemWorker<T>, offset: u64) -> (r:
        FilesystemEntry)
        requires
            old(w).wf(),
            old(w).header().page_size == self.spec_book().spec_page_size(),
            book_wf(
                old(w).disk(),
                self.spec_book().spec_page_size(),
                self.spec_book().spec_entry() as int,
            ),
            offset + 32 <= u64::MAX,
            book_space_ok(old(w).disk(), self.spec_book().spec_page_size(), offset + 32),
        ensures
            final(w).wf(),
            final(w).header() == old(w).header(),
            book_wf(
                final(w).disk(),
                self.spec_book().spec_page_size(),
                self.spec_book().spec_entry() as int,
            ),
            r == spec_entry_at(
                old(w).disk(),
                self.spec_book().spec_page_size(),
                self.spec_book().spec_entry() as int,
                offset as int,
            ),
            page_count(final(w).disk().len() as int, self.spec_book().spec_page_size())
                <= page_count(old(w).disk().len() as int, self.spec_book().spec_page_size()) + (
            offset + 32) / (self.spec_book().spec_page_size() as int) + 2,
            offset + 32 <= chain_len(
                old(w).disk(),
                self.spec_book().spec_page_size(),
                self.spec_book().spec_entry() as int,
            ) * (self.spec_book().spec_page_size() as int) ==> final(w).disk() == old(w).disk(),
            forall|p: int|
                0 <= p ==> #[trigger] book_byte(
                    final(w).disk(),
                    self.spec_book().spec_page_size(),
                    self.spec_book().spec_entry() as int,
                    p,
                ) == book_byte(
                    old(w).disk(),
                    self.spec_book().spec_page_size(),
                    self.spec_book().spec_entry() as int,
                    p,
                ),
    {
        let bytes = self.book.read(w, offset, 32);
        FilesystemEntry::from_bytes(bytes.as_slice())
    }

    /// Write a filesystem entry to the given offset.
    pub fn write<T: FilesystemIo>(&self, w: &mut FilesystemWorker<T>, offset: u64, entry: FilesystemEntry)
        requires
            old(w).wf(),
            old(w).header().page_size == self.spec_book().spec_page_size(),
            book_wf(
                old(w).disk(),
                self.spec_book().spec_page_size(),
                self.spec_book().spec_entry() as int,
            ),
            offset + 32 <= u64::MAX,
            book_space_ok(old(w).disk(), self.spec_book().spec_page_size(), offset + 32),
        ensures
            final(w).wf(),
            final(w).header() == old(w).header(),
            book_wf(
                final(w).disk(),
                self.spec_book().spec_page_size(),
                self.spec_book().spec_entry() as int,
            ),
            spec_entry_at(
                final(w).disk(),
                self.spec_book().spec_page_size(),
                self.spec_book().spec_entry() as int,
                offset as int,
            ) == entry,
            page_count(final(w).disk().len() as int, self.spec_book().spec_page_size())
                <= page_count(old(w).disk().len() as int, self.spec_book().spec_page_size()) + (
            offset + 32) / (self.spec_book().spec_page_size() as int) + 2,
            offset + 32 <= chain_len(
                old(w).disk(),
                self.spec_book().spec_page_size(),
                self.spec_book().spec_entry() as int,
            ) * (self.spec_book().spec_page_size() as int) ==> page_count(
                final(w).disk().len() as int,
                self.spec_book().spec_page_size(),
            ) == page_count(old(w).disk().len() as int, self.spec_book().spec_page_size()),
            chain_len(
                final(w).disk(),
                self.spec_book().spec_page_size(),
                self.spec_book().spec_entry() as int,
            ) >= chain_len(
                old(w).disk(),
                self.spec_book().spec_page_size(),
                self.spec_book().spec_entry() as int,
            ),
            chain_len(
                final(w).disk(),
                self.spec_book().spec_page_size(),
                self.spec_book().spec_entry() as int,
            ) * (self.spec_book().spec_page_size() as int) >= offset + 32,
            forall|p: int|
                0 <= p && !(offset <= p < offset + 32) ==> #[trigger] book_byte(
                    final(w).disk(),
                    self.spec_book().spec_page_size(),
                    self.spec_book().spec_entry() as int,
                    p,
                ) == book_byte(
                    old(w).disk(),
                    self.spec_book().spec_page_size(),
                    self.spec_book().spec_entry() as int,
                    p,
                ),
    {
        let bytes = entry.to_bytes();
        self.book.write(w, offset, bytes);
        proof {
            let ps = self.spec_book().spec_page_size();
            let ep = self.spec_book().spec_entry() as int;
            assert(book_bytes(w.disk(), ps, ep, offset as int, 32) =~= entry.spec_bytes());
            lemma_entry_roundtrip(entry);
        }
    }

    /// Read filesystem entries starting from the specified offset;
    /// `BUF_SIZE` sets how many bytes each disk read fetches at once.
    ///
    /// The first bytes of the book hold the directory's own metadata:
    /// start walks at `ROOT_OFFSET` or at an entry's link.
    pub fn reader<const BUF_SIZE: u64>(&self, offset: u64, mode: FilesystemTreeReaderMode) -> (r:
        FilesystemTreeReader<BUF_SIZE>)
        ensures
            r.spec_book() == self.spec_book(),
            r.spec_offset() == offset,
            r.spec_mode() == mode,
            forall|disk: Seq<u8>| #[trigger] r.buf_wf(disk),
    {
        let r = FilesystemTreeReader {
            book: self.book,
            offset,
            buf_offset: 0,
            buf: Vec::new(),
            mode,
        };
        proof {
            assert forall|disk: Seq<u8>| #[trigger] r.buf_wf(disk) by {
                assert(r.buf_wf(disk)) by {
                    assert(Seq::<u8>::empty() =~= book_bytes(
                        disk,
                        r.spec_book().spec_page_size(),
                        r.spec_book().spec_entry() as int,
                        0,
                        0,
                    ));
                }
            }
        }
        r
    }

    /// Read root filesystem entries: a reader over the root entry's
    /// sibling chain.
    pub fn read_root<const BUF_SIZE: u64>(&self) -> (r: FilesystemTreeReader<BUF_SIZE>)
        ensures
            r.spec_book() == self.spec_book(),
            r.spec_offset() == 8,
            r.spec_mode() == FilesystemTreeReaderMode::Sibling,
            forall|disk: Seq<u8>| #[trigger] r.buf_wf(disk),
    {
        self.reader(Self::ROOT_OFFSET, FilesystemTreeReaderMode::Sibling)
    }
}


/// A write that misses an entry's 32 bytes leaves that entry as it was.
proof fn lemma_entry_frame(
    disk1: Seq<u8>,
    disk2: Seq<u8>,
    page_size: u64,
    entry_page: int,
    wof: int,
    wlen: int,
    o: int,
)
    requires
        forall|p: int|
            0 <= p && !(wof <= p < wof + wlen) ==> #[trigger] book_byte(
                disk2,
                page_size,
                entry_page,
                p,
            ) == book_byte(disk1, page_size, entry_page, p),
        0 <= o,
        o + 32 <= wof || wof + wlen <= o,
    ensures
        spec_entry_at(disk2, page_size, entry_page, o) == spec_entry_at(
            disk1,
            page_size,
            entry_page,
            o,
        ),
{
    assert(book_bytes(disk2, page_size, entry_page, o, 32) =~= book_bytes(
        disk1,
        page_size,
        entry_page,
        o,
        32,
    ));
}

/// Appending a link-free entry in the fresh slot right after `last`
/// extends directory well-formedness to that slot.
proof fn lemma_entries_wf_extend(
    disk1: Seq<u8>,
    disk2: Seq<u8>,
    page_size: u64,
    entry_page: int,
    last: int,
)
    requires
        spec_entries_wf(disk1, page_size, entry_page, last),
        forall|p: int|
            0 <= p && !(last + 32 <= p < last + 64) ==> #[trigger] book_byte(
                disk2,
                page_size,
                entry_page,
                p,
            ) == book_byte(disk1, page_size, entry_page, p),
        spec_entry_at(disk2, page_size, entry_page, last + 32).sibling_addr == 0,
        spec_entry_at(disk2, page_size, entry_page, last + 32).child_addr == 0,
    ensures
        spec_entries_wf(disk2, page_size, entry_page, last + 32),
{
    assert forall|o: int| 8 <= o && (o - 8) % 32 == 0 && o <= last + 32 implies {
        let e = #[trigger] spec_entry_at(disk2, page_size, entry_page, o);
        &&& (e.sibling_addr != 0 ==> o < e.sibling_addr <= last + 32 && (e.sibling_addr - 8) % 32
            == 0)
        &&& (e.child_addr != 0 ==> 8 <= e.child_addr <= last + 32 && (e.child_addr - 8) % 32 == 0)
    } by {
        if o <= last {
            lemma_entry_frame(disk1, disk2, page_size, entry_page, last + 32, 32, o);
            assert(spec_entry_at(disk1, page_size, entry_page, o) == spec_entry_at(
                disk2,
                page_size,
                entry_page,
                o,
            ));
        } else {
            assert(o == last + 32);
        }
    }
}

/// Repointing one existing entry's links at slots no later than the
/// new `last` keeps the directory well formed.
proof fn lemma_entries_wf_relink(
    disk1: Seq<u8>,
    disk2: Seq<u8>,
    page_size: u64,
    entry_page: int,
    last: int,
    o: int,
)
    requires
        spec_entries_wf(disk1, page_size, entry_page, last),
        8 <= o <= last,
        (o - 8) % 32 == 0,
        forall|p: int|
            0 <= p && !(o <= p < o + 32) ==> #[trigger] book_byte(
                disk2,
                page_size,
                entry_page,
                p,
            ) == book_byte(disk1, page_size, entry_page, p),
        ({
            let e = spec_entry_at(disk2, page_size, entry_page, o);
            &&& (e.sibling_addr != 0 ==> o < e.sibling_addr <= last && (e.sibling_addr - 8) % 32
                == 0)
            &&& (e.child_addr != 0 ==> 8 <= e.child_addr <= last && (e.child_addr - 8) % 32 == 0)
        }),
    ensures
        spec_entries_wf(disk2, page_size, entry_page, last),
{
    assert forall|oo: int| 8 <= oo && (oo - 8) % 32 == 0 && oo <= last implies {
        let e = #[trigger] spec_entry_at(disk2, page_size, entry_page, oo);
        &&& (e.sibling_addr != 0 ==> oo < e.sibling_addr <= last && (e.sibling_addr - 8) % 32 == 0)
        &&& (e.child_addr != 0 ==> 8 <= e.child_addr <= last && (e.child_addr - 8) % 32 == 0)
    } by {
        if oo != o {
            vstd::arithmetic::div_mod::lemma_fundamental_div_mod(o - 8, 32);
            vstd::arithmetic::div_mod::lemma_fundamental_div_mod(oo - 8, 32);
            let a = (o - 8) / 32;
            let b = (oo - 8) / 32;
            assert(oo + 32 <= o || o + 32 <= oo) by (nonlinear_arith)
                requires
                    o - 8 == 32 * a,
                    oo - 8 == 32 * b,
                    oo != o,
            ;
            lemma_entry_frame(disk1, disk2, page_size, entry_page, o, 32, oo);
        }
    }
}


/// A write confined to the directory's 8-byte header (or no write at
/// all) leaves every entry, and well-formedness, intact.
proof fn lemma_entries_wf_frame(
    disk1: Seq<u8>,
    disk2: Seq<u8>,
    page_size: u64,
    entry_page: int,
    last: int,
    wof: int,
    wlen: int,
)
    requires
        spec_entries_wf(disk1, page_size, entry_page, last),
        forall|p: int|
            0 <= p && !(wof <= p < wof + wlen) ==> #[trigger] book_byte(
                disk2,
                page_size,
                entry_page,
                p,
            ) == book_byte(disk1, page_size, entry_page, p),
        0 <= wof,
        wof + wlen <= 8,
    ensures
        spec_entries_wf(disk2, page_size, entry_page, last),
        forall|o: int|
            8 <= o ==> #[trigger] spec_entry_at(disk2, page_size, entry_page, o) == spec_entry_at(
                disk1,
                page_size,
                entry_page,
                o,
            ),
{
    assert forall|o: int| 8 <= o implies #[trigger] spec_entry_at(disk2, page_size, entry_page, o)
        == spec_entry_at(disk1, page_size, entry_page, o) by {
        lemma_entry_frame(disk1, disk2, page_size, entry_page, wof, wlen, o);
    }
}

/// Address-space headroom for one directory insertion: room for every
/// page the operation's reads and writes can create.
pub open spec fn spec_insert_room(disk: Seq<u8>, page_size: u64, last: int) -> bool {
    let limit = page_count(disk.len() as int, page_size) + 3 * ((last + 64) / (page_size as int))
        + 12;
    &&& 1 <= page_size
    &&& page_size <= usize::MAX
    &&& limit <= u32::MAX
    &&& page_pos(page_size, limit) <= u64::MAX
}

/// The master room bound covers any single book operation whose extent
/// stays within the insertion's reach, as long as page creation so far
/// stays within its budget.
proof fn lemma_room_gives_space(
    disk0: Seq<u8>,
    disk: Seq<u8>,
    page_size: u64,
    last: int,
    extent: int,
    slack: int,
)
    requires
        spec_insert_room(disk0, page_size, last),
        0 <= extent <= last + 64,
        0 <= last,
        0 <= slack <= 2 * ((last + 64) / (page_size as int)) + 8,
        page_count(disk.len() as int, page_size) <= page_count(disk0.len() as int, page_size)
            + slack,
    ensures
        book_space_ok(disk, page_size, extent),
{
    let ps = page_size as int;
    let count0 = page_count(disk0.len() as int, page_size);
    let master = count0 + 3 * ((last + 64) / ps) + 12;
    lemma_div_is_ordered(extent, last + 64, ps);
    vstd::arithmetic::div_mod::lemma_div_pos_is_pos(last + 64, ps);
    let op_limit = page_count(disk.len() as int, page_size) + extent / ps + 2;
    assert(op_limit <= master);
    lemma_mul_inequality(op_limit, master, crate::geometry::page_stride(page_size));
}


impl FilesystemTree {
    /// Insert `entry` (which must carry no links yet) as a child of the
    /// entry at `offset`: append it after the last entry, update the
    /// last-entry pointer, and hang it off the parent — directly when
    /// the parent had no child, else behind the last linked sibling the
    /// walk from the parent's child finds.  Returns the new entry's
    /// offset, one slot after the previous last entry.
    #[verifier::rlimit(100)]
    #[verifier::spinoff_prover]
    pub fn insert_child<T: FilesystemIo>(
        &mut self,
        w: &mut FilesystemWorker<T>,
        offset: u64,
        entry: FilesystemEntry,
    ) -> (r: u64)
        requires
            old(w).wf(),
            old(w).header().page_size == old(self).spec_book().spec_page_size(),
            book_wf(
                old(w).disk(),
                old(self).spec_book().spec_page_size(),
                old(self).spec_book().spec_entry() as int,
            ),
            spec_entries_wf(
                old(w).disk(),
                old(self).spec_book().spec_page_size(),
                old(self).spec_book().spec_entry() as int,
                old(self).spec_last() as int,
            ),
            entry.sibling_addr == 0,
            entry.child_addr == 0,
            8 <= offset <= old(self).spec_last(),
            (offset - 8) % 32 == 0,
            old(self).spec_last() + 64 <= u64::MAX,
            spec_insert_room(
                old(w).disk(),
                old(self).spec_book().spec_page_size(),
                old(self).spec_last() as int,
            ),
        ensures
            final(w).wf(),
            final(w).header() == old(w).header(),
            book_wf(
                final(w).disk(),
                old(self).spec_book().spec_page_size(),
                old(self).spec_book().spec_entry() as int,
            ),
            final(self).spec_book() == old(self).spec_book(),
            r == old(self).spec_last() + 32,
            final(self).spec_last() == r,
            spec_entries_wf(
                final(w).disk(),
                old(self).spec_book().spec_page_size(),
                old(self).spec_book().spec_entry() as int,
                r as int,
            ),
            spec_entry_at(
                final(w).disk(),
                old(self).spec_book().spec_page_size(),
                old(self).spec_book().spec_entry() as int,
                r as int,
            ) == entry,
            book_bytes(
                final(w).disk(),
                old(self).spec_book().spec_page_size(),
                old(self).spec_book().spec_entry() as int,
                0,
                8,
            ) == crate::blob::spec_u64_to_be_bytes(r),
            ({
                let ps = old(self).spec_book().spec_page_size();
                let ep = old(self).spec_book().spec_entry() as int;
                let parent0 = spec_entry_at(old(w).disk(), ps, ep, offset as int);
                if parent0.child_addr == 0 {
                    spec_entry_at(final(w).disk(), ps, ep, offset as int).child_addr == r
                } else {
                    match spec_last_linked(
                        old(w).disk(),
                        ps,
                        ep,
                        parent0.child_addr as int,
                        old(self).spec_last() as int,
                    ) {
                        Some(fo) => spec_entry_at(final(w).disk(), ps, ep, fo).sibling_addr == r,
                        None => spec_entry_at(final(w).disk(), ps, ep, offset as int).child_addr
                            == r,
                    }
                }
            }),
    {
        let ghost ps = self.spec_book().spec_page_size();
        let ghost ep = self.spec_book().spec_entry() as int;
        let ghost disk0 = old(w).disk();
        let ghost last0 = self.last_entry_addr as int;
        let ghost count0 = page_count(disk0.len() as int, ps);
        let ghost budget = (last0 + 64) / (ps as int);

        // Read the parent before touching anything, as one would.
        proof {
            lemma_room_gives_space(disk0, disk0, ps, last0, offset + 32, 0);
        }
        let mut parent = self.read(w, offset);
        let ghost disk1 = w.disk();
        proof {
            lemma_entries_wf_frame(disk0, disk1, ps, ep, last0, 0, 0);
            lemma_div_is_ordered(offset + 32, last0 + 64, ps as int);
            assert(page_count(disk1.len() as int, ps) <= count0 + budget + 2);
        }

        // Append the new entry and move the last-entry pointer to it.
        let i = self.append_entry(w, entry, Ghost(disk0));
        let ghost disk3 = w.disk();

        if parent.child_addr == 0 {
            parent.child_addr = i;
            self.write_linked(w, offset, parent, Ghost(disk0), Ghost(last0));
            proof {
                assert(spec_entry_at(w.disk(), ps, ep, offset as int).child_addr == i);
                assert(book_bytes(w.disk(), ps, ep, 0, 8) == crate::blob::spec_u64_to_be_bytes(
                    i,
                ));
            }
        } else {
            proof {
                // The append touched nothing at or before the old last
                // entry, so the sibling walk reads the original
                // directory.
                assert forall|oo: int| 8 <= oo && (oo - 8) % 32 == 0 && oo <= last0
                    implies #[trigger] spec_entry_at(disk3, ps, ep, oo) == spec_entry_at(
                    disk0,
                    ps,
                    ep,
                    oo,
                ) by {
                    assert(spec_entry_at(disk1, ps, ep, oo) == spec_entry_at(disk0, ps, ep, oo));
                }
                assert(parent == spec_entry_at(disk0, ps, ep, offset as int));
            }
            self.attach_behind_siblings(w, offset, parent, i, Ghost(disk0), Ghost(last0));
        }
        i
    }
}


impl FilesystemTree {
    /// Append a link-free entry in the slot after the current last
    /// entry and move the last-entry pointer (in the book's header and
    /// in this handle) onto it.
    fn append_entry<T: FilesystemIo>(
        &mut self,
        w: &mut FilesystemWorker<T>,
        entry: FilesystemEntry,
        Ghost(room_disk): Ghost<Seq<u8>>,
    ) -> (r: u64)
        requires
            old(w).wf(),
            old(w).header().page_size == old(self).spec_book().spec_page_size(),
            book_wf(
                old(w).disk(),
                old(self).spec_book().spec_page_size(),
                old(self).spec_book().spec_entry() as int,
            ),
            spec_entries_wf(
                old(w).disk(),
                old(self).spec_book().spec_page_size(),
                old(self).spec_book().spec_entry() as int,
                old(self).spec_last() as int,
            ),
            entry.sibling_addr == 0,
            entry.child_addr == 0,
            old(self).spec_last() + 64 <= u64::MAX,
            spec_insert_room(room_disk, old(self).spec_book().spec_page_size(), old(self).spec_last() as int),
            page_count(old(w).disk().len() as int, old(self).spec_book().spec_page_size())
                <= page_count(room_disk.len() as int, old(self).spec_book().spec_page_size()) + (
            old(self).spec_last() as int + 64) / (old(self).spec_book().spec_page_size() as int)
                + 2,
        ensures
            final(w).wf(),
            final(w).header() == old(w).header(),
            book_wf(
                final(w).disk(),
                old(self).spec_book().spec_page_size(),
                old(self).spec_book().spec_entry() as int,
            ),
            final(self).spec_book() == old(self).spec_book(),
            r == old(self).spec_last() + 32,
            final(self).spec_last() == r,
            spec_entries_wf(
                final(w).disk(),
                old(self).spec_book().spec_page_size(),
                old(self).spec_book().spec_entry() as int,
                r as int,
            ),
            spec_entry_at(
                final(w).disk(),
                old(self).spec_book().spec_page_size(),
                old(self).spec_book().spec_entry() as int,
                r as int,
            ) == entry,
            forall|o: int|
                8 <= o && (o + 32 <= r || r + 32 <= o) ==> #[trigger] spec_entry_at(
                    final(w).disk(),
                    old(self).spec_book().spec_page_size(),
                    old(self).spec_book().spec_entry() as int,
                    o,
                ) == spec_entry_at(
                    old(w).disk(),
                    old(self).spec_book().spec_page_size(),
                    old(self).spec_book().spec_entry() as int,
                    o,
                ),
            chain_len(
                final(w).disk(),
                old(self).spec_book().spec_page_size(),
                old(self).spec_book().spec_entry() as int,
            ) * (old(self).spec_book().spec_page_size() as int) >= r + 32,
            page_count(final(w).disk().len() as int, old(self).spec_book().spec_page_size())
                <= page_count(room_disk.len() as int, old(self).spec_book().spec_page_size()) + 2
                * ((old(self).spec_last() as int + 64) / (
            old(self).spec_book().spec_page_size() as int)) + 4,
            book_bytes(
                final(w).disk(),
                old(self).spec_book().spec_page_size(),
                old(self).spec_book().spec_entry() as int,
                0,
                8,
            ) == crate::blob::spec_u64_to_be_bytes(r),
    {
        let ghost ps = self.spec_book().spec_page_size();
        let ghost ep = self.spec_book().spec_entry() as int;
        let ghost disk1 = w.disk();
        let ghost last0 = self.last_entry_addr as int;
        let ghost budget = (last0 + 64) / (ps as int);

        let i = self.last_entry_addr + 32;
        self.last_entry_addr = i;
        proof {
            lemma_room_gives_space(room_disk, disk1, ps, last0, i + 32, budget + 2);
        }
        self.book.write(w, i, entry.to_bytes());
        let ghost disk2 = w.disk();
        proof {
            assert(book_bytes(disk2, ps, ep, i as int, 32) =~= entry.spec_bytes());
            lemma_entry_roundtrip(entry);
            lemma_entries_wf_extend(disk1, disk2, ps, ep, last0);
            assert(page_count(disk2.len() as int, ps) <= page_count(room_disk.len() as int, ps)
                + 2 * budget + 4);
            lemma_room_gives_space(room_disk, disk2, ps, last0, 8, 2 * budget + 4);
        }
        self.book.write(w, 0, crate::blob::u64_to_be_bytes(i));
        let ghost disk3 = w.disk();
        proof {
            lemma_entries_wf_frame(disk2, disk3, ps, ep, i as int, 0, 8);
            assert(chain_len(disk3, ps, ep) * (ps as int) >= i + 32) by {
                lemma_mul_inequality(
                    chain_len(disk2, ps, ep) as int,
                    chain_len(disk3, ps, ep) as int,
                    ps as int,
                );
            }
            assert forall|o: int| 8 <= o && (o + 32 <= i || i + 32 <= o) implies #[trigger] spec_entry_at(
                disk3,
                ps,
                ep,
                o,
            ) == spec_entry_at(disk1, ps, ep, o) by {
                lemma_entry_frame(disk1, disk2, ps, ep, i as int, 32, o);
            }
            assert(book_bytes(disk3, ps, ep, 0, 8) =~= crate::blob::spec_u64_to_be_bytes(i));
        }
        i
    }
}


impl FilesystemTree {
    /// Follow sibling links from `start` and return the last entry seen
    /// that carries one, never leaving the slots before `bound`.  The
    /// walk only reads inside the already-covered stream, so the
    /// container is left exactly as it was.
    fn last_linked_sibling<T: FilesystemIo>(
        &self,
        w: &mut FilesystemWorker<T>,
        start: u64,
        Ghost(room_disk): Ghost<Seq<u8>>,
        Ghost(last0): Ghost<int>,
        Ghost(bound): Ghost<int>,
    ) -> (r: Option<(u64, FilesystemEntry)>)
        requires
            old(w).wf(),
            old(w).header().page_size == self.spec_book().spec_page_size(),
            book_wf(
                old(w).disk(),
                self.spec_book().spec_page_size(),
                self.spec_book().spec_entry() as int,
            ),
            spec_entries_wf(
                old(w).disk(),
                self.spec_book().spec_page_size(),
                self.spec_book().spec_entry() as int,
                bound,
            ),
            chain_len(
                old(w).disk(),
                self.spec_book().spec_page_size(),
                self.spec_book().spec_entry() as int,
            ) * (self.spec_book().spec_page_size() as int) >= bound + 32,
            0 <= last0,
            8 <= bound <= last0 + 32,
            last0 + 64 <= u64::MAX,
            8 <= start <= bound,
            (start - 8) % 32 == 0,
            spec_insert_room(room_disk, self.spec_book().spec_page_size(), last0),
            page_count(old(w).disk().len() as int, self.spec_book().spec_page_size())
                <= page_count(room_disk.len() as int, self.spec_book().spec_page_size()) + 2 * ((
            last0 + 64) / (self.spec_book().spec_page_size() as int)) + 4,
        ensures
            final(w).wf(),
            final(w).disk() == old(w).disk(),
            final(w).header() == old(w).header(),
            r matches Some((fo, fe)) ==> {
                &&& 8 <= fo < bound
                &&& (fo - 8) % 32 == 0
                &&& spec_entry_at(
                    old(w).disk(),
                    self.spec_book().spec_page_size(),
                    self.spec_book().spec_entry() as int,
                    fo as int,
                ) == fe
                &&& fe.sibling_addr != 0
            },
            ({
                let walked = spec_last_linked(
                    old(w).disk(),
                    self.spec_book().spec_page_size(),
                    self.spec_book().spec_entry() as int,
                    start as int,
                    bound,
                );
                match r {
                    Some((fo, fe)) => walked == Some(fo as int),
                    None => walked is None,
                }
            }),
    {
        let ghost ps = self.spec_book().spec_page_size();
        let ghost ep = self.spec_book().spec_entry() as int;
        let ghost disk3 = w.disk();
        let ghost budget = (last0 + 64) / (ps as int);
        let ghost i: int = bound;
        let mut o = start;
        let mut found: Option<(u64, FilesystemEntry)> = None;
        loop
            invariant
                w.wf(),
                w.disk() == disk3,
                w.header() == old(w).header(),
                w.header().page_size == ps,
                self.spec_book().spec_page_size() == ps,
                self.spec_book().spec_entry() == ep,
                book_wf(disk3, ps, ep),
                spec_entries_wf(disk3, ps, ep, i),
                chain_len(disk3, ps, ep) * (ps as int) >= i + 32,
                i == bound,
                8 <= bound <= last0 + 32,
                0 <= last0,
                last0 + 64 <= u64::MAX,
                spec_insert_room(room_disk, ps, last0),
                budget == (last0 + 64) / (ps as int),
                page_count(disk3.len() as int, ps) <= page_count(room_disk.len() as int, ps) + 2
                    * budget + 4,
                8 <= o <= i,
                (o - 8) % 32 == 0,
                found matches Some((fo, fe)) ==> {
                    &&& 8 <= fo < i
                    &&& (fo - 8) % 32 == 0
                    &&& spec_entry_at(disk3, ps, ep, fo as int) == fe
                    &&& fe.sibling_addr != 0
                },
                spec_last_linked(disk3, ps, ep, start as int, bound) == (match found {
                    Some((fo, fe)) => match spec_last_linked(disk3, ps, ep, o as int, bound) {
                        Some(x) => Some(x),
                        None => Some(fo as int),
                    },
                    None => spec_last_linked(disk3, ps, ep, o as int, bound),
                }),
            ensures
                match found {
                    Some((fo, fe)) => spec_last_linked(disk3, ps, ep, start as int, bound)
                        == Some(fo as int),
                    None => spec_last_linked(disk3, ps, ep, start as int, bound) is None,
                },
            decreases i - o,
        {
            proof {
                lemma_room_gives_space(room_disk, disk3, ps, last0, o + 32, 2 * budget + 4);
            }
            let e = self.read(w, o);
            proof {
                assert(spec_entry_at(disk3, ps, ep, o as int) == e);
            }
            if e.is_empty() {
                proof {
                    assert(spec_last_linked(disk3, ps, ep, o as int, bound) is None);
                }
                break;
            }
            if e.sibling_addr != 0 {
                found = Some((o, e));
                o = e.sibling_addr;
            } else {
                proof {
                    assert(spec_last_linked(disk3, ps, ep, o as int, bound) is None);
                }
                break;
            }
        }
        found
    }
}


impl FilesystemTree {
    /// Rewrite the entry at `at` (whose links may now include the fresh
    /// slot) and keep the directory well formed up to the fresh slot.
    fn write_linked<T: FilesystemIo>(
        &self,
        w: &mut FilesystemWorker<T>,
        at: u64,
        e: FilesystemEntry,
        Ghost(room_disk): Ghost<Seq<u8>>,
        Ghost(last0): Ghost<int>,
    )
        requires
            old(w).wf(),
            old(w).header().page_size == self.spec_book().spec_page_size(),
            book_wf(
                old(w).disk(),
                self.spec_book().spec_page_size(),
                self.spec_book().spec_entry() as int,
            ),
            spec_entries_wf(
                old(w).disk(),
                self.spec_book().spec_page_size(),
                self.spec_book().spec_entry() as int,
                last0 + 32,
            ),
            chain_len(
                old(w).disk(),
                self.spec_book().spec_page_size(),
                self.spec_book().spec_entry() as int,
            ) * (self.spec_book().spec_page_size() as int) >= last0 + 64,
            0 <= last0,
            last0 + 64 <= u64::MAX,
            8 <= at,
            at + 32 <= last0 + 32,
            (at - 8) % 32 == 0,
            e.sibling_addr != 0 ==> at < e.sibling_addr <= last0 + 32 && (e.sibling_addr - 8) % 32
                == 0,
            e.child_addr != 0 ==> 8 <= e.child_addr <= last0 + 32 && (e.child_addr - 8) % 32 == 0,
            spec_insert_room(room_disk, self.spec_book().spec_page_size(), last0),
            page_count(old(w).disk().len() as int, self.spec_book().spec_page_size())
                <= page_count(room_disk.len() as int, self.spec_book().spec_page_size()) + 2 * ((
            last0 + 64) / (self.spec_book().spec_page_size() as int)) + 4,
        ensures
            final(w).wf(),
            final(w).header() == old(w).header(),
            book_wf(
                final(w).disk(),
                self.spec_book().spec_page_size(),
                self.spec_book().spec_entry() as int,
            ),
            spec_entries_wf(
                final(w).disk(),
                self.spec_book().spec_page_size(),
                self.spec_book().spec_entry() as int,
                last0 + 32,
            ),
            spec_entry_at(
                final(w).disk(),
                self.spec_book().spec_page_size(),
                self.spec_book().spec_entry() as int,
                last0 + 32,
            ) == spec_entry_at(
                old(w).disk(),
                self.spec_book().spec_page_size(),
                self.spec_book().spec_entry() as int,
                last0 + 32,
            ),
            spec_entry_at(
                final(w).disk(),
                self.spec_book().spec_page_size(),
                self.spec_book().spec_entry() as int,
                at as int,
            ) == e,
            book_bytes(
                final(w).disk(),
                self.spec_book().spec_page_size(),
                self.spec_book().spec_entry() as int,
                0,
                8,
            ) == book_bytes(
                old(w).disk(),
                self.spec_book().spec_page_size(),
                self.spec_book().spec_entry() as int,
                0,
                8,
            ),
    {
        let ghost ps = self.spec_book().spec_page_size();
        let ghost ep = self.spec_book().spec_entry() as int;
        let ghost disk3 = w.disk();
        let ghost budget = (last0 + 64) / (ps as int);
        proof {
            lemma_room_gives_space(room_disk, disk3, ps, last0, at + 32, 2 * budget + 4);
        }
        self.write(w, at, e);
        proof {
            lemma_entries_wf_relink(disk3, w.disk(), ps, ep, last0 + 32, at as int);
            lemma_entry_frame(disk3, w.disk(), ps, ep, at as int, 32, last0 + 32);
            assert(book_bytes(w.disk(), ps, ep, 0, 8) =~= book_bytes(disk3, ps, ep, 0, 8));
        }
    }
}


impl FilesystemTree {
    /// Insert `entry` (which must carry no links yet) as a sibling of
    /// the entry at `offset`: append it after the last entry and hang
    /// it behind the last linked sibling the walk from `offset` finds.
    /// When the walk finds no linked entry at all, the new entry is
    /// written over the slot at `offset` itself, which is then the
    /// offset returned.
    #[verifier::rlimit(100)]
    #[verifier::spinoff_prover]
    pub fn insert_sibling<T: FilesystemIo>(
        &mut self,
        w: &mut FilesystemWorker<T>,
        offset: u64,
        entry: FilesystemEntry,
    ) -> (r: u64)
        requires
            old(w).wf(),
            old(w).header().page_size == old(self).spec_book().spec_page_size(),
            book_wf(
                old(w).disk(),
                old(self).spec_book().spec_page_size(),
                old(self).spec_book().spec_entry() as int,
            ),
            spec_entries_wf(
                old(w).disk(),
                old(self).spec_book().spec_page_size(),
                old(self).spec_book().spec_entry() as int,
                old(self).spec_last() as int,
            ),
            entry.sibling_addr == 0,
            entry.child_addr == 0,
            8 <= offset <= old(self).spec_last(),
            (offset - 8) % 32 == 0,
            old(self).spec_last() + 64 <= u64::MAX,
            old(self).spec_last() + 64 <= usize::MAX,
            spec_insert_room(
                old(w).disk(),
                old(self).spec_book().spec_page_size(),
                old(self).spec_last() as int,
            ),
        ensures
            final(w).wf(),
            final(w).header() == old(w).header(),
            book_wf(
                final(w).disk(),
                old(self).spec_book().spec_page_size(),
                old(self).spec_book().spec_entry() as int,
            ),
            final(self).spec_book() == old(self).spec_book(),
            spec_entry_at(
                final(w).disk(),
                old(self).spec_book().spec_page_size(),
                old(self).spec_book().spec_entry() as int,
                r as int,
            ) == entry,
            ({
                let ps = old(self).spec_book().spec_page_size();
                let ep = old(self).spec_book().spec_entry() as int;
                match spec_last_linked(
                    old(w).disk(),
                    ps,
                    ep,
                    offset as int,
                    old(self).spec_last() as int,
                ) {
                    Some(fo) => {
                        &&& r == old(self).spec_last() + 32
                        &&& final(self).spec_last() == r
                        &&& book_bytes(final(w).disk(), ps, ep, 0, 8)
                            == crate::blob::spec_u64_to_be_bytes(r)
                        &&& spec_entry_at(final(w).disk(), ps, ep, fo).sibling_addr == r
                    },
                    None => r == offset && final(self).spec_last() == old(self).spec_last(),
                }
            }),
            spec_entries_wf(
                final(w).disk(),
                old(self).spec_book().spec_page_size(),
                old(self).spec_book().spec_entry() as int,
                final(self).spec_last() as int,
            ),
    {
        let ghost ps = self.spec_book().spec_page_size();
        let ghost ep = self.spec_book().spec_entry() as int;
        let ghost disk0 = old(w).disk();
        let ghost last0 = self.last_entry_addr as int;
        let ghost budget = (last0 + 64) / (ps as int);

        // One covering read brings the whole entry region into the
        // chain, so the walk below reads without growing anything.
        proof {
            lemma_room_gives_space(disk0, disk0, ps, last0, last0 + 64, 0);
        }
        let cover_len = self.last_entry_addr + 64;
        let _covered = self.book.read(w, 0, cover_len);
        let ghost disk1 = w.disk();
        proof {
            lemma_entries_wf_frame(disk0, disk1, ps, ep, last0, 0, 0);
            lemma_div_is_ordered(8, last0 + 64, ps as int);
        }

        proof {
            // The covering read changed no bytes the walk can see.
            assert forall|oo: int| 8 <= oo && (oo - 8) % 32 == 0 && oo <= last0
                implies #[trigger] spec_entry_at(disk1, ps, ep, oo) == spec_entry_at(
                disk0,
                ps,
                ep,
                oo,
            ) by {}
            lemma_last_linked_same(disk0, disk1, ps, ep, offset as int, last0, last0);
        }
        let found = self.last_linked_sibling(w, offset, Ghost(disk0), Ghost(last0), Ghost(last0));
        match found {
            Some((fo, mut prev)) => {
                let i = self.append_entry(w, entry, Ghost(disk0));
                prev.sibling_addr = i;
                self.write_linked(w, fo, prev, Ghost(disk0), Ghost(last0));
                proof {
                    assert(spec_entry_at(w.disk(), ps, ep, i as int) == entry);
                    assert(book_bytes(w.disk(), ps, ep, 0, 8)
                        == crate::blob::spec_u64_to_be_bytes(i));
                }
                i
            },
            None => {
                // No linked entry under the offset: the new one can
                // freely take that slot.
                proof {
                    lemma_room_gives_space(disk0, disk1, ps, last0, offset + 32, budget + 2);
                }
                self.write(w, offset, entry);
                proof {
                    lemma_entries_wf_relink(disk1, w.disk(), ps, ep, last0, offset as int);
                    assert(spec_entry_at(w.disk(), ps, ep, offset as int) == entry);
                }
                offset
            },
        }
    }
}


/// The last entry carrying a sibling link on the walk from `o`:
/// follow links while they are set and land inside `bound`, and report
/// the latest linked entry passed; an empty entry or an unset link
/// stops the walk.
pub open spec fn spec_last_linked(
    disk: Seq<u8>,
    page_size: u64,
    entry_page: int,
    o: int,
    bound: int,
) -> Option<int>
    decreases bound - o,
{
    let e = spec_entry_at(disk, page_size, entry_page, o);
    if e.name == 0 && e.sibling_addr == 0 && e.child_addr == 0 {
        Option::None
    } else if e.sibling_addr == 0 {
        Option::None
    } else if !(o < e.sibling_addr <= bound) {
        // A link outside the walked range: well-formed directories
        // never produce one, and the walk would not terminate on it.
        Option::Some(o)
    } else {
        match spec_last_linked(disk, page_size, entry_page, e.sibling_addr as int, bound) {
            Option::None => Option::Some(o),
            Option::Some(x) => Option::Some(x),
        }
    }
}

/// The sibling walk reads only entries the two containers agree on, so
/// its result carries over, a larger bound included.
proof fn lemma_last_linked_same(
    disk1: Seq<u8>,
    disk2: Seq<u8>,
    page_size: u64,
    entry_page: int,
    o: int,
    b1: int,
    b2: int,
)
    requires
        spec_entries_wf(disk1, page_size, entry_page, b1),
        forall|oo: int|
            8 <= oo && (oo - 8) % 32 == 0 && oo <= b1 ==> #[trigger] spec_entry_at(
                disk2,
                page_size,
                entry_page,
                oo,
            ) == spec_entry_at(disk1, page_size, entry_page, oo),
        8 <= o <= b1,
        (o - 8) % 32 == 0,
        b1 <= b2,
    ensures
        spec_last_linked(disk2, page_size, entry_page, o, b2) == spec_last_linked(
            disk1,
            page_size,
            entry_page,
            o,
            b1,
        ),
    decreases b1 - o,
{
    let e = spec_entry_at(disk1, page_size, entry_page, o);
    assert(spec_entry_at(disk2, page_size, entry_page, o) == e);
    if !(e.name == 0 && e.sibling_addr == 0 && e.child_addr == 0) && e.sibling_addr != 0 {
        assert(o < e.sibling_addr <= b1 && (e.sibling_addr - 8) % 32 == 0);
        lemma_last_linked_same(
            disk1,
            disk2,
            page_size,
            entry_page,
            e.sibling_addr as int,
            b1,
            b2,
        );
    }
}


impl FilesystemTree {
    /// Hang the freshly appended entry at `i` behind the last linked
    /// sibling on the parent's child chain, or directly off the parent
    /// when the walk finds no linked entry; the appended entry and the
    /// stored last-entry pointer are left alone.
    #[verifier::rlimit(100)]
    #[verifier::spinoff_prover]
    fn attach_behind_siblings<T: FilesystemIo>(
        &self,
        w: &mut FilesystemWorker<T>,
        offset: u64,
        parent: FilesystemEntry,
        i: u64,
        Ghost(disk0): Ghost<Seq<u8>>,
        Ghost(last0): Ghost<int>,
    )
        requires
            old(w).wf(),
            old(w).header().page_size == self.spec_book().spec_page_size(),
            book_wf(
                old(w).disk(),
                self.spec_book().spec_page_size(),
                self.spec_book().spec_entry() as int,
            ),
            spec_entries_wf(
                old(w).disk(),
                self.spec_book().spec_page_size(),
                self.spec_book().spec_entry() as int,
                last0 + 32,
            ),
            chain_len(
                old(w).disk(),
                self.spec_book().spec_page_size(),
                self.spec_book().spec_entry() as int,
            ) * (self.spec_book().spec_page_size() as int) >= last0 + 64,
            0 <= last0,
            last0 + 64 <= u64::MAX,
            i == last0 + 32,
            8 <= offset <= last0,
            (offset - 8) % 32 == 0,
            parent == spec_entry_at(
                disk0,
                self.spec_book().spec_page_size(),
                self.spec_book().spec_entry() as int,
                offset as int,
            ),
            parent.child_addr != 0,
            spec_entries_wf(
                disk0,
                self.spec_book().spec_page_size(),
                self.spec_book().spec_entry() as int,
                last0,
            ),
            forall|oo: int|
                8 <= oo && (oo - 8) % 32 == 0 && oo <= last0 ==> #[trigger] spec_entry_at(
                    old(w).disk(),
                    self.spec_book().spec_page_size(),
                    self.spec_book().spec_entry() as int,
                    oo,
                ) == spec_entry_at(
                    disk0,
                    self.spec_book().spec_page_size(),
                    self.spec_book().spec_entry() as int,
                    oo,
                ),
            spec_insert_room(disk0, self.spec_book().spec_page_size(), last0),
            page_count(old(w).disk().len() as int, self.spec_book().spec_page_size())
                <= page_count(disk0.len() as int, self.spec_book().spec_page_size()) + 2 * ((last0
                + 64) / (self.spec_book().spec_page_size() as int)) + 4,
        ensures
            final(w).wf(),
            final(w).header() == old(w).header(),
            book_wf(
                final(w).disk(),
                self.spec_book().spec_page_size(),
                self.spec_book().spec_entry() as int,
            ),
            spec_entries_wf(
                final(w).disk(),
                self.spec_book().spec_page_size(),
                self.spec_book().spec_entry() as int,
                i as int,
            ),
            spec_entry_at(
                final(w).disk(),
                self.spec_book().spec_page_size(),
                self.spec_book().spec_entry() as int,
                i as int,
            ) == spec_entry_at(
                old(w).disk(),
                self.spec_book().spec_page_size(),
                self.spec_book().spec_entry() as int,
                i as int,
            ),
            book_bytes(
                final(w).disk(),
                self.spec_book().spec_page_size(),
                self.spec_book().spec_entry() as int,
                0,
                8,
            ) == book_bytes(
                old(w).disk(),
                self.spec_book().spec_page_size(),
                self.spec_book().spec_entry() as int,
                0,
                8,
            ),
            ({
                let ps = self.spec_book().spec_page_size();
                let ep = self.spec_book().spec_entry() as int;
                match spec_last_linked(disk0, ps, ep, parent.child_addr as int, last0) {
                    Some(fo) => spec_entry_at(final(w).disk(), ps, ep, fo).sibling_addr == i,
                    None => spec_entry_at(final(w).disk(), ps, ep, offset as int).child_addr == i,
                }
            }),
    {
        let ghost ps = self.spec_book().spec_page_size();
        let ghost ep = self.spec_book().spec_entry() as int;
        let ghost disk3 = w.disk();
        proof {
            // The walk reads entries the append left untouched, so it
            // follows the original directory.
            lemma_last_linked_same(
                disk0,
                disk3,
                ps,
                ep,
                parent.child_addr as int,
                last0,
                last0 + 32,
            );
        }
        let found = self.last_linked_sibling(
            w,
            parent.child_addr,
            Ghost(disk0),
            Ghost(last0),
            Ghost(last0 + 32),
        );
        match found {
            Some((fo, mut child)) => {
                child.sibling_addr = i;
                self.write_linked(w, fo, child, Ghost(disk0), Ghost(last0));
            },
            None => {
                // No linked sibling was found: point the parent at the
                // new entry directly.
                let mut parent = parent;
                parent.child_addr = i;
                self.write_linked(w, offset, parent, Ghost(disk0), Ghost(last0));
            },
        }
    }
}

} // verus!

