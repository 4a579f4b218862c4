//! Page headers and the thin page handle.
//!
//! Every page carries a 9-byte header: the previous and next page
//! numbers as little-endian `u32`s and a flag byte saying which of the
//! two links is set.  Pages form doubly linked chains, though the store
//! only ever links forward.

use vstd::prelude::*;
use vstd::bytes::{
    spec_u32_to_le_bytes, spec_u32_from_le_bytes, lemma_auto_spec_u32_to_from_le_bytes,
    u32_from_le_bytes, u32_to_le_bytes,
};
use vstd::slice::slice_subrange;

verus! {

#[derive(Debug, Clone, Copy, PartialEq, Eq, Hash, Structural)]
pub struct PageHeader {
    pub prev_page_number: u32,
    pub next_page_number: u32,
    pub has_prev: bool,
    pub has_next: bool,
}

impl PageHeader {
    /// Encoded length of a page header in bytes.
    pub const LENGTH: usize = 9;

    pub const FLAG_HAS_PREV: u8 = 0b00000001;
    pub const FLAG_HAS_NEXT: u8 = 0b00000010;

    /// The header's flag byte.
    pub open spec fn spec_flags(self) -> u8 {
        ((if self.has_prev { 1u8 } else { 0u8 }) + (if self.has_next { 2u8 } else { 0u8 })) as u8
    }

    /// The 9 bytes this header encodes to.
    pub open spec fn spec_bytes(self) -> Seq<u8> {
        spec_u32_to_le_bytes(self.prev_page_number) + spec_u32_to_le_bytes(self.next_page_number)
            + seq![self.spec_flags()]
    }

    /// The header 9 bytes decode to.
    pub open spec fn spec_parse(s: Seq<u8>) -> PageHeader {
        PageHeader {
            prev_page_number: spec_u32_from_le_bytes(s.subrange(0, 4)),
            next_page_number: spec_u32_from_le_bytes(s.subrange(4, 8)),
            has_prev: s[8] & Self::FLAG_HAS_PREV == Self::FLAG_HAS_PREV,
            has_next: s[8] & Self::FLAG_HAS_NEXT == Self::FLAG_HAS_NEXT,
        }
    }

    /// Parse a page header from its 9 encoded bytes.
    pub fn from_bytes(bytes: &[u8]) -> (r: Self)
        requires
            bytes@.len() == Self::LENGTH,
        ensures
            r == Self::spec_parse(bytes@),
    {
        let prev_page_number = u32_from_le_bytes(slice_subrange(bytes, 0, 4));
        let next_page_number = u32_from_le_bytes(slice_subrange(bytes, 4, 8));
        let flags = bytes[8];
        PageHeader {
            prev_page_number,
            next_page_number,
            has_prev: flags & Self::FLAG_HAS_PREV == Self::FLAG_HAS_PREV,
            has_next: flags & Self::FLAG_HAS_NEXT == Self::FLAG_HAS_NEXT,
        }
    }

    /// Encode this page header into its 9 bytes.
    pub fn to_bytes(&self) -> (r: Vec<u8>)
        ensures
            r@ == self.spec_bytes(),
            r@.len() == Self::LENGTH,
    {
        let mut bytes = u32_to_le_bytes(self.prev_page_number);
        let mut tail = u32_to_le_bytes(self.next_page_number);
        bytes.append(&mut tail);
        let flags: u8 = (if self.has_prev { 1u8 } else { 0u8 }) + (if self.has_next {
            2u8
        } else {
            0u8
        });
        bytes.push(flags);
        proof {
            assert(bytes@ =~= self.spec_bytes());
        }
        bytes
    }
}

/// Law: decoding an encoded page header gives the header back; the
/// 9-byte layout loses nothing.
pub proof fn lemma_page_header_roundtrip(h: PageHeader)
    ensures
        PageHeader::spec_parse(h.spec_bytes()) == h,
{
    lemma_auto_spec_u32_to_from_le_bytes();
    assert(h.spec_bytes().subrange(0, 4) =~= spec_u32_to_le_bytes(h.prev_page_number));
    assert(h.spec_bytes().subrange(4, 8) =~= spec_u32_to_le_bytes(h.next_page_number));
    let f = h.spec_flags();
    assert(h.spec_bytes()[8] == f);
    assert((f & 1u8 == 1u8) == (f == 1u8 || f == 3u8) && (f & 2u8 == 2u8) == (f == 2u8 || f
        == 3u8)) by (bit_vector)
        requires
            f == 0u8 || f == 1u8 || f == 2u8 || f == 3u8,
    ;
}

} // verus!

use crate::filesystem::io::FilesystemIo;
use crate::filesystem::tasks::{FilesystemTask, FilesystemTaskResponse};
use crate::filesystem::worker::{
    FilesystemWorker, spec_new_page_header, spec_linked_header, spec_read_page_result,
    spec_write_page_disk, spec_write_page_tail,
};
use crate::blob::spec_zeros;
use crate::geometry::{page_pos, page_stride, page_count, page_header_bytes};
use vstd::math::min;

verus! {

#[derive(Debug, Clone, Copy, PartialEq, Eq, Hash, Structural)]
/// A thin handle on one page: just its number.  Every operation takes
/// the worker that owns the store.
pub struct Page {
    page_number: u32,
}

impl Page {
    /// Handle on page `number`.
    pub fn new(number: u32) -> (r: Self)
        ensures
            r.spec_number() == number,
    {
        Page { page_number: number }
    }

    /// The page number this handle points at.
    pub closed spec fn spec_number(&self) -> u32 {
        self.page_number
    }

    /// The page number this handle points at.
    pub fn number(&self) -> (r: u32)
        ensures
            r == self.spec_number(),
    {
        self.page_number
    }

    /// Whether this page's whole cell lies inside the `u64` address
    /// space under body size `page_size`.
    pub open spec fn spec_fits(&self, page_size: u64) -> bool {
        page_pos(page_size, self.spec_number() + 1) <= u64::MAX
    }

    /// Read this page's header.
    pub fn read_header<T: FilesystemIo>(&self, w: &mut FilesystemWorker<T>) -> (r: PageHeader)
        requires
            old(w).wf(),
            self.spec_fits(old(w).header().page_size),
        ensures
            final(w).wf(),
            final(w).disk() == old(w).disk(),
            final(w).header() == old(w).header(),
            r == PageHeader::spec_parse(
                page_header_bytes(
                    old(w).disk(),
                    old(w).header().page_size,
                    self.spec_number() as int,
                ),
            ),
    {
        let response = w.execute(FilesystemTask::ReadPageHeader { page_number: self.page_number });
        match response {
            FilesystemTaskResponse::PageHeader(header) => header,
            _ => {
                proof {
                    assert(false);
                }
                PageHeader::from_bytes(&[0, 0, 0, 0, 0, 0, 0, 0, 0])
            },
        }
    }

    /// Overwrite this page's header.
    pub fn write_header<T: FilesystemIo>(&self, w: &mut FilesystemWorker<T>, header: PageHeader)
        requires
            old(w).wf(),
            self.spec_fits(old(w).header().page_size),
        ensures
            final(w).wf(),
            final(w).header() == old(w).header(),
            final(w).disk() == crate::blob::write_model(
                old(w).disk(),
                page_pos(old(w).header().page_size, self.spec_number() as int),
                header.spec_bytes(),
            ),
    {
        w.execute(
            FilesystemTask::WritePageHeader { page_number: self.page_number, header },
        );
    }

    /// Read from this page's body: at most `page_size - offset` bytes,
    /// and none when `offset` is past the body.
    pub fn read<T: FilesystemIo>(&self, w: &mut FilesystemWorker<T>, offset: u64, length: u64) -> (r:
        Vec<u8>)
        requires
            old(w).wf(),
            self.spec_fits(old(w).header().page_size),
            offset < old(w).header().page_size ==> min(
                length as int,
                old(w).header().page_size - offset,
            ) <= usize::MAX,
        ensures
            final(w).wf(),
            final(w).disk() == old(w).disk(),
            final(w).header() == old(w).header(),
            r@ == spec_read_page_result(
                old(w).disk(),
                old(w).header().page_size,
                self.spec_number() as int,
                offset,
                length,
            ),
    {
        let response = w.execute(
            FilesystemTask::ReadPage { page_number: self.page_number, offset, length },
        );
        match response {
            FilesystemTaskResponse::Bytes(bytes) => bytes,
            _ => {
                proof {
                    assert(false);
                }
                Vec::new()
            },
        }
    }

    /// Write into this page's body, returning the bytes that did not
    /// fit before the body's end (all of them when `offset` is past it).
    pub fn write<T: FilesystemIo>(&self, w: &mut FilesystemWorker<T>, offset: u64, bytes: Vec<u8>) -> (r:
        Vec<u8>)
        requires
            old(w).wf(),
            self.spec_fits(old(w).header().page_size),
        ensures
            final(w).wf(),
            final(w).header() == old(w).header(),
            final(w).disk() == spec_write_page_disk(
                old(w).disk(),
                old(w).header().page_size,
                self.spec_number() as int,
                offset,
                bytes@,
            ),
            r@ == spec_write_page_tail(old(w).header().page_size, offset, bytes@),
    {
        let response = w.execute(
            FilesystemTask::WritePage { page_number: self.page_number, offset, bytes },
        );
        match response {
            FilesystemTaskResponse::Tail(tail) => tail,
            _ => {
                proof {
                    assert(false);
                }
                Vec::new()
            },
        }
    }

    /// The next page in the chain, if this page has a forward link.
    pub fn read_next_page<T: FilesystemIo>(&self, w: &mut FilesystemWorker<T>) -> (r: Option<Page>)
        requires
            old(w).wf(),
            self.spec_fits(old(w).header().page_size),
        ensures
            final(w).wf(),
            final(w).disk() == old(w).disk(),
            final(w).header() == old(w).header(),
            ({
                let h = PageHeader::spec_parse(
                    page_header_bytes(
                        old(w).disk(),
                        old(w).header().page_size,
                        self.spec_number() as int,
                    ),
                );
                match r {
                    Some(page) => h.has_next && page.spec_number() == h.next_page_number,
                    None => !h.has_next,
                }
            }),
    {
        let header = self.read_header(w);
        if !header.has_next {
            return None;
        }
        Some(Page { page_number: header.next_page_number })
    }

    /// The previous page in the chain, if this page has a back link.
    pub fn read_prev_page<T: FilesystemIo>(&self, w: &mut FilesystemWorker<T>) -> (r: Option<Page>)
        requires
            old(w).wf(),
            self.spec_fits(old(w).header().page_size),
        ensures
            final(w).wf(),
            final(w).disk() == old(w).disk(),
            final(w).header() == old(w).header(),
            ({
                let h = PageHeader::spec_parse(
                    page_header_bytes(
                        old(w).disk(),
                        old(w).header().page_size,
                        self.spec_number() as int,
                    ),
                );
                match r {
                    Some(page) => h.has_prev && page.spec_number() == h.prev_page_number,
                    None => !h.has_prev,
                }
            }),
    {
        let header = self.read_header(w);
        if !header.has_prev {
            return None;
        }
        Some(Page { page_number: header.prev_page_number })
    }

    /// The next page in the chain, created and linked in first if this
    /// page has none yet.
    pub fn create_next_page<T: FilesystemIo>(&self, w: &mut FilesystemWorker<T>) -> (r: Page)
        requires
            old(w).wf(),
            self.spec_fits(old(w).header().page_size),
            !PageHeader::spec_parse(
                page_header_bytes(
                    old(w).disk(),
                    old(w).header().page_size,
                    self.spec_number() as int,
                ),
            ).has_next ==> {
                &&& old(w).header().page_size <= usize::MAX
                &&& crate::geometry::FS_HEADER_LEN <= old(w).disk().len()
                &&& old(w).disk().len() + page_stride(old(w).header().page_size) <= u64::MAX
                &&& page_count(old(w).disk().len() as int, old(w).header().page_size) <= u32::MAX
            },
        ensures
            final(w).wf(),
            final(w).header() == old(w).header(),
            ({
                let ps = old(w).header().page_size;
                let n = self.spec_number() as int;
                let h = PageHeader::spec_parse(page_header_bytes(old(w).disk(), ps, n));
                if h.has_next {
                    final(w).disk() == old(w).disk() && r.spec_number() == h.next_page_number
                } else {
                    let fresh = page_count(old(w).disk().len() as int, ps);
                    let grown = old(w).disk() + spec_new_page_header(
                        Some(self.spec_number()),
                    ).spec_bytes() + spec_zeros(ps as nat);
                    &&& r.spec_number() == fresh
                    &&& final(w).disk() == crate::blob::write_model(
                        grown,
                        page_pos(ps, n),
                        spec_linked_header(grown, ps, n, fresh as u32).spec_bytes(),
                    )
                }
            }),
    {
        if let Some(page) = self.read_next_page(w) {
            return page;
        }
        let response = w.execute(
            FilesystemTask::CreatePage { parent_page_number: Some(self.page_number) },
        );
        let page = match response {
            FilesystemTaskResponse::PageCreated(number) => Page { page_number: number },
            _ => {
                proof {
                    assert(false);
                }
                Page { page_number: 0 }
            },
        };
        w.execute(
            FilesystemTask::LinkPageForward {
                page_number: self.page_number,
                next_page_number: page.page_number,
            },
        );
        page
    }
}


impl Page {
    /// Open this page as a book, fetching the store's page size from
    /// the filesystem header.
    pub fn into_book<T: FilesystemIo>(self, w: &mut FilesystemWorker<T>) -> (r: crate::pages::book::Book)
        requires
            old(w).wf(),
        ensures
            final(w).wf(),
            final(w).disk() == old(w).disk(),
            final(w).header() == old(w).header(),
            r.spec_entry() == self.spec_number(),
            r.spec_page_size() == old(w).header().page_size,
    {
        let response = w.execute(FilesystemTask::ReadFilesystemHeader);
        let header = match response {
            FilesystemTaskResponse::Header(header) => header,
            _ => {
                proof {
                    assert(false);
                }
                crate::filesystem::header::FilesystemHeader::default()
            },
        };
        crate::pages::book::Book::open(self, header.page_size)
    }
}

} // verus!
